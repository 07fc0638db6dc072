use vstd::prelude::*;
use vstd::string::StringExecFns;
use crate::data_model::{digit_char, Board, Player, Walls, WallOrientation, PIECE_GRID_HEIGHT, PIECE_GRID_WIDTH};

verus! {

/// A wall of orientation `o` stands in the slot `(x, y)` of the grid.
pub open spec fn has_wall(walls: Walls, o: WallOrientation, x: int, y: int) -> bool {
    walls.spec_wall_at(o, x, y)
}

/// The character between the squares `x` and `x + 1` of row `y`: a vertical
/// line where a vertical wall runs beside the square.
pub open spec fn vertical_char(b: Board, x: int, y: int) -> char {
    if has_wall(b.walls, WallOrientation::Vertical, x, y - 1) || has_wall(b.walls, WallOrientation::Vertical, x, y) {
        '│'
    } else {
        ' '
    }
}

/// The letter of the piece on `(x, y)`, white first.
pub open spec fn piece_char(b: Board, x: int, y: int) -> char {
    if b.pos(Player::White).x == x && b.pos(Player::White).y == y {
        'W'
    } else if b.pos(Player::Black).x == x && b.pos(Player::Black).y == y {
        'B'
    } else {
        ' '
    }
}

pub open spec fn top_cell(b: Board, x: int, y: int) -> Seq<char> {
    seq!['┌', '─', '─', '─', '┐', ' ', vertical_char(b, x, y), ' ']
}

pub open spec fn middle_cell(b: Board, x: int, y: int) -> Seq<char> {
    seq!['│', ' ', piece_char(b, x, y), ' ', '│', ' ', vertical_char(b, x, y), ' ']
}

pub open spec fn bottom_cell(b: Board, x: int, y: int) -> Seq<char> {
    seq!['└', '─', '─', '─', '┘', ' ', vertical_char(b, x, y), ' ']
}

/// The piece of the line below row `y` under square `x`: a horizontal wall, or
/// the coordinates of the wall slot split by a vertical wall's line.
pub open spec fn wall_cell(b: Board, x: int, y: int) -> Seq<char> {
    let vertical = has_wall(b.walls, WallOrientation::Vertical, x, y);
    let vc = if vertical { '│' } else { ' ' };
    let indices = x < 8 && !vertical;
    let xs = if indices { digit_char(x as nat) } else { ' ' };
    let ys = if indices { digit_char(y as nat) } else { ' ' };
    if has_wall(b.walls, WallOrientation::Horizontal, x, y) {
        seq!['─', '─', '─', '─', '─', '─', '─', '─']
    } else if has_wall(b.walls, WallOrientation::Horizontal, x - 1, y) {
        seq!['─', '─', '─', '─', '─', xs, vc, ys]
    } else {
        seq![' ', ' ', ' ', ' ', ' ', xs, vc, ys]
    }
}

/// The cells `0..n` of one line of row `y`; `kind` 0 to 3 picks the top,
/// middle, bottom or wall line.
pub open spec fn line(b: Board, y: int, kind: int, n: int) -> Seq<char>
    decreases n,
{
    if n <= 0 {
        Seq::empty()
    } else {
        line(b, y, kind, n - 1) + if kind == 0 {
            top_cell(b, n - 1, y)
        } else if kind == 1 {
            middle_cell(b, n - 1, y)
        } else if kind == 2 {
            bottom_cell(b, n - 1, y)
        } else {
            wall_cell(b, n - 1, y)
        }
    }
}

/// The first `k` lines of row `y`, separated by line breaks: the tops, middles
/// and bottoms of the squares, then, below all but the last row, the line of
/// horizontal walls.
pub open spec fn lines_upto(b: Board, y: int, k: int) -> Seq<char>
    decreases k,
{
    if k <= 0 {
        Seq::empty()
    } else if k == 4 && y >= 8 {
        lines_upto(b, y, 3)
    } else {
        lines_upto(b, y, k - 1) + (if k > 1 { seq!['\n'] } else { Seq::empty() }) + line(b, y, k - 1, 9)
    }
}

/// Row `y` of the picture, after a line break unless it is the first.
pub open spec fn row(b: Board, y: int) -> Seq<char> {
    (if y > 0 { seq!['\n'] } else { Seq::empty() }) + lines_upto(b, y, 4)
}

/// The rows `0..n` of the picture.
pub open spec fn rows(b: Board, n: int) -> Seq<char>
    decreases n,
{
    if n <= 0 {
        Seq::empty()
    } else {
        rows(b, n - 1) + row(b, n - 1)
    }
}

fn char_str(c: char) -> (s: &'static str)
    requires
        c == '│' || c == ' ' || c == 'W' || c == 'B',
    ensures
        s@ == seq![c],
{
    if c == '│' {
        proof { reveal_strlit("│"); }
        "│"
    } else if c == 'W' {
        proof { reveal_strlit("W"); }
        "W"
    } else if c == 'B' {
        proof { reveal_strlit("B"); }
        "B"
    } else {
        proof { reveal_strlit(" "); }
        " "
    }
}

fn digit_str(d: usize) -> (s: &'static str)
    requires
        d < 10,
    ensures
        s@ == seq![digit_char(d as nat)],
{
    if d == 0 {
        proof { reveal_strlit("0"); }
        "0"
    } else if d == 1 {
        proof { reveal_strlit("1"); }
        "1"
    } else if d == 2 {
        proof { reveal_strlit("2"); }
        "2"
    } else if d == 3 {
        proof { reveal_strlit("3"); }
        "3"
    } else if d == 4 {
        proof { reveal_strlit("4"); }
        "4"
    } else if d == 5 {
        proof { reveal_strlit("5"); }
        "5"
    } else if d == 6 {
        proof { reveal_strlit("6"); }
        "6"
    } else if d == 7 {
        proof { reveal_strlit("7"); }
        "7"
    } else if d == 8 {
        proof { reveal_strlit("8"); }
        "8"
    } else {
        proof { reveal_strlit("9"); }
        "9"
    }
}

fn vertical_at(board: &Board, x: usize, y: usize) -> (c: char)
    requires
        x < 9,
        y < 9,
    ensures
        c == vertical_char(*board, x as int, y as int),
{
    let above = y > 0 && board.walls.wall_at(WallOrientation::Vertical, x as isize, y as isize - 1);
    let below = board.walls.wall_at(WallOrientation::Vertical, x as isize, y as isize);
    if above || below {
        '│'
    } else {
        ' '
    }
}

fn cell(board: &Board, x: usize, y: usize, kind: usize) -> (s: String)
    requires
        x < 9,
        y < 9,
        kind < 4,
    ensures
        s@ == (if kind == 0 {
            top_cell(*board, x as int, y as int)
        } else if kind == 1 {
            middle_cell(*board, x as int, y as int)
        } else if kind == 2 {
            bottom_cell(*board, x as int, y as int)
        } else {
            wall_cell(*board, x as int, y as int)
        }),
{
    proof {
        reveal_strlit("┌───┐ ");
        reveal_strlit("└───┘ ");
        reveal_strlit("│ ");
        reveal_strlit(" │ ");
        reveal_strlit(" ");
        reveal_strlit("────────");
        reveal_strlit("─────");
        reveal_strlit("     ");
    }
    if kind < 3 {
        let vc = vertical_at(board, x, y);
        let s = if kind == 0 {
            String::from_str("┌───┐ ")
        } else if kind == 1 {
            let white = board.player_position(Player::White);
            let black = board.player_position(Player::Black);
            let pc = if white.x == x && white.y == y {
                'W'
            } else if black.x == x && black.y == y {
                'B'
            } else {
                ' '
            };
            String::from_str("│ ").concat(char_str(pc)).concat(" │ ")
        } else {
            String::from_str("└───┘ ")
        };
        s.concat(char_str(vc)).concat(" ")
    } else {
        let vertical = board.walls.wall_at(WallOrientation::Vertical, x as isize, y as isize);
        let vc = if vertical { '│' } else { ' ' };
        let indices = x < 8 && !vertical;
        let xs = if indices { digit_str(x) } else { char_str(' ') };
        let ys = if indices { digit_str(y) } else { char_str(' ') };
        if board.walls.wall_at(WallOrientation::Horizontal, x as isize, y as isize) {
            String::from_str("────────")
        } else if board.walls.wall_at(WallOrientation::Horizontal, x as isize - 1, y as isize) {
            String::from_str("─────").concat(xs).concat(char_str(vc)).concat(ys)
        } else {
            String::from_str("     ").concat(xs).concat(char_str(vc)).concat(ys)
        }
    }
}

/// A picture of the board in box-drawing characters: for each row the tops,
/// middles (with `W` and `B` for the pieces) and bottoms of the squares with
/// vertical walls between them, and below each row but the last the
/// horizontal walls and the coordinates of the free wall slots.
pub fn render_board(board: &Board) -> (s: String)
    ensures
        s@ == rows(*board, 9),
{
    proof {
        reveal_strlit("\n");
    }
    let mut output = String::new();
    let mut y: usize = 0;
    while y < PIECE_GRID_HEIGHT
        invariant
            y <= 9,
            output@ == rows(*board, y as int),
            "\n"@ == seq!['\n'],
        decreases 9 - y,
    {
        let ghost before = output@;
        if y > 0 {
            output = output.concat("\n");
        }
        let mut kind: usize = 0;
        while kind < 4
            invariant
                y < 9,
                kind <= 4,
                "\n"@ == seq!['\n'],
                output@ == before + (if y > 0 { seq!['\n'] } else { Seq::<char>::empty() }) + lines_upto(*board, y as int, kind as int),
            decreases 4 - kind,
        {
            if kind == 3 && y == PIECE_GRID_HEIGHT - 1 {
                kind += 1;
                continue;
            }
            if kind > 0 {
                output = output.concat("\n");
            }
            let mut x: usize = 0;
            let ghost at_line = output@;
            while x < PIECE_GRID_WIDTH
                invariant
                    y < 9,
                    kind < 4,
                    x <= 9,
                    output@ == at_line + line(*board, y as int, kind as int, x as int),
                decreases 9 - x,
            {
                let c = cell(board, x, y, kind);
                output = output.concat(c.as_str());
                x += 1;
            }
            kind += 1;
        }
        y += 1;
    }
    output
}


/// The cell `x` of line `kind` of row `y`.
pub open spec fn cell_of(b: Board, y: int, kind: int, x: int) -> Seq<char> {
    if kind == 0 {
        top_cell(b, x, y)
    } else if kind == 1 {
        middle_cell(b, x, y)
    } else if kind == 2 {
        bottom_cell(b, x, y)
    } else {
        wall_cell(b, x, y)
    }
}

proof fn lemma_line_index(b: Board, y: int, kind: int, n: int)
    requires
        0 <= n,
    ensures
        line(b, y, kind, n).len() == 8 * n,
        forall|i: int, j: int| 0 <= i < n && 0 <= j < 8 ==> #[trigger] line(b, y, kind, n)[8 * i + j] == cell_of(b, y, kind, i)[j],
    decreases n,
{
    if n > 0 {
        lemma_line_index(b, y, kind, n - 1);
        let prev = line(b, y, kind, n - 1);
        let all = line(b, y, kind, n);
        assert(cell_of(b, y, kind, n - 1).len() == 8);
        assert(all == prev + cell_of(b, y, kind, n - 1));
        assert forall|i: int, j: int| 0 <= i < n && 0 <= j < 8 implies #[trigger] all[8 * i + j] == cell_of(b, y, kind, i)[j] by {
            if i < n - 1 {
                assert(all[8 * i + j] == prev[8 * i + j]);
            } else {
                assert(all[8 * i + j] == cell_of(b, y, kind, n - 1)[j]);
            }
        }
    }
}

proof fn lemma_lines_index(b: Board, y: int, k: int)
    requires
        1 <= k <= 4,
        k == 4 ==> y < 8,
    ensures
        lines_upto(b, y, k).len() == 73 * k - 1,
        forall|j: int, t: int| 0 <= j < k && 0 <= t < 72 ==> #[trigger] lines_upto(b, y, k)[73 * j + t] == line(b, y, j, 9)[t],
    decreases k,
{
    lemma_line_index(b, y, k - 1, 9);
    let cur = lines_upto(b, y, k);
    if k == 1 {
        assert(lines_upto(b, y, 0).len() == 0);
        assert(cur =~= line(b, y, 0, 9));
    } else {
        lemma_lines_index(b, y, k - 1);
        let prev = lines_upto(b, y, k - 1);
        assert(cur == prev + seq!['\n'] + line(b, y, k - 1, 9));
        assert forall|j: int, t: int| 0 <= j < k && 0 <= t < 72 implies #[trigger] cur[73 * j + t] == line(b, y, j, 9)[t] by {
            if j < k - 1 {
                assert(cur[73 * j + t] == prev[73 * j + t]);
            } else {
                assert(cur[73 * j + t] == line(b, y, k - 1, 9)[t]);
            }
        }
    }
}

/// The lines of row `y` of the picture, without the line break before it.
pub open spec fn row_lines(b: Board, y: int) -> Seq<char> {
    lines_upto(b, y, 4)
}

proof fn lemma_rows_index(b: Board, n: int)
    requires
        1 <= n <= 9,
    ensures
        n <= 8 ==> rows(b, n).len() == 292 * n - 1,
        forall|y: int, t: int| 0 <= y < n && 0 <= t < 291 && (y == 8 ==> t < 218) ==> #[trigger] rows(b, n)[292 * y + t] == row_lines(b, y)[t],
    decreases n,
{
    let cur = rows(b, n);
    let y0 = n - 1;
    if y0 < 8 {
        lemma_lines_index(b, y0, 4);
    } else {
        lemma_lines_index(b, y0, 3);
    }
    assert(row_lines(b, y0).len() >= 218);
    assert(y0 < 8 ==> row_lines(b, y0).len() == 291);
    if n == 1 {
        assert(rows(b, 0).len() == 0);
        assert(cur =~= row_lines(b, 0));
    } else {
        lemma_rows_index(b, n - 1);
        let prev = rows(b, n - 1);
        assert(cur == prev + (seq!['\n'] + row_lines(b, y0)));
        assert forall|y: int, t: int| 0 <= y < n && 0 <= t < 291 && (y == 8 ==> t < 218) implies #[trigger] cur[292 * y + t] == row_lines(b, y)[t] by {
            if y < n - 1 {
                assert(cur[292 * y + t] == prev[292 * y + t]);
            } else {
                assert(cur[292 * y + t] == row_lines(b, y0)[t]);
            }
        }
    }
}

/// Where the picture of `render_board` shows the line between squares `x` and
/// `x + 1` of row `r`, in its top (`kind` 0), middle (1) or bottom (2) line.
pub open spec fn between_index(x: int, r: int, kind: int) -> int {
    292 * r + 73 * kind + 8 * x + 6
}

/// In the picture, the place between squares `x` and `x + 1` of a row holds a
/// wall mark exactly where a vertical wall runs beside the square, whose slot
/// is that of the row or of the row above: so every vertical wall is drawn
/// on both rows it spans, in all three lines of each.
pub proof fn lemma_vertical_walls_drawn(b: Board, x: int, r: int, kind: int)
    requires
        0 <= x < 9,
        0 <= r < 9,
        0 <= kind < 3,
    ensures
        rows(b, 9)[between_index(x, r, kind)] == (if (0 <= x < 8 && 0 <= r < 8 && b.walls.slot(x, r) == Some(
            WallOrientation::Vertical,
        )) || (0 <= x < 8 && 1 <= r <= 8 && b.walls.slot(x, r - 1) == Some(WallOrientation::Vertical)) {
            '│'
        } else {
            ' '
        }),
{
    lemma_rows_index(b, 9);
    assert(rows(b, 9)[292 * r + (73 * kind + 8 * x + 6)] == row_lines(b, r)[73 * kind + 8 * x + 6]);
    if r < 8 {
        lemma_lines_index(b, r, 4);
    } else {
        lemma_lines_index(b, r, 3);
    }
    assert(row_lines(b, r)[73 * kind + (8 * x + 6)] == line(b, r, kind, 9)[8 * x + 6]);
    lemma_line_index(b, r, kind, 9);
    assert(line(b, r, kind, 9)[8 * x + 6] == cell_of(b, r, kind, x)[6]);
}


/// Where the picture shows the character `j` of the cell of square `x` in line
/// `kind` of row `r`.
pub open spec fn picture_index(x: int, r: int, kind: int, j: int) -> int {
    292 * r + 73 * kind + 8 * x + j
}

proof fn lemma_picture_char(b: Board, x: int, r: int, kind: int, j: int)
    requires
        0 <= x < 9,
        0 <= r < 9,
        0 <= kind < 4,
        kind == 3 ==> r < 8,
        0 <= j < 8,
    ensures
        rows(b, 9)[picture_index(x, r, kind, j)] == cell_of(b, r, kind, x)[j],
{
    lemma_rows_index(b, 9);
    assert(rows(b, 9)[292 * r + (73 * kind + 8 * x + j)] == row_lines(b, r)[73 * kind + 8 * x + j]);
    if r < 8 {
        lemma_lines_index(b, r, 4);
    } else {
        lemma_lines_index(b, r, 3);
    }
    assert(row_lines(b, r)[73 * kind + (8 * x + j)] == line(b, r, kind, 9)[8 * x + j]);
    lemma_line_index(b, r, kind, 9);
}

/// The middle line of each square shows `W` where the white piece stands, `B`
/// where the black piece stands, and a blank elsewhere.
pub proof fn lemma_pieces_drawn(b: Board, x: int, y: int)
    requires
        0 <= x < 9,
        0 <= y < 9,
    ensures
        rows(b, 9)[picture_index(x, y, 1, 2)] == (if b.pos(Player::White).x == x && b.pos(Player::White).y == y {
            'W'
        } else if b.pos(Player::Black).x == x && b.pos(Player::Black).y == y {
            'B'
        } else {
            ' '
        }),
{
    lemma_picture_char(b, x, y, 1, 2);
}

/// A horizontal wall at slot `(x, y)` is drawn under row `y` as a line across
/// the cell of square `x` and the first five characters of the cell of square
/// `x + 1`.
pub proof fn lemma_horizontal_walls_drawn(b: Board, x: int, y: int, j: int)
    requires
        0 <= x < 8,
        0 <= y < 8,
        b.walls.slot(x, y) == Some(WallOrientation::Horizontal),
    ensures
        0 <= j < 8 ==> rows(b, 9)[picture_index(x, y, 3, j)] == '─',
        0 <= j < 5 ==> rows(b, 9)[picture_index(x + 1, y, 3, j)] == '─',
{
    if 0 <= j < 8 {
        lemma_picture_char(b, x, y, 3, j);
    }
    if 0 <= j < 5 {
        lemma_picture_char(b, x + 1, y, 3, j);
    }
}

} // verus!
