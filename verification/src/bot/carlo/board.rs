use vstd::prelude::*;
use crate::bot::carlo::bfs::{
    crosses_wall, dir_ok, dir_reaches, entry, goal_within, lemma_dir_reaches_same, lemma_marked_way_goal, sq_on_board, ways_open,
    ways_open_but, Bfs, PathBlock,
};
use crate::data_model::{
    Direction, Game, Player, Walls, WallOrientation, PIECE_GRID_HEIGHT, PIECE_GRID_WIDTH, WALL_GRID_HEIGHT,
    WALL_GRID_WIDTH,
};
use crate::data_model::{MovePiece, PiecePosition, PlayerMove, WallPosition};
use crate::game_logic::{
    can_execute, execute_move_unchecked, spec_direction_legal, spec_executed, spec_piece_legal, spec_position_after_direction,
    spec_position_after_move, spec_room_for_wall,
};

verus! {

/// A step on the board: a direction and its unit offset.
#[derive(Debug, Clone, Copy, PartialEq, Eq, Structural)]
pub enum Dir {
    Left,
    Right,
    Up,
    Down,
}

pub open spec fn spec_reverse(d: Dir) -> Dir {
    match d {
        Dir::Left => Dir::Right,
        Dir::Right => Dir::Left,
        Dir::Up => Dir::Down,
        Dir::Down => Dir::Up,
    }
}

pub open spec fn spec_delta(d: Dir) -> (int, int) {
    match d {
        Dir::Left => (-1, 0),
        Dir::Right => (1, 0),
        Dir::Up => (0, -1),
        Dir::Down => (0, 1),
    }
}

/// One of the four unit steps `(dx, dy)`.
pub open spec fn is_unit_step(dx: int, dy: int) -> bool {
    (dx == 0 && (dy == 1 || dy == -1)) || (dy == 0 && (dx == 1 || dx == -1))
}

/// The direction of a unit step: a horizontal component decides first.
pub open spec fn spec_dir_of(dx: int, dy: int) -> Dir {
    if dx == -1 {
        Dir::Left
    } else if dx == 1 {
        Dir::Right
    } else if dy == -1 {
        Dir::Up
    } else {
        Dir::Down
    }
}

impl Dir {
    pub fn reverse(&self) -> (r: Dir)
        ensures
            r == spec_reverse(*self),
    {
        match self {
            Dir::Left => Dir::Right,
            Dir::Right => Dir::Left,
            Dir::Up => Dir::Down,
            Dir::Down => Dir::Up,
        }
    }

    pub fn delta(&self) -> (r: (isize, isize))
        ensures
            r.0 == spec_delta(*self).0,
            r.1 == spec_delta(*self).1,
    {
        match self {
            Dir::Left => (-1, 0),
            Dir::Right => (1, 0),
            Dir::Up => (0, -1),
            Dir::Down => (0, 1),
        }
    }

    /// The direction of the unit step `(dx, dy)`.
    pub fn from_delta(dxdy: (i8, i8)) -> (d: Dir)
        requires
            is_unit_step(dxdy.0 as int, dxdy.1 as int),
        ensures
            d == spec_dir_of(dxdy.0 as int, dxdy.1 as int),
            spec_delta(d) == (dxdy.0 as int, dxdy.1 as int),
    {
        if dxdy.0 == -1 {
            Dir::Left
        } else if dxdy.0 == 1 {
            Dir::Right
        } else if dxdy.1 == -1 {
            Dir::Up
        } else {
            Dir::Down
        }
    }

    /// The same direction as a piece move's.
    pub fn to_direction(self) -> (d: Direction)
        ensures
            d == spec_to_direction(self),
            d.dx() == spec_delta(self).0,
            d.dy() == spec_delta(self).1,
    {
        match self {
            Dir::Left => Direction::Left,
            Dir::Right => Direction::Right,
            Dir::Up => Direction::Up,
            Dir::Down => Direction::Down,
        }
    }
}

/// The piece move direction of `d`.
pub open spec fn spec_to_direction(d: Dir) -> Direction {
    match d {
        Dir::Left => Direction::Left,
        Dir::Right => Direction::Right,
        Dir::Up => Direction::Up,
        Dir::Down => Direction::Down,
    }
}

/// Turning back twice is going on: reversing a direction is its own inverse,
/// and the reverse step undoes the step.
pub proof fn lemma_reverse_involution(d: Dir)
    ensures
        spec_reverse(spec_reverse(d)) == d,
        spec_delta(spec_reverse(d)).0 == -spec_delta(d).0,
        spec_delta(spec_reverse(d)).1 == -spec_delta(d).1,
{
}

pub open spec fn spec_outside_board(x: int, y: int) -> bool {
    x < 0 || x >= PIECE_GRID_WIDTH || y < 0 || y >= PIECE_GRID_HEIGHT
}

pub fn outside_board(x: i8, y: i8) -> (r: bool)
    ensures
        r == spec_outside_board(x as int, y as int),
{
    x < 0 || x >= PIECE_GRID_WIDTH as i8 || y < 0 || y >= PIECE_GRID_HEIGHT as i8
}

/// The four unit steps in the order they are tried: left, up, right, down.
pub open spec fn unit_steps() -> Seq<(int, int)> {
    seq![(-1, 0), (0, -1), (1, 0), (0, 1)]
}

/// The first `n` unit steps from `(x, y)` that stay on the board.
pub open spec fn steps_on_board(x: int, y: int, n: int) -> Seq<(int, int)>
    decreases n,
{
    if n <= 0 {
        Seq::empty()
    } else {
        let s = unit_steps()[n - 1];
        steps_on_board(x, y, n - 1) + if spec_outside_board(x + s.0, y + s.1) {
            Seq::empty()
        } else {
            seq![s]
        }
    }
}

/// Each step of `steps_on_board` is a unit step that stays on the board.
pub proof fn lemma_steps_on_board(x: int, y: int, n: int)
    requires
        0 <= n <= 4,
    ensures
        steps_on_board(x, y, n).len() <= n,
        forall|k: int| 0 <= k < steps_on_board(x, y, n).len() ==> {
            let s = #[trigger] steps_on_board(x, y, n)[k];
            &&& is_unit_step(s.0, s.1)
            &&& !spec_outside_board(x + s.0, y + s.1)
        },
    decreases n,
{
    if n > 0 {
        lemma_steps_on_board(x, y, n - 1);
        let prev = steps_on_board(x, y, n - 1);
        let all = steps_on_board(x, y, n);
        assert forall|k: int| 0 <= k < all.len() implies {
            let s = #[trigger] all[k];
            &&& is_unit_step(s.0, s.1)
            &&& !spec_outside_board(x + s.0, y + s.1)
        } by {
            if k < prev.len() {
                assert(all[k] == prev[k]);
            }
        }
    }
}

/// The first `n` unit steps from `(x, y)` that stay on the board and cross no wall.
pub open spec fn open_steps(walls: Walls, x: int, y: int, n: int) -> Seq<(int, int)>
    decreases n,
{
    if n <= 0 {
        Seq::empty()
    } else {
        let s = unit_steps()[n - 1];
        open_steps(walls, x, y, n - 1) + if spec_outside_board(x + s.0, y + s.1) || spec_wall_blocks(
            walls,
            x,
            y,
            s.0,
            s.1,
        ) {
            Seq::empty()
        } else {
            seq![s]
        }
    }
}

/// Each step of `open_steps` is a unit step that stays on the board and
/// crosses no wall.
pub proof fn lemma_open_steps(walls: Walls, x: int, y: int, n: int)
    requires
        0 <= n <= 4,
    ensures
        forall|k: int| 0 <= k < open_steps(walls, x, y, n).len() ==> {
            let s = #[trigger] open_steps(walls, x, y, n)[k];
            &&& is_unit_step(s.0, s.1)
            &&& !spec_outside_board(x + s.0, y + s.1)
            &&& !spec_wall_blocks(walls, x, y, s.0, s.1)
        },
    decreases n,
{
    if n > 0 {
        lemma_open_steps(walls, x, y, n - 1);
        let prev = open_steps(walls, x, y, n - 1);
        let all = open_steps(walls, x, y, n);
        assert forall|k: int| 0 <= k < all.len() implies {
            let s = #[trigger] all[k];
            &&& is_unit_step(s.0, s.1)
            &&& !spec_outside_board(x + s.0, y + s.1)
            &&& !spec_wall_blocks(walls, x, y, s.0, s.1)
        } by {
            if k < prev.len() {
                assert(all[k] == prev[k]);
            }
        }
    }
}

/// Coordinates that a unit step cannot take out of the range of `i8`.
pub open spec fn steppable(x: int, y: int) -> bool {
    -127 <= x <= 126 && -127 <= y <= 126
}

fn unit_step(k: usize) -> (s: (i8, i8))
    requires
        k < 4,
    ensures
        s.0 == unit_steps()[k as int].0,
        s.1 == unit_steps()[k as int].1,
{
    if k == 0 {
        (-1, 0)
    } else if k == 1 {
        (0, -1)
    } else if k == 2 {
        (1, 0)
    } else {
        (0, 1)
    }
}

/// The unit steps from `(x, y)` that stay on the board, in the order left, up,
/// right, down.
pub fn board_neighbors_unchecked(x: i8, y: i8) -> (v: Vec<(i8, i8)>)
    requires
        steppable(x as int, y as int),
    ensures
        v@.len() == steps_on_board(x as int, y as int, 4).len(),
        forall|k: int| 0 <= k < v@.len() ==> (#[trigger] v@[k]).0 == steps_on_board(x as int, y as int, 4)[k].0
            && v@[k].1 == steps_on_board(x as int, y as int, 4)[k].1,
{
    let mut v: Vec<(i8, i8)> = Vec::new();
    let mut k: usize = 0;
    while k < 4
        invariant
            steppable(x as int, y as int),
            k <= 4,
            v@.len() == steps_on_board(x as int, y as int, k as int).len(),
            forall|j: int| 0 <= j < v@.len() ==> (#[trigger] v@[j]).0 == steps_on_board(x as int, y as int, k as int)[j].0
                && v@[j].1 == steps_on_board(x as int, y as int, k as int)[j].1,
        decreases 4 - k,
    {
        let (dx, dy) = unit_step(k);
        if !outside_board(x + dx, y + dy) {
            v.push((dx, dy));
        }
        k += 1;
    }
    v
}

/// The unit steps from `(x, y)` that stay on the board and cross no wall of `game`.
pub fn board_neighbors(game: &Game, x: i8, y: i8) -> (v: Vec<(i8, i8)>)
    requires
        steppable(x as int, y as int),
    ensures
        v@.len() == open_steps(game.board.walls, x as int, y as int, 4).len(),
        forall|k: int| 0 <= k < v@.len() ==> (#[trigger] v@[k]).0 == open_steps(game.board.walls, x as int, y as int, 4)[k].0
            && v@[k].1 == open_steps(game.board.walls, x as int, y as int, 4)[k].1,
{
    let mut v: Vec<(i8, i8)> = Vec::new();
    let mut k: usize = 0;
    while k < 4
        invariant
            steppable(x as int, y as int),
            k <= 4,
            v@.len() == open_steps(game.board.walls, x as int, y as int, k as int).len(),
            forall|j: int| 0 <= j < v@.len() ==> (#[trigger] v@[j]).0 == open_steps(game.board.walls, x as int, y as int, k as int)[j].0
                && v@[j].1 == open_steps(game.board.walls, x as int, y as int, k as int)[j].1,
        decreases 4 - k,
    {
        let (dx, dy) = unit_step(k);
        if !outside_board(x + dx, y + dy) && !wall_blocks(game, x, y, dx, dy) {
            v.push((dx, dy));
        }
        k += 1;
    }
    v
}

/// A wall crosses the unit step `(dx, dy)` from `(x, y)`: one of the two slots
/// beside the edge crossed holds a wall along it.
pub open spec fn spec_wall_blocks(walls: Walls, x: int, y: int, dx: int, dy: int) -> bool {
    let o = if dx == 0 {
        WallOrientation::Horizontal
    } else {
        WallOrientation::Vertical
    };
    let x0 = x - 1 + if dx == 1 { 1int } else { 0int };
    let x1 = x - if dx == -1 { 1int } else { 0int };
    let y0 = y - 1 + if dy == 1 { 1int } else { 0int };
    let y1 = y - if dy == -1 { 1int } else { 0int };
    walls.spec_wall_at(o, x0, y0) || walls.spec_wall_at(o, x1, y1)
}

pub fn wall_blocks(game: &Game, x: i8, y: i8, dx: i8, dy: i8) -> (r: bool)
    requires
        steppable(x as int, y as int),
        is_unit_step(dx as int, dy as int),
    ensures
        r == spec_wall_blocks(game.board.walls, x as int, y as int, dx as int, dy as int),
{
    let orientation = if dx == 0 {
        WallOrientation::Horizontal
    } else {
        WallOrientation::Vertical
    };
    let x0 = x - 1 + if dx == 1 { 1i8 } else { 0i8 };
    let x1 = x - if dx == -1 { 1i8 } else { 0i8 };
    let y0 = y - 1 + if dy == 1 { 1i8 } else { 0i8 };
    let y1 = y - if dy == -1 { 1i8 } else { 0i8 };
    game.board.walls.wall_at(orientation, x0 as isize, y0 as isize) || game.board.walls.wall_at(
        orientation,
        x1 as isize,
        y1 as isize,
    )
}

/// The distances of both pieces to their goal rows, and the walls each player
/// has left, after a move.
#[derive(Debug, Default, Clone, Copy)]
pub struct BoardStats {
    pub dist: [usize; 2],
    pub walls: [usize; 2],
}

/// A game together with an incremental search for each player and, for each
/// wall slot and orientation, whether a wall may still be placed there.
pub struct Board {
    pub game: Game,
    pub bfs_white: Bfs,
    pub bfs_black: Bfs,
    pub wall_moves: [[[bool; 2]; WALL_GRID_WIDTH]; WALL_GRID_HEIGHT],
}

/// The index of an orientation in the flags of a wall slot.
pub open spec fn orientation_index(o: WallOrientation) -> int {
    match o {
        WallOrientation::Horizontal => 0,
        WallOrientation::Vertical => 1,
    }
}

/// The search of `p` is sound for `game`: well formed, for `p`, with no way
/// across a wall, and keeping the way of the piece of `p` as its square's,
/// marked and leading to the goal row within the distance kept.
pub open spec fn bfs_ok(b: Bfs, game: Game, p: Player) -> bool {
    &&& b.wf()
    &&& b.player == p
    &&& ways_open(b, game.board.walls)
    &&& dir_ok(b, game.board.pos(p))
    &&& dir_reaches(b, game.board.pos(p))
}

/// Placing the wall with centre `(x, y)` and orientation `o` takes away the
/// flag `k` of slot `(i, j)`: both flags of its own slot, and the flag of its
/// orientation in the two slots beside it along it.
pub open spec fn takes_flag(x: int, y: int, o: WallOrientation, i: int, j: int, k: int) -> bool {
    ||| (i == x && j == y)
    ||| (o == WallOrientation::Horizontal && k == 0 && j == y && (i == x - 1 || i == x + 1))
    ||| (o == WallOrientation::Vertical && k == 1 && i == x && (j == y - 1 || j == y + 1))
}

impl Board {
    /// The board is a copy of `other`: the same game, searches in the same
    /// states, and the same walls allowed.
    pub open spec fn copy_of(self, other: Self) -> bool {
        &&& self.game == other.game
        &&& self.bfs_white.same_state(other.bfs_white)
        &&& self.bfs_black.same_state(other.bfs_black)
        &&& self.wall_moves == other.wall_moves
    }

    /// The flag of slot `(x, y)` for orientation `o`.
    pub open spec fn allowed(self, o: WallOrientation, x: int, y: int) -> bool {
        self.wall_moves@[y]@[x]@[orientation_index(o)]
    }

    /// The board is consistent: both pieces on the board, both searches sound
    /// for the game, and a wall allowed exactly where there is room for it.
    pub open spec fn wf(self) -> bool {
        &&& self.game.board.on_board()
        &&& bfs_ok(self.bfs_white, self.game, Player::White)
        &&& bfs_ok(self.bfs_black, self.game, Player::Black)
        &&& forall|x: int, y: int, o: WallOrientation|
            0 <= x < WALL_GRID_WIDTH && 0 <= y < WALL_GRID_HEIGHT ==> #[trigger] self.allowed(o, x, y)
                == spec_room_for_wall(self.game.board.walls, o, x, y)
    }

    /// Records a wall at `(x, y)` with `orientation`: the slot holds it, and the
    /// flags that it takes away are cleared.
    fn place_wall(&mut self, x: usize, y: usize, orientation: WallOrientation)
        requires
            x < WALL_GRID_WIDTH,
            y < WALL_GRID_HEIGHT,
            old(self).allowed(orientation, x as int, y as int),
        ensures
            forall|i: int, j: int|
                0 <= i < WALL_GRID_WIDTH && 0 <= j < WALL_GRID_HEIGHT ==> #[trigger] final(self).game.board.walls.slot(i, j)
                    == if i == x && j == y {
                    Some(orientation)
                } else {
                    old(self).game.board.walls.slot(i, j)
                },
            forall|i: int, j: int, k: int|
                0 <= i < WALL_GRID_WIDTH && 0 <= j < WALL_GRID_HEIGHT && 0 <= k < 2 ==> #[trigger] final(self).wall_moves@[j]@[i]@[k]
                    == (old(self).wall_moves@[j]@[i]@[k] && !takes_flag(x as int, y as int, orientation, i, j, k)),
            final(self).game.player == old(self).game.player,
            final(self).game.walls_left == old(self).game.walls_left,
            final(self).game.board.player_positions == old(self).game.board.player_positions,
            final(self).bfs_white == old(self).bfs_white,
            final(self).bfs_black == old(self).bfs_black,
    {
        self.game.board.walls.set(x, y, Some(orientation));
        let mut row = self.wall_moves[y];
        row[x] = [false, false];
        match orientation {
            WallOrientation::Horizontal => {
                if x > 0 {
                    row[x - 1][0] = false;
                }
                if x < WALL_GRID_WIDTH - 1 {
                    row[x + 1][0] = false;
                }
                self.wall_moves[y] = row;
            },
            WallOrientation::Vertical => {
                self.wall_moves[y] = row;
                if y > 0 {
                    let mut above = self.wall_moves[y - 1];
                    above[x][1] = false;
                    self.wall_moves[y - 1] = above;
                }
                if y < WALL_GRID_HEIGHT - 1 {
                    let mut below = self.wall_moves[y + 1];
                    below[x][1] = false;
                    self.wall_moves[y + 1] = below;
                }
            },
        }
    }
}

/// The slot `(i, j)` as it stands once the slots before `(x0, y0)`, column by
/// column, have been placed.
pub open spec fn placed_upto(walls: Walls, x0: int, y0: int, i: int, j: int) -> Option<WallOrientation> {
    if 0 <= i < WALL_GRID_WIDTH && 0 <= j < WALL_GRID_HEIGHT && (i < x0 || (i == x0 && j < y0)) {
        walls.slot(i, j)
    } else {
        None
    }
}

/// There is room for a wall at `(i, j)` with `o` among the walls placed
/// before `(x0, y0)`.
pub open spec fn room_upto(walls: Walls, x0: int, y0: int, o: WallOrientation, i: int, j: int) -> bool {
    &&& placed_upto(walls, x0, y0, i, j) is None
    &&& match o {
        WallOrientation::Horizontal => placed_upto(walls, x0, y0, i - 1, j) != Some(o) && placed_upto(walls, x0, y0, i + 1, j) != Some(o),
        WallOrientation::Vertical => placed_upto(walls, x0, y0, i, j - 1) != Some(o) && placed_upto(walls, x0, y0, i, j + 1) != Some(o),
    }
}

/// No wall has a wall of its own orientation in a slot beside it along it:
/// the walls of a game played by the rules.
pub open spec fn walls_consistent(walls: Walls) -> bool {
    forall|i: int, j: int|
        0 <= i < WALL_GRID_WIDTH && 0 <= j < WALL_GRID_HEIGHT ==> match #[trigger] walls.slot(i, j) {
            Some(o) => match o {
                WallOrientation::Horizontal => !walls.spec_wall_at(o, i - 1, j) && !walls.spec_wall_at(o, i + 1, j),
                WallOrientation::Vertical => !walls.spec_wall_at(o, i, j - 1) && !walls.spec_wall_at(o, i, j + 1),
            },
            None => true,
        }
}

/// Placing a wall where there was room for it leaves room exactly where there
/// was room before and the new wall takes no flag.
proof fn lemma_room_after_wall(w0: Walls, w1: Walls, x: int, y: int, o: WallOrientation, o2: WallOrientation, i: int, j: int)
    requires
        spec_room_for_wall(w0, o, x, y),
        0 <= i < WALL_GRID_WIDTH,
        0 <= j < WALL_GRID_HEIGHT,
        forall|a: int, b: int|
            0 <= a < WALL_GRID_WIDTH && 0 <= b < WALL_GRID_HEIGHT ==> #[trigger] w1.slot(a, b) == if a == x && b == y {
                Some(o)
            } else {
                w0.slot(a, b)
            },
    ensures
        spec_room_for_wall(w1, o2, i, j) == (spec_room_for_wall(w0, o2, i, j) && !takes_flag(x, y, o, i, j, orientation_index(o2))),
{
    assert(w1.slot(i, j) == if i == x && j == y { Some(o) } else { w0.slot(i, j) });
    if 0 <= i - 1 {
        assert(w1.slot(i - 1, j) == if i - 1 == x && j == y { Some(o) } else { w0.slot(i - 1, j) });
    }
    if i + 1 < WALL_GRID_WIDTH {
        assert(w1.slot(i + 1, j) == if i + 1 == x && j == y { Some(o) } else { w0.slot(i + 1, j) });
    }
    if 0 <= j - 1 {
        assert(w1.slot(i, j - 1) == if i == x && j - 1 == y { Some(o) } else { w0.slot(i, j - 1) });
    }
    if j + 1 < WALL_GRID_HEIGHT {
        assert(w1.slot(i, j + 1) == if i == x && j + 1 == y { Some(o) } else { w0.slot(i, j + 1) });
    }
}

impl Clone for Board {
    fn clone(&self) -> (r: Self)
        ensures
            r.copy_of(*self),
            self.wf() ==> r.wf(),
    {
        let r = Board {
            game: self.game,
            bfs_white: self.bfs_white.clone(),
            bfs_black: self.bfs_black.clone(),
            wall_moves: self.wall_moves,
        };
        proof {
            if self.wf() {
                lemma_same_state_ok(self.bfs_white, r.bfs_white, self.game, Player::White);
                lemma_same_state_ok(self.bfs_black, r.bfs_black, self.game, Player::Black);
                assert forall|x: int, y: int, o: WallOrientation|
                    0 <= x < WALL_GRID_WIDTH && 0 <= y < WALL_GRID_HEIGHT implies #[trigger] r.allowed(o, x, y)
                        == spec_room_for_wall(r.game.board.walls, o, x, y) by {
                    assert(self.allowed(o, x, y) == spec_room_for_wall(self.game.board.walls, o, x, y));
                }
            }
        }
        r
    }
}

/// Two searches in the same state are sound alike.
proof fn lemma_same_state_ok(a: Bfs, b: Bfs, game: Game, p: Player)
    requires
        bfs_ok(a, game, p),
        b.same_state(a),
        b.wf(),
    ensures
        bfs_ok(b, game, p),
{
    assert(forall|x: int, y: int| #[trigger] entry(b, x, y) == entry(a, x, y));
    lemma_dir_reaches_same(a, b, game.board.pos(p));
}

impl Board {
    /// The board of `game`: a search for each player, and every wall of the
    /// game recorded, column by column.
    pub fn from_game(game: &Game) -> (b: Board)
        requires
            game.board.on_board(),
            walls_consistent(game.board.walls),
        ensures
            b.wf(),
            b.game == *game,
    {
        let mut game_white = *game;
        let mut game_black = *game;
        game_white.player = Player::White;
        game_black.player = Player::Black;
        let mut board = Board {
            game: *game,
            bfs_white: Bfs::from_game(&game_white),
            bfs_black: Bfs::from_game(&game_black),
            wall_moves: [[[true, true]; WALL_GRID_WIDTH]; WALL_GRID_HEIGHT],
        };
        let ghost walls = game.board.walls;
        let mut x: usize = 0;
        while x < WALL_GRID_WIDTH
            invariant
                x <= WALL_GRID_WIDTH,
                walls == game.board.walls,
                walls_consistent(walls),
                board.game.player == game.player,
                board.game.walls_left == game.walls_left,
                board.game.board.player_positions == game.board.player_positions,
                forall|i: int, j: int|
                    0 <= i < WALL_GRID_WIDTH && 0 <= j < WALL_GRID_HEIGHT ==> #[trigger] board.game.board.walls.slot(i, j) == walls.slot(i, j),
                bfs_ok(board.bfs_white, *game, Player::White),
                bfs_ok(board.bfs_black, *game, Player::Black),
                forall|i: int, j: int, o: WallOrientation|
                    0 <= i < WALL_GRID_WIDTH && 0 <= j < WALL_GRID_HEIGHT ==> #[trigger] board.allowed(o, i, j)
                        == room_upto(walls, x as int, 0, o, i, j),
            decreases WALL_GRID_WIDTH - x,
        {
            let mut y: usize = 0;
            while y < WALL_GRID_HEIGHT
                invariant
                    x < WALL_GRID_WIDTH,
                    y <= WALL_GRID_HEIGHT,
                    walls == game.board.walls,
                    walls_consistent(walls),
                    board.game.player == game.player,
                    board.game.walls_left == game.walls_left,
                    board.game.board.player_positions == game.board.player_positions,
                    forall|i: int, j: int|
                        0 <= i < WALL_GRID_WIDTH && 0 <= j < WALL_GRID_HEIGHT ==> #[trigger] board.game.board.walls.slot(i, j) == walls.slot(i, j),
                    bfs_ok(board.bfs_white, *game, Player::White),
                    bfs_ok(board.bfs_black, *game, Player::Black),
                    forall|i: int, j: int, o: WallOrientation|
                        0 <= i < WALL_GRID_WIDTH && 0 <= j < WALL_GRID_HEIGHT ==> #[trigger] board.allowed(o, i, j)
                            == room_upto(walls, x as int, y as int, o, i, j),
                decreases WALL_GRID_HEIGHT - y,
            {
                let slot = board.game.board.walls.get(x, y);
                proof {
                    assert(board.game.board.walls.slot(x as int, y as int) == walls.slot(x as int, y as int));
                }
                match slot {
                    Some(orientation) => {
                        proof {
                            assert(walls.slot(x as int, y as int) == Some(orientation));
                            assert(board.allowed(orientation, x as int, y as int) == room_upto(walls, x as int, y as int, orientation, x as int, y as int));
                        }
                        let ghost before = board;
                        board.place_wall(x, y, orientation);
                        proof {
                            assert forall|i: int, j: int|
                                0 <= i < WALL_GRID_WIDTH && 0 <= j < WALL_GRID_HEIGHT implies #[trigger] board.game.board.walls.slot(i, j) == walls.slot(i, j) by {
                                assert(before.game.board.walls.slot(i, j) == walls.slot(i, j));
                            }
                            assert forall|i: int, j: int, o: WallOrientation|
                                0 <= i < WALL_GRID_WIDTH && 0 <= j < WALL_GRID_HEIGHT implies #[trigger] board.allowed(o, i, j)
                                    == room_upto(walls, x as int, y as int + 1, o, i, j) by {
                                assert(before.allowed(o, i, j) == room_upto(walls, x as int, y as int, o, i, j));
                                assert(board.wall_moves@[j]@[i]@[orientation_index(o)] == (before.wall_moves@[j]@[i]@[orientation_index(o)]
                                    && !takes_flag(x as int, y as int, orientation, i, j, orientation_index(o))));
                            }
                        }
                    },
                    None => {
                        proof {
                            assert forall|i: int, j: int, o: WallOrientation|
                                0 <= i < WALL_GRID_WIDTH && 0 <= j < WALL_GRID_HEIGHT implies #[trigger] board.allowed(o, i, j)
                                    == room_upto(walls, x as int, y as int + 1, o, i, j) by {
                                assert(board.allowed(o, i, j) == room_upto(walls, x as int, y as int, o, i, j));
                            }
                        }
                    },
                }
                y += 1;
            }
            proof {
                assert forall|i: int, j: int, o: WallOrientation|
                    0 <= i < WALL_GRID_WIDTH && 0 <= j < WALL_GRID_HEIGHT implies #[trigger] board.allowed(o, i, j)
                        == room_upto(walls, x as int + 1, 0, o, i, j) by {
                    assert(board.allowed(o, i, j) == room_upto(walls, x as int, WALL_GRID_HEIGHT as int, o, i, j));
                }
            }
            x += 1;
        }
        proof {
            assert(board.game.board.walls.0 =~= game.board.walls.0) by {
                assert forall|i: int| 0 <= i < WALL_GRID_WIDTH implies board.game.board.walls.0[i] =~= game.board.walls.0[i] by {
                    assert forall|j: int| 0 <= j < WALL_GRID_HEIGHT implies board.game.board.walls.0[i][j] == game.board.walls.0[i][j] by {
                        assert(board.game.board.walls.slot(i, j) == walls.slot(i, j));
                    }
                }
            }
            assert(board.game == *game);
            assert forall|i: int, j: int, o: WallOrientation|
                0 <= i < WALL_GRID_WIDTH && 0 <= j < WALL_GRID_HEIGHT implies #[trigger] board.allowed(o, i, j)
                    == spec_room_for_wall(board.game.board.walls, o, i, j) by {
                assert(board.allowed(o, i, j) == room_upto(walls, WALL_GRID_WIDTH as int, 0, o, i, j));
            }
        }
        board
    }
}

/// A step that a new wall with centre `(x, y)` and orientation `o` blocks, and
/// no wall blocked before, crosses that wall.
proof fn lemma_blocks_after_wall(w0: Walls, w1: Walls, x: int, y: int, o: WallOrientation, i: int, j: int, d: Dir)
    requires
        forall|a: int, b: int|
            0 <= a < WALL_GRID_WIDTH && 0 <= b < WALL_GRID_HEIGHT ==> #[trigger] w1.slot(a, b) == if a == x && b == y {
                Some(o)
            } else {
                w0.slot(a, b)
            },
        spec_wall_blocks(w1, i, j, spec_delta(d).0, spec_delta(d).1),
        !spec_wall_blocks(w0, i, j, spec_delta(d).0, spec_delta(d).1),
    ensures
        crosses_wall(x, y, o, i, j, d),
{
    let (dx, dy) = spec_delta(d);
    let x0 = i - 1 + if dx == 1 { 1int } else { 0int };
    let x1 = i - if dx == -1 { 1int } else { 0int };
    let y0 = j - 1 + if dy == 1 { 1int } else { 0int };
    let y1 = j - if dy == -1 { 1int } else { 0int };
    if 0 <= x0 < WALL_GRID_WIDTH && 0 <= y0 < WALL_GRID_HEIGHT {
        assert(w1.slot(x0, y0) == if x0 == x && y0 == y { Some(o) } else { w0.slot(x0, y0) });
    }
    if 0 <= x1 < WALL_GRID_WIDTH && 0 <= y1 < WALL_GRID_HEIGHT {
        assert(w1.slot(x1, y1) == if x1 == x && y1 == y { Some(o) } else { w0.slot(x1, y1) });
    }
}


/// The walls `w1` are `w0` with a wall at `(x, y)` with `o` added.
pub open spec fn wall_added(w0: Walls, w1: Walls, x: int, y: int, o: WallOrientation) -> bool {
    forall|a: int, b: int|
        0 <= a < WALL_GRID_WIDTH && 0 <= b < WALL_GRID_HEIGHT ==> #[trigger] w1.slot(a, b) == if a == x && b == y {
            Some(o)
        } else {
            w0.slot(a, b)
        }
}

/// A search whose ways cross no wall of `w0` crosses no wall of `w1` but the
/// new one.
proof fn lemma_open_but_new_wall(b: Bfs, w0: Walls, w1: Walls, x: int, y: int, o: WallOrientation)
    requires
        ways_open(b, w0),
        wall_added(w0, w1, x, y, o),
    ensures
        ways_open_but(b, w1, x, y, o),
{
    assert forall|i: int, j: int| sq_on_board(i, j) implies match #[trigger] entry(b, i, j).0 {
        PathBlock::Dir(d) => spec_wall_blocks(w1, i, j, spec_delta(d).0, spec_delta(d).1) ==> crosses_wall(x, y, o, i, j, d),
        _ => true,
    } by {
        match entry(b, i, j).0 {
            PathBlock::Dir(d) => {
                if spec_wall_blocks(w1, i, j, spec_delta(d).0, spec_delta(d).1) {
                    lemma_blocks_after_wall(w0, w1, x, y, o, i, j, d);
                }
            },
            _ => {},
        }
    }
}

impl Board {
    /// Plays `m` for the player to move and brings both searches up to date: a
    /// wall is recorded and each search drops the ways across it; after a step
    /// of a piece, its player's search takes the way of the new square, or is
    /// seeded and run again when that square is unreachable.
    pub fn play_move(&mut self, m: PlayerMove)
        requires
            old(self).wf(),
            can_execute(old(self).game, m),
            match m {
                PlayerMove::PlaceWall { orientation, position } => spec_room_for_wall(
                    old(self).game.board.walls,
                    orientation,
                    position.x as int,
                    position.y as int,
                ),
                PlayerMove::MovePiece(mp) => spec_position_after_move(
                    old(self).game.board.pos(old(self).game.player),
                    mp,
                    old(self).game.board.pos(old(self).game.player.other()),
                ).on_board(),
            },
        ensures
            final(self).wf(),
            spec_executed(old(self).game, m, final(self).game),
    {
        let player = self.game.player;
        let ghost g0 = self.game;
        let ghost s0 = *self;
        self.game = execute_move_unchecked(&self.game, &m);
        match m {
            PlayerMove::MovePiece(_) => {
                let pos = *self.game.board.player_position(player);
                if player == Player::White {
                    self.bfs_white.invalidate(&self.game);
                    self.bfs_white.take_way_at(pos.x, pos.y);
                    if self.bfs_white.dir.0 == PathBlock::Unreachable {
                        self.bfs_white.seed_bfs(&self.game);
                        self.bfs_white.bfs(&self.game);
                    } else {
                        self.bfs_white.recalculate_path(&self.game);
                    }
                    proof {
                        assert(dir_reaches(self.bfs_white, self.game.board.pos(player)));
                    }
                }
                if player == Player::Black {
                    self.bfs_black.invalidate(&self.game);
                    self.bfs_black.take_way_at(pos.x, pos.y);
                    if self.bfs_black.dir.0 == PathBlock::Unreachable {
                        self.bfs_black.seed_bfs(&self.game);
                        self.bfs_black.bfs(&self.game);
                    } else {
                        self.bfs_black.recalculate_path(&self.game);
                    }
                    proof {
                        assert(dir_reaches(self.bfs_black, self.game.board.pos(player)));
                    }
                }
                proof {
                    assert forall|i: int, j: int, o: WallOrientation|
                        0 <= i < WALL_GRID_WIDTH && 0 <= j < WALL_GRID_HEIGHT implies #[trigger] self.allowed(o, i, j)
                            == spec_room_for_wall(self.game.board.walls, o, i, j) by {
                        assert(s0.allowed(o, i, j) == spec_room_for_wall(g0.board.walls, o, i, j));
                    }
                }
            },
            PlayerMove::PlaceWall { orientation, position } => {
                let ghost before = *self;
                assert(s0.allowed(orientation, position.x as int, position.y as int));
                self.place_wall(position.x, position.y, orientation);
                proof {
                    let w0 = g0.board.walls;
                    let w1 = self.game.board.walls;
                    let (x, y) = (position.x as int, position.y as int);
                    assert forall|a: int, b: int|
                        0 <= a < WALL_GRID_WIDTH && 0 <= b < WALL_GRID_HEIGHT implies #[trigger] w1.slot(a, b) == if a == x && b == y {
                            Some(orientation)
                        } else {
                            w0.slot(a, b)
                        } by {
                        assert(before.game.board.walls.slot(a, b) == if a == x && b == y {
                            Some(orientation)
                        } else {
                            w0.slot(a, b)
                        });
                    }
                    lemma_open_but_new_wall(self.bfs_white, w0, w1, x, y, orientation);
                    lemma_open_but_new_wall(self.bfs_black, w0, w1, x, y, orientation);
                    assert forall|i: int, j: int, o: WallOrientation|
                        0 <= i < WALL_GRID_WIDTH && 0 <= j < WALL_GRID_HEIGHT implies #[trigger] self.allowed(o, i, j)
                            == spec_room_for_wall(w1, o, i, j) by {
                        assert(s0.allowed(o, i, j) == spec_room_for_wall(w0, o, i, j));
                        lemma_room_after_wall(w0, w1, x, y, orientation, o, i, j);
                    }
                }
                let ghost mid = *self;
                self.bfs_white.recalculate_bfs(&self.game, position.x, position.y, orientation);
                self.bfs_black.recalculate_bfs(&self.game, position.x, position.y, orientation);
                proof {
                    assert forall|i: int, j: int, o: WallOrientation|
                        0 <= i < WALL_GRID_WIDTH && 0 <= j < WALL_GRID_HEIGHT implies #[trigger] self.allowed(o, i, j)
                            == spec_room_for_wall(self.game.board.walls, o, i, j) by {
                        assert(mid.allowed(o, i, j) == spec_room_for_wall(mid.game.board.walls, o, i, j));
                    }
                }
            },
        }
    }
}

/// `g1` is `g0` with a wall at `(x, y)` with `o` placed by the player to move,
/// who keeps the move.
pub open spec fn walled_game(g0: Game, x: int, y: int, o: WallOrientation, g1: Game) -> bool {
    &&& wall_added(g0.board.walls, g1.board.walls, x, y, o)
    &&& g1.board.player_positions == g0.board.player_positions
    &&& g1.player == g0.player
    &&& g1.walls_left@[g0.player.index()] == g0.walls_left@[g0.player.index()] - 1
    &&& g1.walls_left@[g0.player.other().index()] == g0.walls_left@[g0.player.other().index()]
}

/// With the wall at `(x, y)` with `o` placed, a sound board keeps a way for
/// both pieces, with the distances and walls left of `st`.
pub open spec fn wall_accepted(game: Game, x: int, y: int, o: WallOrientation, st: BoardStats) -> bool {
    exists|b: Board| {
        &&& #[trigger] b.wf()
        &&& walled_game(game, x, y, o, b.game)
        &&& b.bfs_white.dir.0 != PathBlock::Unreachable
        &&& b.bfs_black.dir.0 != PathBlock::Unreachable
        &&& st.dist@ == seq![b.bfs_white.dir.1, b.bfs_black.dir.1]
        &&& st.walls@ == b.game.walls_left@
    }
}

impl Board {
    /// Whether the player to move may place a wall at `(x, y)` with
    /// `orientation` without taking away the last way of a piece: the board is
    /// copied, the wall placed and counted, and each search brought up to
    /// date. With both pieces keeping a way, the distances of their ways and
    /// the walls left come back. The searches are brought up to date
    /// incrementally, and a refusal is not proved to mean that a piece has no
    /// way left.
    pub fn valid_wall(&self, x: usize, y: usize, orientation: WallOrientation) -> (r: (bool, Option<BoardStats>))
        requires
            self.wf(),
            x < WALL_GRID_WIDTH,
            y < WALL_GRID_HEIGHT,
            spec_room_for_wall(self.game.board.walls, orientation, x as int, y as int),
            self.game.walls_left@[self.game.player.index()] > 0,
        ensures
            r.0 == r.1 is Some,
            r.1 matches Some(st) ==> wall_accepted(self.game, x as int, y as int, orientation, st),
    {
        let mut board = self.clone();
        let ghost w0 = self.game.board.walls;
        board.place_wall(x, y, orientation);
        let i = self.game.player.as_index();
        board.game.walls_left[i] = board.game.walls_left[i] - 1;
        proof {
            let w1 = board.game.board.walls;
            assert(wall_added(w0, w1, x as int, y as int, orientation));
            lemma_open_but_new_wall(board.bfs_white, w0, w1, x as int, y as int, orientation);
            lemma_open_but_new_wall(board.bfs_black, w0, w1, x as int, y as int, orientation);
            lemma_same_state_ok(self.bfs_white, board.bfs_white, self.game, Player::White);
            lemma_same_state_ok(self.bfs_black, board.bfs_black, self.game, Player::Black);
        }
        proof {
            assert(walled_game(self.game, x as int, y as int, orientation, board.game));
        }
        board.bfs_white.recalculate_bfs(&board.game, x, y, orientation);
        if board.bfs_white.dir.0 == PathBlock::Unreachable {
            proof {
                assert(bfs_ok(board.bfs_white, board.game, board.bfs_white.player));
            }
            return (false, None);
        }
        board.bfs_black.recalculate_bfs(&board.game, x, y, orientation);
        if board.bfs_black.dir.0 == PathBlock::Unreachable {
            proof {
                assert(bfs_ok(board.bfs_black, board.game, board.bfs_black.player));
            }
            return (false, None);
        }
        let st = BoardStats {
            dist: [board.bfs_white.dir.1, board.bfs_black.dir.1],
            walls: board.game.walls_left,
        };
        proof {
            let w1 = board.game.board.walls;
            assert forall|a: int, b: int, o: WallOrientation|
                0 <= a < WALL_GRID_WIDTH && 0 <= b < WALL_GRID_HEIGHT implies #[trigger] board.allowed(o, a, b)
                    == spec_room_for_wall(w1, o, a, b) by {
                assert(self.allowed(o, a, b) == spec_room_for_wall(w0, o, a, b));
                lemma_room_after_wall(w0, w1, x as int, y as int, orientation, o, a, b);
            }
            assert(board.wf());
            assert(st.dist@ =~= seq![board.bfs_white.dir.1, board.bfs_black.dir.1]);
        }
        (true, Some(st))
    }
}

/// The place of a wall move in the order of the slots: row by row, then
/// column by column, horizontal before vertical.
pub open spec fn wall_key(m: PlayerMove) -> int {
    match m {
        PlayerMove::PlaceWall { orientation, position } => position.y * 16 + position.x * 2 + orientation_index(orientation),
        PlayerMove::MovePiece(_) => -1,
    }
}

/// `m` places a wall where the walls of `game` leave room for it.
pub open spec fn wall_move_with_room(game: Game, m: PlayerMove) -> bool {
    match m {
        PlayerMove::PlaceWall { orientation, position } => position.on_grid() && spec_room_for_wall(
            game.board.walls,
            orientation,
            position.x as int,
            position.y as int,
        ),
        PlayerMove::MovePiece(_) => false,
    }
}

/// The move placing a wall at `(x, y)` with `o`.
pub open spec fn wall_at(o: WallOrientation, x: int, y: int) -> PlayerMove {
    PlayerMove::PlaceWall { orientation: o, position: WallPosition { x: x as usize, y: y as usize } }
}

/// `e` places a wall with room that the board accepts, with the stats after it.
pub open spec fn wall_entry_fits(game: Game, e: (PlayerMove, Option<BoardStats>)) -> bool {
    match e.0 {
        PlayerMove::PlaceWall { orientation, position } => {
            &&& position.on_grid()
            &&& spec_room_for_wall(game.board.walls, orientation, position.x as int, position.y as int)
            &&& e.1 matches Some(st) && wall_accepted(game, position.x as int, position.y as int, orientation, st)
        },
        PlayerMove::MovePiece(_) => false,
    }
}

/// `v` lists walls that the board accepts for the player to move, slot by
/// slot, with their stats; none without a wall left.
pub open spec fn walls_listed(board: Board, v: Seq<(PlayerMove, Option<BoardStats>)>) -> bool {
    let game = board.game;
    &&& game.walls_left@[game.player.index()] == 0 ==> v.len() == 0
    &&& forall|k: int| 0 <= k < v.len() ==> wall_entry_fits(game, #[trigger] v[k])
    &&& forall|i: int, j: int| 0 <= i < j < v.len() ==> wall_key((#[trigger] v[i]).0) < wall_key((#[trigger] v[j]).0)
}

impl Board {
    /// The walls that the player to move may place without taking away the
    /// last way of a piece, slot by slot, each with the distances and walls
    /// left after it; none when the player has no wall left.
    pub fn wall_moves(&self) -> (r: Vec<(PlayerMove, Option<BoardStats>)>)
        requires
            self.wf(),
        ensures
            self.game.walls_left@[self.game.player.index()] == 0 ==> r@.len() == 0,
            forall|k: int| 0 <= k < r@.len() ==> wall_move_with_room(self.game, (#[trigger] r@[k]).0) && r@[k].1 is Some,
            forall|i: int, j: int| 0 <= i < j < r@.len() ==> wall_key((#[trigger] r@[i]).0) < wall_key((#[trigger] r@[j]).0),
            walls_listed(*self, r@),
    {
        let mut moves: Vec<(PlayerMove, Option<BoardStats>)> = Vec::new();
        if self.game.walls_left[self.game.player.as_index()] == 0 {
            return moves;
        }
        let mut y: usize = 0;
        while y < WALL_GRID_HEIGHT
            invariant
                self.wf(),
                self.game.walls_left@[self.game.player.index()] > 0,
                y <= WALL_GRID_HEIGHT,
                forall|k: int| 0 <= k < moves@.len() ==> wall_move_with_room(self.game, (#[trigger] moves@[k]).0) && moves@[k].1 is Some,
                forall|k: int| 0 <= k < moves@.len() ==> wall_entry_fits(self.game, #[trigger] moves@[k]),
                forall|i: int, j: int| 0 <= i < j < moves@.len() ==> wall_key((#[trigger] moves@[i]).0) < wall_key((#[trigger] moves@[j]).0),
                forall|k: int| 0 <= k < moves@.len() ==> wall_key((#[trigger] moves@[k]).0) < y * 16,
            decreases WALL_GRID_HEIGHT - y,
        {
            let mut x: usize = 0;
            while x < WALL_GRID_WIDTH
                invariant
                    self.wf(),
                    self.game.walls_left@[self.game.player.index()] > 0,
                    y < WALL_GRID_HEIGHT,
                    x <= WALL_GRID_WIDTH,
                    forall|k: int| 0 <= k < moves@.len() ==> wall_move_with_room(self.game, (#[trigger] moves@[k]).0) && moves@[k].1 is Some,
                    forall|k: int| 0 <= k < moves@.len() ==> wall_entry_fits(self.game, #[trigger] moves@[k]),
                    forall|i: int, j: int| 0 <= i < j < moves@.len() ==> wall_key((#[trigger] moves@[i]).0) < wall_key((#[trigger] moves@[j]).0),
                    forall|k: int| 0 <= k < moves@.len() ==> wall_key((#[trigger] moves@[k]).0) < y * 16 + x * 2,
                decreases WALL_GRID_WIDTH - x,
            {
                let mut orient: usize = 0;
                while orient < 2
                    invariant
                        self.wf(),
                        self.game.walls_left@[self.game.player.index()] > 0,
                        y < WALL_GRID_HEIGHT,
                        x < WALL_GRID_WIDTH,
                        orient <= 2,
                        forall|k: int| 0 <= k < moves@.len() ==> wall_move_with_room(self.game, (#[trigger] moves@[k]).0) && moves@[k].1 is Some,
                        forall|k: int| 0 <= k < moves@.len() ==> wall_entry_fits(self.game, #[trigger] moves@[k]),
                        forall|i: int, j: int| 0 <= i < j < moves@.len() ==> wall_key((#[trigger] moves@[i]).0) < wall_key((#[trigger] moves@[j]).0),
                        forall|k: int| 0 <= k < moves@.len() ==> wall_key((#[trigger] moves@[k]).0) < y * 16 + x * 2 + orient,
                    decreases 2 - orient,
                {
                    let orientation = if orient == 0 {
                        WallOrientation::Horizontal
                    } else {
                        WallOrientation::Vertical
                    };
                    proof {
                        assert(self.allowed(orientation, x as int, y as int) == spec_room_for_wall(self.game.board.walls, orientation, x as int, y as int));
                    }
                    let ghost m0 = moves@;
                    if self.wall_moves[y][x][orient] {
                        let (valid, stats) = self.valid_wall(x, y, orientation);
                        if valid {
                            let m = PlayerMove::PlaceWall { orientation, position: WallPosition { x, y } };
                            moves.push((m, stats));
                            proof {
                                assert(m == wall_at(orientation, x as int, y as int));
                                assert forall|i: int, j: int| 0 <= i < j < moves@.len() implies wall_key((#[trigger] moves@[i]).0) < wall_key((#[trigger] moves@[j]).0) by {
                                    if j < m0.len() {
                                        assert(moves@[i] == m0[i] && moves@[j] == m0[j]);
                                    } else {
                                        assert(moves@[i] == m0[i]);
                                    }
                                }
                                assert forall|k: int| 0 <= k < moves@.len() implies wall_move_with_room(self.game, (#[trigger] moves@[k]).0) && moves@[k].1 is Some by {
                                    if k < m0.len() {
                                        assert(moves@[k] == m0[k]);
                                    }
                                }
                                assert forall|k: int| 0 <= k < moves@.len() implies wall_entry_fits(self.game, #[trigger] moves@[k]) by {
                                    if k < m0.len() {
                                        assert(moves@[k] == m0[k]);
                                    }
                                }
                            }
                        }
                    }
                    orient += 1;
                }
                x += 1;
            }
            y += 1;
        }
        moves
    }
}

/// On the board, a piece move direction is legal exactly when its step stays
/// on the board and crosses no wall, and the step lands one square on.
proof fn lemma_direction_legal(walls: Walls, p: PiecePosition, d: Dir)
    requires
        p.on_board(),
    ensures
        spec_direction_legal(walls, p, spec_to_direction(d)) == (!spec_outside_board(p.x + spec_delta(d).0, p.y + spec_delta(d).1)
            && !spec_wall_blocks(walls, p.x as int, p.y as int, spec_delta(d).0, spec_delta(d).1)),
        !spec_outside_board(p.x + spec_delta(d).0, p.y + spec_delta(d).1) ==> spec_position_after_direction(p, spec_to_direction(d))
            == (PiecePosition { x: (p.x + spec_delta(d).0) as usize, y: (p.y + spec_delta(d).1) as usize }),
{
}

/// The piece move that a candidate step stands for.
pub open spec fn candidate_move(c: (Dir, Dir, (i8, i8))) -> MovePiece {
    MovePiece { direction: spec_to_direction(c.0), direction_on_collision: spec_to_direction(c.1) }
}

/// A candidate step of the player to move: a legal move of its piece,
/// landing on the square of the candidate.
pub open spec fn candidate_ok(game: Game, c: (Dir, Dir, (i8, i8))) -> bool {
    let p = game.board.pos(game.player);
    let opp = game.board.pos(game.player.other());
    &&& 0 <= c.2.0 < 9 && 0 <= c.2.1 < 9
    &&& spec_piece_legal(game.board, game.player, p, candidate_move(c))
    &&& spec_position_after_move(p, candidate_move(c), opp) == (PiecePosition { x: c.2.0 as usize, y: c.2.1 as usize })
}

/// A step that the board offers the piece of the player to move: a candidate
/// step, straight on where the square reached is free or the opponent there
/// can be jumped straight over, else to a side of the opponent, never back.
pub open spec fn board_step(game: Game, c: (Dir, Dir, (i8, i8))) -> bool {
    let p = game.board.pos(game.player);
    let opp = game.board.pos(game.player.other());
    let n = spec_position_after_direction(p, spec_to_direction(c.0));
    &&& candidate_ok(game, c)
    &&& n != opp ==> c.1 == c.0
    &&& n == opp && spec_direction_legal(game.board.walls, opp, spec_to_direction(c.0)) ==> c.1 == c.0
    &&& c.1 != spec_reverse(c.0)
}

/// A step that stays on the board and crosses no wall is among the open steps.
proof fn lemma_open_step_listed(walls: Walls, x: int, y: int, d: Dir)
    requires
        !spec_outside_board(x + spec_delta(d).0, y + spec_delta(d).1),
        !spec_wall_blocks(walls, x, y, spec_delta(d).0, spec_delta(d).1),
    ensures
        exists|j: int| 0 <= j < open_steps(walls, x, y, 4).len() && #[trigger] open_steps(walls, x, y, 4)[j] == spec_delta(d),
{
    reveal_with_fuel(open_steps, 5);
    let s = spec_delta(d);
    let s0 = open_steps(walls, x, y, 0);
    let s1 = open_steps(walls, x, y, 1);
    let s2 = open_steps(walls, x, y, 2);
    let s3 = open_steps(walls, x, y, 3);
    let s4 = open_steps(walls, x, y, 4);
    if d == Dir::Left {
        assert(s4[s0.len() as int] == s);
    } else if d == Dir::Up {
        assert(s4[s1.len() as int] == s);
    } else if d == Dir::Right {
        assert(s4[s2.len() as int] == s);
    } else {
        assert(s4[s3.len() as int] == s);
    }
}

/// What a sequence held stays in it when an element is added.
proof fn lemma_push_contains<T>(v: Seq<T>, e: T)
    ensures
        forall|c: T| v.contains(c) ==> #[trigger] v.push(e).contains(c),
        v.push(e).contains(e),
{
    assert(v.push(e)[v.len() as int] == e);
    assert forall|c: T| v.contains(c) implies #[trigger] v.push(e).contains(c) by {
        let j = choose|j: int| 0 <= j < v.len() && v[j] == c;
        assert(v.push(e)[j] == c);
    }
}

impl Board {
    /// The steps that the piece of the player to move can take: to each open
    /// neighbouring square, or, where the opponent stands there, over it when
    /// nothing is behind, else to either side of it.
    #[verifier::rlimit(100)]
    #[verifier::spinoff_prover]
    fn piece_steps(&self) -> (r: Vec<(Dir, Dir, (i8, i8))>)
        requires
            self.wf(),
        ensures
            forall|k: int| 0 <= k < r@.len() ==> candidate_ok(self.game, #[trigger] r@[k]),
            forall|k: int| 0 <= k < r@.len() ==> board_step(self.game, #[trigger] r@[k]),
            forall|c: (Dir, Dir, (i8, i8))| #[trigger] board_step(self.game, c) ==> r@.contains(c),
    {
        let player = self.game.player;
        let pos = *self.game.board.player_position(player);
        let other_pos = *self.game.board.player_position(player.opponent());
        let px = pos.x as i8;
        let py = pos.y as i8;
        let steps = board_neighbors(&self.game, px, py);
        let ghost walls = self.game.board.walls;
        let ghost os = open_steps(walls, px as int, py as int, 4);
        proof {
            lemma_open_steps(walls, px as int, py as int, 4);
        }
        let mut cands: Vec<(Dir, Dir, (i8, i8))> = Vec::new();
        let mut k: usize = 0;
        while k < steps.len()
            invariant
                self.wf(),
                walls == self.game.board.walls,
                os == open_steps(walls, px as int, py as int, 4),
                player == self.game.player,
                pos == self.game.board.pos(player),
                other_pos == self.game.board.pos(player.other()),
                px == pos.x && py == pos.y,
                k <= steps@.len(),
                steps@.len() == os.len(),
                forall|j: int| 0 <= j < steps@.len() ==> (#[trigger] steps@[j]).0 == os[j].0 && steps@[j].1 == os[j].1,
                forall|j: int| 0 <= j < os.len() ==> {
                    let s = #[trigger] os[j];
                    &&& is_unit_step(s.0, s.1)
                    &&& !spec_outside_board(px + s.0, py + s.1)
                    &&& !spec_wall_blocks(walls, px as int, py as int, s.0, s.1)
                },
                forall|j: int| 0 <= j < cands@.len() ==> board_step(self.game, #[trigger] cands@[j]),
                forall|c: (Dir, Dir, (i8, i8))| #[trigger] board_step(self.game, c) && (exists|j: int| 0 <= j < k && #[trigger] os[j] == spec_delta(c.0))
                    ==> cands@.contains(c),
            decreases steps@.len() - k,
        {
            let (dx, dy) = steps[k];
            let x = px + dx;
            let y = py + dy;
            let dir = Dir::from_delta((dx, dy));
            proof {
                lemma_direction_legal(walls, pos, dir);
                assert(os[k as int] == spec_delta(dir));
            }
            let jump_opponent = x as usize == other_pos.x && y as usize == other_pos.y;
            let ghost c0 = cands@;
            if !jump_opponent {
                let c = (dir, dir, (x, y));
                cands.push(c);
                proof {
                    lemma_push_contains(c0, c);
                    assert(board_step(self.game, c));
                    assert forall|j: int| 0 <= j < cands@.len() implies board_step(self.game, #[trigger] cands@[j]) by {
                        if j < c0.len() {
                            assert(cands@[j] == c0[j]);
                        }
                    }
                    assert forall|c2: (Dir, Dir, (i8, i8))| #[trigger] board_step(self.game, c2) && (exists|j: int| 0 <= j < k + 1 && #[trigger] os[j] == spec_delta(c2.0))
                        implies cands@.contains(c2) by {
                        if !(exists|j: int| 0 <= j < k && #[trigger] os[j] == spec_delta(c2.0)) {
                            assert(spec_delta(c2.0) == spec_delta(dir));
                            assert(c2.0 == dir);
                            assert(c2 == c);
                        }
                    }
                }
            } else {
                proof {
                    lemma_direction_legal(walls, other_pos, dir);
                }
                if !outside_board(x + dx, y + dy) && !wall_blocks(&self.game, x, y, dx, dy) {
                    let c = (dir, dir, (x + dx, y + dy));
                    cands.push(c);
                    proof {
                        lemma_push_contains(c0, c);
                        assert(board_step(self.game, c));
                        assert forall|j: int| 0 <= j < cands@.len() implies board_step(self.game, #[trigger] cands@[j]) by {
                            if j < c0.len() {
                                assert(cands@[j] == c0[j]);
                            }
                        }
                        assert forall|c2: (Dir, Dir, (i8, i8))| #[trigger] board_step(self.game, c2) && (exists|j: int| 0 <= j < k + 1 && #[trigger] os[j] == spec_delta(c2.0))
                            implies cands@.contains(c2) by {
                            if !(exists|j: int| 0 <= j < k && #[trigger] os[j] == spec_delta(c2.0)) {
                                assert(spec_delta(c2.0) == spec_delta(dir));
                                assert(c2.0 == dir);
                                assert(c2 == c);
                            }
                        }
                    }
                } else {
                    let sides: [(i8, i8); 2] = if dy == 0 {
                        [(0, -1), (0, 1)]
                    } else {
                        [(-1, 0), (1, 0)]
                    };
                    let mut t: usize = 0;
                    while t < 2
                        invariant
                            self.wf(),
                            walls == self.game.board.walls,
                            player == self.game.player,
                            pos == self.game.board.pos(player),
                            other_pos == self.game.board.pos(player.other()),
                            px == pos.x && py == pos.y,
                            x == other_pos.x && y == other_pos.y,
                            is_unit_step(dx as int, dy as int),
                            x == px + dx && y == py + dy,
                            !spec_wall_blocks(walls, px as int, py as int, dx as int, dy as int),
                            !spec_direction_legal(walls, other_pos, spec_to_direction(dir)),
                            spec_position_after_direction(pos, spec_to_direction(dir)) == other_pos,
                            dir == spec_dir_of(dx as int, dy as int),
                            spec_delta(dir) == (dx as int, dy as int),
                            sides@ == if dy == 0 { seq![(0i8, -1i8), (0i8, 1i8)] } else { seq![(-1i8, 0i8), (1i8, 0i8)] },
                            t <= 2,
                            c0.len() <= cands@.len(),
                            forall|c: (Dir, Dir, (i8, i8))| c0.contains(c) ==> #[trigger] cands@.contains(c),
                            forall|j: int| 0 <= j < cands@.len() ==> board_step(self.game, #[trigger] cands@[j]),
                            forall|c: (Dir, Dir, (i8, i8))| #[trigger] board_step(self.game, c) && c.0 == dir
                                && (exists|u: int| 0 <= u < t && #[trigger] sides@[u] == (spec_delta(c.1).0 as i8, spec_delta(c.1).1 as i8))
                                ==> cands@.contains(c),
                        decreases 2 - t,
                    {
                        let (dx2, dy2) = sides[t];
                        let x2 = x + dx2;
                        let y2 = y + dy2;
                        let ghost c1 = cands@;
                        if !(outside_board(x2, y2) || wall_blocks(&self.game, x, y, dx2, dy2)) {
                            let side = Dir::from_delta((dx2, dy2));
                            proof {
                                lemma_direction_legal(walls, pos, dir);
                                lemma_direction_legal(walls, other_pos, side);
                            }
                            let c = (dir, side, (x2, y2));
                            cands.push(c);
                            proof {
                                lemma_push_contains(c1, c);
                                assert(board_step(self.game, c));
                                assert forall|j: int| 0 <= j < cands@.len() implies board_step(self.game, #[trigger] cands@[j]) by {
                                    if j < c1.len() {
                                        assert(cands@[j] == c1[j]);
                                    }
                                }
                                assert forall|c2: (Dir, Dir, (i8, i8))| #[trigger] board_step(self.game, c2) && c2.0 == dir
                                    && (exists|u: int| 0 <= u < t + 1 && #[trigger] sides@[u] == (spec_delta(c2.1).0 as i8, spec_delta(c2.1).1 as i8))
                                    implies cands@.contains(c2) by {
                                    if !(exists|u: int| 0 <= u < t && #[trigger] sides@[u] == (spec_delta(c2.1).0 as i8, spec_delta(c2.1).1 as i8)) {
                                        assert(sides@[t as int] == (spec_delta(c2.1).0 as i8, spec_delta(c2.1).1 as i8));
                                        assert(c2.1 == side);
                                        lemma_direction_legal(walls, other_pos, c2.1);
                                        assert(c2 == c);
                                    }
                                }
                            }
                        } else {
                            proof {
                                assert forall|c2: (Dir, Dir, (i8, i8))| #[trigger] board_step(self.game, c2) && c2.0 == dir
                                    && (exists|u: int| 0 <= u < t + 1 && #[trigger] sides@[u] == (spec_delta(c2.1).0 as i8, spec_delta(c2.1).1 as i8))
                                    implies cands@.contains(c2) by {
                                    if !(exists|u: int| 0 <= u < t && #[trigger] sides@[u] == (spec_delta(c2.1).0 as i8, spec_delta(c2.1).1 as i8)) {
                                        assert(sides@[t as int] == (spec_delta(c2.1).0 as i8, spec_delta(c2.1).1 as i8));
                                        lemma_direction_legal(walls, other_pos, c2.1);
                                        assert(false);
                                    }
                                }
                            }
                        }
                        t += 1;
                    }
                    proof {
                        assert forall|c2: (Dir, Dir, (i8, i8))| #[trigger] board_step(self.game, c2) && (exists|j: int| 0 <= j < k + 1 && #[trigger] os[j] == spec_delta(c2.0))
                            implies cands@.contains(c2) by {
                            if !(exists|j: int| 0 <= j < k && #[trigger] os[j] == spec_delta(c2.0)) {
                                assert(spec_delta(c2.0) == spec_delta(dir));
                                assert(c2.0 == dir);
                                lemma_direction_legal(walls, other_pos, c2.1);
                                if dy == 0 {
                                    if c2.1 == Dir::Up {
                                        assert(sides@[0] == (spec_delta(c2.1).0 as i8, spec_delta(c2.1).1 as i8));
                                    } else {
                                        assert(sides@[1] == (spec_delta(c2.1).0 as i8, spec_delta(c2.1).1 as i8));
                                    }
                                } else {
                                    if c2.1 == Dir::Left {
                                        assert(sides@[0] == (spec_delta(c2.1).0 as i8, spec_delta(c2.1).1 as i8));
                                    } else {
                                        assert(sides@[1] == (spec_delta(c2.1).0 as i8, spec_delta(c2.1).1 as i8));
                                    }
                                }
                            } else {
                                assert(c0.contains(c2));
                            }
                        }
                    }
                }
            }
            k += 1;
        }
        proof {
            assert forall|c: (Dir, Dir, (i8, i8))| #[trigger] board_step(self.game, c) implies cands@.contains(c) by {
                lemma_direction_legal(walls, pos, c.0);
                lemma_open_step_listed(walls, px as int, py as int, c.0);
            }
        }
        cands
    }
}

/// The search of player `p` on the board.
pub open spec fn search_of(board: Board, p: Player) -> Bfs {
    match p {
        Player::White => board.bfs_white,
        Player::Black => board.bfs_black,
    }
}

/// A piece move of the player to move on `board` with its stats: a legal move,
/// the walls left, the opponent's distance as its search keeps it, and the
/// mover's distance from the search when it reached the square landed on, or
/// else as a sound board after the move keeps it.
pub open spec fn piece_move_ok(board: Board, e: (PlayerMove, Option<BoardStats>)) -> bool {
    let game = board.game;
    let player = game.player;
    match e.0 {
        PlayerMove::MovePiece(mp) => {
            let p = game.board.pos(player);
            let to = spec_position_after_move(p, mp, game.board.pos(player.other()));
            let there = entry(search_of(board, player), to.x as int, to.y as int);
            &&& spec_piece_legal(game.board, player, p, mp)
            &&& to.on_board()
            &&& e.1 is Some
            &&& e.1->0.walls == game.walls_left
            &&& e.1->0.dist@[player.other().index()] == search_of(board, player.other()).dir.1
            &&& there.0 != PathBlock::Unreachable ==> e.1->0.dist@[player.index()] == there.1
            &&& there.0 == PathBlock::Unreachable ==> exists|b: Board| {
                &&& #[trigger] b.wf()
                &&& spec_executed(game, e.0, b.game)
                &&& e.1->0.dist@[player.index()] == search_of(b, player).dir.1
            }
        },
        PlayerMove::PlaceWall { .. } => false,
    }
}

/// The distance that the mover's search keeps for the square that the step
/// `c` lands on.
pub open spec fn step_dist(board: Board, c: (Dir, Dir, (i8, i8))) -> int {
    entry(search_of(board, board.game.player), c.2.0 as int, c.2.1 as int).1 as int
}

/// `m` is the move of a step that the board offers.
pub open spec fn offered_move(game: Game, m: PlayerMove) -> bool {
    exists|c: (Dir, Dir, (i8, i8))| #[trigger] board_step(game, c) && m == PlayerMove::MovePiece(candidate_move(c))
}

/// `m` is the move of an offered step that lands no farther from the goal row,
/// by the mover's search, than any other offered step.
pub open spec fn nearest_move(board: Board, m: PlayerMove) -> bool {
    exists|c: (Dir, Dir, (i8, i8))| #[trigger] board_step(board.game, c) && m == PlayerMove::MovePiece(candidate_move(c))
        && forall|c2: (Dir, Dir, (i8, i8))| #[trigger] board_step(board.game, c2) ==> step_dist(board, c) <= step_dist(board, c2)
}

/// The move `m` is listed in `v`.
pub open spec fn move_listed(v: Seq<(PlayerMove, Option<BoardStats>)>, m: PlayerMove) -> bool {
    exists|k: int| 0 <= k < v.len() && (#[trigger] v[k]).0 == m
}

/// `v` lists the piece moves that the board offers, each with its stats: all
/// of them, or with `shortest`, one that lands nearest, if there is any.
pub open spec fn pieces_listed(board: Board, v: Seq<(PlayerMove, Option<BoardStats>)>, shortest: bool) -> bool {
    &&& forall|k: int| 0 <= k < v.len() ==> piece_move_ok(board, #[trigger] v[k]) && offered_move(board.game, v[k].0)
    &&& !shortest ==> forall|c: (Dir, Dir, (i8, i8))| #[trigger] board_step(board.game, c) ==> move_listed(v, PlayerMove::MovePiece(candidate_move(c)))
    &&& shortest ==> v.len() <= 1
    &&& shortest ==> (v.len() == 0 <==> forall|c: (Dir, Dir, (i8, i8))| !#[trigger] board_step(board.game, c))
    &&& shortest && v.len() == 1 ==> nearest_move(board, v[0].0)
}

impl Board {
    /// The piece moves of the player to move with their stats; with
    /// `shortest`, only the first of those that land nearest the goal row by
    /// the player's search.
    fn piece_moves_inner(&self, shortest: bool) -> (r: Vec<(PlayerMove, Option<BoardStats>)>)
        requires
            self.wf(),
        ensures
            forall|k: int| 0 <= k < r@.len() ==> piece_move_ok(*self, #[trigger] r@[k]),
            shortest ==> r@.len() <= 1,
            pieces_listed(*self, r@, shortest),
    {
        let player = self.game.player;
        let cands = self.piece_steps();
        let bfs = match player {
            Player::White => &self.bfs_white,
            Player::Black => &self.bfs_black,
        };
        assert(*bfs == search_of(*self, player));
        let chosen: Vec<(Dir, Dir, (i8, i8))> = if shortest {
            let mut best: Option<((Dir, Dir, (i8, i8)), u8)> = None;
            let mut k: usize = 0;
            while k < cands.len()
                invariant
                    *bfs == search_of(*self, player),
                    player == self.game.player,
                    k <= cands@.len(),
                    forall|j: int| 0 <= j < cands@.len() ==> candidate_ok(self.game, #[trigger] cands@[j]),
                    forall|j: int| 0 <= j < cands@.len() ==> board_step(self.game, #[trigger] cands@[j]),
                    (k > 0) == (best is Some),
                    match best {
                        Some((c, d)) => {
                            &&& candidate_ok(self.game, c)
                            &&& board_step(self.game, c)
                            &&& d == step_dist(*self, c)
                            &&& forall|j: int| 0 <= j < k ==> step_dist(*self, c) <= step_dist(*self, #[trigger] cands@[j])
                        },
                        None => true,
                    },
                decreases cands@.len() - k,
            {
                let c = cands[k];
                proof {
                    assert(candidate_ok(self.game, cands@[k as int]));
                }
                let d = bfs.path[c.2.1 as usize][c.2.0 as usize].1;
                let better = match best {
                    Some((_, bd)) => d < bd,
                    None => true,
                };
                if better {
                    best = Some((c, d));
                }
                k += 1;
            }
            match best {
                Some((c, _)) => {
                    let mut v = Vec::new();
                    v.push(c);
                    proof {
                        assert forall|c2: (Dir, Dir, (i8, i8))| #[trigger] board_step(self.game, c2) implies step_dist(*self, c) <= step_dist(*self, c2) by {
                            assert(cands@.contains(c2));
                            let j = choose|j: int| 0 <= j < cands@.len() && cands@[j] == c2;
                            assert(step_dist(*self, c) <= step_dist(*self, cands@[j]));
                        }
                        assert(v@[0] == c);
                    }
                    v
                },
                None => {
                    proof {
                        assert forall|c2: (Dir, Dir, (i8, i8))| !#[trigger] board_step(self.game, c2) by {
                            if board_step(self.game, c2) {
                                assert(cands@.contains(c2));
                            }
                        }
                    }
                    Vec::new()
                },
            }
        } else {
            cands
        };
        proof {
            if shortest && chosen@.len() == 1 {
                assert(board_step(self.game, chosen@[0]));
            }
        }
        let mut out: Vec<(PlayerMove, Option<BoardStats>)> = Vec::new();
        let mut k: usize = 0;
        while k < chosen.len()
            invariant
                self.wf(),
                player == self.game.player,
                *bfs == search_of(*self, player),
                k <= chosen@.len(),
                shortest ==> chosen@.len() <= 1,
                out@.len() == k,
                forall|j: int| 0 <= j < chosen@.len() ==> candidate_ok(self.game, #[trigger] chosen@[j]),
                forall|j: int| 0 <= j < chosen@.len() ==> board_step(self.game, #[trigger] chosen@[j]),
                forall|j: int| 0 <= j < out@.len() ==> piece_move_ok(*self, #[trigger] out@[j]),
                forall|j: int| 0 <= j < out@.len() ==> (#[trigger] out@[j]).0 == PlayerMove::MovePiece(candidate_move(chosen@[j])),
            decreases chosen@.len() - k,
        {
            let c = chosen[k];
            proof {
                assert(candidate_ok(self.game, chosen@[k as int]));
            }
            let mp = MovePiece { direction: c.0.to_direction(), direction_on_collision: c.1.to_direction() };
            let m = PlayerMove::MovePiece(mp);
            let there = bfs.path[c.2.1 as usize][c.2.0 as usize];
            let dist: usize = if there.0 != PathBlock::Unreachable {
                there.1 as usize
            } else {
                let mut b = self.clone();
                b.play_move(m);
                let d = match player {
                    Player::White => b.bfs_white.dir.1,
                    Player::Black => b.bfs_black.dir.1,
                };
                proof {
                    assert(d == search_of(b, player).dir.1);
                    assert(b.wf());
                }
                d
            };
            let stats = BoardStats {
                dist: match player {
                    Player::White => [dist, self.bfs_black.dir.1],
                    Player::Black => [self.bfs_white.dir.1, dist],
                },
                walls: self.game.walls_left,
            };
            let ghost o0 = out@;
            out.push((m, Some(stats)));
            proof {
                assert(piece_move_ok(*self, (m, Some(stats))));
                assert forall|j: int| 0 <= j < out@.len() implies piece_move_ok(*self, #[trigger] out@[j]) by {
                    if j < o0.len() {
                        assert(out@[j] == o0[j]);
                    }
                }
                assert forall|j: int| 0 <= j < out@.len() implies (#[trigger] out@[j]).0 == PlayerMove::MovePiece(candidate_move(chosen@[j])) by {
                    if j < o0.len() {
                        assert(out@[j] == o0[j]);
                    }
                }
            }
            k += 1;
        }
        proof {
            assert forall|j: int| 0 <= j < out@.len() implies piece_move_ok(*self, #[trigger] out@[j]) && offered_move(self.game, out@[j].0) by {
                assert(out@[j].0 == PlayerMove::MovePiece(candidate_move(chosen@[j])));
                assert(board_step(self.game, chosen@[j]));
            }
            if !shortest {
                assert forall|c: (Dir, Dir, (i8, i8))| #[trigger] board_step(self.game, c) implies move_listed(out@, PlayerMove::MovePiece(candidate_move(c))) by {
                    assert(cands@.contains(c));
                    let j = choose|j: int| 0 <= j < cands@.len() && cands@[j] == c;
                    assert(out@[j].0 == PlayerMove::MovePiece(candidate_move(chosen@[j])));
                }
            }
            if shortest && out@.len() == 1 {
                assert(out@[0].0 == PlayerMove::MovePiece(candidate_move(chosen@[0])));
                assert(board_step(self.game, chosen@[0]));
            }
        }
        out
    }
}

/// A move of the player to move on `board` with its stats: a piece move as
/// `piece_move_ok` says, or a wall with room for it.
pub open spec fn listed_move_ok(board: Board, e: (PlayerMove, Option<BoardStats>)) -> bool {
    piece_move_ok(board, e) || (wall_move_with_room(board.game, e.0) && e.1 is Some)
}

/// The piece moves come first, then the walls.
pub open spec fn pieces_first(v: Seq<(PlayerMove, Option<BoardStats>)>) -> bool {
    forall|i: int, j: int| 0 <= i < j < v.len() && (#[trigger] v[j]).0 is MovePiece ==> (#[trigger] v[i]).0 is MovePiece
}

/// `a` followed by `b`.
fn append_moves(a: Vec<(PlayerMove, Option<BoardStats>)>, b: Vec<(PlayerMove, Option<BoardStats>)>) -> (r: Vec<(PlayerMove, Option<BoardStats>)>)
    ensures
        r@ == a@ + b@,
{
    let mut r = a;
    let mut k: usize = 0;
    while k < b.len()
        invariant
            k <= b@.len(),
            r@ == a@ + b@.subrange(0, k as int),
        decreases b@.len() - k,
    {
        r.push(b[k]);
        k += 1;
        assert(r@ =~= a@ + b@.subrange(0, k as int));
    }
    assert(b@.subrange(0, b@.len() as int) =~= b@);
    r
}

/// `v` is piece moves as `pieces_listed` says up to `k`, and walls as
/// `walls_listed` says after.
pub open spec fn moves_split(board: Board, v: Seq<(PlayerMove, Option<BoardStats>)>, k: int, shortest: bool) -> bool {
    &&& 0 <= k <= v.len()
    &&& pieces_listed(board, v.subrange(0, k), shortest)
    &&& walls_listed(board, v.subrange(k, v.len() as int))
}

impl Board {
    /// The piece moves of the player to move, with their stats.
    pub fn piece_moves(&self) -> (r: Vec<(PlayerMove, Option<BoardStats>)>)
        requires
            self.wf(),
        ensures
            forall|k: int| 0 <= k < r@.len() ==> piece_move_ok(*self, #[trigger] r@[k]),
            pieces_listed(*self, r@, false),
    {
        self.piece_moves_inner(false)
    }

    /// The piece moves and then the walls of the player to move, with their
    /// stats.
    pub fn all_moves(&self) -> (r: Vec<(PlayerMove, Option<BoardStats>)>)
        requires
            self.wf(),
        ensures
            forall|k: int| 0 <= k < r@.len() ==> listed_move_ok(*self, #[trigger] r@[k]),
            pieces_first(r@),
            exists|k: int| #[trigger] moves_split(*self, r@, k, false),
    {
        let pieces = self.piece_moves();
        let walls = self.wall_moves();
        let r = append_moves(pieces, walls);
        proof {
            assert(r@.subrange(0, pieces@.len() as int) =~= pieces@);
            assert(r@.subrange(pieces@.len() as int, r@.len() as int) =~= walls@);
            assert(moves_split(*self, r@, pieces@.len() as int, false));
            assert forall|k: int| 0 <= k < r@.len() implies listed_move_ok(*self, #[trigger] r@[k]) by {
                if k < pieces@.len() {
                    assert(r@[k] == pieces@[k]);
                } else {
                    assert(r@[k] == walls@[k - pieces@.len()]);
                }
            }
            assert forall|i: int, j: int| 0 <= i < j < r@.len() && (#[trigger] r@[j]).0 is MovePiece implies (#[trigger] r@[i]).0 is MovePiece by {
                if j >= pieces@.len() {
                    assert(r@[j] == walls@[j - pieces@.len()]);
                    assert(wall_move_with_room(self.game, walls@[j - pieces@.len()].0));
                } else {
                    assert(r@[i] == pieces@[i]);
                    assert(piece_move_ok(*self, pieces@[i]));
                }
            }
        }
        r
    }

    /// The moves worth trying: the piece move that lands nearest the goal
    /// row, then, unless the player to move is no farther from its goal row
    /// than the opponent and the opponent has no wall left, the walls.
    pub fn non_wait_moves(&self) -> (r: Vec<(PlayerMove, Option<BoardStats>)>)
        requires
            self.wf(),
        ensures
            forall|k: int| 0 <= k < r@.len() ==> listed_move_ok(*self, #[trigger] r@[k]),
            pieces_first(r@),
            forall|i: int, j: int| 0 <= i < j < r@.len() ==> (#[trigger] r@[j]).0 !is MovePiece || (#[trigger] r@[i]).0 !is MovePiece,
            ({
                let player = self.game.player;
                search_of(*self, player).dir.1 <= search_of(*self, player.other()).dir.1
                    && self.game.walls_left@[player.other().index()] == 0
            }) ==> r@.len() <= 1,
            ({
                let player = self.game.player;
                search_of(*self, player).dir.1 <= search_of(*self, player.other()).dir.1
                    && self.game.walls_left@[player.other().index()] == 0
            }) ==> pieces_listed(*self, r@, true),
            !({
                let player = self.game.player;
                search_of(*self, player).dir.1 <= search_of(*self, player.other()).dir.1
                    && self.game.walls_left@[player.other().index()] == 0
            }) ==> exists|k: int| #[trigger] moves_split(*self, r@, k, true),
    {
        let player = self.game.player;
        let is_closest = if player == Player::White {
            self.bfs_white.dir.1 <= self.bfs_black.dir.1
        } else {
            self.bfs_black.dir.1 <= self.bfs_white.dir.1
        };
        let opponent_empty = self.game.walls_left[player.opponent().as_index()] == 0;
        let piece_moves = self.piece_moves_inner(true);
        if is_closest && opponent_empty {
            proof {
                assert forall|k: int| 0 <= k < piece_moves@.len() implies listed_move_ok(*self, #[trigger] piece_moves@[k]) by {
                    assert(piece_move_ok(*self, piece_moves@[k]));
                }
            }
            piece_moves
        } else {
            let walls = self.wall_moves();
            let r = append_moves(piece_moves, walls);
            proof {
                assert(r@.subrange(0, piece_moves@.len() as int) =~= piece_moves@);
                assert(r@.subrange(piece_moves@.len() as int, r@.len() as int) =~= walls@);
                assert(moves_split(*self, r@, piece_moves@.len() as int, true));
                assert forall|k: int| 0 <= k < r@.len() implies listed_move_ok(*self, #[trigger] r@[k]) by {
                    if k < piece_moves@.len() {
                        assert(r@[k] == piece_moves@[k]);
                        assert(piece_move_ok(*self, piece_moves@[k]));
                    } else {
                        assert(r@[k] == walls@[k - piece_moves@.len()]);
                    }
                }
                assert forall|i: int, j: int| 0 <= i < j < r@.len() && (#[trigger] r@[j]).0 is MovePiece implies (#[trigger] r@[i]).0 is MovePiece by {
                    if j >= piece_moves@.len() {
                        assert(r@[j] == walls@[j - piece_moves@.len()]);
                        assert(wall_move_with_room(self.game, walls@[j - piece_moves@.len()].0));
                    } else {
                        assert(r@[i] == piece_moves@[i]);
                        assert(piece_move_ok(*self, piece_moves@[i]));
                    }
                }
                assert forall|i: int, j: int| 0 <= i < j < r@.len() implies (#[trigger] r@[j]).0 !is MovePiece || (#[trigger] r@[i]).0 !is MovePiece by {
                    if j >= piece_moves@.len() {
                        assert(r@[j] == walls@[j - piece_moves@.len()]);
                        assert(wall_move_with_room(self.game, walls@[j - piece_moves@.len()].0));
                    }
                }
            }
            r
        }
    }
}

/// The distance that the board keeps for a player's piece is the length of a
/// way to the player's goal row across no wall: the piece is at most that
/// many steps from it.
pub proof fn lemma_kept_distance_reaches_goal(board: Board, p: Player)
    requires
        board.wf(),
        search_of(board, p).dir.0 != PathBlock::Unreachable,
    ensures
        goal_within(
            board.game.board.walls,
            p,
            board.game.board.pos(p).x as int,
            board.game.board.pos(p).y as int,
            search_of(board, p).dir.1 as int,
        ),
{
    let b = search_of(board, p);
    let pos = board.game.board.pos(p);
    lemma_marked_way_goal(b, board.game.board.walls, pos.x as int, pos.y as int, b.dir.1 as int);
}

} // verus!
