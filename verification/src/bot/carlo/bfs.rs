use vstd::prelude::*;
use crate::bot::carlo::board::{
    board_neighbors_unchecked, spec_delta, spec_dir_of, spec_outside_board, spec_reverse,
    spec_wall_blocks, steps_on_board, unit_steps, wall_blocks, Dir,
};
use crate::bot::carlo::buffer::Buffer;
use crate::data_model::{Game, PiecePosition, Player, Walls, WallOrientation, PIECE_GRID_HEIGHT, PIECE_GRID_WIDTH};
use crate::search::goal_row;

verus! {

/// What the search knows of a square: unreachable, on the goal row, or the way
/// to take towards it.
#[derive(Debug, Clone, Copy, PartialEq, Eq, Structural)]
pub enum PathBlock {
    Unreachable,
    Goal,
    Dir(Dir),
}

/// The number of squares of the board.
pub const SQUARES: usize = 81;

/// A square given by signed coordinates.
pub open spec fn on_board_sq(s: (i8, i8)) -> bool {
    0 <= s.0 < 9 && 0 <= s.1 < 9
}

/// An incremental breadth-first search of the distances of all squares from
/// the goal row of `player`: the way to take from each square and the number
/// of steps, the squares on the way of the player's piece, the squares whose
/// neighbours are still to be searched, and the squares made unreachable whose
/// neighbours are still to be marked.
pub struct Bfs {
    pub dir: (PathBlock, usize),
    pub player: Player,
    pub path: [[(PathBlock, u8); PIECE_GRID_WIDTH]; PIECE_GRID_HEIGHT],
    pub on_path: [[bool; PIECE_GRID_WIDTH]; PIECE_GRID_HEIGHT],
    pub queue: Buffer<(i8, i8), 81>,
    pub invalid_q: Vec<(i8, i8)>,
    pub invalid_q_i: usize,
}

/// The entry of the square `(x, y)`.
pub open spec fn entry(b: Bfs, x: int, y: int) -> (PathBlock, u8) {
    b.path@[y]@[x]
}

/// The square one step from `(x, y)` in `d`.
pub open spec fn step_from(x: int, y: int, d: Dir) -> (int, int) {
    (x + spec_delta(d).0, y + spec_delta(d).1)
}

pub open spec fn sq_on_board(x: int, y: int) -> bool {
    0 <= x < 9 && 0 <= y < 9
}

impl Bfs {
    /// The squares made unreachable whose neighbours are still to be marked.
    pub open spec fn pending(self) -> Seq<(i8, i8)> {
        self.invalid_q@.subrange(self.invalid_q_i as int, self.invalid_q@.len() as int)
    }

    /// The squares made unreachable since the search was last seeded.
    pub open spec fn invalids(self) -> Seq<(i8, i8)> {
        self.invalid_q@
    }

    /// Every way leads to a reachable square nearer the goal row, or to a
    /// square whose neighbours are still to be marked; goal squares are at
    /// distance zero on the goal row.
    pub open spec fn ways_ok(self) -> bool {
        forall|x: int, y: int|
            sq_on_board(x, y) ==> #[trigger] way_ok(self, x, y)
    }

    /// The invariant of the search.
    pub open spec fn wf(self) -> bool {
        &&& self.queue.wf()
        &&& forall|k: int| 0 <= k < self.queue.view().len() ==> on_board_sq(#[trigger] self.queue.view()[k])
        &&& self.invalid_q_i <= self.invalid_q@.len() <= SQUARES
        &&& self.invalid_q@.no_duplicates()
        &&& forall|k: int| 0 <= k < self.invalid_q@.len() ==> on_board_sq(#[trigger] self.invalid_q@[k])
        &&& forall|k: int|
            0 <= k < self.invalid_q@.len() ==> #[trigger] entry(self, self.invalid_q@[k].0 as int, self.invalid_q@[k].1 as int).0
                == PathBlock::Unreachable
        &&& self.ways_ok()
        &&& forall|x: int| 0 <= x < 9 ==> #[trigger] entry(self, x, goal_row(self.player)).0 == PathBlock::Goal
    }
}

impl Clone for Bfs {
    fn clone(&self) -> (r: Self)
        ensures
            r.same_state(*self),
            self.wf() ==> r.wf(),
    {
        let mut invalid_q: Vec<(i8, i8)> = Vec::new();
        let mut k: usize = 0;
        while k < self.invalid_q.len()
            invariant
                k <= self.invalid_q@.len(),
                invalid_q@ == self.invalid_q@.subrange(0, k as int),
            decreases self.invalid_q@.len() - k,
        {
            invalid_q.push(self.invalid_q[k]);
            k += 1;
            assert(invalid_q@ =~= self.invalid_q@.subrange(0, k as int));
        }
        assert(invalid_q@ =~= self.invalid_q@);
        let r = Bfs {
            dir: self.dir,
            player: self.player,
            path: self.path,
            on_path: self.on_path,
            queue: self.queue.clone(),
            invalid_q,
            invalid_q_i: self.invalid_q_i,
        };
        proof {
            assert(forall|x: int, y: int| #[trigger] entry(r, x, y) == entry(*self, x, y));
            assert(r.pending() =~= self.pending());
            if self.wf() {
                assert forall|x: int, y: int| sq_on_board(x, y) implies #[trigger] way_ok(r, x, y) by {
                    assert(way_ok(*self, x, y));
                }
            }
        }
        r
    }
}

impl Bfs {
    /// Two searches in the same state.
    pub open spec fn same_state(self, other: Self) -> bool {
        &&& self.dir == other.dir
        &&& self.player == other.player
        &&& self.path == other.path
        &&& self.on_path == other.on_path
        &&& self.queue.view() == other.queue.view()
        &&& self.invalid_q@ == other.invalid_q@
        &&& self.invalid_q_i == other.invalid_q_i
    }
}

/// The way from `(x, y)` is sound: see `ways_ok`.
pub open spec fn way_ok(b: Bfs, x: int, y: int) -> bool {
    match entry(b, x, y).0 {
        PathBlock::Goal => entry(b, x, y).1 == 0 && y == goal_row(b.player),
        PathBlock::Dir(d) => {
            let (nx, ny) = step_from(x, y, d);
            &&& sq_on_board(nx, ny)
            &&& entry(b, x, y).1 > 0
            &&& (entry(b, nx, ny).0 != PathBlock::Unreachable && entry(b, nx, ny).1 < entry(b, x, y).1)
                || (entry(b, nx, ny).0 == PathBlock::Unreachable && b.pending().contains((nx as i8, ny as i8)))
        },
        PathBlock::Unreachable => true,
    }
}

/// A list of distinct squares of the board has at most 81 of them.
pub proof fn lemma_distinct_squares(s: Seq<(i8, i8)>)
    requires
        s.no_duplicates(),
        forall|k: int| 0 <= k < s.len() ==> on_board_sq(#[trigger] s[k]),
    ensures
        s.len() <= 81,
{
    let f = |p: (i8, i8)| p.1 as int * 9 + p.0 as int;
    let m = s.map_values(f);
    assert forall|i: int, j: int| 0 <= i < j < m.len() implies m[i] != m[j] by {
        let a = s[i];
        let b = s[j];
        assert(on_board_sq(a) && on_board_sq(b));
        assert(a != b);
        if a.1 == b.1 {
            assert(m[i] != m[j]);
        } else {
            assert(a.1 as int * 9 + a.0 as int != b.1 as int * 9 + b.0 as int) by (nonlinear_arith)
                requires
                    0 <= a.0 < 9,
                    0 <= b.0 < 9,
                    a.1 != b.1,
            ;
        }
    }
    assert(m.no_duplicates());
    m.unique_seq_to_set();
    vstd::set_lib::lemma_int_range(0, 81);
    assert forall|v: int| m.to_set().contains(v) implies vstd::set_lib::set_int_range(0, 81).contains(v) by {
        let k = choose|k: int| 0 <= k < m.len() && m[k] == v;
        let p = s[k];
        assert(on_board_sq(p));
        assert(0 <= (p.1 as int) * 9 + (p.0 as int) < 81) by (nonlinear_arith)
            requires
                0 <= p.0 < 9,
                0 <= p.1 < 9,
        ;
    }
    vstd::set_lib::lemma_len_subset(m.to_set(), vstd::set_lib::set_int_range(0, 81));
}

/// The square where the player stands wins for that player's row.
pub fn game_winner(game: &Game) -> (r: Option<Player>)
    ensures
        r == (if game.board.pos(Player::White).y == goal_row(Player::White) {
            Some(Player::White)
        } else if game.board.pos(Player::Black).y == goal_row(Player::Black) {
            Some(Player::Black)
        } else {
            None
        }),
{
    if game.board.player_positions[0].y == PIECE_GRID_HEIGHT - 1 {
        return Some(Player::White);
    }
    if game.board.player_positions[1].y == 0 {
        return Some(Player::Black);
    }
    None
}

/// Whether cell `k` (row by row) of a grid of flags is set.
pub open spec fn flag_at(q: [[bool; 9]; 9], k: int) -> bool {
    q@[k / 9]@[k % 9]
}

/// The number of set flags among the first `n` cells.
pub open spec fn count_flags(q: [[bool; 9]; 9], n: int) -> int
    decreases n,
{
    if n <= 0 {
        0
    } else {
        count_flags(q, n - 1) + if flag_at(q, n - 1) { 1int } else { 0int }
    }
}

proof fn lemma_cell_index(k: int)
    requires
        0 <= k < 81,
    ensures
        0 <= k / 9 < 9,
        0 <= k % 9 < 9,
        k == (k / 9) * 9 + k % 9,
{
    vstd::arithmetic::div_mod::lemma_fundamental_div_mod(k, 9);
}

proof fn lemma_count_bounds(q: [[bool; 9]; 9], n: int)
    requires
        0 <= n <= 81,
    ensures
        0 <= count_flags(q, n) <= n,
    decreases n,
{
    if n > 0 {
        lemma_count_bounds(q, n - 1);
    }
}

/// With an unset flag at `(x, y)` at most 80 flags are set.
proof fn lemma_count_room(q: [[bool; 9]; 9], x: int, y: int, n: int)
    requires
        0 <= x < 9,
        0 <= y < 9,
        !q@[y]@[x],
        y * 9 + x < n <= 81,
    ensures
        count_flags(q, n) <= n - 1,
    decreases n,
{
    lemma_count_bounds(q, n - 1);
    if n - 1 == y * 9 + x {
        lemma_cell_index(n - 1);
        assert((y * 9 + x) / 9 == y && (y * 9 + x) % 9 == x) by (nonlinear_arith)
            requires
                0 <= x < 9,
                0 <= y < 9,
        ;
    } else {
        lemma_count_room(q, x, y, n - 1);
    }
}

/// Setting the unset flag `(x, y)` adds one to the count.
proof fn lemma_count_set(q: [[bool; 9]; 9], r: [[bool; 9]; 9], x: int, y: int, n: int)
    requires
        0 <= x < 9,
        0 <= y < 9,
        0 <= n <= 81,
        !q@[y]@[x],
        r@[y]@[x],
        forall|i: int, j: int| 0 <= i < 9 && 0 <= j < 9 && !(i == x && j == y) ==> #[trigger] r@[j]@[i] == q@[j]@[i],
    ensures
        count_flags(r, n) == count_flags(q, n) + if y * 9 + x < n { 1int } else { 0int },
    decreases n,
{
    if n > 0 {
        lemma_count_set(q, r, x, y, n - 1);
        let k = n - 1;
        lemma_cell_index(k);
        assert((y * 9 + x) / 9 == y && (y * 9 + x) % 9 == x) by (nonlinear_arith)
            requires
                0 <= x < 9,
                0 <= y < 9,
        ;
        if k != y * 9 + x {
            assert(!(k % 9 == x && k / 9 == y));
            assert(flag_at(r, k) == flag_at(q, k));
        }
    }
}

fn set_flag(q: &mut [[bool; 9]; 9], x: usize, y: usize)
    requires
        x < 9,
        y < 9,
    ensures
        final(q)@[y as int]@[x as int],
        forall|i: int, j: int| 0 <= i < 9 && 0 <= j < 9 && !(i == x && j == y) ==> #[trigger] final(q)@[j]@[i] == old(q)@[j]@[i],
{
    let mut row = q[y];
    row[x] = true;
    q[y] = row;
}

/// The steps that the search takes from a square are the four unit steps that
/// stay on the board; each reverses to a step back.
/// The way kept for the piece standing at `pos`, when it has one, is the
/// entry of its square.
pub open spec fn dir_ok(b: Bfs, pos: PiecePosition) -> bool {
    b.dir.0 != PathBlock::Unreachable ==> b.dir.0 == entry(b, pos.x as int, pos.y as int).0
        && b.dir.1 == entry(b, pos.x as int, pos.y as int).1
}

/// No way crosses a wall of `walls`.
pub open spec fn ways_open(b: Bfs, walls: Walls) -> bool {
    forall|x: int, y: int|
        sq_on_board(x, y) ==> match #[trigger] entry(b, x, y).0 {
            PathBlock::Dir(d) => !spec_wall_blocks(walls, x, y, spec_delta(d).0, spec_delta(d).1),
            _ => true,
        }
}

/// A search whose entries are those of `a` or unreachable keeps every way of
/// `a` open.
pub proof fn lemma_ways_open_kept(a: Bfs, b: Bfs)
    requires
        forall|i: int, j: int| sq_on_board(i, j) ==> #[trigger] entry(b, i, j) == entry(a, i, j)
            || entry(b, i, j).0 == PathBlock::Unreachable,
    ensures
        forall|w: Walls| ways_open(a, w) ==> #[trigger] ways_open(b, w),
{
    assert forall|w: Walls| ways_open(a, w) implies #[trigger] ways_open(b, w) by {
        assert forall|i: int, j: int| sq_on_board(i, j) implies match #[trigger] entry(b, i, j).0 {
            PathBlock::Dir(d) => !spec_wall_blocks(w, i, j, spec_delta(d).0, spec_delta(d).1),
            _ => true,
        } by {
            assert(entry(b, i, j) == entry(a, i, j) || entry(b, i, j).0 == PathBlock::Unreachable);
        }
    }
}

/// A wall across a step is across the step back.
pub proof fn lemma_wall_blocks_symmetric(walls: Walls, x: int, y: int, dx: int, dy: int)
    requires
        crate::bot::carlo::board::is_unit_step(dx, dy),
    ensures
        spec_wall_blocks(walls, x, y, dx, dy) == spec_wall_blocks(walls, x + dx, y + dy, -dx, -dy),
{
}

proof fn lemma_step_back(dx: int, dy: int)
    requires
        crate::bot::carlo::board::is_unit_step(dx, dy),
    ensures
        spec_delta(spec_reverse(spec_dir_of(dx, dy))) == (-dx, -dy),
        spec_delta(spec_dir_of(dx, dy)) == (dx, dy),
{
}

impl Bfs {
    fn get_entry(&self, x: usize, y: usize) -> (e: (PathBlock, u8))
        requires
            x < 9,
            y < 9,
        ensures
            e == entry(*self, x as int, y as int),
    {
        self.path[y][x]
    }

    fn set_entry(&mut self, x: usize, y: usize, e: (PathBlock, u8))
        requires
            x < 9,
            y < 9,
        ensures
            entry(*final(self), x as int, y as int) == e,
            forall|i: int, j: int| sq_on_board(i, j) && !(i == x && j == y) ==> #[trigger] entry(*final(self), i, j) == entry(*old(self), i, j),
            final(self).dir == old(self).dir,
            final(self).player == old(self).player,
            final(self).on_path == old(self).on_path,
            final(self).queue == old(self).queue,
            final(self).invalid_q == old(self).invalid_q,
            final(self).invalid_q_i == old(self).invalid_q_i,
    {
        let mut row = self.path[y];
        row[x] = e;
        self.path[y] = row;
    }

    /// Marks the squares on the way from the piece of `player` to its goal row,
    /// when the piece's square is reachable; with no squares still to be
    /// marked unreachable, every way leads nearer and the walk ends on the goal
    /// row.
    pub fn recalculate_path(&mut self, game: &Game)
        requires
            old(self).wf(),
            old(self).pending().len() == 0,
            game.board.on_board(),
        ensures
            forall|w: Walls| ways_open(*old(self), w) ==> #[trigger] ways_open(*final(self), w),
            final(self).wf(),
            final(self).dir == old(self).dir,
            final(self).player == old(self).player,
            final(self).path == old(self).path,
            final(self).queue == old(self).queue,
            final(self).invalid_q == old(self).invalid_q,
            final(self).invalid_q_i == old(self).invalid_q_i,
            ({
                let p = game.board.pos(old(self).player);
                entry(*old(self), p.x as int, p.y as int).0 != PathBlock::Unreachable ==> final(self).on_path@[p.y as int]@[p.x as int]
            }),
            ({
                let p = game.board.pos(old(self).player);
                entry(*old(self), p.x as int, p.y as int).0 != PathBlock::Unreachable
                    ==> marked_way(*final(self), p.x as int, p.y as int, entry(*old(self), p.x as int, p.y as int).1 as int)
            }),
    {
        let player_pos = game.board.player_position(self.player);
        if self.get_entry(player_pos.x, player_pos.y).0 == PathBlock::Unreachable {
            return;
        }
        let mut xx = player_pos.x;
        let mut yy = player_pos.y;
        let mut d = self.get_entry(xx, yy).1;
        let ghost start = *self;
        self.on_path = [[false; PIECE_GRID_WIDTH]; PIECE_GRID_HEIGHT];
        let mut row = self.on_path[yy];
        row[xx] = true;
        self.on_path[yy] = row;
        let ghost mut walked: Seq<(int, int)> = seq![(xx as int, yy as int)];
        proof {
            assert(forall|x: int, y: int| #[trigger] entry(*self, x, y) == entry(start, x, y));
            assert(self.pending() =~= start.pending());
            assert forall|x: int, y: int| sq_on_board(x, y) implies #[trigger] way_ok(*self, x, y) by {
                assert(way_ok(start, x, y));
            }
        }
        while d > 0
            invariant
                walked.len() >= 1,
                walked[0] == (player_pos.x as int, player_pos.y as int),
                walked.last() == (xx as int, yy as int),
                forall|i: int| 0 <= i < walked.len() ==> {
                    let w = #[trigger] walked[i];
                    &&& sq_on_board(w.0, w.1)
                    &&& self.on_path@[w.1]@[w.0]
                    &&& entry(*self, w.0, w.1).0 != PathBlock::Unreachable
                },
                forall|i: int| 0 <= i < walked.len() - 1 ==> match entry(*self, (#[trigger] walked[i]).0, walked[i].1).0 {
                    PathBlock::Dir(dd) => walked[i + 1] == step_from(walked[i].0, walked[i].1, dd),
                    _ => false,
                },
                self.wf(),
                self.pending().len() == 0,
                self.path == start.path,
                self.dir == start.dir,
                self.player == start.player,
                self.queue == start.queue,
                self.invalid_q == start.invalid_q,
                self.invalid_q_i == start.invalid_q_i,
                sq_on_board(xx as int, yy as int),
                entry(*self, xx as int, yy as int).0 != PathBlock::Unreachable,
                d == entry(*self, xx as int, yy as int).1,
                self.on_path@[player_pos.y as int]@[player_pos.x as int],
                player_pos.x < 9 && player_pos.y < 9,
            decreases d,
        {
            proof {
                assert(way_ok(*self, xx as int, yy as int));
            }
            let (dx, dy) = match self.get_entry(xx, yy).0 {
                PathBlock::Dir(dd) => dd.delta(),
                _ => {
                    proof {
                        assert(false);
                    }
                    (0, 0)
                },
            };
            let ghost prev = (xx as int, yy as int);
            xx = (xx as isize + dx) as usize;
            yy = (yy as isize + dy) as usize;
            let ghost before = *self;
            let ghost w0 = walked;
            let mut row = self.on_path[yy];
            row[xx] = true;
            self.on_path[yy] = row;
            proof {
                assert(forall|x: int, y: int| #[trigger] entry(*self, x, y) == entry(before, x, y));
                assert(self.pending() =~= before.pending());
                assert forall|x: int, y: int| sq_on_board(x, y) implies #[trigger] way_ok(*self, x, y) by {
                    assert(way_ok(before, x, y));
                }
                walked = walked.push((xx as int, yy as int));
                assert forall|i: int| 0 <= i < walked.len() implies {
                    let w = #[trigger] walked[i];
                    &&& sq_on_board(w.0, w.1)
                    &&& self.on_path@[w.1]@[w.0]
                    &&& entry(*self, w.0, w.1).0 != PathBlock::Unreachable
                } by {
                    if i < w0.len() {
                        assert(walked[i] == w0[i]);
                    }
                }
                assert forall|i: int| 0 <= i < walked.len() - 1 implies match entry(*self, (#[trigger] walked[i]).0, walked[i].1).0 {
                    PathBlock::Dir(dd) => walked[i + 1] == step_from(walked[i].0, walked[i].1, dd),
                    _ => false,
                } by {
                    assert(walked[i] == w0[i]);
                    if i < w0.len() - 1 {
                        assert(walked[i + 1] == w0[i + 1]);
                    } else {
                        assert(w0[i] == prev);
                    }
                }
            }
            d = self.get_entry(xx, yy).1;
        }
        proof {
            lemma_ways_open_kept(start, *self);
            assert(way_ok(*self, xx as int, yy as int));
            assert(entry(*self, xx as int, yy as int).0 == PathBlock::Goal);
            lemma_walked_marked(*self, walked, 0);
        }
    }
}

impl Bfs {
    /// Searches outwards from the goal row and from the squares waiting in
    /// `queue`, giving every unreachable square next to a reachable one the
    /// way back to it and one step more, until the piece of `player` is
    /// reached; then marks the piece's way and keeps the squares still to be
    /// searched. A square at distance 255 is not searched from.
    pub fn bfs(&mut self, game: &Game)
        requires
            old(self).wf(),
            old(self).invalid_q@.len() == 0,
            game.board.on_board(),
            ways_open(*old(self), game.board.walls),
            dir_ok(*old(self), game.board.pos(old(self).player)),
        ensures
            final(self).wf(),
            ways_open(*final(self), game.board.walls),
            dir_ok(*final(self), game.board.pos(old(self).player)),
            dir_reaches(*final(self), game.board.pos(old(self).player)),
            final(self).invalid_q@.len() == 0,
            final(self).player == old(self).player,
    {
        let mut queue: Buffer<(i8, i8), 81> = Buffer::new((0, 0));
        let mut queued = [[false; PIECE_GRID_WIDTH]; PIECE_GRID_HEIGHT];
        let y_goal: usize = match self.player {
            Player::Black => 0,
            Player::White => PIECE_GRID_HEIGHT - 1,
        };
        assert(forall|i: int, j: int| 0 <= i < 9 && 0 <= j < 9 ==> !#[trigger] queued@[j]@[i]);
        proof {
            assert forall|n: int| 0 <= n <= 81 implies count_flags(queued, n) == 0 by {
                lemma_count_zero(queued, n);
            }
        }
        let mut x: usize = 0;
        while x < PIECE_GRID_WIDTH
            invariant
                x <= 9,
                y_goal < 9,
                queue.wf(),
                queue.view().len() == x,
                forall|k: int| 0 <= k < queue.view().len() ==> on_board_sq(#[trigger] queue.view()[k]),
                forall|i: int, j: int| 0 <= i < 9 && 0 <= j < 9 ==> #[trigger] queued@[j]@[i] == (j == y_goal && i < x),
                count_flags(queued, 81) == x,
            decreases 9 - x,
        {
            let ghost q0 = queued;
            queue.insert((x as i8, y_goal as i8));
            set_flag(&mut queued, x, y_goal);
            proof {
                lemma_count_set(q0, queued, x as int, y_goal as int, 81);
            }
            x += 1;
        }
        let ghost start = *self;
        let player_pos = *game.board.player_position(self.player);
        let mut iter_dist: u8 = 0;
        let waiting = self.queue.iter();
        let mut w: usize = 0;
        while w < waiting.len()
            invariant
                w <= waiting@.len(),
                forall|k: int| 0 <= k < waiting@.len() ==> on_board_sq(#[trigger] waiting@[k]),
            decreases waiting@.len() - w,
        {
            let (wx, wy) = waiting[w];
            let e = self.get_entry(wx as usize, wy as usize);
            if e.0 != PathBlock::Unreachable {
                iter_dist = e.1;
                break;
            }
            w += 1;
        }
        let mut found = false;
        while !found && (queue.non_empty() || self.queue.non_empty())
            invariant
                self.wf(),
                ways_open(*self, game.board.walls),
                dir_ok(*self, game.board.pos(start.player)),
                self.invalid_q@.len() == 0,
                self.player == start.player,
                player_pos == game.board.pos(self.player),
                game.board.on_board(),
                queue.wf(),
                forall|k: int| 0 <= k < queue.view().len() ==> on_board_sq(#[trigger] queue.view()[k]),
                forall|i: int, j: int| 0 <= i < 9 && 0 <= j < 9 && #[trigger] queued@[j]@[i] ==> entry(*self, i, j).0 != PathBlock::Unreachable,
                queue.view().len() <= count_flags(queued, 81) + if found { 1int } else { 0int },
                0 <= count_flags(queued, 81) <= 81,
            decreases 3 * (81 - count_flags(queued, 81)) + queue.view().len() + 2 * self.queue.view().len() + if found { 0int } else { 1int },
        {
            let ghost m0 = 3 * (81 - count_flags(queued, 81)) + queue.view().len() + 2 * self.queue.view().len() + 1;
            loop
                invariant
                    3 * (81 - count_flags(queued, 81)) + queue.view().len() + 2 * self.queue.view().len() + 1 <= m0,
                    self.wf(),
                    ways_open(*self, game.board.walls),
                    dir_ok(*self, game.board.pos(start.player)),
                dir_ok(*self, game.board.pos(start.player)),
                    self.invalid_q@.len() == 0,
                    self.player == start.player,
                    queue.wf(),
                    forall|k: int| 0 <= k < queue.view().len() ==> on_board_sq(#[trigger] queue.view()[k]),
                    forall|i: int, j: int| 0 <= i < 9 && 0 <= j < 9 && #[trigger] queued@[j]@[i] ==> entry(*self, i, j).0 != PathBlock::Unreachable,
                    queue.view().len() <= count_flags(queued, 81),
                    0 <= count_flags(queued, 81) <= 81,
                    !found,
                decreases self.queue.view().len(),
            {
                if !self.queue.non_empty() {
                    break;
                }
                if !queue.empty() {
                    let head = *self.queue.peek_first();
                    proof {
                        assert(on_board_sq(self.queue.view()[0]));
                    }
                    if self.get_entry(head.0 as usize, head.1 as usize).1 != iter_dist {
                        break;
                    }
                }
                proof {
                    assert(on_board_sq(self.queue.view()[0]));
                }
                let ghost before = *self;
                let (xi, yi) = self.queue.pop_first();
                proof {
                    assert(forall|x: int, y: int| #[trigger] entry(*self, x, y) == entry(before, x, y));
                    assert forall|k: int| 0 <= k < self.queue.view().len() implies on_board_sq(#[trigger] self.queue.view()[k]) by {
                        assert(self.queue.view()[k] == before.queue.view()[k + 1]);
                    }
                    assert forall|x: int, y: int| sq_on_board(x, y) implies #[trigger] way_ok(*self, x, y) by {
                        assert(way_ok(before, x, y));
                    }
                }
                let (x, y) = (xi as usize, yi as usize);
                let e = self.get_entry(x, y);
                if e.0 != PathBlock::Unreachable && !queued[y][x] {
                    iter_dist = e.1;
                    let ghost q0 = queued;
                    proof {
                        lemma_count_room(queued, x as int, y as int, 81);
                    }
                    set_flag(&mut queued, x, y);
                    proof {
                        lemma_count_set(q0, queued, x as int, y as int, 81);
                    }
                    queue.insert((xi, yi));
                }
            }
            if queue.empty() {
                break;
            }
            let (x, y) = queue.pop_first();
            proof {
                assert(on_board_sq((x, y)));
            }
            let here = self.get_entry(x as usize, y as usize);
            if here.0 == PathBlock::Unreachable || here.1 == u8::MAX {
                continue;
            }
            let steps = board_neighbors_unchecked(x, y);
            proof {
                crate::bot::carlo::board::lemma_steps_on_board(x as int, y as int, 4);
            }
            let mut k: usize = 0;
            while k < steps.len()
                invariant
                    k <= steps@.len(),
                    steps@.len() == steps_on_board(x as int, y as int, 4).len(),
                    forall|j: int| 0 <= j < steps@.len() ==> (#[trigger] steps@[j]).0 == steps_on_board(x as int, y as int, 4)[j].0
                        && steps@[j].1 == steps_on_board(x as int, y as int, 4)[j].1,
                    forall|j: int| 0 <= j < steps_on_board(x as int, y as int, 4).len() ==> {
                        let s = #[trigger] steps_on_board(x as int, y as int, 4)[j];
                        &&& crate::bot::carlo::board::is_unit_step(s.0, s.1)
                        &&& !spec_outside_board(x + s.0, y + s.1)
                    },
                    on_board_sq((x, y)),
                    entry(*self, x as int, y as int) == here,
                    here.0 != PathBlock::Unreachable,
                    here.1 < u8::MAX,
                    3 * (81 - count_flags(queued, 81)) + queue.view().len() + 2 * self.queue.view().len() + (if found { 0int } else { 1int }) < m0,
                    self.wf(),
                    ways_open(*self, game.board.walls),
                    dir_ok(*self, game.board.pos(start.player)),
                dir_ok(*self, game.board.pos(start.player)),
                    self.invalid_q@.len() == 0,
                    self.player == start.player,
                    player_pos == game.board.pos(self.player),
                    game.board.on_board(),
                    queue.wf(),
                    forall|i: int| 0 <= i < queue.view().len() ==> on_board_sq(#[trigger] queue.view()[i]),
                    forall|i: int, j: int| 0 <= i < 9 && 0 <= j < 9 && #[trigger] queued@[j]@[i] ==> entry(*self, i, j).0 != PathBlock::Unreachable,
                    queue.view().len() <= count_flags(queued, 81) + if found { 1int } else { 0int },
                    0 <= count_flags(queued, 81) <= 81,
                decreases steps@.len() - k + if found { 0int } else { 1int },
            {
                if found {
                    break;
                }
                let (dx, dy) = steps[k];
                proof {
                    assert(crate::bot::carlo::board::is_unit_step(dx as int, dy as int));
                }
                k += 1;
                let nx = x + dx;
                let ny = y + dy;
                let there = self.get_entry(nx as usize, ny as usize);
                if there.0 != PathBlock::Unreachable {
                    continue;
                }
                if wall_blocks(game, x, y, dx, dy) {
                    continue;
                }
                let dist = here.1 + 1;
                let dir = PathBlock::Dir(Dir::from_delta((dx, dy)).reverse());
                let ghost before = *self;
                self.set_entry(nx as usize, ny as usize, (dir, dist));
                proof {
                    assert(!(x as int == nx as int && y as int == ny as int));
                    assert(entry(*self, x as int, y as int) == here);
                    lemma_step_back(dx as int, dy as int);
                    assert(self.pending() =~= before.pending());
                    assert(self.invalid_q@.len() == 0);
                    lemma_wall_blocks_symmetric(game.board.walls, x as int, y as int, dx as int, dy as int);
                    assert forall|i: int, j: int| sq_on_board(i, j) implies match #[trigger] entry(*self, i, j).0 {
                        PathBlock::Dir(d) => !spec_wall_blocks(game.board.walls, i, j, spec_delta(d).0, spec_delta(d).1),
                        _ => true,
                    } by {
                        if !(i == nx && j == ny) {
                            assert(entry(*self, i, j) == entry(before, i, j));
                        }
                    }
                    assert forall|i: int, j: int| sq_on_board(i, j) implies #[trigger] way_ok(*self, i, j) by {
                        if i == nx && j == ny {
                        } else {
                            assert(way_ok(before, i, j));
                            assert(entry(*self, i, j) == entry(before, i, j));
                            match entry(before, i, j).0 {
                                PathBlock::Dir(d) => {
                                    let (ti, tj) = step_from(i, j, d);
                                    assert(!before.pending().contains((ti as i8, tj as i8)));
                                    if ti == nx && tj == ny {
                                        assert(false);
                                    }
                                    assert(entry(*self, ti, tj) == entry(before, ti, tj));
                                },
                                _ => {},
                            }
                        }
                    }
                }
                proof {
                    if !queued@[ny as int]@[nx as int] {
                        lemma_count_room(queued, nx as int, ny as int, 81);
                    }
                }
                queue.insert((nx, ny));
                if nx as usize == player_pos.x && ny as usize == player_pos.y {
                    let ghost before_dir = *self;
                    self.dir = (dir, dist as usize);
                    proof {
                        assert(forall|i: int, j: int| #[trigger] entry(*self, i, j) == entry(before_dir, i, j));
                        assert(self.pending() =~= before_dir.pending());
                        assert forall|i: int, j: int| sq_on_board(i, j) implies #[trigger] way_ok(*self, i, j) by {
                            assert(way_ok(before_dir, i, j));
                        }
                    }
                    found = true;
                } else {
                    iter_dist = dist;
                    let ghost q0 = queued;
                    set_flag(&mut queued, nx as usize, ny as usize);
                    proof {
                        lemma_count_set(q0, queued, nx as int, ny as int, 81);
                    }
                }
            }
        }
        if self.get_entry(player_pos.x, player_pos.y).0 == PathBlock::Unreachable {
            return;
        }
        let ghost before_path = *self;
        self.recalculate_path(game);
        assert(forall|i: int, j: int| #[trigger] entry(*self, i, j) == entry(before_path, i, j));
        while self.queue.non_empty()
            invariant
                self.wf(),
                ways_open(*self, game.board.walls),
                dir_ok(*self, game.board.pos(start.player)),
                dir_reaches(*self, game.board.pos(start.player)),
                self.invalid_q@.len() == 0,
                self.player == start.player,
                queue.wf(),
                forall|k: int| 0 <= k < queue.view().len() ==> on_board_sq(#[trigger] queue.view()[k]),
            decreases self.queue.view().len(),
        {
            proof {
                assert(on_board_sq(self.queue.view()[0]));
            }
            let ghost before = *self;
            let e = self.queue.pop_first();
            proof {
                lemma_dir_reaches_same(before, *self, game.board.pos(start.player));
                assert(forall|x: int, y: int| #[trigger] entry(*self, x, y) == entry(before, x, y));
                assert forall|k: int| 0 <= k < self.queue.view().len() implies on_board_sq(#[trigger] self.queue.view()[k]) by {
                    assert(self.queue.view()[k] == before.queue.view()[k + 1]);
                }
                assert forall|x: int, y: int| sq_on_board(x, y) implies #[trigger] way_ok(*self, x, y) by {
                    assert(way_ok(before, x, y));
                }
            }
            if queue.count() < SQUARES {
                queue.insert(e);
            }
        }
        let ghost before = *self;
        self.queue = queue;
        proof {
            lemma_dir_reaches_same(before, *self, game.board.pos(start.player));
            assert(forall|x: int, y: int| #[trigger] entry(*self, x, y) == entry(before, x, y));
            assert forall|x: int, y: int| sq_on_board(x, y) implies #[trigger] way_ok(*self, x, y) by {
                assert(way_ok(before, x, y));
            }
        }
    }
}

proof fn lemma_count_zero(q: [[bool; 9]; 9], n: int)
    requires
        0 <= n <= 81,
        forall|i: int, j: int| 0 <= i < 9 && 0 <= j < 9 ==> !#[trigger] q@[j]@[i],
    ensures
        count_flags(q, n) == 0,
    decreases n,
{
    if n > 0 {
        lemma_count_zero(q, n - 1);
        lemma_cell_index(n - 1);
    }
}

/// A unit step from a square that lands on the board is among the steps that
/// `board_neighbors_unchecked` gives.
proof fn lemma_step_listed(x: int, y: int, dx: int, dy: int)
    requires
        crate::bot::carlo::board::is_unit_step(dx, dy),
        !spec_outside_board(x + dx, y + dy),
    ensures
        exists|j: int| 0 <= j < steps_on_board(x, y, 4).len() && #[trigger] steps_on_board(x, y, 4)[j] == (dx, dy),
{
    let k = if dx == -1 { 0int } else if dy == -1 { 1int } else if dx == 1 { 2int } else { 3int };
    assert(unit_steps()[k] == (dx, dy));
    lemma_listed_upto(x, y, k, 4);
}

proof fn lemma_listed_upto(x: int, y: int, k: int, n: int)
    requires
        0 <= k < n <= 4,
        !spec_outside_board(x + unit_steps()[k].0, y + unit_steps()[k].1),
    ensures
        exists|j: int| 0 <= j < steps_on_board(x, y, n).len() && #[trigger] steps_on_board(x, y, n)[j] == unit_steps()[k],
    decreases n,
{
    let prev = steps_on_board(x, y, n - 1);
    let all = steps_on_board(x, y, n);
    if k == n - 1 {
        assert(all[prev.len() as int] == unit_steps()[k]);
    } else {
        lemma_listed_upto(x, y, k, n - 1);
        let j = choose|j: int| 0 <= j < prev.len() && #[trigger] prev[j] == unit_steps()[k];
        assert(all[j] == prev[j]);
    }
}

impl Bfs {
    /// A fresh search for the player to move in `game`: the goal row at
    /// distance zero, everything else unreachable, then searched outwards.
    pub fn from_game(game: &Game) -> (b: Self)
        requires
            game.board.on_board(),
        ensures
            b.wf(),
            ways_open(b, game.board.walls),
            dir_ok(b, game.board.pos(game.player)),
            dir_reaches(b, game.board.pos(game.player)),
            b.invalid_q@.len() == 0,
            b.player == game.player,
    {
        let mut path = [[(PathBlock::Unreachable, 255u8); PIECE_GRID_WIDTH]; PIECE_GRID_HEIGHT];
        let mut queue: Buffer<(i8, i8), 81> = Buffer::new((0, 0));
        let y: usize = match game.player {
            Player::Black => 0,
            Player::White => PIECE_GRID_HEIGHT - 1,
        };
        let mut x: usize = 0;
        while x < PIECE_GRID_HEIGHT
            invariant
                x <= 9,
                y == goal_row(game.player),
                queue.wf(),
                queue.view().len() == x,
                forall|k: int| 0 <= k < queue.view().len() ==> on_board_sq(#[trigger] queue.view()[k]),
                forall|i: int, j: int| 0 <= i < 9 && 0 <= j < 9 ==> #[trigger] path@[j]@[i] == if j == y && i < x {
                    (PathBlock::Goal, 0u8)
                } else {
                    (PathBlock::Unreachable, 255u8)
                },
            decreases 9 - x,
        {
            let mut row = path[y];
            row[x] = (PathBlock::Goal, 0);
            path[y] = row;
            queue.insert((x as i8, y as i8));
            x += 1;
        }
        let mut bfs = Bfs {
            path,
            player: game.player,
            dir: (PathBlock::Unreachable, 255),
            on_path: [[false; PIECE_GRID_WIDTH]; PIECE_GRID_HEIGHT],
            queue,
            invalid_q: Vec::new(),
            invalid_q_i: 0,
        };
        proof {
            assert forall|i: int, j: int| sq_on_board(i, j) implies #[trigger] way_ok(bfs, i, j) by {
                assert(entry(bfs, i, j) == path@[j]@[i]);
            }
            assert forall|i: int, j: int| sq_on_board(i, j) implies match #[trigger] entry(bfs, i, j).0 {
                PathBlock::Dir(d) => !spec_wall_blocks(game.board.walls, i, j, spec_delta(d).0, spec_delta(d).1),
                _ => true,
            } by {
                assert(entry(bfs, i, j) == path@[j]@[i]);
            }
        }
        bfs.bfs(game);
        bfs
    }

    /// Marks unreachable, one after another, every square whose way leads into
    /// a square still to be marked, and records it in turn; no other entry
    /// changes.
    pub fn invalidate(&mut self, game: &Game)
        requires
            old(self).wf(),
            game.board.on_board(),
        ensures
            dir_ok(*old(self), game.board.pos(old(self).player)) ==> dir_ok(*final(self), game.board.pos(old(self).player)),
            forall|w: Walls| ways_open(*old(self), w) ==> #[trigger] ways_open(*final(self), w),
            dir_ok(*old(self), game.board.pos(old(self).player)) && dir_reaches(*old(self), game.board.pos(old(self).player))
                ==> dir_reaches(*final(self), game.board.pos(old(self).player)),
            final(self).on_path == old(self).on_path,
            final(self).wf(),
            final(self).pending().len() == 0,
            final(self).player == old(self).player,
            final(self).invalid_q@.len() >= old(self).invalid_q@.len(),
            forall|i: int, j: int| sq_on_board(i, j) ==> #[trigger] entry(*final(self), i, j) == entry(*old(self), i, j)
                || entry(*final(self), i, j) == (PathBlock::Unreachable, 255u8),
            forall|i: int, j: int| sq_on_board(i, j) ==> #[trigger] kept_or_cut(*old(self), *final(self), i, j),
            final(self).dir == old(self).dir || final(self).dir == (PathBlock::Unreachable, 255usize),
    {
        let player_pos = *game.board.player_position(self.player);
        let ghost start = *self;
        while self.invalid_q_i < self.invalid_q.len()
            invariant
                self.wf(),
                self.player == start.player,
                self.on_path == start.on_path,
                dir_ok(start, game.board.pos(start.player)) ==> dir_ok(*self, game.board.pos(start.player)),
                forall|i: int, j: int| sq_on_board(i, j) ==> #[trigger] entry(*self, i, j) == entry(start, i, j)
                    || entry(*self, i, j) == (PathBlock::Unreachable, 255u8),
                forall|i: int, j: int| sq_on_board(i, j) ==> #[trigger] kept_or_cut(start, *self, i, j),
                self.dir == start.dir || self.dir == (PathBlock::Unreachable, 255usize),
                self.invalid_q@.len() >= start.invalid_q@.len(),
                player_pos == game.board.pos(self.player),
                game.board.on_board(),
            decreases SQUARES - self.invalid_q_i,
        {
            let (x, y) = self.invalid_q[self.invalid_q_i];
            proof {
                assert(on_board_sq(self.invalid_q@[self.invalid_q_i as int]));
            }
            let steps = board_neighbors_unchecked(x, y);
            proof {
                crate::bot::carlo::board::lemma_steps_on_board(x as int, y as int, 4);
            }
            let ghost k0 = self.invalid_q_i;
            let mut k: usize = 0;
            while k < steps.len()
                invariant
                    k <= steps@.len(),
                    steps@.len() == steps_on_board(x as int, y as int, 4).len(),
                    forall|j: int| 0 <= j < steps@.len() ==> (#[trigger] steps@[j]).0 == steps_on_board(x as int, y as int, 4)[j].0
                        && steps@[j].1 == steps_on_board(x as int, y as int, 4)[j].1,
                    forall|j: int| 0 <= j < steps_on_board(x as int, y as int, 4).len() ==> {
                        let s = #[trigger] steps_on_board(x as int, y as int, 4)[j];
                        &&& crate::bot::carlo::board::is_unit_step(s.0, s.1)
                        &&& !spec_outside_board(x + s.0, y + s.1)
                    },
                    on_board_sq((x, y)),
                    self.invalid_q_i == k0,
                    k0 < self.invalid_q@.len(),
                    self.invalid_q@[k0 as int] == (x, y),
                    self.wf(),
                    self.player == start.player,
                    self.on_path == start.on_path,
                self.on_path == start.on_path,
                    dir_ok(start, game.board.pos(start.player)) ==> dir_ok(*self, game.board.pos(start.player)),
                dir_ok(start, game.board.pos(start.player)) ==> dir_ok(*self, game.board.pos(start.player)),
                    forall|i: int, j: int| sq_on_board(i, j) ==> #[trigger] entry(*self, i, j) == entry(start, i, j)
                        || entry(*self, i, j) == (PathBlock::Unreachable, 255u8),
                    forall|i: int, j: int| sq_on_board(i, j) ==> #[trigger] kept_or_cut(start, *self, i, j),
                    self.dir == start.dir || self.dir == (PathBlock::Unreachable, 255usize),
                    self.invalid_q@.len() >= start.invalid_q@.len(),
                    player_pos == game.board.pos(self.player),
                    game.board.on_board(),
                    forall|j: int| 0 <= j < k ==> {
                        let s = #[trigger] steps@[j];
                        entry(*self, x + s.0, y + s.1).0 != PathBlock::Dir(spec_reverse(spec_dir_of(s.0 as int, s.1 as int)))
                    },
                decreases steps@.len() - k,
            {
                let (dx, dy) = steps[k];
                proof {
                    assert(crate::bot::carlo::board::is_unit_step(dx as int, dy as int));
                    lemma_step_back(dx as int, dy as int);
                }
                let nx = x + dx;
                let ny = y + dy;
                let towards_invalid = Dir::from_delta((dx, dy)).reverse();
                if self.get_entry(nx as usize, ny as usize).0 == PathBlock::Dir(towards_invalid) {
                    let ghost before = *self;
                    self.mark_unreachable(nx, ny, &player_pos);
                    proof {
                        assert(kept_or_cut(start, before, nx as int, ny as int));
                        assert(entry(start, nx as int, ny as int) == entry(before, nx as int, ny as int));
                        assert(step_from(nx as int, ny as int, towards_invalid) == (x as int, y as int));
                        assert(before.invalid_q@[k0 as int] == (x, y));
                        assert(self.invalid_q@[k0 as int] == (x, y));
                        assert(self.invalids().contains((x, y)));
                        assert forall|i: int, j: int| sq_on_board(i, j) implies #[trigger] kept_or_cut(start, *self, i, j) by {
                            assert(kept_or_cut(start, before, i, j));
                            if !(i == nx && j == ny) {
                                assert(entry(*self, i, j) == entry(before, i, j));
                                if entry(*self, i, j) != entry(start, i, j) {
                                    match entry(start, i, j).0 {
                                        PathBlock::Dir(d) => {
                                            let q = (step_from(i, j, d).0 as i8, step_from(i, j, d).1 as i8);
                                            let w = choose|w: int| 0 <= w < before.invalid_q@.len() && before.invalid_q@[w] == q;
                                            assert(self.invalid_q@[w] == q);
                                        },
                                        _ => {},
                                    }
                                }
                            }
                        }
                        assert forall|j: int| 0 <= j < k + 1 implies {
                            let s = #[trigger] steps@[j];
                            entry(*self, x + s.0, y + s.1).0 != PathBlock::Dir(spec_reverse(spec_dir_of(s.0 as int, s.1 as int)))
                        } by {
                            let s = steps@[j];
                            if j < k && !(x + s.0 == nx && y + s.1 == ny) {
                                assert(entry(*self, x + s.0, y + s.1) == entry(before, x + s.0, y + s.1));
                            }
                        }
                    }
                }
                k += 1;
            }
            proof {
                let before = *self;
                assert forall|i: int, j: int| sq_on_board(i, j) implies #[trigger] way_ok(before, i, j) by {}
            }
            let ghost before = *self;
            self.invalid_q_i = self.invalid_q_i + 1;
            proof {
                let b2 = *self;
                assert(forall|i: int, j: int| #[trigger] entry(b2, i, j) == entry(before, i, j));
                assert(b2.invalids() == before.invalids());
                assert forall|i: int, j: int| sq_on_board(i, j) implies #[trigger] kept_or_cut(start, b2, i, j) by {
                    assert(kept_or_cut(start, before, i, j));
                }
                assert forall|i: int, j: int| sq_on_board(i, j) implies #[trigger] way_ok(b2, i, j) by {
                    assert(way_ok(before, i, j));
                    match entry(before, i, j).0 {
                        PathBlock::Dir(d) => {
                            let (ti, tj) = step_from(i, j, d);
                            if entry(before, ti, tj).0 == PathBlock::Unreachable {
                                let w = choose|w: int| 0 <= w < before.pending().len() && before.pending()[w] == (ti as i8, tj as i8);
                                if w == 0 {
                                    assert((ti, tj) == (x as int, y as int));
                                    let dx = i - x;
                                    let dy = j - y;
                                    assert(crate::bot::carlo::board::is_unit_step(dx, dy));
                                    lemma_step_listed(x as int, y as int, dx, dy);
                                    let jj = choose|jj: int| 0 <= jj < steps_on_board(x as int, y as int, 4).len() && #[trigger] steps_on_board(x as int, y as int, 4)[jj] == (dx, dy);
                                    assert(steps@[jj].0 == dx && steps@[jj].1 == dy);
                                    assert(d == spec_reverse(spec_dir_of(dx, dy)));
                                    assert(false);
                                } else {
                                    assert(b2.pending()[w - 1] == before.pending()[w]);
                                }
                            }
                        },
                        _ => {},
                    }
                }
            }
        }
        proof {
            lemma_ways_open_kept(start, *self);
            let pos = game.board.pos(start.player);
            if dir_ok(start, pos) && dir_reaches(start, pos) && self.dir.0 != PathBlock::Unreachable {
                assert(self.dir == start.dir);
                lemma_marked_way_invalidated(start, *self, pos.x as int, pos.y as int, start.dir.1 as int);
            }
        }
    }
}

/// The entry of `(x, y)` in `now` is that of `start`, or `(x, y)` was marked
/// unreachable because its way in `start` led into a square that `now` lists as
/// made unreachable.
pub open spec fn kept_or_cut(start: Bfs, now: Bfs, x: int, y: int) -> bool {
    ||| entry(now, x, y) == entry(start, x, y)
    ||| entry(now, x, y) == (PathBlock::Unreachable, 255u8) && match entry(start, x, y).0 {
        PathBlock::Dir(d) => now.invalids().contains((step_from(x, y, d).0 as i8, step_from(x, y, d).1 as i8)),
        _ => false,
    }
}

/// Whether the search has a way (or the goal) for the square `s`.
pub open spec fn reached(b: Bfs, s: (i8, i8)) -> bool {
    entry(b, s.0 as int, s.1 as int).0 != PathBlock::Unreachable
}

/// The number of steps that the search gives for the square `s`.
pub open spec fn dist(b: Bfs, s: (i8, i8)) -> int {
    entry(b, s.0 as int, s.1 as int).1 as int
}

/// The squares of `q` come in order of their distances.
pub open spec fn sorted_by_dist(b: Bfs, q: Seq<(i8, i8)>) -> bool {
    forall|i: int, j: int| 0 <= i <= j < q.len() ==> dist(b, #[trigger] q[i]) <= dist(b, #[trigger] q[j])
}

/// The squares of a queue being built: distinct reached squares of the board,
/// and exactly those whose flag is set.
pub open spec fn merge_ok(b: Bfs, queued: [[bool; 9]; 9], m: Seq<(i8, i8)>) -> bool {
    &&& m.no_duplicates()
    &&& forall|k: int| 0 <= k < m.len() ==> on_board_sq(#[trigger] m[k]) && reached(b, m[k])
    &&& forall|s: (i8, i8)| on_board_sq(s) ==> (#[trigger] queued@[s.1 as int]@[s.0 as int] <==> m.contains(s))
}

impl Bfs {
    /// Appends the square `s` to `merged` when it is reached and not there yet.
    fn enqueue_new(&self, queued: &mut [[bool; 9]; 9], merged: &mut Buffer<(i8, i8), 81>, s: (i8, i8))
        requires
            old(merged).wf(),
            on_board_sq(s),
            merge_ok(*self, *old(queued), old(merged).view()),
        ensures
            final(merged).wf(),
            merge_ok(*self, *final(queued), final(merged).view()),
            final(merged).view() == if !old(merged).view().contains(s) && reached(*self, s) {
                old(merged).view().push(s)
            } else {
                old(merged).view()
            },
    {
        let (x, y) = (s.0 as usize, s.1 as usize);
        proof {
            assert(queued@[s.1 as int]@[s.0 as int] <==> merged.view().contains(s));
        }
        if !queued[y][x] && self.get_entry(x, y).0 != PathBlock::Unreachable {
            let ghost m0 = merged.view();
            let ghost q0 = *queued;
            let ghost pushed = m0.push(s);
            proof {
                assert(pushed.no_duplicates()) by {
                    assert forall|a: int, b: int| 0 <= a < b < pushed.len() implies pushed[a] != pushed[b] by {
                        if b == pushed.len() - 1 {
                            assert(pushed[a] == m0[a]);
                        }
                    }
                }
                assert forall|k: int| 0 <= k < pushed.len() implies on_board_sq(#[trigger] pushed[k]) by {
                    if k < m0.len() {
                        assert(pushed[k] == m0[k]);
                    }
                }
                lemma_distinct_squares(pushed);
            }
            set_flag(queued, x, y);
            merged.insert(s);
            proof {
                let m = merged.view();
                assert(m == pushed);
                assert forall|k: int| 0 <= k < m.len() implies on_board_sq(#[trigger] m[k]) && reached(*self, m[k]) by {
                    if k < m0.len() {
                        assert(m[k] == m0[k]);
                    }
                }
                assert forall|t: (i8, i8)| on_board_sq(t) implies (#[trigger] queued@[t.1 as int]@[t.0 as int] <==> m.contains(t)) by {
                    if t == s {
                        assert(m[m.len() - 1] == s);
                    } else {
                        assert(queued@[t.1 as int]@[t.0 as int] == q0@[t.1 as int]@[t.0 as int]);
                        if m0.contains(t) {
                            let k = choose|k: int| 0 <= k < m0.len() && m0[k] == t;
                            assert(m[k] == t);
                        }
                        if m.contains(t) {
                            let k = choose|k: int| 0 <= k < m.len() && m[k] == t;
                            assert(m0[k] == t);
                        }
                    }
                }
            }
        }
    }
}

/// A queue that may have grown by `e` keeps what it held, and holds nothing
/// else but `e`.
proof fn lemma_grown(m: Seq<(i8, i8)>, m2: Seq<(i8, i8)>, e: (i8, i8))
    requires
        m2 == m || m2 == m.push(e),
    ensures
        forall|x: (i8, i8)| m.contains(x) ==> #[trigger] m2.contains(x),
        forall|k: int| 0 <= k < m2.len() ==> #[trigger] m2[k] == e || m.contains(m2[k]),
        m2 == m.push(e) ==> m2.contains(e),
{
    if m2 == m.push(e) {
        assert(m2[m.len() as int] == e);
    }
    assert forall|x: (i8, i8)| m.contains(x) implies #[trigger] m2.contains(x) by {
        let k = choose|k: int| 0 <= k < m.len() && m[k] == x;
        assert(m2[k] == x);
    }
    assert forall|k: int| 0 <= k < m2.len() implies #[trigger] m2[k] == e || m.contains(m2[k]) by {
        if k < m.len() {
            assert(m2[k] == m[k]);
        }
    }
}

impl Bfs {
    /// Merges the squares of `queue` into the squares waiting to be searched,
    /// keeping each reached square once, and taking the nearer head first, so
    /// that two lists in order of distance give one in order of distance.
    fn insert_queue(&mut self, queue: &Vec<(i8, i8)>)
        requires
            old(self).wf(),
            forall|k: int| 0 <= k < queue@.len() ==> on_board_sq(#[trigger] queue@[k]),
        ensures
            final(self).wf(),
            final(self).path == old(self).path,
            final(self).dir == old(self).dir,
            final(self).on_path == old(self).on_path,
            final(self).player == old(self).player,
            final(self).invalid_q == old(self).invalid_q,
            final(self).invalid_q_i == old(self).invalid_q_i,
            final(self).queue.view().no_duplicates(),
            forall|k: int| 0 <= k < final(self).queue.view().len() ==> reached(*final(self), #[trigger] final(self).queue.view()[k]),
            forall|e: (i8, i8)| #[trigger] final(self).queue.view().contains(e) ==> old(self).queue.view().contains(e) || queue@.contains(e),
            forall|e: (i8, i8)| (old(self).queue.view().contains(e) || queue@.contains(e)) && reached(*old(self), e)
                ==> #[trigger] final(self).queue.view().contains(e),
            sorted_by_dist(*old(self), old(self).queue.view()) && sorted_by_dist(*old(self), queue@)
                ==> sorted_by_dist(*final(self), final(self).queue.view()),
    {
        let a = self.queue.iter();
        let mut queued = [[false; PIECE_GRID_WIDTH]; PIECE_GRID_HEIGHT];
        let mut merged: Buffer<(i8, i8), 81> = Buffer::new((0, 0));
        let ghost ss = sorted_by_dist(*self, a@) && sorted_by_dist(*self, queue@);
        proof {
            assert forall|t: (i8, i8)| on_board_sq(t) implies (#[trigger] queued@[t.1 as int]@[t.0 as int] <==> merged.view().contains(t)) by {
                assert(!queued@[t.1 as int]@[t.0 as int]);
            }
        }
        let mut i: usize = 0;
        let mut j: usize = 0;
        while i < a.len() && j < queue.len()
            invariant
                self.wf(),
                a@ == self.queue.view(),
                ss == (sorted_by_dist(*self, a@) && sorted_by_dist(*self, queue@)),
                i <= a@.len(),
                j <= queue@.len(),
                forall|k: int| 0 <= k < queue@.len() ==> on_board_sq(#[trigger] queue@[k]),
                merged.wf(),
                merge_ok(*self, queued, merged.view()),
                forall|k: int| 0 <= k < merged.view().len() ==> a@.contains(#[trigger] merged.view()[k]) || queue@.contains(merged.view()[k]),
                forall|k: int| 0 <= k < i ==> reached(*self, #[trigger] a@[k]) ==> merged.view().contains(a@[k]),
                forall|k: int| 0 <= k < j ==> reached(*self, #[trigger] queue@[k]) ==> merged.view().contains(queue@[k]),
                ss ==> sorted_by_dist(*self, merged.view()),
                ss ==> forall|p: int, k: int| 0 <= p < merged.view().len() && i <= k < a@.len() ==> dist(*self, #[trigger] merged.view()[p]) <= dist(*self, #[trigger] a@[k]),
                ss ==> forall|p: int, k: int| 0 <= p < merged.view().len() && j <= k < queue@.len() ==> dist(*self, #[trigger] merged.view()[p]) <= dist(*self, #[trigger] queue@[k]),
            decreases a@.len() - i + queue@.len() - j,
        {
            let h = a[i];
            let q = queue[j];
            proof {
                assert(on_board_sq(self.queue.view()[i as int]));
                assert(on_board_sq(queue@[j as int]));
            }
            let ghost m0 = merged.view();
            if self.get_entry(h.0 as usize, h.1 as usize).1 < self.get_entry(q.0 as usize, q.1 as usize).1 {
                self.enqueue_new(&mut queued, &mut merged, h);
                proof {
                    lemma_grown(m0, merged.view(), h);
                assert(reached(*self, h) ==> merged.view().contains(h));
                    assert(reached(*self, h) ==> merged.view().contains(h));
                    assert(a@.contains(h)) by { assert(a@[i as int] == h); }
                    if ss {
                        let m = merged.view();
                        assert forall|p: int, k: int| 0 <= p < m.len() && i + 1 <= k < a@.len() implies dist(*self, #[trigger] m[p]) <= dist(*self, #[trigger] a@[k]) by {
                            assert(dist(*self, a@[i as int]) <= dist(*self, a@[k]));
                            if p < m0.len() {
                                assert(m[p] == m0[p]);
                            }
                        }
                        assert forall|p: int, k: int| 0 <= p < m.len() && j <= k < queue@.len() implies dist(*self, #[trigger] m[p]) <= dist(*self, #[trigger] queue@[k]) by {
                            assert(dist(*self, queue@[j as int]) <= dist(*self, queue@[k]));
                            if p < m0.len() {
                                assert(m[p] == m0[p]);
                            }
                        }
                        assert forall|p: int, r: int| 0 <= p <= r < m.len() implies dist(*self, #[trigger] m[p]) <= dist(*self, #[trigger] m[r]) by {
                            if r >= m0.len() {
                                if p < m0.len() {
                                    assert(m[p] == m0[p]);
                                    assert(dist(*self, m0[p]) <= dist(*self, a@[i as int]));
                                }
                            } else {
                                assert(m[p] == m0[p]);
                                assert(m[r] == m0[r]);
                            }
                        }
                    }
                }
                i += 1;
            } else {
                self.enqueue_new(&mut queued, &mut merged, q);
                proof {
                    lemma_grown(m0, merged.view(), q);
                assert(reached(*self, q) ==> merged.view().contains(q));
                    assert(reached(*self, q) ==> merged.view().contains(q));
                    assert(queue@.contains(q)) by { assert(queue@[j as int] == q); }
                    if ss {
                        let m = merged.view();
                        assert forall|p: int, k: int| 0 <= p < m.len() && i <= k < a@.len() implies dist(*self, #[trigger] m[p]) <= dist(*self, #[trigger] a@[k]) by {
                            assert(dist(*self, a@[i as int]) <= dist(*self, a@[k]));
                            if p < m0.len() {
                                assert(m[p] == m0[p]);
                            }
                        }
                        assert forall|p: int, k: int| 0 <= p < m.len() && j + 1 <= k < queue@.len() implies dist(*self, #[trigger] m[p]) <= dist(*self, #[trigger] queue@[k]) by {
                            assert(dist(*self, queue@[j as int]) <= dist(*self, queue@[k]));
                            if p < m0.len() {
                                assert(m[p] == m0[p]);
                            }
                        }
                        assert forall|p: int, r: int| 0 <= p <= r < m.len() implies dist(*self, #[trigger] m[p]) <= dist(*self, #[trigger] m[r]) by {
                            if r >= m0.len() {
                                if p < m0.len() {
                                    assert(m[p] == m0[p]);
                                    assert(dist(*self, m0[p]) <= dist(*self, queue@[j as int]));
                                }
                            } else {
                                assert(m[p] == m0[p]);
                                assert(m[r] == m0[r]);
                            }
                        }
                    }
                }
                j += 1;
            }
        }
        while i < a.len()
            invariant
                self.wf(),
                a@ == self.queue.view(),
                ss == (sorted_by_dist(*self, a@) && sorted_by_dist(*self, queue@)),
                i <= a@.len(),
                j <= queue@.len(),
                i < a@.len() ==> j == queue@.len(),
                forall|k: int| 0 <= k < queue@.len() ==> on_board_sq(#[trigger] queue@[k]),
                merged.wf(),
                merge_ok(*self, queued, merged.view()),
                forall|k: int| 0 <= k < merged.view().len() ==> a@.contains(#[trigger] merged.view()[k]) || queue@.contains(merged.view()[k]),
                forall|k: int| 0 <= k < i ==> reached(*self, #[trigger] a@[k]) ==> merged.view().contains(a@[k]),
                forall|k: int| 0 <= k < j ==> reached(*self, #[trigger] queue@[k]) ==> merged.view().contains(queue@[k]),
                ss ==> sorted_by_dist(*self, merged.view()),
                ss ==> forall|p: int, k: int| 0 <= p < merged.view().len() && i <= k < a@.len() ==> dist(*self, #[trigger] merged.view()[p]) <= dist(*self, #[trigger] a@[k]),
                ss ==> forall|p: int, k: int| 0 <= p < merged.view().len() && j <= k < queue@.len() ==> dist(*self, #[trigger] merged.view()[p]) <= dist(*self, #[trigger] queue@[k]),
            decreases a@.len() - i,
        {
            let h = a[i];
            proof {
                assert(on_board_sq(self.queue.view()[i as int]));
            }
            let ghost m0 = merged.view();
            self.enqueue_new(&mut queued, &mut merged, h);
            proof {
                lemma_grown(m0, merged.view(), h);
                assert(reached(*self, h) ==> merged.view().contains(h));
                assert(a@.contains(h)) by { assert(a@[i as int] == h); }
                if ss {
                    let m = merged.view();
                    assert forall|p: int, k: int| 0 <= p < m.len() && i + 1 <= k < a@.len() implies dist(*self, #[trigger] m[p]) <= dist(*self, #[trigger] a@[k]) by {
                        assert(dist(*self, a@[i as int]) <= dist(*self, a@[k]));
                        if p < m0.len() {
                            assert(m[p] == m0[p]);
                        }
                    }
                    assert forall|p: int, r: int| 0 <= p <= r < m.len() implies dist(*self, #[trigger] m[p]) <= dist(*self, #[trigger] m[r]) by {
                        if r >= m0.len() {
                            if p < m0.len() {
                                assert(m[p] == m0[p]);
                                assert(dist(*self, m0[p]) <= dist(*self, a@[i as int]));
                            }
                        } else {
                            assert(m[p] == m0[p]);
                            assert(m[r] == m0[r]);
                        }
                    }
                }
            }
            i += 1;
        }
        while j < queue.len()
            invariant
                self.wf(),
                a@ == self.queue.view(),
                ss == (sorted_by_dist(*self, a@) && sorted_by_dist(*self, queue@)),
                i == a@.len(),
                j <= queue@.len(),
                forall|k: int| 0 <= k < queue@.len() ==> on_board_sq(#[trigger] queue@[k]),
                merged.wf(),
                merge_ok(*self, queued, merged.view()),
                forall|k: int| 0 <= k < merged.view().len() ==> a@.contains(#[trigger] merged.view()[k]) || queue@.contains(merged.view()[k]),
                forall|k: int| 0 <= k < i ==> reached(*self, #[trigger] a@[k]) ==> merged.view().contains(a@[k]),
                forall|k: int| 0 <= k < j ==> reached(*self, #[trigger] queue@[k]) ==> merged.view().contains(queue@[k]),
                ss ==> sorted_by_dist(*self, merged.view()),
                ss ==> forall|p: int, k: int| 0 <= p < merged.view().len() && j <= k < queue@.len() ==> dist(*self, #[trigger] merged.view()[p]) <= dist(*self, #[trigger] queue@[k]),
            decreases queue@.len() - j,
        {
            let q = queue[j];
            proof {
                assert(on_board_sq(queue@[j as int]));
            }
            let ghost m0 = merged.view();
            self.enqueue_new(&mut queued, &mut merged, q);
            proof {
                lemma_grown(m0, merged.view(), q);
                assert(reached(*self, q) ==> merged.view().contains(q));
                assert(queue@.contains(q)) by { assert(queue@[j as int] == q); }
                if ss {
                    let m = merged.view();
                    assert forall|p: int, k: int| 0 <= p < m.len() && j + 1 <= k < queue@.len() implies dist(*self, #[trigger] m[p]) <= dist(*self, #[trigger] queue@[k]) by {
                        assert(dist(*self, queue@[j as int]) <= dist(*self, queue@[k]));
                        if p < m0.len() {
                            assert(m[p] == m0[p]);
                        }
                    }
                    assert forall|p: int, r: int| 0 <= p <= r < m.len() implies dist(*self, #[trigger] m[p]) <= dist(*self, #[trigger] m[r]) by {
                        if r >= m0.len() {
                            if p < m0.len() {
                                assert(m[p] == m0[p]);
                                assert(dist(*self, m0[p]) <= dist(*self, queue@[j as int]));
                            }
                        } else {
                            assert(m[p] == m0[p]);
                            assert(m[r] == m0[r]);
                        }
                    }
                }
            }
            j += 1;
        }
        let ghost before = *self;
        self.queue = merged;
        proof {
            assert(forall|x: int, y: int| #[trigger] entry(*self, x, y) == entry(before, x, y));
            assert forall|x: int, y: int| sq_on_board(x, y) implies #[trigger] way_ok(*self, x, y) by {
                assert(way_ok(before, x, y));
            }
            let m = self.queue.view();
            assert forall|e: (i8, i8)| #[trigger] m.contains(e) implies before.queue.view().contains(e) || queue@.contains(e) by {
                let k = choose|k: int| 0 <= k < m.len() && m[k] == e;
            }
            assert forall|e: (i8, i8)| (before.queue.view().contains(e) || queue@.contains(e)) && reached(before, e) implies #[trigger] m.contains(e) by {
                if before.queue.view().contains(e) {
                    let k = choose|k: int| 0 <= k < a@.len() && a@[k] == e;
                    assert(reached(before, a@[k]));
                } else {
                    let k = choose|k: int| 0 <= k < queue@.len() && queue@[k] == e;
                    assert(reached(before, queue@[k]));
                }
            }
        }
    }
}

/// `n` is a square of the board one unit step from `s`, with no wall across
/// the step.
pub open spec fn open_neighbor(walls: Walls, s: (i8, i8), n: (i8, i8)) -> bool {
    let dx = n.0 - s.0;
    let dy = n.1 - s.1;
    &&& crate::bot::carlo::board::is_unit_step(dx, dy)
    &&& on_board_sq(n)
    &&& !spec_wall_blocks(walls, s.0 as int, s.1 as int, dx, dy)
}

/// `m` is an open neighbour of `s` that the search reached, and no other such
/// neighbour is nearer the goal row.
pub open spec fn nearest_neighbor(b: Bfs, walls: Walls, s: (i8, i8), m: (i8, i8)) -> bool {
    &&& open_neighbor(walls, s, m)
    &&& reached(b, m)
    &&& forall|n: (i8, i8)| open_neighbor(walls, s, n) && reached(b, n) ==> dist(b, m) <= #[trigger] dist(b, n)
}

/// A best square found so far, at a distance of at most `d`.
spec fn at_most(best: Option<((i8, i8), u8)>, d: int) -> bool {
    match best {
        Some(b) => b.1 <= d,
        None => false,
    }
}

impl Bfs {
    /// The open neighbour of `s` that the search reached at the smallest
    /// distance (the first such, in the order of the steps), if any.
    fn best_neighbor(&self, game: &Game, s: (i8, i8)) -> (r: Option<(i8, i8)>)
        requires
            on_board_sq(s),
        ensures
            match r {
                Some(n) => nearest_neighbor(*self, game.board.walls, s, n),
                None => forall|m: (i8, i8)| open_neighbor(game.board.walls, s, m) ==> !#[trigger] reached(*self, m),
            },
    {
        let (x, y) = s;
        let steps = board_neighbors_unchecked(x, y);
        proof {
            crate::bot::carlo::board::lemma_steps_on_board(x as int, y as int, 4);
        }
        let mut best: Option<((i8, i8), u8)> = None;
        let mut k: usize = 0;
        while k < steps.len()
            invariant
                k <= steps@.len(),
                steps@.len() == steps_on_board(x as int, y as int, 4).len(),
                forall|j: int| 0 <= j < steps@.len() ==> (#[trigger] steps@[j]).0 == steps_on_board(x as int, y as int, 4)[j].0
                    && steps@[j].1 == steps_on_board(x as int, y as int, 4)[j].1,
                forall|j: int| 0 <= j < steps_on_board(x as int, y as int, 4).len() ==> {
                    let t = #[trigger] steps_on_board(x as int, y as int, 4)[j];
                    &&& crate::bot::carlo::board::is_unit_step(t.0, t.1)
                    &&& !spec_outside_board(x + t.0, y + t.1)
                },
                on_board_sq((x, y)),
                s == (x, y),
                match best {
                    Some((n, d)) => {
                        &&& open_neighbor(game.board.walls, s, n)
                        &&& reached(*self, n)
                        &&& d == dist(*self, n)
                    },
                    None => true,
                },
                forall|j: int| 0 <= j < k ==> {
                    let t = #[trigger] steps@[j];
                    entry(*self, x + t.0, y + t.1).0 != PathBlock::Unreachable
                        && !spec_wall_blocks(game.board.walls, x as int, y as int, t.0 as int, t.1 as int)
                        ==> at_most(best, entry(*self, x + t.0, y + t.1).1 as int)
                },
            decreases steps@.len() - k,
        {
            let (dx, dy) = steps[k];
            proof {
                assert(crate::bot::carlo::board::is_unit_step(dx as int, dy as int));
            }
            let nx = x + dx;
            let ny = y + dy;
            let there = self.get_entry(nx as usize, ny as usize);
            if there.0 != PathBlock::Unreachable && !wall_blocks(game, x, y, dx, dy) {
                let better = match best {
                    Some((_, d)) => there.1 < d,
                    None => true,
                };
                if better {
                    best = Some(((nx, ny), there.1));
                }
            }
            k += 1;
        }
        proof {
            let walls = game.board.walls;
            assert forall|m: (i8, i8)| open_neighbor(walls, s, m) && reached(*self, m)
                implies at_most(best, #[trigger] dist(*self, m)) by {
                let dx = m.0 - x;
                let dy = m.1 - y;
                lemma_step_listed(x as int, y as int, dx, dy);
                let j = choose|j: int| 0 <= j < steps_on_board(x as int, y as int, 4).len() && #[trigger] steps_on_board(x as int, y as int, 4)[j] == (dx, dy);
                let t = steps@[j];
                assert(t.0 == dx && t.1 == dy);
            }
            if best is None {
                assert forall|m: (i8, i8)| open_neighbor(walls, s, m) implies !#[trigger] reached(*self, m) by {
                    if reached(*self, m) {
                        assert(at_most(best, dist(*self, m)));
                    }
                }
            }
        }
        match best {
            Some((n, _)) => Some(n),
            None => None,
        }
    }
}

impl Bfs {
    /// The squares of `border` in order of their distances, those at equal
    /// distances in the order they came.
    fn sort_by_distance(&self, border: &Vec<(i8, i8)>) -> (r: Vec<(i8, i8)>)
        requires
            forall|k: int| 0 <= k < border@.len() ==> on_board_sq(#[trigger] border@[k]),
        ensures
            sorted_by_dist(*self, r@),
            forall|k: int| 0 <= k < r@.len() ==> on_board_sq(#[trigger] r@[k]),
            forall|e: (i8, i8)| #[trigger] r@.contains(e) <==> border@.contains(e),
    {
        let mut mi: u8 = 255;
        let mut ma: u8 = 0;
        let mut i: usize = 0;
        while i < border.len()
            invariant
                i <= border@.len(),
                forall|k: int| 0 <= k < border@.len() ==> on_board_sq(#[trigger] border@[k]),
                forall|k: int| 0 <= k < i ==> mi <= #[trigger] dist(*self, border@[k]) <= ma,
            decreases border@.len() - i,
        {
            proof {
                assert(on_board_sq(border@[i as int]));
            }
            let d = self.get_entry(border[i].0 as usize, border[i].1 as usize).1;
            if d < mi {
                mi = d;
            }
            if d > ma {
                ma = d;
            }
            i += 1;
        }
        let mut out: Vec<(i8, i8)> = Vec::new();
        let mut d: u16 = mi as u16;
        while d <= ma as u16
            invariant
                mi <= d,
                forall|k: int| 0 <= k < border@.len() ==> on_board_sq(#[trigger] border@[k]),
                forall|k: int| 0 <= k < border@.len() ==> mi <= #[trigger] dist(*self, border@[k]) <= ma,
                sorted_by_dist(*self, out@),
                forall|k: int| 0 <= k < out@.len() ==> dist(*self, #[trigger] out@[k]) < d && border@.contains(out@[k]),
                forall|k: int| 0 <= k < border@.len() && dist(*self, #[trigger] border@[k]) < d ==> out@.contains(border@[k]),
            decreases ma as int + 1 - d,
        {
            let mut i: usize = 0;
            while i < border.len()
                invariant
                    mi <= d <= ma,
                    i <= border@.len(),
                    forall|k: int| 0 <= k < border@.len() ==> on_board_sq(#[trigger] border@[k]),
                    sorted_by_dist(*self, out@),
                    forall|k: int| 0 <= k < out@.len() ==> dist(*self, #[trigger] out@[k]) <= d && border@.contains(out@[k]),
                    forall|k: int| 0 <= k < border@.len() && dist(*self, #[trigger] border@[k]) < d ==> out@.contains(border@[k]),
                    forall|k: int| 0 <= k < i && dist(*self, #[trigger] border@[k]) == d ==> out@.contains(border@[k]),
                decreases border@.len() - i,
            {
                proof {
                    assert(on_board_sq(border@[i as int]));
                }
                let e = border[i];
                if d == self.get_entry(e.0 as usize, e.1 as usize).1 as u16 {
                    let ghost o0 = out@;
                    out.push(e);
                    proof {
                        assert(border@.contains(e)) by {
                            assert(border@[i as int] == e);
                        }
                        lemma_grown(o0, out@, e);
                        assert forall|p: int, q: int| 0 <= p <= q < out@.len() implies dist(*self, #[trigger] out@[p]) <= dist(*self, #[trigger] out@[q]) by {
                            if q < o0.len() {
                                assert(out@[p] == o0[p] && out@[q] == o0[q]);
                            } else if p < o0.len() {
                                assert(out@[p] == o0[p]);
                            }
                        }
                        assert forall|k: int| 0 <= k < out@.len() implies dist(*self, #[trigger] out@[k]) <= d && border@.contains(out@[k]) by {
                            if k < o0.len() {
                                assert(out@[k] == o0[k]);
                            }
                        }
                    }
                }
                i += 1;
            }
            d += 1;
        }
        proof {
            assert forall|k: int| 0 <= k < out@.len() implies on_board_sq(#[trigger] out@[k]) by {
                assert(border@.contains(out@[k]));
                let j = choose|j: int| 0 <= j < border@.len() && border@[j] == out@[k];
                assert(on_board_sq(border@[j]));
            }
            assert forall|e: (i8, i8)| #[trigger] out@.contains(e) <==> border@.contains(e) by {
                if out@.contains(e) {
                    let k = choose|k: int| 0 <= k < out@.len() && out@[k] == e;
                    assert(border@.contains(out@[k]));
                }
                if border@.contains(e) {
                    let k = choose|k: int| 0 <= k < border@.len() && border@[k] == e;
                    assert(dist(*self, border@[k]) <= ma);
                }
            }
        }
        out
    }
}

impl Bfs {
    /// Seeds the search again once the squares made unreachable are all
    /// marked: a nearest open reached neighbour of each of them joins the
    /// squares waiting to be searched, in order of distance, and the record of
    /// unreachable squares is cleared.
    pub fn seed_bfs(&mut self, game: &Game)
        requires
            old(self).wf(),
            old(self).pending().len() == 0,
        ensures
            forall|w: Walls| ways_open(*old(self), w) ==> #[trigger] ways_open(*final(self), w),
            final(self).wf(),
            final(self).invalid_q@.len() == 0,
            final(self).path == old(self).path,
            final(self).dir == old(self).dir,
            final(self).on_path == old(self).on_path,
            final(self).player == old(self).player,
            final(self).queue.view().no_duplicates(),
            forall|k: int| 0 <= k < final(self).queue.view().len() ==> reached(*final(self), #[trigger] final(self).queue.view()[k]),
            forall|e: (i8, i8)| old(self).queue.view().contains(e) && reached(*old(self), e) ==> #[trigger] final(self).queue.view().contains(e),
            forall|e: (i8, i8)| #[trigger] final(self).queue.view().contains(e) ==> old(self).queue.view().contains(e)
                || exists|k: int| 0 <= k < old(self).invalid_q@.len() && nearest_neighbor(*old(self), game.board.walls, #[trigger] old(self).invalid_q@[k], e),
            forall|k: int, n: (i8, i8)| 0 <= k < old(self).invalid_q@.len() && open_neighbor(game.board.walls, #[trigger] old(self).invalid_q@[k], n) && #[trigger] reached(*old(self), n)
                ==> exists|m: (i8, i8)| #[trigger] final(self).queue.view().contains(m) && nearest_neighbor(*old(self), game.board.walls, old(self).invalid_q@[k], m),
            sorted_by_dist(*old(self), old(self).queue.view()) ==> sorted_by_dist(*final(self), final(self).queue.view()),
    {
        let walls = Ghost(game.board.walls);
        let mut border: Buffer<(i8, i8), 81> = Buffer::new((0, 0));
        let mut border_contains = [[false; PIECE_GRID_WIDTH]; PIECE_GRID_HEIGHT];
        proof {
            assert forall|t: (i8, i8)| on_board_sq(t) implies (#[trigger] border_contains@[t.1 as int]@[t.0 as int] <==> border.view().contains(t)) by {
                assert(!border_contains@[t.1 as int]@[t.0 as int]);
            }
        }
        let mut i: usize = 0;
        while i < self.invalid_q.len()
            invariant
                self.wf(),
                walls@ == game.board.walls,
                i <= self.invalid_q@.len(),
                border.wf(),
                merge_ok(*self, border_contains, border.view()),
                forall|k: int| 0 <= k < border.view().len() ==> exists|j: int| 0 <= j < i && nearest_neighbor(*self, walls@, #[trigger] self.invalid_q@[j], #[trigger] border.view()[k]),
                forall|j: int, n: (i8, i8)| 0 <= j < i && open_neighbor(walls@, #[trigger] self.invalid_q@[j], n) && #[trigger] reached(*self, n)
                    ==> exists|m: (i8, i8)| #[trigger] border.view().contains(m) && nearest_neighbor(*self, walls@, self.invalid_q@[j], m),
            decreases self.invalid_q@.len() - i,
        {
            let s = self.invalid_q[i];
            proof {
                assert(on_board_sq(self.invalid_q@[i as int]));
            }
            let best = self.best_neighbor(game, s);
            let ghost m0 = border.view();
            match best {
                Some(n) => {
                    self.enqueue_new(&mut border_contains, &mut border, n);
                    proof {
                        lemma_grown(m0, border.view(), n);
                        assert(border.view().contains(n));
                        let m = border.view();
                        assert forall|k: int| 0 <= k < m.len() implies exists|j: int| 0 <= j < i + 1 && nearest_neighbor(*self, walls@, #[trigger] self.invalid_q@[j], #[trigger] m[k]) by {
                            if m[k] == n {
                                assert(nearest_neighbor(*self, walls@, self.invalid_q@[i as int], m[k]));
                            } else {
                                let kk = choose|kk: int| 0 <= kk < m0.len() && m0[kk] == m[k];
                                let j = choose|j: int| 0 <= j < i && nearest_neighbor(*self, walls@, #[trigger] self.invalid_q@[j], #[trigger] m0[kk]);
                                assert(nearest_neighbor(*self, walls@, self.invalid_q@[j], m[k]));
                            }
                        }
                        assert forall|j: int, t: (i8, i8)| 0 <= j < i + 1 && open_neighbor(walls@, #[trigger] self.invalid_q@[j], t) && #[trigger] reached(*self, t)
                            implies exists|mm: (i8, i8)| #[trigger] m.contains(mm) && nearest_neighbor(*self, walls@, self.invalid_q@[j], mm) by {
                            if j == i {
                                assert(m.contains(n) && nearest_neighbor(*self, walls@, self.invalid_q@[j], n));
                            } else {
                                let mm = choose|mm: (i8, i8)| #[trigger] m0.contains(mm) && nearest_neighbor(*self, walls@, self.invalid_q@[j], mm);
                                assert(m.contains(mm));
                            }
                        }
                    }
                },
                None => {
                    proof {
                        let m = border.view();
                        assert forall|k: int| 0 <= k < m.len() implies exists|j: int| 0 <= j < i + 1 && nearest_neighbor(*self, walls@, #[trigger] self.invalid_q@[j], #[trigger] m[k]) by {
                            let j = choose|j: int| 0 <= j < i && nearest_neighbor(*self, walls@, #[trigger] self.invalid_q@[j], #[trigger] m[k]);
                        }
                        assert forall|j: int, t: (i8, i8)| 0 <= j < i + 1 && open_neighbor(walls@, #[trigger] self.invalid_q@[j], t) && #[trigger] reached(*self, t)
                            implies exists|mm: (i8, i8)| #[trigger] m.contains(mm) && nearest_neighbor(*self, walls@, self.invalid_q@[j], mm) by {
                            if j == i {
                                assert(!reached(*self, t));
                            }
                        }
                    }
                },
            }
            i += 1;
        }
        let seeds = border.iter();
        proof {
            assert forall|k: int| 0 <= k < seeds@.len() implies on_board_sq(#[trigger] seeds@[k]) by {
                assert(on_board_sq(border.view()[k]));
            }
        }
        let bfs_q = self.sort_by_distance(&seeds);
        let ghost s0 = *self;
        self.invalid_q = Vec::new();
        self.invalid_q_i = 0;
        proof {
            let b = *self;
            assert(forall|x: int, y: int| #[trigger] entry(b, x, y) == entry(s0, x, y));
            assert(b.pending().len() == 0);
            assert forall|x: int, y: int| sq_on_board(x, y) implies #[trigger] way_ok(b, x, y) by {
                assert(way_ok(s0, x, y));
                match entry(s0, x, y).0 {
                    PathBlock::Dir(d) => {
                        let (tx, ty) = step_from(x, y, d);
                        assert(!s0.pending().contains((tx as i8, ty as i8)));
                    },
                    _ => {},
                }
            }
        }
        self.insert_queue(&bfs_q);
        proof {
            lemma_ways_open_kept(s0, *self);
            let b = *self;
            assert forall|e: (i8, i8)| #[trigger] b.queue.view().contains(e) implies s0.queue.view().contains(e)
                || exists|k: int| 0 <= k < s0.invalid_q@.len() && nearest_neighbor(s0, game.board.walls, #[trigger] s0.invalid_q@[k], e) by {
                if !s0.queue.view().contains(e) {
                    assert(bfs_q@.contains(e));
                    assert(seeds@.contains(e));
                    let kk = choose|kk: int| 0 <= kk < seeds@.len() && seeds@[kk] == e;
                    assert(border.view()[kk] == e);
                    let j = choose|j: int| 0 <= j < s0.invalid_q@.len() && nearest_neighbor(s0, walls@, #[trigger] s0.invalid_q@[j], #[trigger] border.view()[kk]);
                }
            }
            assert forall|k: int, n: (i8, i8)| 0 <= k < s0.invalid_q@.len() && open_neighbor(game.board.walls, #[trigger] s0.invalid_q@[k], n) && #[trigger] reached(s0, n)
                implies exists|m: (i8, i8)| #[trigger] b.queue.view().contains(m) && nearest_neighbor(s0, game.board.walls, s0.invalid_q@[k], m) by {
                let m = choose|m: (i8, i8)| #[trigger] border.view().contains(m) && nearest_neighbor(s0, walls@, s0.invalid_q@[k], m);
                assert(seeds@.contains(m));
                assert(bfs_q@.contains(m));
                assert(reached(s0, m));
                assert(b.queue.view().contains(m));
            }
        }
    }
}

impl Bfs {
    /// Marks the reached square `(x, y)` unreachable and records it; the way of
    /// the piece standing at `piece` is lost when the square is the piece's.
    fn mark_unreachable(&mut self, x: i8, y: i8, piece: &PiecePosition)
        requires
            old(self).wf(),
            on_board_sq((x, y)),
            entry(*old(self), x as int, y as int).0 != PathBlock::Unreachable,
            entry(*old(self), x as int, y as int).0 != PathBlock::Goal,
            piece.x < 9 && piece.y < 9,
        ensures
            final(self).wf(),
            dir_ok(*old(self), *piece) ==> dir_ok(*final(self), *piece),
            entry(*final(self), x as int, y as int) == (PathBlock::Unreachable, 255u8),
            forall|i: int, j: int| sq_on_board(i, j) && !(i == x && j == y) ==> #[trigger] entry(*final(self), i, j) == entry(*old(self), i, j),
            final(self).invalid_q@ == old(self).invalid_q@.push((x, y)),
            final(self).invalid_q_i == old(self).invalid_q_i,
            final(self).player == old(self).player,
            final(self).on_path == old(self).on_path,
            final(self).queue == old(self).queue,
            final(self).dir == if x as int == piece.x && y as int == piece.y {
                (PathBlock::Unreachable, 255usize)
            } else {
                old(self).dir
            },
    {
        let ghost before = *self;
        let ux = x as usize;
        let uy = y as usize;
        proof {
            assert(!before.invalid_q@.contains((x, y))) by {
                if before.invalid_q@.contains((x, y)) {
                    let w = choose|w: int| 0 <= w < before.invalid_q@.len() && before.invalid_q@[w] == (x, y);
                    assert(entry(before, before.invalid_q@[w].0 as int, before.invalid_q@[w].1 as int).0 == PathBlock::Unreachable);
                }
            }
            let pushed = before.invalid_q@.push((x, y));
            assert(pushed.no_duplicates()) by {
                assert forall|a: int, b: int| 0 <= a < b < pushed.len() implies pushed[a] != pushed[b] by {
                    if b == pushed.len() - 1 {
                        assert(pushed[a] == before.invalid_q@[a]);
                    }
                }
            }
            assert forall|w: int| 0 <= w < pushed.len() implies on_board_sq(#[trigger] pushed[w]) by {
                if w < before.invalid_q@.len() {
                    assert(pushed[w] == before.invalid_q@[w]);
                }
            }
            lemma_distinct_squares(pushed);
        }
        self.set_entry(ux, uy, (PathBlock::Unreachable, 255));
        let ghost after_set = *self;
        if ux == piece.x && uy == piece.y {
            self.dir = (PathBlock::Unreachable, 255);
        }
        self.invalid_q.push((x, y));
        proof {
            let b2 = *self;
            assert(b2.path == after_set.path);
            assert forall|i: int, j: int| sq_on_board(i, j) && !(i == x && j == y) implies #[trigger] entry(b2, i, j) == entry(before, i, j) by {
                assert(entry(after_set, i, j) == entry(before, i, j));
            }
            assert(entry(b2, x as int, y as int) == entry(after_set, x as int, y as int));
            assert forall|w: int| 0 <= w < b2.invalid_q@.len() implies #[trigger] entry(b2, b2.invalid_q@[w].0 as int, b2.invalid_q@[w].1 as int).0
                == PathBlock::Unreachable by {
                if w < before.invalid_q@.len() {
                    assert(b2.invalid_q@[w] == before.invalid_q@[w]);
                    let q = before.invalid_q@[w];
                    assert(on_board_sq(q));
                    assert(entry(before, q.0 as int, q.1 as int).0 == PathBlock::Unreachable);
                }
            }
            assert forall|w: int| 0 <= w < b2.invalid_q@.len() implies on_board_sq(#[trigger] b2.invalid_q@[w]) by {
                if w < before.invalid_q@.len() {
                    assert(b2.invalid_q@[w] == before.invalid_q@[w]);
                }
            }
            assert forall|i: int| 0 <= i < 9 implies #[trigger] entry(b2, i, goal_row(b2.player)).0 == PathBlock::Goal by {
                assert(entry(before, i, goal_row(before.player)).0 == PathBlock::Goal);
            }
            assert forall|i: int, j: int| sq_on_board(i, j) implies #[trigger] way_ok(b2, i, j) by {
                assert(way_ok(before, i, j));
                if !(i == x && j == y) {
                    match entry(before, i, j).0 {
                        PathBlock::Dir(d) => {
                            let (ti, tj) = step_from(i, j, d);
                            if ti == x && tj == y {
                                assert(b2.pending()[b2.pending().len() - 1] == (x, y));
                            } else {
                                assert(entry(b2, ti, tj) == entry(before, ti, tj));
                                if entry(before, ti, tj).0 == PathBlock::Unreachable {
                                    let w = choose|w: int| 0 <= w < before.pending().len() && before.pending()[w] == (ti as i8, tj as i8);
                                    assert(b2.pending()[w] == before.pending()[w]);
                                }
                            }
                        },
                        _ => {},
                    }
                }
            }
        }
    }

    /// Brings the search up to date after a wall at `(x, y)` with
    /// `orientation` was placed: each of the four squares beside the wall
    /// whose way crosses it is marked unreachable. When none of them lies on
    /// the piece's way nothing more is done; otherwise the squares whose ways
    /// lead into them are marked too, and unless the piece keeps a way the
    /// search is seeded again and run. Afterwards no way crosses a wall.
    pub fn recalculate_bfs(&mut self, game: &Game, x: usize, y: usize, orientation: WallOrientation)
        requires
            old(self).wf(),
            game.board.on_board(),
            x < 8,
            y < 8,
            ways_open_but(*old(self), game.board.walls, x as int, y as int, orientation),
            dir_ok(*old(self), game.board.pos(old(self).player)),
            dir_reaches(*old(self), game.board.pos(old(self).player)),
        ensures
            final(self).wf(),
            final(self).player == old(self).player,
            ways_open(*final(self), game.board.walls),
            dir_ok(*final(self), game.board.pos(old(self).player)),
            dir_reaches(*final(self), game.board.pos(old(self).player)),
    {
        let ghost start = *self;
        let player_pos = *game.board.player_position(self.player);
        let corners: [(usize, usize); 4] = [(x, y), (x + 1, y), (x, y + 1), (x + 1, y + 1)];
        let towards: [Dir; 4] = match orientation {
            WallOrientation::Horizontal => [Dir::Down, Dir::Down, Dir::Up, Dir::Up],
            WallOrientation::Vertical => [Dir::Right, Dir::Left, Dir::Right, Dir::Left],
        };
        let ghost walls = game.board.walls;
        let mut can_skip = true;
        let mut c: usize = 0;
        while c < 4
            invariant
                self.wf(),
                self.player == old(self).player,
                walls == game.board.walls,
                c <= 4,
                x < 8 && y < 8,
                corners@ == seq![(x, y), ((x + 1) as usize, y), (x, (y + 1) as usize), ((x + 1) as usize, (y + 1) as usize)],
                towards@ == match orientation {
                    WallOrientation::Horizontal => seq![Dir::Down, Dir::Down, Dir::Up, Dir::Up],
                    WallOrientation::Vertical => seq![Dir::Right, Dir::Left, Dir::Right, Dir::Left],
                },
                ways_open_but(*self, walls, x as int, y as int, orientation),
                player_pos == game.board.pos(self.player),
                game.board.on_board(),
                dir_ok(*self, player_pos),
                forall|k: int| 0 <= k < c ==> entry(*self, (#[trigger] corners@[k]).0 as int, corners@[k].1 as int).0 != PathBlock::Dir(towards@[k]),
                self.on_path == start.on_path,
                self.dir == start.dir || self.dir == (PathBlock::Unreachable, 255usize),
                forall|i: int, j: int| sq_on_board(i, j) ==> #[trigger] entry(*self, i, j) == entry(start, i, j)
                    || entry(*self, i, j) == (PathBlock::Unreachable, 255u8),
                can_skip && start.dir.0 != PathBlock::Unreachable ==> self.dir == start.dir,
                can_skip ==> forall|i: int, j: int| sq_on_board(i, j) && start.on_path@[j]@[i] ==> #[trigger] entry(*self, i, j) == entry(start, i, j),
                start.dir.0 != PathBlock::Unreachable ==> start.on_path@[player_pos.y as int]@[player_pos.x as int],
            decreases 4 - c,
        {
            let (cx, cy) = corners[c];
            if self.get_entry(cx, cy).0 == PathBlock::Dir(towards[c]) {
                let ghost before = *self;
                self.mark_unreachable(cx as i8, cy as i8, &player_pos);
                proof {
                    assert forall|i: int, j: int| sq_on_board(i, j) implies match #[trigger] entry(*self, i, j).0 {
                        PathBlock::Dir(d) => spec_wall_blocks(walls, i, j, spec_delta(d).0, spec_delta(d).1)
                            ==> crosses_wall(x as int, y as int, orientation, i, j, d),
                        _ => true,
                    } by {
                        if !(i == cx && j == cy) {
                            assert(entry(*self, i, j) == entry(before, i, j));
                        }
                    }
                    assert forall|k: int| 0 <= k < c + 1 implies entry(*self, (#[trigger] corners@[k]).0 as int, corners@[k].1 as int).0
                        != PathBlock::Dir(towards@[k]) by {
                        if k < c && !(corners@[k].0 == cx && corners@[k].1 == cy) {
                            assert(entry(*self, corners@[k].0 as int, corners@[k].1 as int) == entry(before, corners@[k].0 as int, corners@[k].1 as int));
                        }
                    }
                    assert forall|i: int, j: int| sq_on_board(i, j) implies #[trigger] entry(*self, i, j) == entry(start, i, j)
                        || entry(*self, i, j) == (PathBlock::Unreachable, 255u8) by {
                        if !(i == cx && j == cy) {
                            assert(entry(*self, i, j) == entry(before, i, j));
                        }
                    }
                }
                if self.on_path[cy][cx] {
                    can_skip = false;
                }
                proof {
                    if can_skip {
                        assert forall|i: int, j: int| sq_on_board(i, j) && start.on_path@[j]@[i] implies #[trigger] entry(*self, i, j) == entry(start, i, j) by {
                            assert(!(i == cx && j == cy));
                            assert(entry(*self, i, j) == entry(before, i, j));
                        }
                    }
                }
            }
            c += 1;
        }
        proof {
            assert(entry(*self, corners@[0].0 as int, corners@[0].1 as int).0 != PathBlock::Dir(towards@[0]));
            assert(entry(*self, corners@[1].0 as int, corners@[1].1 as int).0 != PathBlock::Dir(towards@[1]));
            assert(entry(*self, corners@[2].0 as int, corners@[2].1 as int).0 != PathBlock::Dir(towards@[2]));
            assert(entry(*self, corners@[3].0 as int, corners@[3].1 as int).0 != PathBlock::Dir(towards@[3]));
            assert forall|i: int, j: int| sq_on_board(i, j) implies match #[trigger] entry(*self, i, j).0 {
                PathBlock::Dir(d) => !spec_wall_blocks(walls, i, j, spec_delta(d).0, spec_delta(d).1),
                _ => true,
            } by {
                match entry(*self, i, j).0 {
                    PathBlock::Dir(d) => {
                        if spec_wall_blocks(walls, i, j, spec_delta(d).0, spec_delta(d).1) {
                            assert(crosses_wall(x as int, y as int, orientation, i, j, d));
                        }
                    },
                    _ => {},
                }
            }
        }
        proof {
            if start.dir.0 != PathBlock::Unreachable {
                assert(marked_way(start, player_pos.x as int, player_pos.y as int, start.dir.1 as int));
            }
        }
        if can_skip {
            proof {
                if self.dir.0 != PathBlock::Unreachable {
                    assert(self.dir == start.dir);
                    lemma_marked_way_frame(start, *self, player_pos.x as int, player_pos.y as int, start.dir.1 as int);
                }
            }
            return;
        }
        let ghost before = *self;
        self.invalidate(game);
        proof {
            assert forall|i: int, j: int| sq_on_board(i, j) implies #[trigger] entry(*self, i, j) == entry(start, i, j)
                || entry(*self, i, j).0 == PathBlock::Unreachable by {
                assert(entry(*self, i, j) == entry(before, i, j) || entry(*self, i, j) == (PathBlock::Unreachable, 255u8));
                assert(entry(before, i, j) == entry(start, i, j) || entry(before, i, j) == (PathBlock::Unreachable, 255u8));
            }
            if self.dir.0 != PathBlock::Unreachable {
                assert(self.dir == start.dir);
                lemma_marked_way_invalidated(start, *self, player_pos.x as int, player_pos.y as int, start.dir.1 as int);
            }
        }
        proof {
            assert forall|i: int, j: int| sq_on_board(i, j) implies match #[trigger] entry(*self, i, j).0 {
                PathBlock::Dir(d) => !spec_wall_blocks(walls, i, j, spec_delta(d).0, spec_delta(d).1),
                _ => true,
            } by {
                assert(entry(before, i, j).0 is Dir ==> match entry(before, i, j).0 {
                    PathBlock::Dir(d) => !spec_wall_blocks(walls, i, j, spec_delta(d).0, spec_delta(d).1),
                    _ => true,
                });
            }
        }
        if self.dir.0 != PathBlock::Unreachable {
            return;
        }
        let ghost before_seed = *self;
        self.seed_bfs(game);
        proof {
            assert forall|i: int, j: int| sq_on_board(i, j) implies match #[trigger] entry(*self, i, j).0 {
                PathBlock::Dir(d) => !spec_wall_blocks(walls, i, j, spec_delta(d).0, spec_delta(d).1),
                _ => true,
            } by {
                assert(entry(*self, i, j) == entry(before_seed, i, j));
            }
        }
        self.bfs(game);
    }
}

/// The step from `(i, j)` in `d` crosses the wall with centre `(x, y)` and
/// orientation `o`.
pub open spec fn crosses_wall(x: int, y: int, o: WallOrientation, i: int, j: int, d: Dir) -> bool {
    match o {
        WallOrientation::Horizontal => (i == x || i == x + 1) && ((j == y && d == Dir::Down) || (j == y + 1 && d == Dir::Up)),
        WallOrientation::Vertical => (j == y || j == y + 1) && ((i == x && d == Dir::Right) || (i == x + 1 && d == Dir::Left)),
    }
}

/// No way crosses a wall of `walls` but the wall with centre `(x, y)` and
/// orientation `o`.
pub open spec fn ways_open_but(b: Bfs, walls: Walls, x: int, y: int, o: WallOrientation) -> bool {
    forall|i: int, j: int|
        sq_on_board(i, j) ==> match #[trigger] entry(b, i, j).0 {
            PathBlock::Dir(d) => spec_wall_blocks(walls, i, j, spec_delta(d).0, spec_delta(d).1) ==> crosses_wall(x, y, o, i, j, d),
            _ => true,
        }
}

/// `(x, y)` is a square of the board at most `n` steps from the goal row of
/// `player`, no step crossing a wall of `walls`.
pub open spec fn goal_within(walls: Walls, player: Player, x: int, y: int, n: int) -> bool
    decreases n,
{
    &&& sq_on_board(x, y)
    &&& (y == goal_row(player) || (n > 0 && (
        (!spec_wall_blocks(walls, x, y, -1, 0) && goal_within(walls, player, x - 1, y, n - 1))
        || (!spec_wall_blocks(walls, x, y, 1, 0) && goal_within(walls, player, x + 1, y, n - 1))
        || (!spec_wall_blocks(walls, x, y, 0, -1) && goal_within(walls, player, x, y - 1, n - 1))
        || (!spec_wall_blocks(walls, x, y, 0, 1) && goal_within(walls, player, x, y + 1, n - 1)))))
}

/// More steps allowed reach at least as far.
pub proof fn lemma_goal_within_more(walls: Walls, player: Player, x: int, y: int, m: int, n: int)
    requires
        m <= n,
        goal_within(walls, player, x, y, m),
    ensures
        goal_within(walls, player, x, y, n),
    decreases m,
{
    if y != goal_row(player) {
        if !spec_wall_blocks(walls, x, y, -1, 0) && goal_within(walls, player, x - 1, y, m - 1) {
            lemma_goal_within_more(walls, player, x - 1, y, m - 1, n - 1);
        } else if !spec_wall_blocks(walls, x, y, 1, 0) && goal_within(walls, player, x + 1, y, m - 1) {
            lemma_goal_within_more(walls, player, x + 1, y, m - 1, n - 1);
        } else if !spec_wall_blocks(walls, x, y, 0, -1) && goal_within(walls, player, x, y - 1, m - 1) {
            lemma_goal_within_more(walls, player, x, y - 1, m - 1, n - 1);
        } else {
            lemma_goal_within_more(walls, player, x, y + 1, m - 1, n - 1);
        }
    }
}

/// Once no square waits to be marked unreachable, following the ways from a
/// reached square gets to the goal row in at most as many steps as the search
/// gives for it, none across a wall.
pub proof fn lemma_way_leads_to_goal(b: Bfs, walls: Walls, x: int, y: int)
    requires
        b.wf(),
        ways_open(b, walls),
        b.pending().len() == 0,
        sq_on_board(x, y),
        entry(b, x, y).0 != PathBlock::Unreachable,
    ensures
        goal_within(walls, b.player, x, y, entry(b, x, y).1 as int),
    decreases entry(b, x, y).1,
{
    assert(way_ok(b, x, y));
    match entry(b, x, y).0 {
        PathBlock::Dir(d) => {
            let (nx, ny) = step_from(x, y, d);
            assert(!b.pending().contains((nx as i8, ny as i8)));
            lemma_way_leads_to_goal(b, walls, nx, ny);
            lemma_goal_within_more(walls, b.player, nx, ny, entry(b, nx, ny).1 as int, entry(b, x, y).1 - 1);
            assert(!spec_wall_blocks(walls, x, y, spec_delta(d).0, spec_delta(d).1));
        },
        _ => {},
    }
}

impl Bfs {
    /// Takes the entry of the square `(x, y)` as the way of the piece.
    pub(crate) fn take_way_at(&mut self, x: usize, y: usize)
        requires
            old(self).wf(),
            x < 9,
            y < 9,
        ensures
            forall|w: Walls| ways_open(*old(self), w) ==> #[trigger] ways_open(*final(self), w),
            final(self).wf(),
            final(self).dir == (entry(*old(self), x as int, y as int).0, entry(*old(self), x as int, y as int).1 as usize),
            final(self).path == old(self).path,
            final(self).player == old(self).player,
            final(self).on_path == old(self).on_path,
            final(self).queue == old(self).queue,
            final(self).invalid_q == old(self).invalid_q,
            final(self).invalid_q_i == old(self).invalid_q_i,
    {
        let ghost before = *self;
        let e = self.get_entry(x, y);
        self.dir = (e.0, e.1 as usize);
        proof {
            assert(forall|i: int, j: int| #[trigger] entry(*self, i, j) == entry(before, i, j));
            assert(self.pending() =~= before.pending());
            assert forall|i: int, j: int| sq_on_board(i, j) implies #[trigger] way_ok(*self, i, j) by {
                assert(way_ok(before, i, j));
            }
        }
    }
}

/// Following the ways from `(x, y)` through squares marked on the piece's way
/// reaches the goal row within `n` steps.
pub open spec fn marked_way(b: Bfs, x: int, y: int, n: int) -> bool
    decreases n,
{
    &&& sq_on_board(x, y)
    &&& b.on_path@[y]@[x]
    &&& match entry(b, x, y).0 {
        PathBlock::Goal => y == goal_row(b.player),
        PathBlock::Dir(d) => n > 0 && marked_way(b, x + spec_delta(d).0, y + spec_delta(d).1, n - 1),
        PathBlock::Unreachable => false,
    }
}

/// The way kept for the piece at `pos`, when it has one, is marked and leads
/// to the goal row within the distance kept.
pub open spec fn dir_reaches(b: Bfs, pos: PiecePosition) -> bool {
    b.dir.0 != PathBlock::Unreachable ==> marked_way(b, pos.x as int, pos.y as int, b.dir.1 as int)
}

/// A search with the same entries, marks, player and kept way as `b1` keeps
/// its marked way.
pub proof fn lemma_dir_reaches_same(b1: Bfs, b2: Bfs, pos: PiecePosition)
    requires
        dir_reaches(b1, pos),
        b2.path == b1.path,
        b2.on_path == b1.on_path,
        b2.player == b1.player,
        b2.dir == b1.dir,
    ensures
        dir_reaches(b2, pos),
{
    if b1.dir.0 != PathBlock::Unreachable {
        assert(forall|i: int, j: int| #[trigger] entry(b2, i, j) == entry(b1, i, j));
        lemma_marked_way_frame(b1, b2, pos.x as int, pos.y as int, b1.dir.1 as int);
    }
}

/// With no way across a wall of `walls`, a marked way within `n` steps gets
/// to the goal row within `n` steps across no wall.
pub proof fn lemma_marked_way_goal(b: Bfs, walls: Walls, x: int, y: int, n: int)
    requires
        marked_way(b, x, y, n),
        ways_open(b, walls),
    ensures
        goal_within(walls, b.player, x, y, n),
    decreases n,
{
    match entry(b, x, y).0 {
        PathBlock::Dir(d) => {
            lemma_marked_way_goal(b, walls, x + spec_delta(d).0, y + spec_delta(d).1, n - 1);
        },
        _ => {},
    }
}

/// A marked way within `n` steps is one within more steps.
proof fn lemma_marked_way_more(b: Bfs, x: int, y: int, n: int, m: int)
    requires
        marked_way(b, x, y, n),
        n <= m,
    ensures
        marked_way(b, x, y, m),
    decreases n,
{
    match entry(b, x, y).0 {
        PathBlock::Dir(d) => {
            lemma_marked_way_more(b, x + spec_delta(d).0, y + spec_delta(d).1, n - 1, m - 1);
        },
        _ => {},
    }
}

/// A marked way stays one when the marks, the entries of the marked squares
/// and the player stay.
proof fn lemma_marked_way_frame(b1: Bfs, b2: Bfs, x: int, y: int, n: int)
    requires
        marked_way(b1, x, y, n),
        b2.on_path == b1.on_path,
        b2.player == b1.player,
        forall|i: int, j: int| sq_on_board(i, j) && b1.on_path@[j]@[i] ==> #[trigger] entry(b2, i, j) == entry(b1, i, j),
    ensures
        marked_way(b2, x, y, n),
    decreases n,
{
    assert(entry(b2, x, y) == entry(b1, x, y));
    match entry(b1, x, y).0 {
        PathBlock::Dir(d) => {
            lemma_marked_way_frame(b1, b2, x + spec_delta(d).0, y + spec_delta(d).1, n - 1);
        },
        _ => {},
    }
}

/// Marking squares unreachable until none waits keeps a marked way from a
/// square that stays reached: each square after it stays reached in turn.
proof fn lemma_marked_way_invalidated(b1: Bfs, b2: Bfs, x: int, y: int, n: int)
    requires
        marked_way(b1, x, y, n),
        b2.wf(),
        b2.pending().len() == 0,
        b2.on_path == b1.on_path,
        b2.player == b1.player,
        forall|i: int, j: int| sq_on_board(i, j) ==> #[trigger] entry(b2, i, j) == entry(b1, i, j)
            || entry(b2, i, j).0 == PathBlock::Unreachable,
        entry(b2, x, y).0 != PathBlock::Unreachable,
    ensures
        marked_way(b2, x, y, n),
    decreases n,
{
    assert(entry(b2, x, y) == entry(b1, x, y) || entry(b2, x, y).0 == PathBlock::Unreachable);
    assert(way_ok(b2, x, y));
    match entry(b1, x, y).0 {
        PathBlock::Dir(d) => {
            let (nx, ny) = step_from(x, y, d);
            assert(!b2.pending().contains((nx as i8, ny as i8)));
            lemma_marked_way_invalidated(b1, b2, nx, ny, n - 1);
        },
        _ => {},
    }
}

/// The squares walked along the ways from the first, ending on the goal row,
/// all marked: from each of them the marked way reaches the goal row within
/// its distance.
proof fn lemma_walked_marked(b: Bfs, walked: Seq<(int, int)>, k: int)
    requires
        b.wf(),
        b.pending().len() == 0,
        0 <= k < walked.len(),
        forall|i: int| 0 <= i < walked.len() ==> {
            let w = #[trigger] walked[i];
            &&& sq_on_board(w.0, w.1)
            &&& b.on_path@[w.1]@[w.0]
            &&& entry(b, w.0, w.1).0 != PathBlock::Unreachable
        },
        forall|i: int| 0 <= i < walked.len() - 1 ==> match entry(b, (#[trigger] walked[i]).0, walked[i].1).0 {
            PathBlock::Dir(dd) => walked[i + 1] == step_from(walked[i].0, walked[i].1, dd),
            _ => false,
        },
        entry(b, walked.last().0, walked.last().1).0 == PathBlock::Goal,
    ensures
        marked_way(b, walked[k].0, walked[k].1, entry(b, walked[k].0, walked[k].1).1 as int),
    decreases walked.len() - k,
{
    let w = walked[k];
    assert(sq_on_board(w.0, w.1));
    assert(way_ok(b, w.0, w.1));
    if k < walked.len() - 1 {
        match entry(b, w.0, w.1).0 {
            PathBlock::Dir(d) => {
                let (nx, ny) = step_from(w.0, w.1, d);
                assert(walked[k + 1] == (nx, ny));
                assert(!b.pending().contains((nx as i8, ny as i8)));
                lemma_walked_marked(b, walked, k + 1);
                lemma_marked_way_more(b, nx, ny, entry(b, nx, ny).1 as int, entry(b, w.0, w.1).1 - 1);
            },
            _ => {},
        }
    }
}

} // verus!
