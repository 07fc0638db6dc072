use vstd::prelude::*;
use std::collections::VecDeque;
use crate::bot::carlo::board::spec_wall_blocks;
use crate::data_model::{
    Direction, Game, PiecePosition, Player, PlayerMove, Walls, WallOrientation, WallPosition,
    PIECE_GRID_HEIGHT, PIECE_GRID_WIDTH, WALL_GRID_HEIGHT, WALL_GRID_WIDTH,
};
use crate::game_logic::{spec_direction_legal, spec_position_after_direction, spec_room_for_wall};
use crate::search::goal_row;

verus! {

/// The way from a square towards the goal row: none on the goal row itself.
#[derive(Debug, Clone, Copy, PartialEq, Eq, Structural)]
pub enum Dir {
    Stay,
    PosX,
    PosY,
    NegX,
    NegY,
}

/// The piece-move direction of a way; `None` has none.
pub open spec fn dir_direction(d: Dir) -> Option<Direction> {
    match d {
        Dir::PosX => Some(Direction::Right),
        Dir::PosY => Some(Direction::Down),
        Dir::NegX => Some(Direction::Left),
        Dir::NegY => Some(Direction::Up),
        Dir::Stay => None,
    }
}

pub open spec fn spec_dir_reverse(d: Dir) -> Dir {
    match d {
        Dir::PosX => Dir::NegX,
        Dir::PosY => Dir::NegY,
        Dir::NegX => Dir::PosX,
        Dir::NegY => Dir::PosY,
        Dir::Stay => Dir::Stay,
    }
}

pub open spec fn spec_can_apply(d: Dir, x: int, y: int) -> bool {
    match d {
        Dir::PosX => x < PIECE_GRID_WIDTH - 1,
        Dir::PosY => y < PIECE_GRID_HEIGHT - 1,
        Dir::NegX => x > 0,
        Dir::NegY => y > 0,
        Dir::Stay => false,
    }
}

pub open spec fn spec_apply(d: Dir, x: int, y: int) -> (int, int) {
    match d {
        Dir::PosX => (x + 1, y),
        Dir::PosY => (x, y + 1),
        Dir::NegX => (x - 1, y),
        Dir::NegY => (x, y - 1),
        Dir::Stay => (x, y),
    }
}

impl Dir {
    pub fn reverse(&self) -> (r: Dir)
        ensures
            r == spec_dir_reverse(*self),
    {
        match self {
            Dir::PosX => Dir::NegX,
            Dir::PosY => Dir::NegY,
            Dir::NegX => Dir::PosX,
            Dir::NegY => Dir::PosY,
            Dir::Stay => Dir::Stay,
        }
    }

    pub fn apply(&self, xy: (usize, usize)) -> (r: (usize, usize))
        requires
            spec_can_apply(*self, xy.0 as int, xy.1 as int) || *self == Dir::Stay,
        ensures
            r.0 == spec_apply(*self, xy.0 as int, xy.1 as int).0,
            r.1 == spec_apply(*self, xy.0 as int, xy.1 as int).1,
    {
        let (x, y) = xy;
        match self {
            Dir::PosX => (x + 1, y),
            Dir::PosY => (x, y + 1),
            Dir::NegX => (x - 1, y),
            Dir::NegY => (x, y - 1),
            Dir::Stay => (x, y),
        }
    }

    pub fn can_apply(&self, xy: (usize, usize)) -> (r: bool)
        ensures
            r == spec_can_apply(*self, xy.0 as int, xy.1 as int),
    {
        let (x, y) = xy;
        match self {
            Dir::PosX => x < PIECE_GRID_WIDTH - 1,
            Dir::PosY => y < PIECE_GRID_HEIGHT - 1,
            Dir::NegX => x > 0,
            Dir::NegY => y > 0,
            Dir::Stay => false,
        }
    }
}

/// What the search knows of a square: unreachable, or the way to the goal row
/// and the number of steps.
#[derive(Debug, Clone, Copy, PartialEq, Eq, Structural)]
pub enum Tile {
    Invalid,
    Valid(Dir, u8),
}

/// The distances of all squares from the goal row of one player, `tiles[y][x]`.
#[derive(Debug, Clone, Copy)]
pub struct Board {
    pub tiles: [[Tile; PIECE_GRID_WIDTH]; PIECE_GRID_HEIGHT],
}

pub open spec fn tile_at(b: Board, x: int, y: int) -> Tile {
    b.tiles@[y]@[x]
}

/// A reachable square at distance zero.
pub open spec fn zero_tile(t: Tile) -> bool {
    match t {
        Tile::Valid(_, d) => d == 0,
        Tile::Invalid => false,
    }
}

pub open spec fn on_board_xy(x: int, y: int) -> bool {
    0 <= x < PIECE_GRID_WIDTH && 0 <= y < PIECE_GRID_HEIGHT
}

pub open spec fn sq(x: int, y: int) -> PiecePosition {
    PiecePosition { x: x as usize, y: y as usize }
}

/// Every legal step from the square `(x, y)` leads to a reachable square.
pub open spec fn closed_at(b: Board, walls: Walls, x: int, y: int) -> bool {
    forall|d: Direction|
        #[trigger] spec_direction_legal(walls, sq(x, y), d) ==> tile_at(
            b,
            spec_position_after_direction(sq(x, y), d).x as int,
            spec_position_after_direction(sq(x, y), d).y as int,
        ) is Valid
}

/// The reachable squares are closed under legal steps: from a reachable square
/// every legal step leads to a reachable square.
pub open spec fn closed(b: Board, walls: Walls) -> bool {
    forall|x: int, y: int|
        on_board_xy(x, y) && #[trigger] tile_at(b, x, y) is Valid ==> closed_at(b, walls, x, y)
}

/// The squares of the goal row of `player` are reachable at distance zero, and
/// no other square is at distance zero.
pub open spec fn goal_anchored(b: Board, player: Player) -> bool {
    &&& forall|x: int| 0 <= x < PIECE_GRID_WIDTH ==> #[trigger] tile_at(b, x, goal_row(player)) == Tile::Valid(Dir::Stay, 0)
    &&& forall|x: int, y: int|
        on_board_xy(x, y) && zero_tile(#[trigger] tile_at(b, x, y)) ==> y == goal_row(player)
}

/// A board that the searches of this bot accept for `player` under `walls`.
pub open spec fn board_ok(b: Board, walls: Walls, player: Player) -> bool {
    closed(b, walls) && goal_anchored(b, player)
}

/// A wall crosses the step `(dx, dy)` from `(x, y)`.
pub fn wall_blocks(walls: &Walls, x: usize, y: usize, dx: i8, dy: i8) -> (r: bool)
    requires
        x < PIECE_GRID_WIDTH,
        y < PIECE_GRID_HEIGHT,
        (dx == 0 && (dy == 1 || dy == -1)) || (dy == 0 && (dx == 1 || dx == -1)),
    ensures
        r == spec_wall_blocks(*walls, x as int, y as int, dx as int, dy as int),
{
    let orientation = if dx == 0 {
        WallOrientation::Horizontal
    } else {
        WallOrientation::Vertical
    };
    let xi = x as isize;
    let yi = y as isize;
    let x0 = xi - 1 + if dx == 1 { 1isize } else { 0isize };
    let x1 = xi - if dx == -1 { 1isize } else { 0isize };
    let y0 = yi - 1 + if dy == 1 { 1isize } else { 0isize };
    let y1 = yi - if dy == -1 { 1isize } else { 0isize };
    walls.wall_at(orientation, x0, y0) || walls.wall_at(orientation, x1, y1)
}

/// A step of the search that stays on the board crosses no wall exactly when
/// it is a legal step of a piece.
proof fn lemma_step_legal(walls: Walls, x: int, y: int, d: Dir)
    requires
        on_board_xy(x, y),
        spec_can_apply(d, x, y),
    ensures
        ({
            let (nx, ny) = spec_apply(d, x, y);
            let dir = dir_direction(d)->0;
            &&& dir_direction(d) is Some
            &&& !spec_wall_blocks(walls, x, y, nx - x, ny - y) <==> spec_direction_legal(walls, sq(x, y), dir)
            &&& spec_position_after_direction(sq(x, y), dir) == sq(nx, ny)
            &&& on_board_xy(nx, ny)
        }),
{
}

proof fn lemma_step_on_board(walls: Walls, x: int, y: int, d: Direction)
    requires
        on_board_xy(x, y),
        spec_direction_legal(walls, sq(x, y), d),
    ensures
        on_board_xy(
            spec_position_after_direction(sq(x, y), d).x as int,
            spec_position_after_direction(sq(x, y), d).y as int,
        ),
{
}

/// The potential of a square: 256 unreachable, its distance otherwise.
pub open spec fn potential(t: Tile) -> int {
    match t {
        Tile::Invalid => 256,
        Tile::Valid(_, d) => d as int,
    }
}

/// The sum of the potentials of the first `n` squares, row by row.
pub open spec fn total_potential(b: Board, n: int) -> int
    decreases n,
{
    if n <= 0 {
        0
    } else {
        total_potential(b, n - 1) + potential(tile_at(b, (n - 1) % 9, (n - 1) / 9))
    }
}

proof fn lemma_potential_update(b: Board, c: Board, x: int, y: int, n: int)
    requires
        on_board_xy(x, y),
        0 <= n <= 81,
        forall|i: int, j: int| on_board_xy(i, j) && !(i == x && j == y) ==> #[trigger] tile_at(c, i, j) == tile_at(b, i, j),
        potential(tile_at(c, x, y)) < potential(tile_at(b, x, y)),
    ensures
        n > y * 9 + x ==> total_potential(c, n) < total_potential(b, n),
        n <= y * 9 + x ==> total_potential(c, n) == total_potential(b, n),
    decreases n,
{
    if n > 0 {
        lemma_potential_update(b, c, x, y, n - 1);
        let k = n - 1;
        let kx = k % 9;
        let ky = k / 9;
        vstd::arithmetic::div_mod::lemma_fundamental_div_mod(k, 9);
        vstd::arithmetic::div_mod::lemma_mod_bound(k, 9);
        assert(0 <= ky < 9) by {
            vstd::arithmetic::div_mod::lemma_div_pos_is_pos(k, 9);
            vstd::arithmetic::div_mod::lemma_div_is_ordered(k, 80, 9);
        }
        if kx == x && ky == y {
            assert(k == y * 9 + x);
        } else {
            assert(k != y * 9 + x) by (nonlinear_arith)
                requires
                    k == 9 * ky + kx,
                    0 <= kx < 9,
                    0 <= x < 9,
                    !(kx == x && ky == y),
            ;
            assert(tile_at(c, kx, ky) == tile_at(b, kx, ky));
        }
    }
}

proof fn lemma_potential_bounds(b: Board, n: int)
    requires
        0 <= n,
    ensures
        0 <= total_potential(b, n) <= 256 * n,
    decreases n,
{
    if n > 0 {
        lemma_potential_bounds(b, n - 1);
    }
}

/// The distance of a square one step further than a square at distance `d`:
/// `d + 1`, held at 255.
pub open spec fn next_distance(d: u8) -> int {
    if d == 255 { 255 } else { d + 1 }
}

/// From the reachable square `(x, y)` every legal step leads to a reachable
/// square at most one further from the goal row.
pub open spec fn relaxed_at(b: Board, walls: Walls, x: int, y: int) -> bool {
    match tile_at(b, x, y) {
        Tile::Valid(_, d) => forall|dir: Direction|
            #[trigger] spec_direction_legal(walls, sq(x, y), dir) ==> match tile_at(
                b,
                spec_position_after_direction(sq(x, y), dir).x as int,
                spec_position_after_direction(sq(x, y), dir).y as int,
            ) {
                Tile::Valid(_, e) => e <= next_distance(d),
                Tile::Invalid => false,
            },
        Tile::Invalid => true,
    }
}

/// Every reachable square is relaxed or still waiting in `queue`.
pub open spec fn relaxed_frontier(b: Board, walls: Walls, queue: Seq<(usize, usize)>) -> bool {
    forall|x: int, y: int|
        on_board_xy(x, y) && #[trigger] tile_at(b, x, y) is Valid ==> relaxed_at(b, walls, x, y)
            || queue.contains((x as usize, y as usize))
}

/// Every reachable square is relaxed.
pub open spec fn relaxed(b: Board, walls: Walls) -> bool {
    forall|x: int, y: int| on_board_xy(x, y) ==> #[trigger] relaxed_at(b, walls, x, y)
}

/// The way of the square `(x, y)`, at a distance `d` with `0 < d < 255`, is a
/// legal step to a reachable square nearer the goal row.
pub open spec fn link_at(b: Board, walls: Walls, x: int, y: int) -> bool {
    match tile_at(b, x, y) {
        Tile::Valid(dir, d) => 0 < d < 255 ==> {
            &&& dir_direction(dir) is Some
            &&& spec_can_apply(dir, x, y)
            &&& spec_direction_legal(walls, sq(x, y), dir_direction(dir)->0)
            &&& match tile_at(b, spec_apply(dir, x, y).0, spec_apply(dir, x, y).1) {
                Tile::Valid(_, e) => e < d,
                Tile::Invalid => false,
            }
        },
        Tile::Invalid => true,
    }
}

/// Every way of the board is a legal step nearer the goal row.
pub open spec fn links_ok(b: Board, walls: Walls) -> bool {
    forall|x: int, y: int| on_board_xy(x, y) ==> #[trigger] link_at(b, walls, x, y)
}

/// The piece of `player` at `(x, y)` reaches its goal row in at most `n`
/// legal steps, walls only in the way.
pub open spec fn reach_within(walls: Walls, player: Player, x: int, y: int, n: int) -> bool
    decreases n,
{
    &&& on_board_xy(x, y)
    &&& 0 <= n
    &&& (y == goal_row(player) || (n > 0 && exists|dir: Direction| #[trigger] spec_direction_legal(walls, sq(x, y), dir) && reach_within(
        walls,
        player,
        spec_position_after_direction(sq(x, y), dir).x as int,
        spec_position_after_direction(sq(x, y), dir).y as int,
        n - 1,
    )))
}

/// A legal step can be taken back.
proof fn lemma_step_back_legal(walls: Walls, x: int, y: int, d: Direction)
    requires
        on_board_xy(x, y),
        spec_direction_legal(walls, sq(x, y), d),
    ensures
        ({
            let n = spec_position_after_direction(sq(x, y), d);
            &&& on_board_xy(n.x as int, n.y as int)
            &&& spec_direction_legal(walls, n, d.opposite())
            &&& spec_position_after_direction(n, d.opposite()) == sq(x, y)
        }),
{
}

/// On a relaxed board anchored at the goal row, a square that reaches the goal
/// row within `n < 255` steps is reachable at a distance of at most `n`.
proof fn lemma_relaxed_bound(b: Board, walls: Walls, player: Player, x: int, y: int, n: int)
    requires
        relaxed(b, walls),
        goal_anchored(b, player),
        n < 255,
        reach_within(walls, player, x, y, n),
    ensures
        match tile_at(b, x, y) {
            Tile::Valid(_, d) => d <= n,
            Tile::Invalid => false,
        },
    decreases n,
{
    if y == goal_row(player) {
        assert(tile_at(b, x, goal_row(player)) == Tile::Valid(Dir::Stay, 0));
    } else {
        let dir = choose|dir: Direction| #[trigger] spec_direction_legal(walls, sq(x, y), dir) && reach_within(
            walls,
            player,
            spec_position_after_direction(sq(x, y), dir).x as int,
            spec_position_after_direction(sq(x, y), dir).y as int,
            n - 1,
        );
        let nb = spec_position_after_direction(sq(x, y), dir);
        lemma_relaxed_bound(b, walls, player, nb.x as int, nb.y as int, n - 1);
        lemma_step_back_legal(walls, x, y, dir);
        assert(relaxed_at(b, walls, nb.x as int, nb.y as int));
        assert(sq(nb.x as int, nb.y as int) == nb);
        assert(spec_direction_legal(walls, sq(nb.x as int, nb.y as int), dir.opposite()));
    }
}

/// On a board whose ways are legal steps nearer the goal row, a square at a
/// distance `d < 255` reaches the goal row within `d` steps.
proof fn lemma_link_reach(b: Board, walls: Walls, player: Player, x: int, y: int)
    requires
        links_ok(b, walls),
        goal_anchored(b, player),
        on_board_xy(x, y),
        tile_at(b, x, y) is Valid,
        tile_at(b, x, y)->1 < 255,
    ensures
        reach_within(walls, player, x, y, tile_at(b, x, y)->1 as int),
    decreases tile_at(b, x, y)->1,
{
    let d = tile_at(b, x, y)->1;
    if d == 0 {
        assert(zero_tile(tile_at(b, x, y)));
    } else {
        assert(link_at(b, walls, x, y));
        let dir = tile_at(b, x, y)->0;
        let (nx, ny) = spec_apply(dir, x, y);
        lemma_step_legal(walls, x, y, dir);
        let ddir = dir_direction(dir)->0;
        lemma_link_reach(b, walls, player, nx, ny);
        lemma_reach_more(walls, player, nx, ny, tile_at(b, nx, ny)->1 as int, d - 1);
        assert(spec_direction_legal(walls, sq(x, y), ddir));
        assert(spec_position_after_direction(sq(x, y), ddir) == sq(nx, ny));
    }
}

/// Reaching within `m` steps is reaching within any `n >= m`.
proof fn lemma_reach_more(walls: Walls, player: Player, x: int, y: int, m: int, n: int)
    requires
        reach_within(walls, player, x, y, m),
        m <= n,
    ensures
        reach_within(walls, player, x, y, n),
    decreases m,
{
    if y != goal_row(player) {
        let dir = choose|dir: Direction| #[trigger] spec_direction_legal(walls, sq(x, y), dir) && reach_within(
            walls,
            player,
            spec_position_after_direction(sq(x, y), dir).x as int,
            spec_position_after_direction(sq(x, y), dir).y as int,
            m - 1,
        );
        let nb = spec_position_after_direction(sq(x, y), dir);
        lemma_reach_more(walls, player, nb.x as int, nb.y as int, m - 1, n - 1);
    }
}

/// Every reachable square is closed or still waiting in `queue`.
pub open spec fn frontier_ok(b: Board, walls: Walls, queue: Seq<(usize, usize)>) -> bool {
    forall|x: int, y: int|
        on_board_xy(x, y) && #[trigger] tile_at(b, x, y) is Valid ==> closed_at(b, walls, x, y)
            || queue.contains((x as usize, y as usize))
}

/// No square of `b` that `a` can reach is unreachable in `b`, and no distance
/// zero appears in `b` that `a` lacks.
pub open spec fn grows(a: Board, b: Board) -> bool {
    forall|x: int, y: int|
        on_board_xy(x, y) ==> (#[trigger] tile_at(a, x, y) is Valid ==> tile_at(b, x, y) is Valid) && (zero_tile(
            tile_at(b, x, y),
        ) ==> tile_at(a, x, y) == tile_at(b, x, y)) && (zero_tile(tile_at(a, x, y)) ==> tile_at(a, x, y) == tile_at(b, x, y))
}

fn set_tile(board: &mut Board, x: usize, y: usize, t: Tile)
    requires
        x < PIECE_GRID_WIDTH,
        y < PIECE_GRID_HEIGHT,
    ensures
        tile_at(*final(board), x as int, y as int) == t,
        forall|i: int, j: int| on_board_xy(i, j) && !(i == x && j == y) ==> #[trigger] tile_at(*final(board), i, j) == tile_at(*old(board), i, j),
{
    let mut row = board.tiles[y];
    row[x] = t;
    board.tiles[y] = row;
}

fn get_tile(board: &Board, x: usize, y: usize) -> (t: Tile)
    requires
        x < PIECE_GRID_WIDTH,
        y < PIECE_GRID_HEIGHT,
    ensures
        t == tile_at(*board, x as int, y as int),
{
    board.tiles[y][x]
}

/// Relaxes the board from the squares in `queue` (in order) until nothing
/// changes: a square one step from a reachable square at distance `d` gets
/// distance `d + 1` and the way back, when that is shorter than what it had.
/// Distances stop growing at 255.
#[verifier::rlimit(80)]
fn bfs(walls: &Walls, board: &mut Board, queue: VecDeque<(usize, usize)>)
    requires
        forall|k: int| 0 <= k < queue@.len() ==> on_board_xy(#[trigger] queue@[k].0 as int, queue@[k].1 as int),
    ensures
        frontier_ok(*old(board), *walls, queue@) ==> closed(*final(board), *walls),
        relaxed_frontier(*old(board), *walls, queue@) ==> relaxed(*final(board), *walls),
        links_ok(*old(board), *walls) ==> links_ok(*final(board), *walls),
        grows(*old(board), *final(board)),
{
    let ghost ok = frontier_ok(*board, *walls, queue@);
    let ghost ok_r = relaxed_frontier(*board, *walls, queue@);
    let ghost ok_l = links_ok(*board, *walls);
    let mut queue = queue;
    let ghost start = *board;
    loop
        invariant
            ok ==> frontier_ok(*board, *walls, queue@),
            ok_r ==> relaxed_frontier(*board, *walls, queue@),
            ok_l ==> links_ok(*board, *walls),
            forall|k: int| 0 <= k < queue@.len() ==> on_board_xy(#[trigger] queue@[k].0 as int, queue@[k].1 as int),
            grows(start, *board),
        ensures
            ok ==> closed(*board, *walls),
            ok_r ==> relaxed(*board, *walls),
            ok_l ==> links_ok(*board, *walls),
            grows(start, *board),
        decreases total_potential(*board, 81), queue@.len(),
    {
        let ghost q0 = queue@;
        let ghost b0 = *board;
        let xy = match queue.pop_front() {
            Some(xy) => xy,
            None => {
                proof {
                    if ok {
                    assert forall|x: int, y: int| on_board_xy(x, y) && #[trigger] tile_at(*board, x, y) is Valid implies closed_at(*board, *walls, x, y) by {
                        assert(!q0.contains((x as usize, y as usize)));
                    }
                    }
                    if ok_r {
                    assert forall|x: int, y: int| on_board_xy(x, y) implies #[trigger] relaxed_at(*board, *walls, x, y) by {
                        assert(!q0.contains((x as usize, y as usize)));
                    }
                    }
                }
                break;
            },
        };
        proof {
            assert(q0[0] == xy);
        }
        let from = get_tile(board, xy.0, xy.1);
        let distance = match from {
            Tile::Invalid => {
                proof {
                    if ok {
                    assert forall|x: int, y: int| on_board_xy(x, y) && #[trigger] tile_at(*board, x, y) is Valid implies closed_at(*board, *walls, x, y) || queue@.contains((x as usize, y as usize)) by {
                        if !closed_at(*board, *walls, x, y) {
                            let k = choose|k: int| 0 <= k < q0.len() && q0[k] == (x as usize, y as usize);
                            assert(k != 0);
                            assert(queue@[k - 1] == q0[k]);
                        }
                    }
                    }
                    if ok_r {
                    assert forall|x: int, y: int| on_board_xy(x, y) && #[trigger] tile_at(*board, x, y) is Valid implies relaxed_at(*board, *walls, x, y) || queue@.contains((x as usize, y as usize)) by {
                        if !relaxed_at(*board, *walls, x, y) {
                            let k = choose|k: int| 0 <= k < q0.len() && q0[k] == (x as usize, y as usize);
                            assert(k != 0);
                            assert(queue@[k - 1] == q0[k]);
                        }
                    }
                    }
                }
                continue;
            },
            Tile::Valid(_, d) => {
                let r = d.saturating_add(1);
                assert(r >= 1);
                assert(r == next_distance(d));
                r
            },
        };
        let ghost dd = from->1;
        proof {
            if ok {
            assert forall|x: int, y: int|
                on_board_xy(x, y) && #[trigger] tile_at(*board, x, y) is Valid && !(x == xy.0 && y == xy.1)
                    implies closed_at(*board, *walls, x, y) || queue@.contains((x as usize, y as usize)) by {
                if !closed_at(*board, *walls, x, y) {
                    let j = choose|j: int| 0 <= j < q0.len() && q0[j] == (x as usize, y as usize);
                    assert(j != 0);
                    assert(queue@[j - 1] == q0[j]);
                }
            }
            }
            if ok_r {
            assert forall|x: int, y: int|
                on_board_xy(x, y) && #[trigger] tile_at(*board, x, y) is Valid && !(x == xy.0 && y == xy.1)
                    implies relaxed_at(*board, *walls, x, y) || queue@.contains((x as usize, y as usize)) by {
                if !relaxed_at(*board, *walls, x, y) {
                    let j = choose|j: int| 0 <= j < q0.len() && q0[j] == (x as usize, y as usize);
                    assert(j != 0);
                    assert(queue@[j - 1] == q0[j]);
                }
            }
            }
        }
        let mut k: usize = 0;
        let dirs = [Dir::PosX, Dir::PosY, Dir::NegX, Dir::NegY];
        while k < 4
            invariant
                0 <= xy.0 < PIECE_GRID_WIDTH,
                0 <= xy.1 < PIECE_GRID_HEIGHT,
                distance >= 1,
                distance == next_distance(dd),
                k <= 4,
                dirs@ == seq![Dir::PosX, Dir::PosY, Dir::NegX, Dir::NegY],
                tile_at(*board, xy.0 as int, xy.1 as int) == from,
                from is Valid,
                dd == from->1,
                grows(start, *board),
                grows(b0, *board),
                total_potential(*board, 81) <= total_potential(b0, 81),
                queue@.len() > q0.len() - 1 ==> total_potential(*board, 81) < total_potential(b0, 81),
                queue@.len() >= q0.len() - 1,
                forall|i: int| 0 <= i < q0.len() - 1 ==> #[trigger] queue@[i] == q0[i + 1],
                forall|i: int| 0 <= i < queue@.len() ==> on_board_xy(#[trigger] queue@[i].0 as int, queue@[i].1 as int),
                ok ==> forall|x: int, y: int|
                    on_board_xy(x, y) && #[trigger] tile_at(*board, x, y) is Valid && !(x == xy.0 && y == xy.1)
                        ==> closed_at(*board, *walls, x, y) || queue@.contains((x as usize, y as usize)),
                ok_r ==> forall|x: int, y: int|
                    on_board_xy(x, y) && #[trigger] tile_at(*board, x, y) is Valid && !(x == xy.0 && y == xy.1)
                        ==> relaxed_at(*board, *walls, x, y) || queue@.contains((x as usize, y as usize)),
                ok_l ==> links_ok(*board, *walls),
                forall|j: int|
                    0 <= j < k ==> (spec_can_apply(#[trigger] dirs@[j], xy.0 as int, xy.1 as int) && spec_direction_legal(
                        *walls,
                        sq(xy.0 as int, xy.1 as int),
                        dir_direction(dirs@[j])->0,
                    )) ==> match tile_at(
                        *board,
                        spec_apply(dirs@[j], xy.0 as int, xy.1 as int).0,
                        spec_apply(dirs@[j], xy.0 as int, xy.1 as int).1,
                    ) {
                        Tile::Valid(_, e) => e <= distance,
                        Tile::Invalid => false,
                    },
            decreases 4 - k,
        {
            let dir = dirs[k];
            proof {
                if spec_can_apply(dir, xy.0 as int, xy.1 as int) {
                    lemma_step_legal(*walls, xy.0 as int, xy.1 as int, dir);
                }
            }
            if dir.can_apply(xy) {
                let (x, y) = dir.apply(xy);
                let dx: i8 = if x > xy.0 { 1 } else if x < xy.0 { -1 } else { 0 };
                let dy: i8 = if y > xy.1 { 1 } else if y < xy.1 { -1 } else { 0 };
                if !wall_blocks(walls, xy.0, xy.1, dx, dy) {
                    let skip = match get_tile(board, x, y) {
                        Tile::Valid(_, dis) => dis <= distance,
                        Tile::Invalid => false,
                    };
                    if !skip {
                        let ghost before = *board;
                        let rdir = dir.reverse();
                        set_tile(board, x, y, Tile::Valid(rdir, distance));
                        proof {
                            lemma_potential_update(before, *board, x as int, y as int, 81);
                            assert forall|i: int, j: int| on_board_xy(i, j) implies (#[trigger] tile_at(before, i, j) is Valid ==> tile_at(*board, i, j) is Valid) && (zero_tile(
                                tile_at(*board, i, j),
                            ) ==> tile_at(before, i, j) == tile_at(*board, i, j)) && (zero_tile(tile_at(before, i, j)) ==> tile_at(before, i, j) == tile_at(*board, i, j)) by {
                                if i == x && j == y {
                                } else {
                                    assert(tile_at(*board, i, j) == tile_at(before, i, j));
                                }
                            }
                            assert(grows(before, *board));
                            lemma_step_legal(*walls, x as int, y as int, rdir);
                            crate::bot::carlo::bfs::lemma_wall_blocks_symmetric(*walls, xy.0 as int, xy.1 as int, dx as int, dy as int);
                            if ok_l {
                                assert forall|i: int, j: int| on_board_xy(i, j) implies #[trigger] link_at(*board, *walls, i, j) by {
                                    if !(i == x && j == y) {
                                        assert(tile_at(*board, i, j) == tile_at(before, i, j));
                                        assert(link_at(before, *walls, i, j));
                                    }
                                }
                            }
                        }
                        let ghost qb = queue@;
                        queue.push_back((x, y));
                        proof {
                            assert(queue@.last() == (x, y));
                            assert(queue@.contains((x, y)));
                            if ok {
                            assert forall|i: int, j: int|
                                on_board_xy(i, j) && #[trigger] tile_at(*board, i, j) is Valid && !(i == xy.0 && j == xy.1)
                                    implies closed_at(*board, *walls, i, j) || queue@.contains((i as usize, j as usize)) by {
                                if i == x && j == y {
                                } else if closed_at(before, *walls, i, j) {
                                    assert forall|d: Direction| #[trigger] spec_direction_legal(*walls, sq(i, j), d) implies tile_at(
                                        *board,
                                        spec_position_after_direction(sq(i, j), d).x as int,
                                        spec_position_after_direction(sq(i, j), d).y as int,
                                    ) is Valid by {
                                        let p = spec_position_after_direction(sq(i, j), d);
                                        assert(tile_at(before, p.x as int, p.y as int) is Valid);
                                        lemma_step_on_board(*walls, i, j, d);
                                    }
                                } else {
                                    assert(tile_at(before, i, j) == tile_at(*board, i, j));
                                    assert(qb.contains((i as usize, j as usize)));
                                    let w = choose|w: int| 0 <= w < qb.len() && qb[w] == (i as usize, j as usize);
                                    assert(queue@[w] == qb[w]);
                                }
                            }
                            }
                            if ok_r {
                            assert forall|i: int, j: int|
                                on_board_xy(i, j) && #[trigger] tile_at(*board, i, j) is Valid && !(i == xy.0 && j == xy.1)
                                    implies relaxed_at(*board, *walls, i, j) || queue@.contains((i as usize, j as usize)) by {
                                if i == x && j == y {
                                } else if relaxed_at(before, *walls, i, j) {
                                    assert(tile_at(before, i, j) == tile_at(*board, i, j));
                                    assert forall|d: Direction| #[trigger] spec_direction_legal(*walls, sq(i, j), d) implies match tile_at(
                                        *board,
                                        spec_position_after_direction(sq(i, j), d).x as int,
                                        spec_position_after_direction(sq(i, j), d).y as int,
                                    ) {
                                        Tile::Valid(_, e) => e <= next_distance(tile_at(*board, i, j)->1),
                                        Tile::Invalid => false,
                                    } by {
                                        let p = spec_position_after_direction(sq(i, j), d);
                                        lemma_step_on_board(*walls, i, j, d);
                                        assert(match tile_at(before, p.x as int, p.y as int) {
                                            Tile::Valid(_, e) => e <= next_distance(tile_at(before, i, j)->1),
                                            Tile::Invalid => false,
                                        });
                                        if !(p.x == x && p.y == y) {
                                            assert(tile_at(*board, p.x as int, p.y as int) == tile_at(before, p.x as int, p.y as int));
                                        }
                                    }
                                } else {
                                    assert(tile_at(before, i, j) == tile_at(*board, i, j));
                                    assert(qb.contains((i as usize, j as usize)));
                                    let w = choose|w: int| 0 <= w < qb.len() && qb[w] == (i as usize, j as usize);
                                    assert(queue@[w] == qb[w]);
                                }
                            }
                            }
                        }
                    }
                }
            }
            proof {
                assert(forall|j: int| 0 <= j < k ==> #[trigger] dirs@[j] != dirs@[k as int]);
            }
            k += 1;
        }
        proof {
            assert(closed_at(*board, *walls, xy.0 as int, xy.1 as int)) by {
                assert forall|d: Direction| #[trigger] spec_direction_legal(*walls, sq(xy.0 as int, xy.1 as int), d) implies tile_at(
                    *board,
                    spec_position_after_direction(sq(xy.0 as int, xy.1 as int), d).x as int,
                    spec_position_after_direction(sq(xy.0 as int, xy.1 as int), d).y as int,
                ) is Valid by {
                    let j = match d {
                        Direction::Right => 0int,
                        Direction::Down => 1int,
                        Direction::Left => 2int,
                        Direction::Up => 3int,
                    };
                    assert(dir_direction(dirs@[j])->0 == d);
                    lemma_step_legal(*walls, xy.0 as int, xy.1 as int, dirs@[j]);
                }
            }
            assert(relaxed_at(*board, *walls, xy.0 as int, xy.1 as int)) by {
                assert forall|d: Direction| #[trigger] spec_direction_legal(*walls, sq(xy.0 as int, xy.1 as int), d) implies match tile_at(
                    *board,
                    spec_position_after_direction(sq(xy.0 as int, xy.1 as int), d).x as int,
                    spec_position_after_direction(sq(xy.0 as int, xy.1 as int), d).y as int,
                ) {
                    Tile::Valid(_, e) => e <= next_distance(dd),
                    Tile::Invalid => false,
                } by {
                    let j = match d {
                        Direction::Right => 0int,
                        Direction::Down => 1int,
                        Direction::Left => 2int,
                        Direction::Up => 3int,
                    };
                    assert(dir_direction(dirs@[j])->0 == d);
                    lemma_step_legal(*walls, xy.0 as int, xy.1 as int, dirs@[j]);
                }
            }
            lemma_potential_bounds(*board, 81);
            lemma_potential_bounds(b0, 81);
            if ok {
            assert forall|x: int, y: int| on_board_xy(x, y) && #[trigger] tile_at(*board, x, y) is Valid implies closed_at(*board, *walls, x, y) || queue@.contains((x as usize, y as usize)) by {
                if !(x == xy.0 && y == xy.1) && !closed_at(*board, *walls, x, y) {
                    if tile_at(b0, x, y) is Valid {
                        if !closed_at(b0, *walls, x, y) {
                            assert(q0.contains((x as usize, y as usize)));
                        }
                    }
                }
            }
            }
            if ok_r {
            assert forall|x: int, y: int| on_board_xy(x, y) && #[trigger] tile_at(*board, x, y) is Valid implies relaxed_at(*board, *walls, x, y) || queue@.contains((x as usize, y as usize)) by {
            }
            }
        }
    }
}

/// A wall of orientation `o` at `(x, y)` would overlap a wall: the slot is taken,
/// or a neighbour along `o` holds a wall of the same orientation.
pub open spec fn spec_wall_collide(walls: Walls, o: WallOrientation, x: int, y: int) -> bool {
    !spec_room_for_wall(walls, o, x, y)
}

fn wall_collide(walls: &Walls, orientation: WallOrientation, position: &WallPosition) -> (r: bool)
    requires
        position.on_grid(),
    ensures
        r == spec_wall_collide(*walls, orientation, position.x as int, position.y as int),
{
    let x = position.x;
    let y = position.y;
    if walls.get(x, y).is_some() {
        return true;
    }
    match orientation {
        WallOrientation::Horizontal => {
            if x > 0 && walls.get(x - 1, y) == Some(WallOrientation::Horizontal) {
                return true;
            }
            if x < WALL_GRID_WIDTH - 1 && walls.get(x + 1, y) == Some(WallOrientation::Horizontal) {
                return true;
            }
        },
        WallOrientation::Vertical => {
            if y > 0 && walls.get(x, y - 1) == Some(WallOrientation::Vertical) {
                return true;
            }
            if y < WALL_GRID_HEIGHT - 1 && walls.get(x, y + 1) == Some(WallOrientation::Vertical) {
                return true;
            }
        },
    }
    false
}

/// Some wall would collide at `(x, y)` whichever way it ran.
pub open spec fn spec_wall_ends_at(walls: Walls, x: int, y: int) -> bool {
    spec_wall_collide(walls, WallOrientation::Horizontal, x, y) || spec_wall_collide(walls, WallOrientation::Vertical, x, y)
}

fn wall_ends_at(walls: &Walls, position: &WallPosition) -> (r: bool)
    requires
        position.on_grid(),
    ensures
        r == spec_wall_ends_at(*walls, position.x as int, position.y as int),
{
    wall_collide(walls, WallOrientation::Horizontal, position) || wall_collide(walls, WallOrientation::Vertical, position)
}

/// The number of things that a wall of orientation `o` at `(x, y)` touches: the
/// rim of the grid at either end, and walls ending at its slot or at the two
/// slots along it.
pub open spec fn touches(walls: Walls, o: WallOrientation, x: int, y: int) -> int {
    let along = if o == WallOrientation::Horizontal { x } else { y };
    let before = if o == WallOrientation::Horizontal { (x - 1, y) } else { (x, y - 1) };
    let after = if o == WallOrientation::Horizontal { (x + 1, y) } else { (x, y + 1) };
    (if along == 0 || along == 7 { 1int } else { 0int })
        + (if spec_wall_ends_at(walls, x, y) { 1int } else { 0int })
        + (if along > 0 && spec_wall_ends_at(walls, before.0, before.1) { 1int } else { 0int })
        + (if along < 7 && spec_wall_ends_at(walls, after.0, after.1) { 1int } else { 0int })
}

/// Whether a wall at the position touches at most one other thing; such a
/// wall is taken not to close any way.
fn wall_untouched(walls: &Walls, orientation: WallOrientation, position: &WallPosition) -> (r: bool)
    requires
        position.on_grid(),
    ensures
        r == (touches(*walls, orientation, position.x as int, position.y as int) < 2),
{
    let x = position.x;
    let y = position.y;
    let mut touches: usize = 0;
    match orientation {
        WallOrientation::Horizontal => {
            if x == 0 {
                touches += 1;
            } else if x == WALL_GRID_WIDTH - 1 {
                touches += 1;
            }
            if wall_ends_at(walls, &WallPosition { x, y }) {
                touches += 1;
                if touches > 1 {
                    return false;
                }
            }
            if x > 0 && wall_ends_at(walls, &WallPosition { x: x - 1, y }) {
                touches += 1;
                if touches > 1 {
                    return false;
                }
            }
            if x < WALL_GRID_WIDTH - 1 && wall_ends_at(walls, &WallPosition { x: x + 1, y }) {
                touches += 1;
            }
        },
        WallOrientation::Vertical => {
            if y == 0 {
                touches += 1;
            } else if y == WALL_GRID_WIDTH - 1 {
                touches += 1;
            }
            if wall_ends_at(walls, &WallPosition { x, y }) {
                touches += 1;
                if touches > 1 {
                    return false;
                }
            }
            if y > 0 && wall_ends_at(walls, &WallPosition { x, y: y - 1 }) {
                touches += 1;
                if touches > 1 {
                    return false;
                }
            }
            if y < WALL_GRID_HEIGHT - 1 && wall_ends_at(walls, &WallPosition { x, y: y + 1 }) {
                touches += 1;
            }
        },
    }
    touches < 2
}

/// A reachable square with a way to follow.
pub open spec fn moving_tile(t: Tile) -> bool {
    match t {
        Tile::Valid(d, _) => d != Dir::Stay,
        Tile::Invalid => false,
    }
}

/// Each square of `b` is as in `a`, or was reachable in `a` by a way other than
/// staying and is unreachable in `b`.
pub open spec fn cut(a: Board, b: Board) -> bool {
    forall|x: int, y: int|
        on_board_xy(x, y) ==> #[trigger] tile_at(b, x, y) == tile_at(a, x, y) || (tile_at(b, x, y) is Invalid
            && moving_tile(tile_at(a, x, y)))
}

/// Marks `(x, y)` unreachable, and with it, one after another, every square
/// whose way leads into a square so marked; each marked square is added to
/// `collect`.
fn board_propagate_invalid(board: &mut Board, collect: &mut Vec<(usize, usize)>, x: usize, y: usize)
    requires
        on_board_xy(x as int, y as int),
        moving_tile(tile_at(*old(board), x as int, y as int)),
    ensures
        cut(*old(board), *final(board)),
        tile_at(*final(board), x as int, y as int) is Invalid,
        total_potential(*final(board), 81) > total_potential(*old(board), 81),
        final(collect)@.len() >= old(collect)@.len(),
        forall|k: int| 0 <= k < old(collect)@.len() ==> #[trigger] final(collect)@[k] == old(collect)@[k],
        forall|k: int| 0 <= k < final(collect)@.len() ==> on_board_xy(#[trigger] final(collect)@[k].0 as int, final(collect)@[k].1 as int)
            || k < old(collect)@.len(),
    decreases 81 * 256 - total_potential(*old(board), 81),
{
    let ghost b0 = *board;
    let ghost c0 = collect@;
    set_tile(board, x, y, Tile::Invalid);
    proof {
        lemma_potential_update(*board, b0, x as int, y as int, 81);
        lemma_potential_bounds(*board, 81);
    }
    collect.push((x, y));
    let dirs = [Dir::PosX, Dir::PosY, Dir::NegX, Dir::NegY];
    let mut k: usize = 0;
    while k < 4
        invariant
            on_board_xy(x as int, y as int),
            k <= 4,
            dirs@ == seq![Dir::PosX, Dir::PosY, Dir::NegX, Dir::NegY],
            b0 == *old(board),
            cut(b0, *board),
            tile_at(*board, x as int, y as int) is Invalid,
            total_potential(*board, 81) > total_potential(b0, 81),
            total_potential(*board, 81) <= 81 * 256,
            collect@.len() >= c0.len(),
            forall|i: int| 0 <= i < c0.len() ==> #[trigger] collect@[i] == c0[i],
            forall|i: int| 0 <= i < collect@.len() ==> on_board_xy(#[trigger] collect@[i].0 as int, collect@[i].1 as int)
                || i < c0.len(),
        decreases 4 - k,
    {
        let dir_out = dirs[k];
        if dir_out.can_apply((x, y)) {
            let (nx, ny) = dir_out.apply((x, y));
            match get_tile(board, nx, ny) {
                Tile::Valid(dir_in, _) => {
                    if dir_in == dir_out.reverse() {
                        let ghost bb = *board;
                        let ghost cb = collect@;
                        board_propagate_invalid(board, collect, nx, ny);
                        proof {
                            lemma_potential_bounds(*board, 81);
                            assert forall|i: int, j: int| on_board_xy(i, j) implies #[trigger] tile_at(*board, i, j) == tile_at(b0, i, j) || (tile_at(*board, i, j) is Invalid
                                && moving_tile(tile_at(b0, i, j))) by {
                                assert(tile_at(*board, i, j) == tile_at(bb, i, j) || tile_at(*board, i, j) is Invalid && tile_at(bb, i, j) is Valid);
                            }
                            assert forall|i: int| 0 <= i < c0.len() implies #[trigger] collect@[i] == c0[i] by {
                                assert(collect@[i] == cb[i]);
                            }
                            assert forall|i: int| 0 <= i < collect@.len() implies on_board_xy(#[trigger] collect@[i].0 as int, collect@[i].1 as int)
                                || i < c0.len() by {
                                if i < cb.len() {
                                    assert(collect@[i] == cb[i]);
                                }
                            }
                        }
                    }
                },
                Tile::Invalid => {},
            }
        }
        k += 1;
    }
}

/// The distances after placing a wall of `orientation` at `(x, y)`: the squares
/// whose way crosses the wall are marked unreachable with all squares whose way
/// leads through them, and the search is run again from their reachable
/// neighbours under the new walls.
fn board_after_wall(walls: &Walls, board: &Board, x: usize, y: usize, orientation: WallOrientation) -> (r: Board)
    requires
        x < WALL_GRID_WIDTH,
        y < WALL_GRID_HEIGHT,
    ensures
        forall|p: Player| goal_anchored(*board, p) ==> #[trigger] goal_anchored(r, p),
{
    let mut board = *board;
    let ghost b_in = board;
    let mut walls = *walls;
    walls.set(x, y, Some(orientation));
    let squares = [(x, y), (x + 1, y), (x, y + 1), (x + 1, y + 1)];
    assert(forall|k: int| 0 <= k < 4 ==> on_board_xy(#[trigger] squares@[k].0 as int, squares@[k].1 as int));
    let towards = match orientation {
        WallOrientation::Horizontal => [Dir::PosY, Dir::PosY, Dir::NegY, Dir::NegY],
        WallOrientation::Vertical => [Dir::PosX, Dir::NegX, Dir::PosX, Dir::NegX],
    };
    let mut invalids: Vec<(usize, usize)> = Vec::new();
    let mut i: usize = 0;
    while i < 4
        invariant
            i <= 4,
            x < WALL_GRID_WIDTH,
            y < WALL_GRID_HEIGHT,
            forall|k: int| 0 <= k < 4 ==> on_board_xy(#[trigger] squares@[k].0 as int, squares@[k].1 as int),
            cut(b_in, board),
            forall|k: int| 0 <= k < invalids@.len() ==> on_board_xy(#[trigger] invalids@[k].0 as int, invalids@[k].1 as int),
        decreases 4 - i,
    {
        let (sx, sy) = squares[i];
        let towards_wall = towards[i];
        match get_tile(&board, sx, sy) {
            Tile::Valid(dir, _) => {
                if dir == towards_wall && dir != Dir::Stay {
                    let ghost bb = board;
                    let ghost cb = invalids@;
                    board_propagate_invalid(&mut board, &mut invalids, sx, sy);
                    proof {
                        assert forall|i: int, j: int| on_board_xy(i, j) implies #[trigger] tile_at(board, i, j) == tile_at(b_in, i, j) || (tile_at(board, i, j) is Invalid
                            && moving_tile(tile_at(b_in, i, j))) by {
                            assert(tile_at(board, i, j) == tile_at(bb, i, j) || tile_at(board, i, j) is Invalid && moving_tile(tile_at(bb, i, j)));
                        }
                        assert forall|k: int| 0 <= k < invalids@.len() implies on_board_xy(#[trigger] invalids@[k].0 as int, invalids@[k].1 as int) by {
                            if k < cb.len() {
                                assert(invalids@[k] == cb[k]);
                            }
                        }
                    }
                }
            },
            Tile::Invalid => {},
        }
        i += 1;
    }
    let mut queue: VecDeque<(usize, usize)> = VecDeque::new();
    let mut seen = [[false; PIECE_GRID_WIDTH]; PIECE_GRID_HEIGHT];
    let dirs = [Dir::PosX, Dir::PosY, Dir::NegX, Dir::NegY];
    let mut j: usize = 0;
    while j < invalids.len()
        invariant
            j <= invalids@.len(),
            forall|k: int| 0 <= k < invalids@.len() ==> on_board_xy(#[trigger] invalids@[k].0 as int, invalids@[k].1 as int),
            forall|k: int| 0 <= k < queue@.len() ==> on_board_xy(#[trigger] queue@[k].0 as int, queue@[k].1 as int),
        decreases invalids@.len() - j,
    {
        let invalid = invalids[j];
        let mut k: usize = 0;
        while k < 4
            invariant
                k <= 4,
                on_board_xy(invalid.0 as int, invalid.1 as int),
                forall|i: int| 0 <= i < queue@.len() ==> on_board_xy(#[trigger] queue@[i].0 as int, queue@[i].1 as int),
            decreases 4 - k,
        {
            let dir = dirs[k];
            if dir.can_apply(invalid) {
                let (nx, ny) = dir.apply(invalid);
                if !seen[ny][nx] {
                    let mut row = seen[ny];
                    row[nx] = true;
                    seen[ny] = row;
                    let dx: i8 = if nx > invalid.0 { 1 } else if nx < invalid.0 { -1 } else { 0 };
                    let dy: i8 = if ny > invalid.1 { 1 } else if ny < invalid.1 { -1 } else { 0 };
                    if !wall_blocks(&walls, invalid.0, invalid.1, dx, dy) {
                        match get_tile(&board, nx, ny) {
                            Tile::Valid(_, _) => {
                                queue.push_back((nx, ny));
                            },
                            Tile::Invalid => {},
                        }
                    }
                }
            }
            k += 1;
        }
        j += 1;
    }
    let ghost b_cut = board;
    bfs(&walls, &mut board, queue);
    proof {
        assert forall|p: Player| goal_anchored(b_in, p) implies #[trigger] goal_anchored(board, p) by {
            assert forall|i: int| 0 <= i < PIECE_GRID_WIDTH implies #[trigger] tile_at(board, i, goal_row(p)) == Tile::Valid(Dir::Stay, 0) by {
                assert(tile_at(b_in, i, goal_row(p)) == Tile::Valid(Dir::Stay, 0));
                assert(tile_at(b_cut, i, goal_row(p)) == Tile::Valid(Dir::Stay, 0));
                assert(zero_tile(tile_at(b_cut, i, goal_row(p))));
            }
            assert forall|i: int, j: int| on_board_xy(i, j) && zero_tile(#[trigger] tile_at(board, i, j)) implies j == goal_row(p) by {
                assert(tile_at(b_cut, i, j) == tile_at(board, i, j));
                assert(tile_at(b_cut, i, j) == tile_at(b_in, i, j));
            }
        }
    }
    board
}

pub open spec fn wall_move_at(o: WallOrientation, x: int, y: int) -> PlayerMove {
    PlayerMove::PlaceWall { orientation: o, position: WallPosition { x: x as usize, y: y as usize } }
}

/// A wall move of the list that `get_wall_moves` gives for `game` and the
/// boards `b1` and `b2` of the player to move and of the opponent.
pub open spec fn wall_entry_ok(game: Game, b1: Board, b2: Board, e: (PlayerMove, Board, Board)) -> bool {
    let p1 = game.board.pos(game.player);
    let p2 = game.board.pos(game.player.other());
    &&& e.0 matches PlayerMove::PlaceWall { orientation, position } && position.on_grid() && spec_room_for_wall(
        game.board.walls,
        orientation,
        position.x as int,
        position.y as int,
    )
    &&& game.walls_left@[game.player.index()] > 0
    &&& forall|p: Player| goal_anchored(b1, p) ==> #[trigger] goal_anchored(e.1, p)
    &&& forall|p: Player| goal_anchored(b2, p) ==> #[trigger] goal_anchored(e.2, p)
    &&& (e.1 == b1 && e.2 == b2) || (tile_at(e.1, p1.x as int, p1.y as int) is Valid && tile_at(
        e.2,
        p2.x as int,
        p2.y as int,
    ) is Valid)
}

/// The index of the slot `(o, x, y)` in the order the slots are tried: row by
/// row, column by column, horizontal first.
pub open spec fn slot_order(o: WallOrientation, x: int, y: int) -> int {
    y * 16 + x * 2 + if o == WallOrientation::Horizontal { 0int } else { 1int }
}

/// The place of a wall move in the order of `slot_order`.
pub open spec fn wall_slot(m: PlayerMove) -> int {
    match m {
        PlayerMove::PlaceWall { orientation, position } => slot_order(orientation, position.x as int, position.y as int),
        PlayerMove::MovePiece(_) => -1,
    }
}

/// No move occurs twice in `r`.
pub open spec fn moves_distinct(r: Seq<(PlayerMove, Board, Board)>) -> bool {
    forall|i: int, j: int| 0 <= i < j < r.len() ==> #[trigger] r[i].0 != #[trigger] r[j].0
}

/// The walls that the player to move may consider, each with the boards of the
/// two players after it: a wall that touches at most one thing keeps the boards
/// given; any other wall is searched again, kept only if both pieces still
/// reach their goal rows, and put in front.
pub fn get_wall_moves(game: &Game, board_p1: &Board, board_p2: &Board) -> (r: Vec<(PlayerMove, Board, Board)>)
    requires
        game.board.on_board(),
    ensures
        game.walls_left@[game.player.index()] == 0 ==> r@.len() == 0,
        r@.len() <= 128,
        forall|k: int| 0 <= k < r@.len() ==> wall_entry_ok(*game, *board_p1, *board_p2, #[trigger] r@[k]),
        game.walls_left@[game.player.index()] > 0 ==> forall|o: WallOrientation, x: int, y: int|
            0 <= x < WALL_GRID_WIDTH && 0 <= y < WALL_GRID_HEIGHT && spec_room_for_wall(game.board.walls, o, x, y)
                && touches(game.board.walls, o, x, y) < 2 ==> exists|k: int|
                0 <= k < r@.len() && #[trigger] r@[k] == (wall_move_at(o, x, y), *board_p1, *board_p2),
        moves_distinct(r@),
{
    let mut wall_moves: Vec<(PlayerMove, Board, Board)> = Vec::new();
    let p1 = game.player;
    let p2 = game.player.opponent();
    if game.walls_left[p1.as_index()] == 0 {
        return wall_moves;
    }
    let pos1 = *game.board.player_position(p1);
    let pos2 = *game.board.player_position(p2);
    let mut idx: usize = 0;
    while idx < 128
        invariant
            idx <= 128,
            game.board.on_board(),
            p1 == game.player,
            p2 == game.player.other(),
            pos1 == game.board.pos(p1),
            pos2 == game.board.pos(p2),
            game.walls_left@[game.player.index()] > 0,
            wall_moves@.len() <= idx,
            forall|k: int| 0 <= k < wall_moves@.len() ==> wall_entry_ok(*game, *board_p1, *board_p2, #[trigger] wall_moves@[k]),
            forall|o: WallOrientation, x: int, y: int|
                0 <= x < WALL_GRID_WIDTH && 0 <= y < WALL_GRID_HEIGHT && slot_order(o, x, y) < idx
                    && spec_room_for_wall(game.board.walls, o, x, y) && touches(game.board.walls, o, x, y) < 2
                    ==> exists|k: int|
                    0 <= k < wall_moves@.len() && #[trigger] wall_moves@[k] == (wall_move_at(o, x, y), *board_p1, *board_p2),
            forall|k: int| 0 <= k < wall_moves@.len() ==> wall_slot(#[trigger] wall_moves@[k].0) < idx,
            moves_distinct(wall_moves@),
        decreases 128 - idx,
    {
        let y = idx / 16;
        let x = (idx / 2) % 8;
        let orientation = if idx % 2 == 0 {
            WallOrientation::Horizontal
        } else {
            WallOrientation::Vertical
        };
        proof {
            assert(slot_order(orientation, x as int, y as int) == idx) by {
                vstd::arithmetic::div_mod::lemma_fundamental_div_mod(idx as int, 16);
                vstd::arithmetic::div_mod::lemma_fundamental_div_mod(idx as int, 2);
                vstd::arithmetic::div_mod::lemma_fundamental_div_mod((idx / 2) as int, 8);
                vstd::arithmetic::div_mod::lemma_div_denominator(idx as int, 2, 8);
            }
            assert forall|o: WallOrientation, xx: int, yy: int|
                0 <= xx < WALL_GRID_WIDTH && 0 <= yy < WALL_GRID_HEIGHT && slot_order(o, xx, yy) == idx
                    implies o == orientation && xx == x && yy == y by {
                lemma_slot_order_unique(o, xx, yy, orientation, x as int, y as int);
            }
        }
        let position = WallPosition { x, y };
        let ghost before = wall_moves@;
        if !wall_collide(&game.board.walls, orientation, &position) {
            if wall_untouched(&game.board.walls, orientation, &position) {
                wall_moves.push((PlayerMove::PlaceWall { orientation, position }, *board_p1, *board_p2));
                proof {
                    assert(wall_moves@[before.len() as int] == (wall_move_at(orientation, x as int, y as int), *board_p1, *board_p2));
                    assert forall|k: int| 0 <= k < wall_moves@.len() implies wall_entry_ok(*game, *board_p1, *board_p2, #[trigger] wall_moves@[k]) by {
                        if k < before.len() {
                            assert(wall_moves@[k] == before[k]);
                        }
                    }
                    assert forall|o: WallOrientation, xx: int, yy: int|
                        0 <= xx < WALL_GRID_WIDTH && 0 <= yy < WALL_GRID_HEIGHT && slot_order(o, xx, yy) < idx + 1
                            && spec_room_for_wall(game.board.walls, o, xx, yy) && touches(game.board.walls, o, xx, yy) < 2
                            implies exists|k: int|
                            0 <= k < wall_moves@.len() && #[trigger] wall_moves@[k] == (wall_move_at(o, xx, yy), *board_p1, *board_p2) by {
                        if slot_order(o, xx, yy) < idx {
                            let k = choose|k: int| 0 <= k < before.len() && #[trigger] before[k] == (wall_move_at(o, xx, yy), *board_p1, *board_p2);
                            assert(wall_moves@[k] == before[k]);
                        } else {
                            assert(wall_moves@[before.len() as int] == (wall_move_at(o, xx, yy), *board_p1, *board_p2));
                        }
                    }
                    assert forall|k: int| 0 <= k < wall_moves@.len() implies wall_slot(#[trigger] wall_moves@[k].0) < idx + 1 by {
                        if k < before.len() {
                            assert(wall_moves@[k] == before[k]);
                        }
                    }
                    assert forall|i: int, j: int| 0 <= i < j < wall_moves@.len() implies #[trigger] wall_moves@[i].0 != #[trigger] wall_moves@[j].0 by {
                        assert(wall_moves@[i] == before[i]);
                        if j < before.len() {
                            assert(wall_moves@[j] == before[j]);
                        } else {
                            assert(wall_slot(before[i].0) < idx);
                            assert(wall_slot(wall_moves@[j].0) == idx);
                        }
                    }
                }
            } else {
                let b1 = board_after_wall(&game.board.walls, board_p1, x, y, orientation);
                if matches!(get_tile(&b1, pos1.x, pos1.y), Tile::Valid(..)) {
                    let b2 = board_after_wall(&game.board.walls, board_p2, x, y, orientation);
                    if matches!(get_tile(&b2, pos2.x, pos2.y), Tile::Valid(..)) {
                        wall_moves.insert(0, (PlayerMove::PlaceWall { orientation, position }, b1, b2));
                        proof {
                            assert forall|k: int| 0 <= k < wall_moves@.len() implies wall_entry_ok(*game, *board_p1, *board_p2, #[trigger] wall_moves@[k]) by {
                                if k > 0 {
                                    assert(wall_moves@[k] == before[k - 1]);
                                }
                            }
                            assert forall|o: WallOrientation, xx: int, yy: int|
                                0 <= xx < WALL_GRID_WIDTH && 0 <= yy < WALL_GRID_HEIGHT && slot_order(o, xx, yy) < idx + 1
                                    && spec_room_for_wall(game.board.walls, o, xx, yy) && touches(game.board.walls, o, xx, yy) < 2
                                    implies exists|k: int|
                                    0 <= k < wall_moves@.len() && #[trigger] wall_moves@[k] == (wall_move_at(o, xx, yy), *board_p1, *board_p2) by {
                                let k = choose|k: int| 0 <= k < before.len() && #[trigger] before[k] == (wall_move_at(o, xx, yy), *board_p1, *board_p2);
                                assert(wall_moves@[k + 1] == before[k]);
                            }
                            assert forall|k: int| 0 <= k < wall_moves@.len() implies wall_slot(#[trigger] wall_moves@[k].0) < idx + 1 by {
                                if k > 0 {
                                    assert(wall_moves@[k] == before[k - 1]);
                                }
                            }
                            assert forall|i: int, j: int| 0 <= i < j < wall_moves@.len() implies #[trigger] wall_moves@[i].0 != #[trigger] wall_moves@[j].0 by {
                                assert(wall_moves@[j] == before[j - 1]);
                                if i > 0 {
                                    assert(wall_moves@[i] == before[i - 1]);
                                } else {
                                    assert(wall_slot(before[j - 1].0) < idx);
                                    assert(wall_slot(wall_moves@[0].0) == idx);
                                }
                            }
                        }
                    }
                }
            }
        }
        idx += 1;
    }
    wall_moves
}

/// `r` is a list of wall moves as `get_wall_moves` gives it for `game` and the
/// boards `b1` and `b2`: none without a wall left, each with room and boards
/// that fit, every wall with room that touches at most one thing listed with
/// the boards given, and no wall twice.
pub open spec fn wall_list_ok(game: Game, b1: Board, b2: Board, r: Seq<(PlayerMove, Board, Board)>) -> bool {
    &&& game.walls_left@[game.player.index()] == 0 ==> r.len() == 0
    &&& r.len() <= 128
    &&& forall|k: int| 0 <= k < r.len() ==> wall_entry_ok(game, b1, b2, #[trigger] r[k])
    &&& game.walls_left@[game.player.index()] > 0 ==> forall|o: WallOrientation, x: int, y: int|
        0 <= x < WALL_GRID_WIDTH && 0 <= y < WALL_GRID_HEIGHT && spec_room_for_wall(game.board.walls, o, x, y)
            && touches(game.board.walls, o, x, y) < 2 ==> exists|k: int|
            0 <= k < r.len() && #[trigger] r[k] == (wall_move_at(o, x, y), b1, b2)
    &&& moves_distinct(r)
}

/// The walls that the player to move may consider, from fresh boards.
pub fn _get_wall_moves(game: &Game) -> (r: Vec<(PlayerMove, Board, Board)>)
    requires
        game.board.on_board(),
    ensures
        exists|b1: Board, b2: Board|
            board_ok(b1, game.board.walls, game.player) && board_ok(b2, game.board.walls, game.player.other())
                && #[trigger] wall_list_ok(*game, b1, b2, r@),
        r@.len() <= 128,
        forall|k: int| 0 <= k < r@.len() ==> {
            &&& #[trigger] r@[k].0 matches PlayerMove::PlaceWall { orientation, position } && position.on_grid()
                && spec_room_for_wall(game.board.walls, orientation, position.x as int, position.y as int)
            &&& goal_anchored(r@[k].1, game.player)
            &&& goal_anchored(r@[k].2, game.player.other())
        },
{
    let p1 = game.player;
    let p2 = game.player.opponent();
    let board_p1 = get_board(game, p1);
    let board_p2 = get_board(game, p2);
    let r = get_wall_moves(game, &board_p1, &board_p2);
    proof {
        assert forall|k: int| 0 <= k < r@.len() implies {
            &&& #[trigger] r@[k].0 matches PlayerMove::PlaceWall { orientation, position } && position.on_grid()
                && spec_room_for_wall(game.board.walls, orientation, position.x as int, position.y as int)
            &&& goal_anchored(r@[k].1, game.player)
            &&& goal_anchored(r@[k].2, game.player.other())
        } by {
            assert(wall_entry_ok(*game, board_p1, board_p2, r@[k]));
        }
        assert(wall_list_ok(*game, board_p1, board_p2, r@));
    }
    r
}

proof fn lemma_slot_order_unique(o: WallOrientation, x: int, y: int, o2: WallOrientation, x2: int, y2: int)
    requires
        0 <= x < 8,
        0 <= y < 8,
        0 <= x2 < 8,
        0 <= y2 < 8,
        slot_order(o, x, y) == slot_order(o2, x2, y2),
    ensures
        o == o2 && x == x2 && y == y2,
{
    let a = if o == WallOrientation::Horizontal { 0int } else { 1int };
    let b = if o2 == WallOrientation::Horizontal { 0int } else { 1int };
    assert(a == b && x == x2 && y == y2) by (nonlinear_arith)
        requires
            0 <= x < 8,
            0 <= y < 8,
            0 <= x2 < 8,
            0 <= y2 < 8,
            0 <= a <= 1,
            0 <= b <= 1,
            y * 16 + x * 2 + a == y2 * 16 + x2 * 2 + b,
    ;
}

/// A board as a fresh search gives it for `player` under `walls`: anchored at
/// the goal row, closed, relaxed, and with every way a legal step nearer the
/// goal row; its distances below 255 are the fewest steps to the goal row.
pub open spec fn fresh_board(b: Board, walls: Walls, player: Player) -> bool {
    board_ok(b, walls, player) && relaxed(b, walls) && links_ok(b, walls)
}

/// On a board as a fresh search gives it, a distance `d < 255` is the fewest
/// legal steps from its square to the goal row: the square reaches the goal
/// row within `d` steps, and within no fewer.
pub proof fn lemma_fresh_board_distances(b: Board, walls: Walls, player: Player, x: int, y: int, n: int)
    requires
        fresh_board(b, walls, player),
        0 <= n < 255,
    ensures
        on_board_xy(x, y) && tile_at(b, x, y) is Valid && tile_at(b, x, y)->1 < 255 ==> reach_within(
            walls,
            player,
            x,
            y,
            tile_at(b, x, y)->1 as int,
        ),
        reach_within(walls, player, x, y, n) ==> tile_at(b, x, y) is Valid && tile_at(b, x, y)->1 <= n,
{
    if on_board_xy(x, y) && tile_at(b, x, y) is Valid && tile_at(b, x, y)->1 < 255 {
        lemma_link_reach(b, walls, player, x, y);
    }
    if reach_within(walls, player, x, y, n) {
        lemma_relaxed_bound(b, walls, player, x, y, n);
    }
}

/// The distances of the squares of the board from the goal row of `player`,
/// found by a breadth-first search from that row: a square that reaches the
/// goal row in `n < 255` legal steps is at a distance of at most `n`, and a
/// square at a distance `d < 255` reaches it in `d` steps, its way being a
/// legal step to a square nearer the goal row. So every distance below 255 is
/// the fewest steps to the goal row.
pub fn get_board(game: &Game, player: Player) -> (board: Board)
    ensures
        board_ok(board, game.board.walls, player),
        relaxed(board, game.board.walls),
        links_ok(board, game.board.walls),
        forall|x: int, y: int, n: int|
            0 <= n < 255 && #[trigger] reach_within(game.board.walls, player, x, y, n) ==> match tile_at(board, x, y) {
                Tile::Valid(_, d) => d <= n,
                Tile::Invalid => false,
            },
        forall|x: int, y: int|
            on_board_xy(x, y) && #[trigger] tile_at(board, x, y) is Valid && tile_at(board, x, y)->1 < 255 ==> reach_within(
                game.board.walls,
                player,
                x,
                y,
                tile_at(board, x, y)->1 as int,
            ),
{
    let mut board = Board { tiles: [[Tile::Invalid; PIECE_GRID_WIDTH]; PIECE_GRID_HEIGHT] };
    let mut queue: VecDeque<(usize, usize)> = VecDeque::new();
    let y_target: usize = match player {
        Player::Black => 0,
        Player::White => PIECE_GRID_HEIGHT - 1,
    };
    assert(forall|i: int, j: int| on_board_xy(i, j) ==> #[trigger] tile_at(board, i, j) == Tile::Invalid);
    let mut x: usize = 0;
    while x < PIECE_GRID_WIDTH
        invariant
            x <= PIECE_GRID_WIDTH,
            y_target == goal_row(player),
            queue@.len() == x,
            forall|k: int| 0 <= k < x ==> #[trigger] queue@[k] == (k as usize, y_target),
            forall|i: int, j: int|
                on_board_xy(i, j) ==> #[trigger] tile_at(board, i, j) == if j == y_target && i < x {
                    Tile::Valid(Dir::Stay, 0)
                } else {
                    Tile::Invalid
                },
        decreases PIECE_GRID_WIDTH - x,
    {
        set_tile(&mut board, x, y_target, Tile::Valid(Dir::Stay, 0));
        queue.push_back((x, y_target));
        x += 1;
    }
    let ghost start = board;
    proof {
        assert forall|i: int, j: int| on_board_xy(i, j) && #[trigger] tile_at(board, i, j) is Valid implies closed_at(board, game.board.walls, i, j)
            || queue@.contains((i as usize, j as usize)) by {
            assert(queue@[i] == (i as usize, y_target));
        }
    }
    proof {
        assert forall|i: int, j: int| on_board_xy(i, j) && #[trigger] tile_at(board, i, j) is Valid implies relaxed_at(board, game.board.walls, i, j)
            || queue@.contains((i as usize, j as usize)) by {
            assert(queue@[i] == (i as usize, y_target));
        }
        assert forall|i: int, j: int| on_board_xy(i, j) implies #[trigger] link_at(board, game.board.walls, i, j) by {}
    }
    bfs(&game.board.walls, &mut board, queue);
    proof {
        assert forall|i: int| 0 <= i < PIECE_GRID_WIDTH implies #[trigger] tile_at(board, i, goal_row(player)) == Tile::Valid(Dir::Stay, 0) by {
            assert(tile_at(start, i, y_target as int) == Tile::Valid(Dir::Stay, 0));
            assert(zero_tile(tile_at(start, i, y_target as int)));
        }
        assert forall|i: int, j: int| on_board_xy(i, j) && zero_tile(#[trigger] tile_at(board, i, j)) implies j == goal_row(player) by {
            assert(tile_at(start, i, j) == tile_at(board, i, j));
        }
        assert forall|x: int, y: int, n: int|
            0 <= n < 255 && #[trigger] reach_within(game.board.walls, player, x, y, n) implies match tile_at(board, x, y) {
                Tile::Valid(_, d) => d <= n,
                Tile::Invalid => false,
            } by {
            lemma_relaxed_bound(board, game.board.walls, player, x, y, n);
        }
        assert forall|x: int, y: int|
            on_board_xy(x, y) && #[trigger] tile_at(board, x, y) is Valid && tile_at(board, x, y)->1 < 255 implies reach_within(
                game.board.walls,
                player,
                x,
                y,
                tile_at(board, x, y)->1 as int,
            ) by {
            lemma_link_reach(board, game.board.walls, player, x, y);
        }
    }
    board
}

} // verus!
