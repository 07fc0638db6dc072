use vstd::prelude::*;
use crate::agent::dedi::bit_set::{bit, Bitset192};
use crate::search::goal_row;
use crate::data_model::{
    Game, Player, PiecePosition, WallOrientation, WallPosition, PIECE_GRID_HEIGHT, PIECE_GRID_WIDTH,
    WALL_GRID_HEIGHT, WALL_GRID_WIDTH,
};

verus! {

/// A wall: where its centre is and which way it runs.
#[derive(Debug, Clone, Copy, PartialEq, Eq, Structural)]
pub struct Wall {
    pub position: WallPosition,
    pub orientation: WallOrientation,
}

/// The wall slots that can close the edge between two adjacent squares: one at
/// the rim of the board, two elsewhere.
#[derive(Debug, Clone, Copy, PartialEq, Eq, Structural)]
pub enum WallsBetween {
    Single(Wall),
    Double(Wall, Wall),
}

pub open spec fn spec_tile_index(pos: PiecePosition) -> int {
    pos.y * PIECE_GRID_HEIGHT + pos.x
}

/// The number of a square, row by row.
pub fn tile_index(pos: &PiecePosition) -> (i: usize)
    requires
        pos.on_board(),
    ensures
        i == spec_tile_index(*pos),
        i < 81,
{
    pos.y * PIECE_GRID_HEIGHT + pos.x
}

/// The square with number `index`.
pub fn tile_from_index(index: usize) -> (p: PiecePosition)
    requires
        index < 81,
    ensures
        p.x == index % 9,
        p.y == index / 9,
        p.on_board(),
{
    PiecePosition { x: index % PIECE_GRID_HEIGHT, y: index / PIECE_GRID_HEIGHT }
}

pub open spec fn spec_wall_index(wall: Wall) -> int {
    let i = wall.position.y * WALL_GRID_HEIGHT + wall.position.x;
    match wall.orientation {
        WallOrientation::Horizontal => i,
        WallOrientation::Vertical => WALL_GRID_WIDTH * WALL_GRID_HEIGHT + i,
    }
}

/// The number of a wall: the horizontal ones row by row, then the vertical ones.
pub fn wall_index(wall: Wall) -> (i: usize)
    requires
        wall.position.on_grid(),
    ensures
        i == spec_wall_index(wall),
        i < 128,
{
    match wall.orientation {
        WallOrientation::Horizontal => wall.position.y * WALL_GRID_HEIGHT + wall.position.x,
        WallOrientation::Vertical => WALL_GRID_WIDTH * WALL_GRID_HEIGHT + (wall.position.y
            * WALL_GRID_HEIGHT + wall.position.x),
    }
}

/// The wall with number `index`.
pub fn wall_from_index(index: usize) -> (w: Wall)
    requires
        index < 128,
    ensures
        w.position.on_grid(),
        w.orientation == (if index < 64 { WallOrientation::Horizontal } else { WallOrientation::Vertical }),
        w.position.x == index % 64 % 8,
        w.position.y == index % 64 / 8,
{
    let horizontal_count = WALL_GRID_WIDTH * WALL_GRID_HEIGHT;
    if index < horizontal_count {
        let y = index / WALL_GRID_HEIGHT;
        let x = index % WALL_GRID_HEIGHT;
        Wall { orientation: WallOrientation::Horizontal, position: WallPosition { x, y } }
    } else {
        let vertical_index = index - horizontal_count;
        let y = vertical_index / WALL_GRID_HEIGHT;
        let x = vertical_index % WALL_GRID_HEIGHT;
        Wall { orientation: WallOrientation::Vertical, position: WallPosition { x, y } }
    }
}

/// Numbering squares and walls loses nothing: a square or a wall on the grid
/// comes back from its number, and a number comes back from its square or wall.
pub proof fn lemma_index_round_trips(p: PiecePosition, i: int, w: Wall, j: int)
    requires
        p.on_board(),
        0 <= i < 81,
        w.position.on_grid(),
        0 <= j < 128,
    ensures
        spec_tile_index(p) % 9 == p.x && spec_tile_index(p) / 9 == p.y,
        (i / 9) * 9 + i % 9 == i,
        spec_wall_index(w) % 64 % 8 == w.position.x,
        spec_wall_index(w) % 64 / 8 == w.position.y,
        (spec_wall_index(w) < 64) == (w.orientation == WallOrientation::Horizontal),
        (if j < 64 { 0 } else { 64int }) + (j % 64 / 8) * 8 + j % 64 % 8 == j,
{
    let x = p.x as int;
    let y = p.y as int;
    assert((y * 9 + x) % 9 == x && (y * 9 + x) / 9 == y) by (nonlinear_arith)
        requires
            0 <= x < 9,
            0 <= y < 9,
    ;
    assert((i / 9) * 9 + i % 9 == i) by (nonlinear_arith)
        requires
            0 <= i,
    ;
    let wx = w.position.x as int;
    let wy = w.position.y as int;
    let k = wy * 8 + wx;
    assert(k % 64 == k && k % 8 == wx && k / 8 == wy && 0 <= k < 64) by (nonlinear_arith)
        requires
            0 <= wx < 8,
            0 <= wy < 8,
            k == wy * 8 + wx,
    ;
    assert((64 + k) % 64 == k) by (nonlinear_arith)
        requires
            0 <= k < 64,
    ;
    assert((if j < 64 { 0 } else { 64int }) + (j % 64 / 8) * 8 + j % 64 % 8 == j) by (nonlinear_arith)
        requires
            0 <= j < 128,
    ;
}

/// `b` is the square right of or below `a`.
pub open spec fn right_or_below(a: PiecePosition, b: PiecePosition) -> bool {
    (b.x == a.x + 1 && b.y == a.y) || (b.x == a.x && b.y == a.y + 1)
}

/// Two squares side by side, in either order.
pub open spec fn adjacent(a: PiecePosition, b: PiecePosition) -> bool {
    right_or_below(a, b) || right_or_below(b, a)
}

/// The number of the edge between two adjacent squares: the horizontal steps
/// first, numbered by their left square, then the vertical ones by their upper square.
pub fn move_index(a: PiecePosition, b: PiecePosition) -> (i: usize)
    requires
        a.on_board(),
        b.on_board(),
        adjacent(a, b),
    ensures
        i == (if right_or_below(a, b) {
            if b.x == a.x + 1 { spec_tile_index(a) } else { 81 + spec_tile_index(a) }
        } else {
            if a.x == b.x + 1 { spec_tile_index(b) } else { 81 + spec_tile_index(b) }
        }),
{
    let mut a = a;
    let mut b = b;
    if tile_index(&a) > tile_index(&b) {
        let t = a;
        a = b;
        b = t;
    }
    if b.x == a.x + 1 {
        tile_index(&a)
    } else {
        PIECE_GRID_WIDTH * PIECE_GRID_HEIGHT + tile_index(&a)
    }
}

/// The wall slots that close the edge between the adjacent squares `a` and
/// `b`: the slot at the upper or left square of the two, and the one before it
/// along the edge, but for the slot that falls off the grid at the rim.
pub open spec fn spec_walls_between(a: PiecePosition, b: PiecePosition) -> WallsBetween {
    let (lo, hi) = if right_or_below(a, b) { (a, b) } else { (b, a) };
    let o = if hi.x == lo.x + 1 { WallOrientation::Vertical } else { WallOrientation::Horizontal };
    let along = if o == WallOrientation::Horizontal { lo.x } else { lo.y };
    let w0 = Wall { position: WallPosition { x: lo.x, y: lo.y }, orientation: o };
    let w1 = if o == WallOrientation::Horizontal {
        Wall { position: WallPosition { x: (lo.x - 1) as usize, y: lo.y }, orientation: o }
    } else {
        Wall { position: WallPosition { x: lo.x, y: (lo.y - 1) as usize }, orientation: o }
    };
    if along == 0 {
        WallsBetween::Single(w0)
    } else if along == 8 {
        WallsBetween::Single(w1)
    } else {
        WallsBetween::Double(w0, w1)
    }
}

/// The slot `j` is among the slots of `wb`.
pub open spec fn crossed_slot(wb: WallsBetween, j: int) -> bool {
    match wb {
        WallsBetween::Single(w) => j == spec_wall_index(w),
        WallsBetween::Double(w0, w1) => j == spec_wall_index(w0) || j == spec_wall_index(w1),
    }
}

/// The wall slots that would close the edge between `a` and `b`.
pub fn walls_between(a: &PiecePosition, b: &PiecePosition) -> (w: WallsBetween)
    requires
        a.on_board(),
        b.on_board(),
        adjacent(*a, *b),
    ensures
        w == spec_walls_between(*a, *b),

{
    let mut a = *a;
    let mut b = *b;
    if tile_index(&a) > tile_index(&b) {
        let t = a;
        a = b;
        b = t;
    }
    let orientation = if b.x == a.x + 1 {
        WallOrientation::Vertical
    } else {
        WallOrientation::Horizontal
    };
    match orientation {
        WallOrientation::Horizontal => {
            if a.x == 0 {
                return WallsBetween::Single(Wall { position: WallPosition { x: a.x, y: a.y }, orientation });
            }
            if a.x == PIECE_GRID_WIDTH - 1 {
                return WallsBetween::Single(Wall { position: WallPosition { x: a.x - 1, y: a.y }, orientation });
            }
            WallsBetween::Double(
                Wall { position: WallPosition { x: a.x, y: a.y }, orientation },
                Wall { position: WallPosition { x: a.x - 1, y: a.y }, orientation },
            )
        },
        WallOrientation::Vertical => {
            if a.y == 0 {
                return WallsBetween::Single(Wall { position: WallPosition { x: a.x, y: a.y }, orientation });
            }
            if a.y == PIECE_GRID_WIDTH - 1 {
                return WallsBetween::Single(Wall { position: WallPosition { x: a.x, y: a.y - 1 }, orientation });
            }
            WallsBetween::Double(
                Wall { position: WallPosition { x: a.x, y: a.y }, orientation },
                Wall { position: WallPosition { x: a.x, y: a.y - 1 }, orientation },
            )
        },
    }
}

/// The number of squares among the first `n` that `tiles` holds.
pub open spec fn tile_count(tiles: Bitset192, n: int) -> int
    decreases n,
{
    if n <= 0 {
        0
    } else {
        tile_count(tiles, n - 1) + if tiles.has(n - 1) { 1int } else { 0int }
    }
}

/// Five to the power `n`.
pub open spec fn pow5(n: nat) -> nat
    decreases n,
{
    if n == 0 {
        1
    } else {
        5 * pow5((n - 1) as nat)
    }
}

/// A path being followed: the square reached, the squares passed and the
/// wall slots crossed.
pub type PathItem = (PiecePosition, Bitset192, Bitset192);

/// What is left to explore from a path: paths can grow by at most four
/// squares at each step, and by at most 81 squares in all.
pub open spec fn item_weight(it: PathItem) -> nat {
    pow5((81 - tile_count(it.1, 81)) as nat)
}

/// What is left to explore from the paths of `s`.
pub open spec fn queue_weight(s: Seq<PathItem>) -> nat
    decreases s.len(),
{
    if s.len() == 0 {
        0
    } else {
        queue_weight(s.drop_last()) + item_weight(s.last())
    }
}

proof fn lemma_pow5_positive(n: nat)
    ensures
        pow5(n) >= 1,
    decreases n,
{
    if n > 0 {
        lemma_pow5_positive((n - 1) as nat);
    }
}

proof fn lemma_tile_count_bounds(tiles: Bitset192, n: int)
    requires
        0 <= n,
    ensures
        0 <= tile_count(tiles, n) <= n,
    decreases n,
{
    if n > 0 {
        lemma_tile_count_bounds(tiles, n - 1);
    }
}

/// A square missing among the first `n` leaves room for one more.
proof fn lemma_tile_count_missing(tiles: Bitset192, p: int, n: int)
    requires
        0 <= p < n,
        !tiles.has(p),
    ensures
        tile_count(tiles, n) <= n - 1,
    decreases n,
{
    lemma_tile_count_bounds(tiles, n - 1);
    if p < n - 1 {
        lemma_tile_count_missing(tiles, p, n - 1);
    }
}

/// Adding a missing square counts one more.
proof fn lemma_tile_count_add(t0: Bitset192, t1: Bitset192, p: int, n: int)
    requires
        0 <= p,
        0 <= n,
        !t0.has(p),
        forall|j: int| #[trigger] t1.has(j) == (j == p || t0.has(j)),
    ensures
        tile_count(t1, n) == tile_count(t0, n) + if p < n { 1int } else { 0int },
    decreases n,
{
    if n > 0 {
        lemma_tile_count_add(t0, t1, p, n - 1);
        assert(t1.has(n - 1) == (n - 1 == p || t0.has(n - 1)));
    }
}

/// The weight of a queue is that of its first path and of the rest.
proof fn lemma_queue_weight_front(s: Seq<PathItem>)
    requires
        s.len() > 0,
    ensures
        queue_weight(s) == item_weight(s[0]) + queue_weight(s.drop_first()),
    decreases s.len(),
{
    if s.len() > 1 {
        lemma_queue_weight_front(s.drop_last());
        assert(s.drop_last().drop_first() =~= s.drop_first().drop_last());
        assert(s.drop_last()[0] == s[0]);
    } else {
        assert(s.drop_last() =~= s.drop_first());
    }
}

/// Marks the wall slots that would close the edge between `a` and `b`.
fn mark_walls_between(path: &mut Bitset192, a: &PiecePosition, b: &PiecePosition)
    requires
        a.on_board(),
        b.on_board(),
        adjacent(*a, *b),
    ensures
        forall|j: int| #[trigger] final(path).has(j) == (old(path).has(j) || crossed_slot(spec_walls_between(*a, *b), j)),
        forall|j: int| crossed_slot(spec_walls_between(*a, *b), j) ==> 0 <= j < 128,
{
    match walls_between(a, b) {
        WallsBetween::Single(wall) => {
            path.set_bit(wall_index(wall));
        },
        WallsBetween::Double(wall_a, wall_b) => {
            path.set_bit(wall_index(wall_a));
            path.set_bit(wall_index(wall_b));
        },
    }
}

/// The path of squares `p` crosses the wall slot `j` with one of its steps.
pub open spec fn path_crosses(p: Seq<PiecePosition>, j: int) -> bool {
    exists|i: int| 0 <= i < p.len() - 1 && #[trigger] crossed_slot(spec_walls_between(p[i], p[i + 1]), j)
}

/// The square numbered `t` is on the path `p` before its last square.
pub open spec fn passed(p: Seq<PiecePosition>, t: int) -> bool {
    exists|i: int| 0 <= i < p.len() - 1 && t == spec_tile_index(#[trigger] p[i])
}

/// A way from `initial`: squares of the board one step apart, none twice,
/// crossing no slot of `board_walls`, and on the row `y_target` at most at its
/// last square.
pub open spec fn free_way(board_walls: Bitset192, initial: PiecePosition, y_target: int, p: Seq<PiecePosition>) -> bool {
    &&& p.len() >= 1
    &&& p[0] == initial
    &&& forall|i: int| 0 <= i < p.len() ==> (#[trigger] p[i]).on_board()
    &&& forall|i: int| 0 <= i < p.len() - 1 ==> adjacent(#[trigger] p[i], p[i + 1])
    &&& forall|i: int| 0 <= i < p.len() - 1 ==> (#[trigger] p[i]).y != y_target
    &&& p.no_duplicates()
    &&& forall|j: int| #[trigger] path_crosses(p, j) ==> !board_walls.has(j)
}

/// A way from `initial` that ends on the row `y_target`.
pub open spec fn goal_way(board_walls: Bitset192, initial: PiecePosition, y_target: int, p: Seq<PiecePosition>) -> bool {
    free_way(board_walls, initial, y_target, p) && p.last().y == y_target
}

/// The set `w` holds exactly the slots that the path `p` crosses.
pub open spec fn slots_of(w: Bitset192, p: Seq<PiecePosition>) -> bool {
    forall|j: int| #[trigger] w.has(j) == path_crosses(p, j)
}

/// Two sets have an element in common.
pub open spec fn meets(a: Bitset192, b: Bitset192) -> bool {
    exists|j: int| a.has(j) && b.has(j)
}

/// The queue entry `it` follows the path `p`: its last square, the squares
/// before it, and the slots it crosses.
pub open spec fn follows(it: PathItem, p: Seq<PiecePosition>) -> bool {
    &&& p.len() >= 1
    &&& it.0 == p.last()
    &&& forall|t: int| #[trigger] it.1.has(t) == passed(p, t)
    &&& slots_of(it.2, p)
}

/// `q` is a proper prefix of `p`.
pub open spec fn proper_prefix(q: Seq<PiecePosition>, p: Seq<PiecePosition>) -> bool {
    1 <= q.len() < p.len() && p.subrange(0, q.len() as int) == q
}

/// Going one step further adds the slots of that step and passes the square left.
proof fn lemma_extend(q: Seq<PiecePosition>, n: PiecePosition)
    requires
        q.len() >= 1,
    ensures
        forall|j: int| #[trigger] path_crosses(q.push(n), j) == (path_crosses(q, j) || crossed_slot(spec_walls_between(q.last(), n), j)),
        forall|t: int| #[trigger] passed(q.push(n), t) == (passed(q, t) || t == spec_tile_index(q.last())),
{
    let q2 = q.push(n);
    assert forall|j: int| #[trigger] path_crosses(q2, j) == (path_crosses(q, j) || crossed_slot(spec_walls_between(q.last(), n), j)) by {
        if path_crosses(q2, j) {
            let i = choose|i: int| 0 <= i < q2.len() - 1 && #[trigger] crossed_slot(spec_walls_between(q2[i], q2[i + 1]), j);
            if i < q.len() - 1 {
                assert(q2[i] == q[i] && q2[i + 1] == q[i + 1]);
                assert(crossed_slot(spec_walls_between(q[i], q[i + 1]), j));
            }
        }
        if path_crosses(q, j) {
            let i = choose|i: int| 0 <= i < q.len() - 1 && #[trigger] crossed_slot(spec_walls_between(q[i], q[i + 1]), j);
            assert(q2[i] == q[i] && q2[i + 1] == q[i + 1]);
            assert(crossed_slot(spec_walls_between(q2[i], q2[i + 1]), j));
        }
        if crossed_slot(spec_walls_between(q.last(), n), j) {
            let i = q.len() - 1;
            assert(q2[i] == q.last() && q2[i + 1] == n);
            assert(crossed_slot(spec_walls_between(q2[i], q2[i + 1]), j));
        }
    }
    assert forall|t: int| #[trigger] passed(q2, t) == (passed(q, t) || t == spec_tile_index(q.last())) by {
        if passed(q2, t) {
            let i = choose|i: int| 0 <= i < q2.len() - 1 && t == spec_tile_index(#[trigger] q2[i]);
            if i < q.len() - 1 {
                assert(q2[i] == q[i]);
            }
        }
        if passed(q, t) {
            let i = choose|i: int| 0 <= i < q.len() - 1 && t == spec_tile_index(#[trigger] q[i]);
            assert(q2[i] == q[i]);
        }
        if t == spec_tile_index(q.last()) {
            assert(q2[q.len() - 1] == q.last());
        }
    }
}

/// Squares of the board with the same number are the same.
proof fn lemma_tile_index_injective(a: PiecePosition, b: PiecePosition)
    requires
        a.on_board(),
        b.on_board(),
        spec_tile_index(a) == spec_tile_index(b),
    ensures
        a == b,
{
    lemma_index_round_trips(a, 0, Wall { position: WallPosition { x: 0, y: 0 }, orientation: WallOrientation::Horizontal }, 0);
    lemma_index_round_trips(b, 0, Wall { position: WallPosition { x: 0, y: 0 }, orientation: WallOrientation::Horizontal }, 0);
}

/// One step further from the end of a way that is not on the row `y_target`,
/// to a new square and across no slot of `board_walls`, is a way.
proof fn lemma_extend_way(board_walls: Bitset192, initial: PiecePosition, y_target: int, q: Seq<PiecePosition>, n: PiecePosition)
    requires
        free_way(board_walls, initial, y_target, q),
        q.last().y != y_target,
        n.on_board(),
        adjacent(q.last(), n),
        !q.contains(n),
        forall|j: int| crossed_slot(spec_walls_between(q.last(), n), j) ==> !board_walls.has(j),
    ensures
        free_way(board_walls, initial, y_target, q.push(n)),
{
    let q2 = q.push(n);
    lemma_extend(q, n);
    assert forall|i: int| 0 <= i < q2.len() implies (#[trigger] q2[i]).on_board() by {
        if i < q.len() {
            assert(q2[i] == q[i]);
        }
    }
    assert forall|i: int| 0 <= i < q2.len() - 1 implies adjacent(#[trigger] q2[i], q2[i + 1]) by {
        if i < q.len() - 1 {
            assert(q2[i] == q[i] && q2[i + 1] == q[i + 1]);
        } else {
            assert(q2[i] == q.last() && q2[i + 1] == n);
        }
    }
    assert forall|i: int| 0 <= i < q2.len() - 1 implies (#[trigger] q2[i]).y != y_target by {
        if i < q.len() - 1 {
            assert(q2[i] == q[i]);
        } else {
            assert(q2[i] == q.last());
        }
    }
    assert forall|i: int, k: int| 0 <= i < q2.len() && 0 <= k < q2.len() && i != k implies q2[i] != q2[k] by {
        if i < q.len() && k < q.len() {
            assert(q2[i] == q[i] && q2[k] == q[k]);
        } else if i < q.len() {
            assert(q2[i] == q[i]);
            assert(q2[k] == n);
        } else if k < q.len() {
            assert(q2[k] == q[k]);
            assert(q2[i] == n);
        }
    }
    assert(q2[0] == q[0]);
}

/// The square after a proper prefix of a way: one step from its end, new to
/// it, across no slot of `board_walls`, from a square off the row `y_target`,
/// and the prefix with it is the next prefix of the way.
proof fn lemma_way_next(board_walls: Bitset192, initial: PiecePosition, y_target: int, p: Seq<PiecePosition>, q: Seq<PiecePosition>)
    requires
        free_way(board_walls, initial, y_target, p),
        proper_prefix(q, p),
    ensures
        ({
            let n = p[q.len() as int];
            &&& n.on_board()
            &&& adjacent(q.last(), n)
            &&& !q.contains(n)
            &&& q.last().y != y_target
            &&& forall|j: int| crossed_slot(spec_walls_between(q.last(), n), j) ==> !board_walls.has(j)
            &&& q.push(n) == p.subrange(0, q.len() as int + 1)
            &&& free_way(board_walls, initial, y_target, q)
        }),
{
    let m = q.len() as int;
    let n = p[m];
    assert(q.last() == p[m - 1]);
    assert(adjacent(p[m - 1], p[m]));
    assert(p[m - 1].y != y_target);
    assert forall|j: int| crossed_slot(spec_walls_between(q.last(), n), j) implies !board_walls.has(j) by {
        assert(crossed_slot(spec_walls_between(p[m - 1], p[m - 1 + 1]), j));
        assert(path_crosses(p, j));
    }
    if q.contains(n) {
        let i = choose|i: int| 0 <= i < q.len() && q[i] == n;
        assert(p[i] == q[i]);
        assert(false);
    }
    assert(q.push(n) =~= p.subrange(0, m + 1));
    assert forall|i: int| 0 <= i < q.len() implies (#[trigger] q[i]).on_board() by {
        assert(q[i] == p[i]);
    }
    assert forall|i: int| 0 <= i < q.len() - 1 implies adjacent(#[trigger] q[i], q[i + 1]) by {
        assert(q[i] == p[i] && q[i + 1] == p[i + 1]);
    }
    assert forall|i: int| 0 <= i < q.len() - 1 implies (#[trigger] q[i]).y != y_target by {
        assert(q[i] == p[i]);
    }
    assert forall|i: int, k: int| 0 <= i < q.len() && 0 <= k < q.len() && i != k implies q[i] != q[k] by {
        assert(q[i] == p[i] && q[k] == p[k]);
    }
    assert forall|j: int| #[trigger] path_crosses(q, j) implies !board_walls.has(j) by {
        let i = choose|i: int| 0 <= i < q.len() - 1 && #[trigger] crossed_slot(spec_walls_between(q[i], q[i + 1]), j);
        assert(q[i] == p[i] && q[i + 1] == p[i + 1]);
        assert(crossed_slot(spec_walls_between(p[i], p[i + 1]), j));
        assert(path_crosses(p, j));
    }
    assert(q[0] == p[0]);
}

/// `w` holds exactly the slots crossed by some way from `initial` to the row
/// `y_target`.
pub open spec fn slots_of_a_way(board_walls: Bitset192, initial: PiecePosition, y_target: int, w: Bitset192) -> bool {
    exists|p: Seq<PiecePosition>| goal_way(board_walls, initial, y_target, p) && #[trigger] slots_of(w, p)
}

/// The ways `p1` and `p2` cross no slot in common.
pub open spec fn disjoint_ways(p1: Seq<PiecePosition>, p2: Seq<PiecePosition>) -> bool {
    forall|j: int| !(#[trigger] path_crosses(p1, j) && path_crosses(p2, j))
}

/// The square `n` is on `q`, or the step from the end of `q` to `n` crosses a
/// slot of `board_walls`.
pub open spec fn step_refused(board_walls: Bitset192, q: Seq<PiecePosition>, n: PiecePosition) -> bool {
    q.contains(n) || exists|j: int| #[trigger] crossed_slot(spec_walls_between(q.last(), n), j) && board_walls.has(j)
}

/// What a sequence held stays in it when an element is added.
proof fn lemma_seq_push_contains<T>(v: Seq<T>, e: T)
    ensures
        forall|c: T| v.contains(c) ==> #[trigger] v.push(e).contains(c),
        v.push(e).contains(e),
{
    assert(v.push(e)[v.len() as int] == e);
    assert forall|c: T| v.contains(c) implies #[trigger] v.push(e).contains(c) by {
        let j = choose|j: int| 0 <= j < v.len() && v[j] == c;
        assert(v.push(e)[j] == c);
    }
}

/// Explores, breadth first, every path of squares from `initial` that visits
/// no square twice and crosses no wall of `board_walls`, recording for each
/// path that reaches row `y_target` the wall slots it crosses. When two such
/// paths cross no slot in common, no single wall can cut them both, and
/// nothing is returned; else the slots of all of them come back.
#[verifier::rlimit(100)]
#[verifier::spinoff_prover]
pub fn bfs(board_walls: &Bitset192, initial: &PiecePosition, y_target: usize) -> (r: Vec<Bitset192>)
    requires
        initial.on_board(),
    ensures
        forall|k: int, j: int| 0 <= k < r@.len() && #[trigger] r@[k].has(j) ==> 0 <= j < 128 && !board_walls.has(j),
        forall|k: int| 0 <= k < r@.len() ==> #[trigger] slots_of_a_way(*board_walls, *initial, y_target as int, r@[k]),
        r@.len() > 0 ==> forall|p: Seq<PiecePosition>| #[trigger] goal_way(*board_walls, *initial, y_target as int, p)
            ==> exists|k: int| 0 <= k < r@.len() && #[trigger] slots_of(r@[k], p),
        forall|a: int, b: int| 0 <= a < b < r@.len() ==> meets(#[trigger] r@[a], #[trigger] r@[b]),
        r@.len() == 0 ==> (forall|p: Seq<PiecePosition>| !#[trigger] goal_way(*board_walls, *initial, y_target as int, p))
            || exists|p1: Seq<PiecePosition>, p2: Seq<PiecePosition>|
                goal_way(*board_walls, *initial, y_target as int, p1) && goal_way(*board_walls, *initial, y_target as int, p2)
                    && #[trigger] disjoint_ways(p1, p2),
{
    let ghost bw = *board_walls;
    let ghost yt = y_target as int;
    let mut wall_paths: Vec<Bitset192> = Vec::new();
    let mut queue: Vec<PathItem> = Vec::new();
    let empty = Bitset192::new(0, 0, 0);
    proof {
        assert forall|i: u64| !#[trigger] bit(0u64, i) by {
            assert((0u64 >> i) & 1u64 == 0u64) by (bit_vector);
        }
        assert(!empty.has(spec_tile_index(*initial)));
        assert forall|j: int| !#[trigger] empty.has(j) by {
            if 0 <= j < 64 {
                assert(!bit(0u64, j as u64));
            } else if 64 <= j < 128 {
                assert(!bit(0u64, (j - 64) as u64));
            } else if 128 <= j < 192 {
                assert(!bit(0u64, (j - 128) as u64));
            }
        }
    }
    queue.push((*initial, empty, empty));
    let ghost mut gp: Seq<Seq<PiecePosition>> = seq![seq![*initial]];
    let ghost mut gw: Seq<Seq<PiecePosition>> = Seq::empty();
    proof {
        let p0 = seq![*initial];
        assert(queue@[0] == (*initial, empty, empty));
        assert forall|t: int| #[trigger] empty.has(t) == passed(p0, t) by {}
        assert forall|j: int| #[trigger] empty.has(j) == path_crosses(p0, j) by {}
        assert(follows(queue@[0], p0));
        assert(free_way(bw, *initial, yt, p0));
        assert forall|p: Seq<PiecePosition>| #[trigger] free_way(bw, *initial, yt, p) implies gp.contains(p)
            || exists|k: int| 0 <= k < gp.len() && #[trigger] proper_prefix(gp[k], p) by {
            if p.len() == 1 {
                assert(p =~= p0);
                assert(gp[0] == p0);
            } else {
                assert(p.subrange(0, 1) =~= p0);
                assert(proper_prefix(gp[0], p));
            }
        }
    }
    let mut qi: usize = 0;
    while qi < queue.len()
        invariant
            qi <= queue@.len(),
            bw == *board_walls,
            yt == y_target,
            forall|k: int| qi <= k < queue@.len() ==> {
                let it = #[trigger] queue@[k];
                &&& it.0.on_board()
                &&& !it.1.has(spec_tile_index(it.0))
                &&& forall|j: int| #[trigger] it.2.has(j) ==> 0 <= j < 128 && !board_walls.has(j)
            },
            forall|k: int, j: int| 0 <= k < wall_paths@.len() && #[trigger] wall_paths@[k].has(j) ==> 0 <= j < 128 && !board_walls.has(j),
            gp.len() == queue@.len(),
            forall|k: int| 0 <= k < queue@.len() ==> free_way(bw, *initial, yt, #[trigger] gp[k]) && follows(queue@[k], gp[k]),
            gw.len() == wall_paths@.len(),
            forall|m: int| 0 <= m < gw.len() ==> goal_way(bw, *initial, yt, #[trigger] gw[m]) && slots_of(wall_paths@[m], gw[m]),
            forall|a: int, b: int| 0 <= a < b < wall_paths@.len() ==> meets(#[trigger] wall_paths@[a], #[trigger] wall_paths@[b]),
            forall|k: int| 0 <= k < qi && (#[trigger] gp[k]).last().y == yt ==> gw.contains(gp[k]),
            forall|p: Seq<PiecePosition>| #[trigger] free_way(bw, *initial, yt, p) ==> gp.contains(p)
                || exists|k: int| qi <= k < gp.len() && #[trigger] proper_prefix(gp[k], p),
        decreases queue_weight(queue@.subrange(qi as int, queue@.len() as int)),
    {
        let ghost rest0 = queue@.subrange(qi as int, queue@.len() as int);
        let (position, tile_path0, wall_path) = queue[qi];
        let ghost q = gp[qi as int];
        let ghost gp0 = gp;
        proof {
            assert(rest0[0] == queue@[qi as int]);
            lemma_queue_weight_front(rest0);
            assert(queue@.subrange(qi as int + 1, queue@.len() as int) =~= rest0.drop_first());
            assert(free_way(bw, *initial, yt, q) && follows(queue@[qi as int], q));
        }
        qi += 1;
        let ghost base = queue_weight(queue@.subrange(qi as int, queue@.len() as int));
        let mut tile_path = tile_path0;
        let p = tile_index(&position);
        tile_path.set_bit(p);
        proof {
            lemma_tile_count_missing(tile_path0, p as int, 81);
            lemma_tile_count_add(tile_path0, tile_path, p as int, 81);
        }
        let ghost c = tile_count(tile_path0, 81);
        proof {
            lemma_pow5_positive((80 - c) as nat);
            assert(item_weight(rest0[0]) == pow5((81 - c) as nat));
        }
        if position.y == y_target {
            let mut w: usize = 0;
            #[verifier::loop_isolation(false)]
            while w < wall_paths.len()
                invariant
                    w <= wall_paths@.len(),
                    forall|v: int| 0 <= v < w ==> meets(#[trigger] wall_paths@[v], wall_path),
                decreases wall_paths@.len() - w,
            {
                let join = wall_path.bitand(wall_paths[w]);
                if !join.any() {
                    proof {
                        let g = gw[w as int];
                        assert(goal_way(bw, *initial, yt, g));
                        assert(goal_way(bw, *initial, yt, q));
                        assert forall|j: int| !(#[trigger] path_crosses(q, j) && path_crosses(g, j)) by {
                            if path_crosses(q, j) && path_crosses(g, j) {
                                assert(wall_path.has(j) && wall_paths@[w as int].has(j));
                                assert(join.has(j));
                            }
                        }
                        assert(disjoint_ways(q, g));
                    }
                    return Vec::new();
                }
                proof {
                    let j = choose|j: int| 0 <= j < 192 && #[trigger] join.has(j);
                    assert(wall_paths@[w as int].has(j) && wall_path.has(j));
                }
                w += 1;
            }
            let ghost wp0 = wall_paths@;
            let ghost gw0 = gw;
            wall_paths.push(wall_path);
            proof {
                gw = gw.push(q);
                lemma_seq_push_contains(gw0, q);
                assert forall|a: int, b: int| 0 <= a < b < wall_paths@.len() implies meets(#[trigger] wall_paths@[a], #[trigger] wall_paths@[b]) by {
                    assert(wall_paths@[a] == wp0[a]);
                    if b < wp0.len() {
                        assert(wall_paths@[b] == wp0[b]);
                    } else {
                        assert(meets(wp0[a], wall_path));
                        let j = choose|j: int| wp0[a].has(j) && wall_path.has(j);
                        assert(wall_paths@[a].has(j) && wall_paths@[b].has(j));
                    }
                }
                assert forall|m: int| 0 <= m < gw.len() implies goal_way(bw, *initial, yt, #[trigger] gw[m]) && slots_of(wall_paths@[m], gw[m]) by {
                    if m < gw0.len() {
                        assert(gw[m] == gw0[m]);
                        assert(wall_paths@[m] == wp0[m]);
                    }
                }
                assert forall|k: int, j: int| 0 <= k < wall_paths@.len() && #[trigger] wall_paths@[k].has(j) implies 0 <= j < 128 && !board_walls.has(j) by {
                    if k < wp0.len() {
                        assert(wall_paths@[k] == wp0[k]);
                    }
                }
                assert forall|k: int| 0 <= k < qi && (#[trigger] gp[k]).last().y == yt implies gw.contains(gp[k]) by {
                    if k < qi - 1 {
                        assert(gw0.contains(gp[k]));
                    }
                }
                assert forall|pp: Seq<PiecePosition>| #[trigger] free_way(bw, *initial, yt, pp) implies gp.contains(pp)
                    || exists|k: int| qi <= k < gp.len() && #[trigger] proper_prefix(gp[k], pp) by {
                    if !gp.contains(pp) {
                        let k = choose|k: int| qi - 1 <= k < gp.len() && #[trigger] proper_prefix(gp[k], pp);
                        if k == qi - 1 {
                            lemma_way_next(bw, *initial, yt, pp, q);
                        }
                    }
                }
            }
            continue;
        }
        let mut targets: Vec<PiecePosition> = Vec::new();
        if position.y > 0 {
            targets.push(PiecePosition { x: position.x, y: position.y - 1 });
        }
        if position.y < PIECE_GRID_HEIGHT - 1 {
            targets.push(PiecePosition { x: position.x, y: position.y + 1 });
        }
        if position.x > 0 {
            targets.push(PiecePosition { x: position.x - 1, y: position.y });
        }
        if position.x < PIECE_GRID_WIDTH - 1 {
            targets.push(PiecePosition { x: position.x + 1, y: position.y });
        }
        proof {
            assert forall|n: PiecePosition| n.on_board() && adjacent(position, n) implies #[trigger] targets@.contains(n) by {
                if n.y + 1 == position.y && n.x == position.x {
                    assert(targets@[0] == n);
                } else if n.y == position.y + 1 && n.x == position.x {
                    let i = if position.y > 0 { 1int } else { 0int };
                    assert(targets@[i] == n);
                } else if n.x + 1 == position.x {
                    let i = (if position.y > 0 { 1int } else { 0int }) + (if position.y < 8 { 1int } else { 0int });
                    assert(targets@[i] == n);
                } else {
                    let i = (if position.y > 0 { 1int } else { 0int }) + (if position.y < 8 { 1int } else { 0int }) + (if position.x > 0 { 1int } else { 0int });
                    assert(targets@[i] == n);
                }
            }
            assert(forall|tt: int| #[trigger] tile_path.has(tt) == (passed(q, tt) || tt == spec_tile_index(q.last())));
        }
        let mut t: usize = 0;
        let mut pushed: usize = 0;
        while t < targets.len()
            invariant
                t <= targets@.len(),
                targets@.len() <= 4,
                pushed <= t,
                position.on_board(),
                forall|k: int| 0 <= k < targets@.len() ==> (#[trigger] targets@[k]).on_board() && adjacent(position, targets@[k]),
                forall|j: int| #[trigger] tile_path.has(j) == (j == p || tile_path0.has(j)),
                tile_count(tile_path, 81) == c + 1,
                c + 1 <= 81,
                qi <= queue@.len(),
                queue_weight(queue@.subrange(qi as int, queue@.len() as int)) == base + pushed * pow5((80 - c) as nat),
                forall|k: int| qi <= k < queue@.len() ==> {
                    let it = #[trigger] queue@[k];
                    &&& it.0.on_board()
                    &&& !it.1.has(spec_tile_index(it.0))
                    &&& forall|j: int| #[trigger] it.2.has(j) ==> 0 <= j < 128 && !board_walls.has(j)
                },
                forall|j: int| #[trigger] wall_path.has(j) ==> 0 <= j < 128 && !board_walls.has(j),
                bw == *board_walls,
                yt == y_target,
                position.y != y_target,
                position == q.last(),
                p == spec_tile_index(position),
                q.len() >= 1,
                free_way(bw, *initial, yt, q),
                slots_of(wall_path, q),
                forall|tt: int| #[trigger] tile_path.has(tt) == (passed(q, tt) || tt == spec_tile_index(q.last())),
                gp.len() == queue@.len(),
                gp0.len() <= gp.len(),
                forall|k: int| 0 <= k < gp0.len() ==> #[trigger] gp[k] == gp0[k],
                forall|k: int| 0 <= k < queue@.len() ==> free_way(bw, *initial, yt, #[trigger] gp[k]) && follows(queue@[k], gp[k]),
                forall|k: int| 0 <= k < qi && (#[trigger] gp[k]).last().y == yt ==> gw.contains(gp[k]),
                forall|pp: Seq<PiecePosition>| #[trigger] free_way(bw, *initial, yt, pp) ==> gp.contains(pp)
                    || (exists|k: int| qi <= k < gp.len() && #[trigger] proper_prefix(gp[k], pp)) || proper_prefix(q, pp),
                forall|u: int| 0 <= u < t ==> step_refused(bw, q, #[trigger] targets@[u])
                    || exists|k: int| qi <= k < gp.len() && #[trigger] gp[k] == q.push(targets@[u]),
            decreases targets@.len() - t,
        {
            let target = targets[t];
            let ghost tu = t as int;
            t += 1;
            let target_index = tile_index(&target);
            if tile_path.get_bit(target_index) {
                proof {
                    if passed(q, target_index as int) {
                        let i = choose|i: int| 0 <= i < q.len() - 1 && target_index == spec_tile_index(#[trigger] q[i]);
                        lemma_tile_index_injective(q[i], target);
                    } else {
                        lemma_tile_index_injective(q.last(), target);
                        assert(q[q.len() - 1] == target);
                    }
                    assert(q.contains(target));
                    assert(step_refused(bw, q, targets@[tu]));
                }
                continue;
            }
            let mut next_walls = wall_path;
            mark_walls_between(&mut next_walls, &position, &target);
            let crossed = board_walls.bitand(next_walls);
            if crossed.any() {
                proof {
                    let j = choose|j: int| 0 <= j < 192 && #[trigger] crossed.has(j);
                    assert(board_walls.has(j) && next_walls.has(j));
                    assert(!wall_path.has(j));
                    assert(crossed_slot(spec_walls_between(q.last(), target), j) && bw.has(j));
                    assert(step_refused(bw, q, targets@[tu]));
                }
                continue;
            }
            proof {
                assert forall|j: int| #[trigger] next_walls.has(j) implies 0 <= j < 128 && !board_walls.has(j) by {
                    if board_walls.has(j) && next_walls.has(j) {
                        assert(crossed.has(j));
                    }
                }
            }
            let ghost q0 = queue@;
            let ghost gpb = gp;
            let item = (target, tile_path, next_walls);
            queue.push(item);
            proof {
                let np = q.push(target);
                if q.contains(target) {
                    let i = choose|i: int| 0 <= i < q.len() && q[i] == target;
                    if i < q.len() - 1 {
                        assert(passed(q, spec_tile_index(q[i])));
                    }
                    assert(tile_path.has(target_index as int));
                }
                lemma_extend(q, target);
                assert forall|j: int| crossed_slot(spec_walls_between(q.last(), target), j) implies !bw.has(j) by {
                    assert(next_walls.has(j));
                    if bw.has(j) {
                        assert(crossed.has(j));
                    }
                }
                lemma_extend_way(bw, *initial, yt, q, target);
                assert forall|tt: int| #[trigger] item.1.has(tt) == passed(np, tt) by {}
                assert forall|j: int| #[trigger] item.2.has(j) == path_crosses(np, j) by {}
                assert(follows(item, np));
                gp = gp.push(np);
                assert(gp[gpb.len() as int] == np);
                assert forall|k: int| 0 <= k < queue@.len() implies free_way(bw, *initial, yt, #[trigger] gp[k]) && follows(queue@[k], gp[k]) by {
                    if k < q0.len() {
                        assert(gp[k] == gpb[k]);
                        assert(queue@[k] == q0[k]);
                    }
                }
                assert forall|k: int| 0 <= k < gp0.len() implies #[trigger] gp[k] == gp0[k] by {
                    assert(gp[k] == gpb[k]);
                }
                assert forall|k: int| 0 <= k < qi && (#[trigger] gp[k]).last().y == yt implies gw.contains(gp[k]) by {
                    assert(gp[k] == gpb[k]);
                }
                lemma_seq_push_contains(gpb, np);
                assert forall|pp: Seq<PiecePosition>| #[trigger] free_way(bw, *initial, yt, pp) implies gp.contains(pp)
                    || (exists|k: int| qi <= k < gp.len() && #[trigger] proper_prefix(gp[k], pp)) || proper_prefix(q, pp) by {
                    if !gpb.contains(pp) && !proper_prefix(q, pp) {
                        let k = choose|k: int| qi <= k < gpb.len() && #[trigger] proper_prefix(gpb[k], pp);
                        assert(gp[k] == gpb[k]);
                    }
                }
                assert forall|u: int| 0 <= u < t implies step_refused(bw, q, #[trigger] targets@[u])
                    || exists|k: int| qi <= k < gp.len() && #[trigger] gp[k] == q.push(targets@[u]) by {
                    if u < tu {
                        if !step_refused(bw, q, targets@[u]) {
                            let k = choose|k: int| qi <= k < gpb.len() && #[trigger] gpb[k] == q.push(targets@[u]);
                            assert(gp[k] == gpb[k]);
                        }
                    } else {
                        assert(gp[gpb.len() as int] == q.push(targets@[u]));
                    }
                }
                assert(queue@.subrange(qi as int, queue@.len() as int) =~= q0.subrange(qi as int, q0.len() as int).push(item));
                assert(queue@.subrange(qi as int, queue@.len() as int).drop_last() =~= q0.subrange(qi as int, q0.len() as int));
                assert forall|k: int| qi <= k < queue@.len() implies {
                    let it = #[trigger] queue@[k];
                    &&& it.0.on_board()
                    &&& !it.1.has(spec_tile_index(it.0))
                    &&& forall|j: int| #[trigger] it.2.has(j) ==> 0 <= j < 128 && !board_walls.has(j)
                } by {
                    if k < q0.len() {
                        assert(queue@[k] == q0[k]);
                    }
                }
            }
            pushed += 1;
            proof {
                assert((pushed - 1) * pow5((80 - c) as nat) + pow5((80 - c) as nat) == pushed * pow5((80 - c) as nat)) by (nonlinear_arith);
            }
        }
        proof {
            assert(pow5((81 - c) as nat) == 5 * pow5((80 - c) as nat));
            assert(pushed * pow5((80 - c) as nat) <= 4 * pow5((80 - c) as nat)) by (nonlinear_arith)
                requires
                    pushed <= 4,
            ;
            assert(item_weight(rest0[0]) == pow5((81 - c) as nat));
            assert forall|pp: Seq<PiecePosition>| #[trigger] free_way(bw, *initial, yt, pp) implies gp.contains(pp)
                || exists|k: int| qi <= k < gp.len() && #[trigger] proper_prefix(gp[k], pp) by {
                if !gp.contains(pp) && !(exists|k: int| qi <= k < gp.len() && #[trigger] proper_prefix(gp[k], pp)) {
                    assert(proper_prefix(q, pp));
                    lemma_way_next(bw, *initial, yt, pp, q);
                    let n = pp[q.len() as int];
                    assert(targets@.contains(n));
                    let u = choose|u: int| 0 <= u < targets@.len() && targets@[u] == n;
                    assert(!step_refused(bw, q, targets@[u]));
                    let k = choose|k: int| qi <= k < gp.len() && #[trigger] gp[k] == q.push(targets@[u]);
                    if pp.len() == q.len() + 1 {
                        assert(pp =~= pp.subrange(0, q.len() as int + 1));
                        assert(gp[k] == pp);
                    } else {
                        assert(pp.subrange(0, gp[k].len() as int) =~= gp[k]);
                        assert(proper_prefix(gp[k], pp));
                    }
                }
            }
        }
    }
    proof {
        assert forall|k: int| 0 <= k < wall_paths@.len() implies #[trigger] slots_of_a_way(*board_walls, *initial, y_target as int, wall_paths@[k]) by {
            assert(goal_way(bw, *initial, yt, gw[k]) && slots_of(wall_paths@[k], gw[k]));
        }
        assert forall|pp: Seq<PiecePosition>| #[trigger] goal_way(*board_walls, *initial, y_target as int, pp) implies
            exists|k: int| 0 <= k < wall_paths@.len() && #[trigger] slots_of(wall_paths@[k], pp) by {
            assert(free_way(bw, *initial, yt, pp));
            assert(gp.contains(pp));
            let k = choose|k: int| 0 <= k < gp.len() && gp[k] == pp;
            assert(gw.contains(gp[k]));
            let m = choose|m: int| 0 <= m < gw.len() && gw[m] == pp;
            assert(slots_of(wall_paths@[m], gw[m]));
        }
    }
    wall_paths
}

/// The numbers listed by `ones_below` are members below `n`.
proof fn lemma_ones_below_members(s: Bitset192, n: int)
    ensures
        forall|k: int| 0 <= k < s.ones_below(n).len() ==> s.has(#[trigger] s.ones_below(n)[k] as int) && s.ones_below(n)[k] < n,
    decreases n,
{
    if n > 0 {
        lemma_ones_below_members(s, n - 1);
        let prev = s.ones_below(n - 1);
        let all = s.ones_below(n);
        assert forall|k: int| 0 <= k < all.len() implies s.has(#[trigger] all[k] as int) && all[k] < n by {
            if k < prev.len() {
                assert(all[k] == prev[k]);
            }
        }
    }
}

/// The wall that the slot number `j` stands for.
pub open spec fn slot_wall(j: int) -> Wall {
    Wall {
        position: WallPosition { x: (j % 64 % 8) as usize, y: (j % 64 / 8) as usize },
        orientation: if j < 64 { WallOrientation::Horizontal } else { WallOrientation::Vertical },
    }
}

/// `bw` holds exactly the numbers of the walls that stand on the board of `game`.
pub open spec fn game_wall_bits(game: Game, bw: Bitset192) -> bool {
    forall|j: int| #[trigger] bw.has(j) == (0 <= j < 128 && game.board.walls.slot(j % 64 % 8, j % 64 / 8) == Some(slot_wall(j).orientation))
}

/// There is a way from `initial` to the row `y_target` across no slot of
/// `board_walls`, any two such ways cross a slot in common, and all of them
/// cross the slot `j`.
pub open spec fn cuts_all_ways(board_walls: Bitset192, initial: PiecePosition, y_target: int, j: int) -> bool {
    &&& exists|p: Seq<PiecePosition>| #[trigger] goal_way(board_walls, initial, y_target, p)
    &&& forall|p1: Seq<PiecePosition>, p2: Seq<PiecePosition>|
        goal_way(board_walls, initial, y_target, p1) && goal_way(board_walls, initial, y_target, p2) ==> !#[trigger] disjoint_ways(p1, p2)
    &&& forall|p: Seq<PiecePosition>| #[trigger] goal_way(board_walls, initial, y_target, p) ==> path_crosses(p, j)
}

/// The slot sets that `bfs` records, when there are any, have in common exactly
/// the slots that all ways cross, provided any two ways meet.
proof fn lemma_common_slots(bw: Bitset192, initial: PiecePosition, y_target: int, r: Seq<Bitset192>, j: int)
    requires
        forall|k: int| 0 <= k < r.len() ==> #[trigger] slots_of_a_way(bw, initial, y_target, r[k]),
        r.len() > 0 ==> forall|p: Seq<PiecePosition>| #[trigger] goal_way(bw, initial, y_target, p)
            ==> exists|k: int| 0 <= k < r.len() && #[trigger] slots_of(r[k], p),
        forall|a: int, b: int| 0 <= a < b < r.len() ==> meets(#[trigger] r[a], #[trigger] r[b]),
        r.len() == 0 ==> (forall|p: Seq<PiecePosition>| !#[trigger] goal_way(bw, initial, y_target, p))
            || exists|p1: Seq<PiecePosition>, p2: Seq<PiecePosition>|
                goal_way(bw, initial, y_target, p1) && goal_way(bw, initial, y_target, p2) && #[trigger] disjoint_ways(p1, p2),
    ensures
        (r.len() > 0 && forall|k: int| 0 <= k < r.len() ==> (#[trigger] r[k]).has(j)) == cuts_all_ways(bw, initial, y_target, j),
{
    if r.len() == 0 {
        if !(forall|p: Seq<PiecePosition>| !#[trigger] goal_way(bw, initial, y_target, p)) {
            let (p1, p2) = choose|p1: Seq<PiecePosition>, p2: Seq<PiecePosition>|
                goal_way(bw, initial, y_target, p1) && goal_way(bw, initial, y_target, p2) && #[trigger] disjoint_ways(p1, p2);
            assert(!cuts_all_ways(bw, initial, y_target, j));
        }
    } else {
        assert(slots_of_a_way(bw, initial, y_target, r[0]));
        let p0 = choose|p: Seq<PiecePosition>| goal_way(bw, initial, y_target, p) && #[trigger] slots_of(r[0], p);
        if forall|k: int| 0 <= k < r.len() ==> (#[trigger] r[k]).has(j) {
            assert forall|p: Seq<PiecePosition>| #[trigger] goal_way(bw, initial, y_target, p) implies path_crosses(p, j) by {
                let k = choose|k: int| 0 <= k < r.len() && #[trigger] slots_of(r[k], p);
                assert(r[k].has(j));
            }
            assert forall|p1: Seq<PiecePosition>, p2: Seq<PiecePosition>|
                goal_way(bw, initial, y_target, p1) && goal_way(bw, initial, y_target, p2) implies !#[trigger] disjoint_ways(p1, p2) by {
                assert(path_crosses(p1, j) && path_crosses(p2, j));
            }
            assert(goal_way(bw, initial, y_target, p0));
        } else {
            let k = choose|k: int| 0 <= k < r.len() && !(#[trigger] r[k]).has(j);
            assert(slots_of_a_way(bw, initial, y_target, r[k]));
            let p = choose|p: Seq<PiecePosition>| goal_way(bw, initial, y_target, p) && #[trigger] slots_of(r[k], p);
            assert(!path_crosses(p, j));
        }
    }
}

/// The numbers that `ones_below` lists are exactly the members below `n`.
proof fn lemma_ones_below_complete(s: Bitset192, n: int, j: int)
    requires
        0 <= j < n,
        s.has(j),
    ensures
        s.ones_below(n).contains(j as usize),
    decreases n,
{
    if j < n - 1 {
        lemma_ones_below_complete(s, n - 1, j);
        let prev = s.ones_below(n - 1);
        let k = choose|k: int| 0 <= k < prev.len() && prev[k] == j as usize;
        assert(s.ones_below(n)[k] == prev[k]);
    } else {
        assert(s.ones_below(n)[s.ones_below(n - 1).len() as int] == j as usize);
    }
}

/// The walls that would cut every path of the player to move to its goal
/// row: the wall slots crossed by all the paths that `bfs` records, none when
/// it records none. Each of them is free: no wall of its orientation stands in
/// its slot.
pub fn get_illegal_walls(game: &Game) -> (r: Vec<Wall>)
    requires
        game.board.on_board(),
    ensures
        forall|k: int| 0 <= k < r@.len() ==> (#[trigger] r@[k]).position.on_grid()
            && game.board.walls.slot(r@[k].position.x as int, r@[k].position.y as int) != Some(r@[k].orientation),
        exists|bw: Bitset192| #[trigger] game_wall_bits(*game, bw) && forall|w: Wall| #[trigger] r@.contains(w) == (w.position.on_grid()
            && cuts_all_ways(bw, game.board.pos(game.player), goal_row(game.player), spec_wall_index(w))),
{
    let position = game.board.player_position(game.player);
    let mut board_walls = Bitset192::new(0, 0, 0);
    proof {
        assert forall|i: u64| !#[trigger] bit(0u64, i) by {
            assert((0u64 >> i) & 1u64 == 0u64) by (bit_vector);
        }
        assert forall|j: int| !#[trigger] board_walls.has(j) by {
            if 0 <= j < 64 {
                assert(!bit(0u64, j as u64));
            } else if 64 <= j < 128 {
                assert(!bit(0u64, (j - 64) as u64));
            } else if 128 <= j < 192 {
                assert(!bit(0u64, (j - 128) as u64));
            }
        }
    }
    let mut y: usize = 0;
    while y < WALL_GRID_HEIGHT
        invariant
            y <= WALL_GRID_HEIGHT,
            forall|i: int, j: int|
                0 <= i < WALL_GRID_WIDTH && 0 <= j < y ==> match #[trigger] game.board.walls.slot(i, j) {
                    Some(o) => board_walls.has(spec_wall_index(Wall { position: WallPosition { x: i as usize, y: j as usize }, orientation: o })),
                    None => true,
                },
            forall|j: int| #[trigger] board_walls.has(j) == (0 <= j < 128 && j % 64 / 8 < y
                && game.board.walls.slot(j % 64 % 8, j % 64 / 8) == Some(slot_wall(j).orientation)),
        decreases WALL_GRID_HEIGHT - y,
    {
        let mut x: usize = 0;
        while x < WALL_GRID_HEIGHT
            invariant
                y < WALL_GRID_HEIGHT,
                x <= WALL_GRID_WIDTH,
                forall|i: int, j: int|
                    0 <= i < WALL_GRID_WIDTH && 0 <= j < WALL_GRID_HEIGHT && (j < y || (j == y && i < x)) ==> match #[trigger] game.board.walls.slot(i, j) {
                        Some(o) => board_walls.has(spec_wall_index(Wall { position: WallPosition { x: i as usize, y: j as usize }, orientation: o })),
                        None => true,
                    },
                forall|j: int| #[trigger] board_walls.has(j) == (0 <= j < 128 && (j % 64 / 8 < y || (j % 64 / 8 == y && j % 64 % 8 < x))
                    && game.board.walls.slot(j % 64 % 8, j % 64 / 8) == Some(slot_wall(j).orientation)),
            decreases WALL_GRID_WIDTH - x,
        {
            let ghost b0 = board_walls;
            match game.board.walls.0[x][y] {
                None => {
                    proof {
                        assert forall|j: int| #[trigger] board_walls.has(j) == (0 <= j < 128 && (j % 64 / 8 < y || (j % 64 / 8 == y && j % 64 % 8 < x + 1))
                            && game.board.walls.slot(j % 64 % 8, j % 64 / 8) == Some(slot_wall(j).orientation)) by {
                            if 0 <= j < 128 {
                                lemma_index_round_trips(PiecePosition { x: 0, y: 0 }, 0, Wall { position: WallPosition { x: 0, y: 0 }, orientation: WallOrientation::Horizontal }, j);
                            }
                        }
                    }
                },
                Some(orientation) => {
                    let wall = Wall { position: WallPosition { x, y }, orientation };
                    let index = wall_index(wall);
                    board_walls.set_bit(index);
                    proof {
                        lemma_index_round_trips(PiecePosition { x: 0, y: 0 }, 0, wall, index as int);
                        assert forall|j: int| #[trigger] board_walls.has(j) == (0 <= j < 128 && (j % 64 / 8 < y || (j % 64 / 8 == y && j % 64 % 8 < x + 1))
                            && game.board.walls.slot(j % 64 % 8, j % 64 / 8) == Some(slot_wall(j).orientation)) by {
                            if 0 <= j < 128 {
                                lemma_index_round_trips(PiecePosition { x: 0, y: 0 }, 0, wall, j);
                                if j % 64 % 8 == x && j % 64 / 8 == y && slot_wall(j).orientation == orientation {
                                    assert(j == index);
                                }
                            }
                        }
                    }
                },
            }
            x += 1;
        }
        y += 1;
    }
    proof {
        assert forall|j: int| #[trigger] board_walls.has(j) == (0 <= j < 128
            && game.board.walls.slot(j % 64 % 8, j % 64 / 8) == Some(slot_wall(j).orientation)) by {
            if 0 <= j < 128 {
                lemma_index_round_trips(PiecePosition { x: 0, y: 0 }, 0, Wall { position: WallPosition { x: 0, y: 0 }, orientation: WallOrientation::Horizontal }, j);
            }
        }
        assert(game_wall_bits(*game, board_walls));
    }
    let y_target = match game.player {
        Player::Black => 0,
        Player::White => PIECE_GRID_HEIGHT - 1,
    };
    let ghost init = game.board.pos(game.player);
    let ghost yt = goal_row(game.player);
    let wall_bitsets = bfs(&board_walls, position, y_target);
    if wall_bitsets.len() == 0 {
        let none: Vec<Wall> = Vec::new();
        proof {
            assert forall|w: Wall| #[trigger] none@.contains(w) == (w.position.on_grid()
                && cuts_all_ways(board_walls, init, yt, spec_wall_index(w))) by {
                lemma_common_slots(board_walls, init, yt, wall_bitsets@, spec_wall_index(w));
            }
        }
        return none;
    }
    let mut common = Bitset192::new(!0u64, !0u64, !0u64);
    proof {
        assert forall|i: u64| i < 64 implies #[trigger] bit(!0u64, i) by {
            assert(i < 64 ==> (!0u64 >> i) & 1u64 != 0u64) by (bit_vector);
        }
        assert forall|j: int| #[trigger] common.has(j) == (0 <= j < 192) by {
            if 0 <= j < 64 {
                assert(bit(!0u64, j as u64));
            } else if 64 <= j < 128 {
                assert(bit(!0u64, (j - 64) as u64));
            } else if 128 <= j < 192 {
                assert(bit(!0u64, (j - 128) as u64));
            }
        }
    }
    let mut k: usize = 0;
    while k < wall_bitsets.len()
        invariant
            0 < wall_bitsets@.len(),
            k <= wall_bitsets@.len(),
            forall|j: int| #[trigger] common.has(j) == (0 <= j < 192 && forall|k2: int| 0 <= k2 < k ==> (#[trigger] wall_bitsets@[k2]).has(j)),
        decreases wall_bitsets@.len() - k,
    {
        let ghost c0 = common;
        common.bitand_assign(wall_bitsets[k]);
        proof {
            assert forall|j: int| #[trigger] common.has(j) == (0 <= j < 192 && forall|k2: int| 0 <= k2 < k + 1 ==> (#[trigger] wall_bitsets@[k2]).has(j)) by {
                if 0 <= j < 192 && forall|k2: int| 0 <= k2 < k + 1 ==> (#[trigger] wall_bitsets@[k2]).has(j) {
                    assert(wall_bitsets@[k as int].has(j));
                }
            }
        }
        k += 1;
    }
    let ones = common.iter_ones();
    proof {
        lemma_ones_below_members(common, 192);
        assert forall|j: int| #[trigger] common.has(j) implies 0 <= j < 128 && !board_walls.has(j) by {
            assert(wall_bitsets@[0].has(j));
        }
    }
    let mut walls: Vec<Wall> = Vec::new();
    let mut i: usize = 0;
    while i < ones.len()
        invariant
            i <= ones@.len(),
            ones@ == common.ones_below(192),
            walls@.len() == i,
            forall|k: int| 0 <= k < ones@.len() ==> common.has(#[trigger] ones@[k] as int),
            forall|j: int| #[trigger] common.has(j) ==> 0 <= j < 128 && !board_walls.has(j),
            forall|a: int, b: int|
                0 <= a < WALL_GRID_WIDTH && 0 <= b < WALL_GRID_HEIGHT ==> match #[trigger] game.board.walls.slot(a, b) {
                    Some(o) => board_walls.has(spec_wall_index(Wall { position: WallPosition { x: a as usize, y: b as usize }, orientation: o })),
                    None => true,
                },
            forall|k: int| 0 <= k < walls@.len() ==> (#[trigger] walls@[k]).position.on_grid()
                && game.board.walls.slot(walls@[k].position.x as int, walls@[k].position.y as int) != Some(walls@[k].orientation),
            forall|k: int| 0 <= k < walls@.len() ==> #[trigger] walls@[k] == slot_wall(ones@[k] as int),
        decreases ones@.len() - i,
    {
        let index = ones[i];
        proof {
            assert(common.has(ones@[i as int] as int));
        }
        let w = wall_from_index(index);
        proof {
            lemma_index_round_trips(PiecePosition { x: 0, y: 0 }, 0, w, index as int);
            let same = Wall { position: WallPosition { x: w.position.x, y: w.position.y }, orientation: w.orientation };
            assert(same == w);
            assert(spec_wall_index(w) == index);
            if game.board.walls.slot(w.position.x as int, w.position.y as int) == Some(w.orientation) {
                assert(board_walls.has(spec_wall_index(same)));
            }
        }
        let ghost w0 = walls@;
        walls.push(w);
        proof {
            assert forall|k: int| 0 <= k < walls@.len() implies (#[trigger] walls@[k]).position.on_grid()
                && game.board.walls.slot(walls@[k].position.x as int, walls@[k].position.y as int) != Some(walls@[k].orientation) by {
                if k < w0.len() {
                    assert(walls@[k] == w0[k]);
                }
            }
            assert forall|k: int| 0 <= k < walls@.len() implies #[trigger] walls@[k] == slot_wall(ones@[k] as int) by {
                if k < w0.len() {
                    assert(walls@[k] == w0[k]);
                }
            }
        }
        i += 1;
    }
    proof {
        assert forall|w: Wall| #[trigger] walls@.contains(w) == (w.position.on_grid()
            && cuts_all_ways(board_walls, init, yt, spec_wall_index(w))) by {
            let j = spec_wall_index(w);
            lemma_common_slots(board_walls, init, yt, wall_bitsets@, j);
            if walls@.contains(w) {
                let k = choose|k: int| 0 <= k < walls@.len() && walls@[k] == w;
                assert(walls@[k] == slot_wall(ones@[k] as int));
                let jj = ones@[k] as int;
                assert(common.has(jj));
                lemma_index_round_trips(PiecePosition { x: 0, y: 0 }, 0, w, jj);
                assert(j == jj);
                assert forall|k2: int| 0 <= k2 < wall_bitsets@.len() implies (#[trigger] wall_bitsets@[k2]).has(j) by {}
            } else if w.position.on_grid() && cuts_all_ways(board_walls, init, yt, j) {
                lemma_index_round_trips(PiecePosition { x: 0, y: 0 }, 0, w, j);
                assert(common.has(j));
                lemma_ones_below_complete(common, 192, j);
                let k = choose|k: int| 0 <= k < ones@.len() && ones@[k] == j as usize;
                assert(walls@[k] == slot_wall(j));
                assert(slot_wall(j) == w);
                assert(false);
            }
        }
    }
    walls
}

} // verus!
