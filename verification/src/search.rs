use vstd::prelude::*;
use crate::data_model::{
    Board, Direction, MovePiece, PiecePosition, Player, PIECE_GRID_HEIGHT, PIECE_GRID_WIDTH,
};
use crate::game_logic::{
    spec_direction_legal, spec_piece_legal, spec_position_after_direction, spec_position_after_move,
};
use crate::priority_queue::{item_of, lex_le, PriorityQueue};
use crate::a_star::{lemma_neighbors_are_steps, spec_heuristic};
use crate::a_star_to_opponent::{lemma_steps_are_edges, spec_manhattan};

verus! {

/// What a best-first search over the squares of a board looks for, and which
/// steps it takes.
pub enum Target {
    /// The piece of the player walks, jumping over the opponent as the rules
    /// allow, to the far row of the player.
    Goal(Player),
    /// The piece of the player steps square by square, ignoring the opponent,
    /// to the square of the opponent.
    Opponent(Player),
}

impl Target {
    pub open spec fn player(self) -> Player {
        match self {
            Target::Goal(p) => p,
            Target::Opponent(p) => p,
        }
    }
}

/// The row that `player` has to reach.
pub open spec fn goal_row(player: Player) -> int {
    match player {
        Player::White => PIECE_GRID_HEIGHT - 1,
        Player::Black => 0,
    }
}

/// One step of the search leads from `p` to `q`.
pub open spec fn spec_edge(board: Board, t: Target, p: PiecePosition, q: PiecePosition) -> bool {
    match t {
        Target::Goal(player) => exists|mp: MovePiece|
            #[trigger] spec_piece_legal(board, player, p, mp) && spec_position_after_move(
                p,
                mp,
                board.pos(player.other()),
            ) == q,
        Target::Opponent(_) => exists|d: Direction|
            #[trigger] spec_direction_legal(board.walls, p, d) && spec_position_after_direction(p, d)
                == q,
    }
}

/// The search is done at `p`.
pub open spec fn spec_is_target(board: Board, t: Target, p: PiecePosition) -> bool {
    match t {
        Target::Goal(player) => p.y == goal_row(player),
        Target::Opponent(player) => p == board.pos(player.other()),
    }
}

/// The square before step `i` of `path` when it starts at `from`.
pub open spec fn walk_before(from: PiecePosition, path: Seq<PiecePosition>, i: int) -> PiecePosition {
    if i == 0 {
        from
    } else {
        path[i - 1]
    }
}

/// Each square of `path` is one step from the square before it, the first from `from`.
pub open spec fn is_walk(board: Board, t: Target, from: PiecePosition, path: Seq<PiecePosition>) -> bool {
    forall|i: int| 0 <= i < path.len() ==> #[trigger] spec_edge(board, t, walk_before(from, path, i), path[i])
}

pub open spec fn walk_end(from: PiecePosition, path: Seq<PiecePosition>) -> PiecePosition {
    if path.len() == 0 {
        from
    } else {
        path.last()
    }
}

/// Some walk from the square of the player ends on a target.
pub open spec fn spec_reachable(board: Board, t: Target) -> bool {
    exists|path: Seq<PiecePosition>|
        #[trigger] is_walk(board, t, board.pos(t.player()), path) && spec_is_target(
            board,
            t,
            walk_end(board.pos(t.player()), path),
        )
}

/// The number of a square on the board: row by row.
pub open spec fn tile(p: PiecePosition) -> int {
    p.y * 9 + p.x
}

/// The square with number `i`.
pub open spec fn tile_pos(i: int) -> PiecePosition {
    PiecePosition { x: (i % 9) as usize, y: (i / 9) as usize }
}

/// A square on the board comes back from its number.
pub proof fn lemma_tile(p: PiecePosition)
    requires
        p.on_board(),
    ensures
        0 <= tile(p) < 81,
        tile_pos(tile(p)) == p,
{
}

/// A step of the search from a square on the board stays on the board.
pub proof fn lemma_edge_on_board(board: Board, t: Target, p: PiecePosition, q: PiecePosition)
    requires
        p.on_board(),
        spec_edge(board, t, p, q),
    ensures
        q.on_board(),
{
    match t {
        Target::Goal(player) => {
            let mp = choose|mp: MovePiece|
                #[trigger] spec_piece_legal(board, player, p, mp) && spec_position_after_move(
                    p,
                    mp,
                    board.pos(player.other()),
                ) == q;
            let next = spec_position_after_direction(p, mp.direction);
            assert(next.on_board());
        },
        Target::Opponent(_) => {},
    }
}

/// The squares the discovered squares of the search have marks in `g` below `usize::MAX`.
pub open spec fn discovered(g: Seq<usize>, p: PiecePosition) -> bool {
    p.on_board() && g[tile(p)] != usize::MAX
}

/// Number of unmarked entries among the first `n` of `g`.
pub open spec fn undiscovered(g: Seq<usize>, n: int) -> int
    decreases n,
{
    if n <= 0 {
        0
    } else {
        undiscovered(g, n - 1) + if g[n - 1] == usize::MAX { 1int } else { 0int }
    }
}

/// The sum of the first `n` entries of `g`, an unmarked entry counted as 81.
pub open spec fn potential(g: Seq<usize>, n: int) -> int
    decreases n,
{
    if n <= 0 {
        0
    } else {
        potential(g, n - 1) + if g[n - 1] == usize::MAX { 81int } else { g[n - 1] as int }
    }
}

proof fn lemma_counts_update(g: Seq<usize>, n: int, i: int, v: usize)
    requires
        0 <= i < n <= g.len(),
    ensures
        undiscovered(g.update(i, v), n) == undiscovered(g, n) - (if g[i] == usize::MAX { 1int } else { 0int }) + (if v == usize::MAX { 1int } else { 0int }),
        potential(g.update(i, v), n) == potential(g, n) - (if g[i] == usize::MAX { 81int } else { g[i] as int }) + (if v == usize::MAX { 81int } else { v as int }),
    decreases n,
{
    if n - 1 > i {
        lemma_counts_update(g, n - 1, i, v);
    } else {
        lemma_counts_same(g, g.update(i, v), n - 1);
    }
}

proof fn lemma_counts_same(g: Seq<usize>, h: Seq<usize>, n: int)
    requires
        0 <= n <= g.len(),
        n <= h.len(),
        forall|j: int| 0 <= j < n ==> g[j] == h[j],
    ensures
        undiscovered(g, n) == undiscovered(h, n),
        potential(g, n) == potential(h, n),
    decreases n,
{
    if n > 0 {
        lemma_counts_same(g, h, n - 1);
    }
}

proof fn lemma_counts_bounds(g: Seq<usize>, n: int)
    requires
        0 <= n <= g.len(),
    ensures
        0 <= undiscovered(g, n) <= n,
        0 <= potential(g, n),
    decreases n,
{
    if n > 0 {
        lemma_counts_bounds(g, n - 1);
    }
}

/// A set of squares that holds the start, holds no target and is closed under the
/// steps of the search holds every walk from the start, so no target is reachable.
proof fn lemma_closed_unreachable(board: Board, t: Target, g: Seq<usize>)
    requires
        g.len() == 81,
        discovered(g, board.pos(t.player())),
        forall|p: PiecePosition, q: PiecePosition|
            #[trigger] discovered(g, p) && #[trigger] spec_edge(board, t, p, q) ==> discovered(g, q),
        forall|p: PiecePosition| #[trigger] discovered(g, p) ==> !spec_is_target(board, t, p),
    ensures
        !spec_reachable(board, t),
{
    let start = board.pos(t.player());
    assert forall|path: Seq<PiecePosition>|
        #[trigger] is_walk(board, t, start, path) implies !spec_is_target(
        board,
        t,
        walk_end(start, path),
    ) by {
        assert forall|i: int| 0 <= i <= path.len() implies #[trigger] discovered(g, walk_before(start, path, i)) by {
            lemma_walk_prefix_discovered(board, t, g, start, path, i);
        }
        assert(discovered(g, walk_before(start, path, path.len() as int)));
        assert(walk_end(start, path) == walk_before(start, path, path.len() as int));
    }
}

proof fn lemma_walk_prefix_discovered(
    board: Board,
    t: Target,
    g: Seq<usize>,
    start: PiecePosition,
    path: Seq<PiecePosition>,
    i: int,
)
    requires
        discovered(g, start),
        forall|p: PiecePosition, q: PiecePosition|
            #[trigger] discovered(g, p) && #[trigger] spec_edge(board, t, p, q) ==> discovered(g, q),
        is_walk(board, t, start, path),
        0 <= i <= path.len(),
    ensures
        discovered(g, walk_before(start, path, i)),
    decreases i,
{
    if i > 0 {
        lemma_walk_prefix_discovered(board, t, g, start, path, i - 1);
        assert(spec_edge(board, t, walk_before(start, path, i - 1), path[i - 1]));
    }
}


/// The search may start: the searching piece stands on the board, and for a
/// search for the opponent so does the opponent.
pub open spec fn search_ready(board: Board, t: Target) -> bool {
    &&& board.pos(t.player()).on_board()
    &&& t is Opponent ==> board.on_board()
}

/// The marks and back links of the search: the start is marked 0 and has no link;
/// every mark is below the number of marked squares; every other marked square
/// links to a marked square with a smaller mark, one step before it.
pub open spec fn inv_scores(board: Board, t: Target, g: Seq<usize>, came: Seq<Option<PiecePosition>>) -> bool {
    &&& g.len() == 81
    &&& came.len() == 81
    &&& forall|i: int| 0 <= i < 81 && #[trigger] g[i] != usize::MAX ==> g[i] < 81 - undiscovered(g, 81)
    &&& back_links(board, t, g, came)
}

/// The start is marked 0 and has no link; every other marked square links to a
/// marked square with a smaller mark, one step before it.
pub open spec fn back_links(board: Board, t: Target, g: Seq<usize>, came: Seq<Option<PiecePosition>>) -> bool {
    let start = board.pos(t.player());
    &&& g.len() == 81
    &&& came.len() == 81
    &&& g[tile(start)] == 0
    &&& came[tile(start)] is None
    &&& forall|p: PiecePosition| discovered(g, p) && p != start ==> {
        &&& #[trigger] came[tile(p)] is Some
        &&& discovered(g, came[tile(p)]->0)
        &&& g[tile(came[tile(p)]->0)] < g[tile(p)]
        &&& spec_edge(board, t, came[tile(p)]->0, p)
    }
}

/// The open set of the search holds marked squares only; a marked square that is
/// not open has all its successors marked; a marked target is open.
pub open spec fn inv_open(board: Board, t: Target, g: Seq<usize>, open: Map<(usize, usize), (usize, usize)>, exempt: Option<PiecePosition>) -> bool {
    &&& open.dom().finite()
    &&& forall|it: (usize, usize)| #[trigger] open.dom().contains(it) ==> discovered(g, PiecePosition { x: it.0, y: it.1 })
    &&& forall|p: PiecePosition, q: PiecePosition|
        #[trigger] discovered(g, p) && !open.dom().contains(item_of(p)) && exempt != Some(p)
            && #[trigger] spec_edge(board, t, p, q) ==> discovered(g, q)
    &&& forall|p: PiecePosition| #[trigger] discovered(g, p) && spec_is_target(board, t, p) ==> open.dom().contains(item_of(p))
}

/// The estimate of the search at `p`: rows to the goal row, or rows and
/// columns to the opponent.
pub open spec fn spec_target_h(board: Board, t: Target, p: PiecePosition) -> int {
    match t {
        Target::Goal(player) => spec_heuristic(p, player),
        Target::Opponent(player) => spec_manhattan(p, board.pos(player.other())),
    }
}

/// How far a walk found may be longer than a shortest one: one step for the
/// goal row, where one jump can cover two rows; none for the opponent.
pub open spec fn slack(t: Target) -> int {
    match t {
        Target::Goal(_) => 1,
        Target::Opponent(_) => 0,
    }
}

/// A walk from the square of the player to a target.
pub open spec fn target_walk(board: Board, t: Target, w: Seq<PiecePosition>) -> bool {
    is_walk(board, t, board.pos(t.player()), w) && spec_is_target(board, t, walk_end(board.pos(t.player()), w))
}

/// A walk to a target no longer than any other.
pub open spec fn shortest_target_walk(board: Board, t: Target, w: Seq<PiecePosition>) -> bool {
    target_walk(board, t, w) && forall|w2: Seq<PiecePosition>| #[trigger] target_walk(board, t, w2) ==> w.len() <= w2.len()
}

/// A walk followed by a walk from its end is a walk.
proof fn lemma_walk_concat(board: Board, t: Target, a: PiecePosition, w1: Seq<PiecePosition>, w2: Seq<PiecePosition>)
    requires
        is_walk(board, t, a, w1),
        is_walk(board, t, walk_end(a, w1), w2),
    ensures
        is_walk(board, t, a, w1 + w2),
        walk_end(a, w1 + w2) == walk_end(walk_end(a, w1), w2),
{
    let w = w1 + w2;
    assert forall|i: int| 0 <= i < w.len() implies #[trigger] spec_edge(board, t, walk_before(a, w, i), w[i]) by {
        if i < w1.len() {
            assert(walk_before(a, w, i) == walk_before(a, w1, i));
            assert(w[i] == w1[i]);
        } else {
            let k = i - w1.len();
            assert(w[i] == w2[k]);
            if k == 0 {
                assert(walk_before(a, w, i) == walk_end(a, w1));
                assert(walk_before(walk_end(a, w1), w2, k) == walk_end(a, w1));
            } else {
                assert(walk_before(a, w, i) == w2[k - 1]);
            }
            assert(spec_edge(board, t, walk_before(walk_end(a, w1), w2, k), w2[k]));
        }
    }
    if w2.len() == 0 {
        assert(w =~= w1);
    } else {
        assert(w.last() == w2.last());
    }
}

/// The part of a walk from its `i`th square on is a walk from that square.
proof fn lemma_walk_suffix(board: Board, t: Target, a: PiecePosition, w: Seq<PiecePosition>, i: int)
    requires
        is_walk(board, t, a, w),
        0 <= i <= w.len(),
    ensures
        is_walk(board, t, walk_before(a, w, i), w.subrange(i, w.len() as int)),
        walk_end(walk_before(a, w, i), w.subrange(i, w.len() as int)) == walk_end(a, w),
{
    let s = w.subrange(i, w.len() as int);
    let b = walk_before(a, w, i);
    assert forall|k: int| 0 <= k < s.len() implies #[trigger] spec_edge(board, t, walk_before(b, s, k), s[k]) by {
        assert(s[k] == w[i + k]);
        if k == 0 {
            assert(walk_before(b, s, k) == walk_before(a, w, i + k));
        } else {
            assert(walk_before(b, s, k) == w[i + k - 1]);
            assert(walk_before(a, w, i + k) == w[i + k - 1]);
        }
        assert(spec_edge(board, t, walk_before(a, w, i + k), w[i + k]));
    }
    if s.len() > 0 {
        assert(s.last() == w.last());
    }
}

/// A walk with one more step.
proof fn lemma_walk_push(board: Board, t: Target, a: PiecePosition, w: Seq<PiecePosition>, q: PiecePosition)
    requires
        is_walk(board, t, a, w),
        spec_edge(board, t, walk_end(a, w), q),
    ensures
        is_walk(board, t, a, w.push(q)),
        walk_end(a, w.push(q)) == q,
{
    let w2 = w.push(q);
    assert forall|i: int| 0 <= i < w2.len() implies #[trigger] spec_edge(board, t, walk_before(a, w2, i), w2[i]) by {
        if i < w.len() {
            assert(w2[i] == w[i]);
            if i > 0 {
                assert(w2[i - 1] == w[i - 1]);
            }
            assert(walk_before(a, w2, i) == walk_before(a, w, i));
        } else {
            if i > 0 {
                assert(w2[i - 1] == w[i - 1]);
            }
            assert(walk_before(a, w2, i) == walk_end(a, w));
        }
    }
}

/// When a walk to a target of length at most `n` exists, a shortest one does.
proof fn lemma_shortest_exists(board: Board, t: Target, n: nat)
    requires
        exists|w: Seq<PiecePosition>| #[trigger] target_walk(board, t, w) && w.len() <= n,
    ensures
        exists|w: Seq<PiecePosition>| #[trigger] shortest_target_walk(board, t, w),
    decreases n,
{
    if n > 0 && exists|w: Seq<PiecePosition>| #[trigger] target_walk(board, t, w) && w.len() <= n - 1 {
        lemma_shortest_exists(board, t, (n - 1) as nat);
    } else {
        let w = choose|w: Seq<PiecePosition>| #[trigger] target_walk(board, t, w) && w.len() <= n;
        assert forall|w2: Seq<PiecePosition>| #[trigger] target_walk(board, t, w2) implies w.len() <= w2.len() by {
            if w2.len() < w.len() {
                assert(n > 0);
                assert(w2.len() <= n - 1);
            }
        }
        assert(shortest_target_walk(board, t, w));
    }
}

/// A walk from the start to the `i`th square of a shortest walk to a target is at
/// least `i` steps long.
proof fn lemma_prefix_shortest(board: Board, t: Target, p: Seq<PiecePosition>, i: int, w: Seq<PiecePosition>)
    requires
        shortest_target_walk(board, t, p),
        0 <= i <= p.len(),
        is_walk(board, t, board.pos(t.player()), w),
        walk_end(board.pos(t.player()), w) == walk_before(board.pos(t.player()), p, i),
    ensures
        w.len() >= i,
{
    let a = board.pos(t.player());
    lemma_walk_suffix(board, t, a, p, i);
    let rest = p.subrange(i, p.len() as int);
    lemma_walk_concat(board, t, a, w, rest);
    assert(target_walk(board, t, w + rest));
}

/// A marked square is reached from the start by a walk no longer than its mark.
proof fn lemma_back_walk(board: Board, t: Target, g: Seq<usize>, came: Seq<Option<PiecePosition>>, p: PiecePosition)
    requires
        back_links(board, t, g, came),
        discovered(g, p),
    ensures
        exists|w: Seq<PiecePosition>|
            is_walk(board, t, board.pos(t.player()), w) && walk_end(board.pos(t.player()), w) == p && #[trigger] w.len() <= g[tile(p)],
    decreases g[tile(p)],
{
    let a = board.pos(t.player());
    if p == a {
        let w = Seq::<PiecePosition>::empty();
        assert(is_walk(board, t, a, w));
        assert(w.len() <= g[tile(p)]);
    } else {
        let q = came[tile(p)]->0;
        lemma_back_walk(board, t, g, came, q);
        let w = choose|w: Seq<PiecePosition>|
            is_walk(board, t, a, w) && walk_end(a, w) == q && #[trigger] w.len() <= g[tile(q)];
        lemma_walk_push(board, t, a, w, p);
        assert(w.push(p).len() <= g[tile(p)]);
    }
}

/// The marks of the squares of a shortest walk to a target are no smaller than
/// their places on it.
proof fn lemma_mark_lower(board: Board, t: Target, g: Seq<usize>, came: Seq<Option<PiecePosition>>, p: Seq<PiecePosition>, i: int)
    requires
        back_links(board, t, g, came),
        shortest_target_walk(board, t, p),
        0 <= i <= p.len(),
        discovered(g, walk_before(board.pos(t.player()), p, i)),
    ensures
        g[tile(walk_before(board.pos(t.player()), p, i))] >= i,
{
    let a = board.pos(t.player());
    let v = walk_before(a, p, i);
    lemma_back_walk(board, t, g, came, v);
    let w = choose|w: Seq<PiecePosition>| is_walk(board, t, a, w) && walk_end(a, w) == v && #[trigger] w.len() <= g[tile(v)];
    lemma_prefix_shortest(board, t, p, i, w);
}

/// Rows and columns to the opponent shrink by at most one per step.
proof fn lemma_manhattan_step(board: Board, player: Player, a: PiecePosition, b: PiecePosition)
    requires
        spec_edge(board, Target::Opponent(player), a, b),
        a.on_board(),
    ensures
        spec_manhattan(a, board.pos(player.other())) <= spec_manhattan(b, board.pos(player.other())) + 1,
{
    let d = choose|d: Direction| #[trigger] spec_direction_legal(board.walls, a, d) && spec_position_after_direction(a, d) == b;
}

/// Along a walk to the opponent, the estimate at each square is at most the
/// steps left.
proof fn lemma_opponent_h_bound(board: Board, player: Player, a: PiecePosition, w: Seq<PiecePosition>, i: int)
    requires
        is_walk(board, Target::Opponent(player), a, w),
        walk_end(a, w) == board.pos(player.other()),
        0 <= i <= w.len(),
        a.on_board(),
    ensures
        spec_manhattan(walk_before(a, w, i), board.pos(player.other())) <= w.len() - i,
    decreases w.len() - i,
{
    if i < w.len() {
        lemma_opponent_h_bound(board, player, a, w, i + 1);
        assert(spec_edge(board, Target::Opponent(player), walk_before(a, w, i), w[i]));
        assert(walk_before(a, w, i + 1) == w[i]);
        if i > 0 {
            lemma_walk_on_board(board, Target::Opponent(player), a, w, i - 1);
        }
        lemma_manhattan_step(board, player, walk_before(a, w, i), w[i]);
    } else {
        assert(walk_before(a, w, i) == walk_end(a, w));
    }
}

/// The squares of a walk from a square of the board are on the board.
proof fn lemma_walk_on_board(board: Board, t: Target, a: PiecePosition, w: Seq<PiecePosition>, i: int)
    requires
        is_walk(board, t, a, w),
        a.on_board(),
        0 <= i < w.len(),
    ensures
        w[i].on_board(),
    decreases i,
{
    if i > 0 {
        lemma_walk_on_board(board, t, a, w, i - 1);
    }
    assert(spec_edge(board, t, walk_before(a, w, i), w[i]));
    lemma_edge_on_board(board, t, walk_before(a, w, i), w[i]);
}

/// Each open square is queued under its mark plus its estimate.
pub open spec fn keys_ok(board: Board, t: Target, g: Seq<usize>, open: Map<(usize, usize), (usize, usize)>) -> bool {
    forall|it: (usize, usize)| #[trigger] open.dom().contains(it) ==> open[it] == (
        (g[tile(PiecePosition { x: it.0, y: it.1 })] + spec_target_h(board, t, PiecePosition { x: it.0, y: it.1 })) as usize,
        0usize,
    )
}

/// The `i`th square of the walk `p` from the square of the player.
pub open spec fn pv(board: Board, t: Target, p: Seq<PiecePosition>, i: int) -> PiecePosition {
    walk_before(board.pos(t.player()), p, i)
}

/// The square `v` is marked `i` and no longer open.
pub open spec fn closed_at_mark(g: Seq<usize>, open: Map<(usize, usize), (usize, usize)>, v: PiecePosition, i: int) -> bool {
    discovered(g, v) && g[tile(v)] == i && !open.dom().contains(item_of(v))
}

/// Along the shortest walk `p`, a square closed with its place as its mark has
/// its successor marked with its place.
pub open spec fn path_settles(board: Board, t: Target, p: Seq<PiecePosition>, g: Seq<usize>, open: Map<(usize, usize), (usize, usize)>) -> bool {
    forall|i: int|
        0 <= i < p.len() && #[trigger] closed_at_mark(g, open, pv(board, t, p, i), i) ==> discovered(g, pv(board, t, p, i + 1))
            && g[tile(pv(board, t, p, i + 1))] == i + 1
}

/// The estimates along `p` are at most the steps left plus the slack.
pub open spec fn h_bounded(board: Board, t: Target, p: Seq<PiecePosition>) -> bool {
    forall|i: int| 0 <= i <= p.len() ==> spec_target_h(board, t, #[trigger] pv(board, t, p, i)) <= p.len() - i + slack(t)
}

/// Some square of the shortest walk `p` is open with its place as its mark.
proof fn lemma_frontier(
    board: Board,
    t: Target,
    g: Seq<usize>,
    came: Seq<Option<PiecePosition>>,
    open: Map<(usize, usize), (usize, usize)>,
    p: Seq<PiecePosition>,
    i: int,
)
    requires
        back_links(board, t, g, came),
        inv_open(board, t, g, open, None),
        shortest_target_walk(board, t, p),
        path_settles(board, t, p, g, open),
        0 <= i <= p.len(),
        discovered(g, pv(board, t, p, i)),
        g[tile(pv(board, t, p, i))] == i,
    ensures
        exists|k: int| i <= k <= p.len() && discovered(g, pv(board, t, p, k)) && g[tile(pv(board, t, p, k))] == k
            && #[trigger] open.dom().contains(item_of(pv(board, t, p, k))),
    decreases p.len() - i,
{
    if open.dom().contains(item_of(pv(board, t, p, i))) {
    } else if i == p.len() {
        assert(pv(board, t, p, i) == walk_end(board.pos(t.player()), p));
        assert(spec_is_target(board, t, pv(board, t, p, i)));
    } else {
        assert(closed_at_mark(g, open, pv(board, t, p, i), i));
        lemma_frontier(board, t, g, came, open, p, i + 1);
    }
}

/// One step of the search keeps `path_settles`.
proof fn lemma_settles_step(
    board: Board,
    t: Target,
    p: Seq<PiecePosition>,
    c: PiecePosition,
    g0: Seq<usize>,
    came0: Seq<Option<PiecePosition>>,
    open0: Map<(usize, usize), (usize, usize)>,
    g1: Seq<usize>,
    came1: Seq<Option<PiecePosition>>,
    open1: Map<(usize, usize), (usize, usize)>,
)
    requires
        shortest_target_walk(board, t, p),
        board.pos(t.player()).on_board(),
        back_links(board, t, g0, came0),
        inv_scores(board, t, g1, came1),
        path_settles(board, t, p, g0, open0),
        discovered(g0, c),
        forall|i: int| 0 <= i < 81 ==> #[trigger] g1[i] <= g0[i],
        forall|q: PiecePosition| #[trigger] spec_edge(board, t, c, q) ==> g1[tile(q)] <= g0[tile(c)] + 1,
        forall|q: PiecePosition| q.on_board() && #[trigger] g1[tile(q)] < g0[tile(q)] ==> open1.dom().contains(item_of(q)),
        forall|it: (usize, usize)| #[trigger] open0.dom().contains(it) && it != item_of(c) ==> open1.dom().contains(it),
        g1[tile(c)] == g0[tile(c)],
    ensures
        path_settles(board, t, p, g1, open1),
{
    let a = board.pos(t.player());
    assert forall|i: int|
        0 <= i < p.len() && #[trigger] closed_at_mark(g1, open1, pv(board, t, p, i), i) implies discovered(g1, pv(board, t, p, i + 1))
            && g1[tile(pv(board, t, p, i + 1))] == i + 1 by {
        let v = pv(board, t, p, i);
        let w = pv(board, t, p, i + 1);
        assert(v.on_board());
        lemma_tile(v);
        assert(w == p[i]);
        assert(spec_edge(board, t, v, w));
        lemma_edge_on_board(board, t, v, w);
        lemma_tile(w);
        assert(g1[tile(v)] <= g0[tile(v)]);
        if g1[tile(v)] < g0[tile(v)] {
            assert(open1.dom().contains(item_of(v)));
        }
        assert(discovered(g0, v));
        lemma_counts_bounds(g1, 81);
        assert(g1[tile(v)] < 81);
        if v == c {
            assert(g1[tile(w)] <= i + 1);
            assert(discovered(g1, w));
            lemma_mark_lower(board, t, g1, came1, p, i + 1);
        } else {
            assert(item_of(v) != item_of(c));
            assert(!open0.dom().contains(item_of(v)));
            assert(closed_at_mark(g0, open0, v, i));
            assert(g1[tile(w)] <= g0[tile(w)]);
            assert(discovered(g1, w));
            lemma_mark_lower(board, t, g1, came1, p, i + 1);
        }
    }
}

/// The first `m` steps of a walk are a walk to its `m`th square.
proof fn lemma_walk_prefix(board: Board, t: Target, a: PiecePosition, w: Seq<PiecePosition>, m: int)
    requires
        is_walk(board, t, a, w),
        0 <= m <= w.len(),
    ensures
        is_walk(board, t, a, w.subrange(0, m)),
        walk_end(a, w.subrange(0, m)) == walk_before(a, w, m),
{
    let s = w.subrange(0, m);
    assert forall|k: int| 0 <= k < s.len() implies #[trigger] spec_edge(board, t, walk_before(a, s, k), s[k]) by {
        assert(s[k] == w[k]);
        if k > 0 {
            assert(s[k - 1] == w[k - 1]);
        }
        assert(walk_before(a, s, k) == walk_before(a, w, k));
        assert(spec_edge(board, t, walk_before(a, w, k), w[k]));
    }
    if m > 0 {
        assert(s.last() == w[m - 1]);
    }
}

/// A shortest walk to a target visits no square twice.
proof fn lemma_shortest_simple(board: Board, t: Target, p: Seq<PiecePosition>, m: int, n: int)
    requires
        shortest_target_walk(board, t, p),
        0 <= m < n <= p.len(),
    ensures
        pv(board, t, p, m) != pv(board, t, p, n),
{
    if pv(board, t, p, m) == pv(board, t, p, n) {
        let a = board.pos(t.player());
        lemma_walk_prefix(board, t, a, p, m);
        lemma_walk_suffix(board, t, a, p, n);
        let w1 = p.subrange(0, m);
        let w2 = p.subrange(n, p.len() as int);
        lemma_walk_concat(board, t, a, w1, w2);
        assert(target_walk(board, t, w1 + w2));
        assert((w1 + w2).len() < p.len());
    }
}

/// A move of the piece changes its row by at most two, and by two only when
/// it jumps straight over the opponent in its column.
proof fn lemma_goal_step_rows(board: Board, player: Player, a: PiecePosition, b: PiecePosition)
    requires
        spec_edge(board, Target::Goal(player), a, b),
        a.on_board(),
    ensures
        -2 <= b.y - a.y <= 2,
        (b.y - a.y == 2 || b.y - a.y == -2) ==> {
            let o = board.pos(player.other());
            &&& a.x == o.x && b.x == o.x
            &&& (a.y == o.y - 1 && b.y == o.y + 1) || (a.y == o.y + 1 && b.y == o.y - 1)
        },
{
    let mp = choose|mp: MovePiece|
        #[trigger] spec_piece_legal(board, player, a, mp) && spec_position_after_move(a, mp, board.pos(player.other())) == b;
    let next = spec_position_after_direction(a, mp.direction);
    assert(next.on_board());
    if next == board.pos(player.other()) {
        assert(spec_direction_legal(board.walls, next, mp.direction_on_collision));
    }
}

/// Along a shortest walk to the goal row, the rows left from the `i`th square
/// are at most the steps left plus one, and at most the steps left when no
/// step from there on jumps two rows.
proof fn lemma_goal_rows_left(board: Board, player: Player, p: Seq<PiecePosition>, i: int)
    requires
        shortest_target_walk(board, Target::Goal(player), p),
        board.pos(player).on_board(),
        0 <= i <= p.len(),
    ensures
        spec_heuristic(pv(board, Target::Goal(player), p, i), player) <= p.len() - i + 1,
        (forall|k: int| i <= k < p.len() ==> -1 <= #[trigger] pv(board, Target::Goal(player), p, k + 1).y - pv(board, Target::Goal(player), p, k).y <= 1)
            ==> spec_heuristic(pv(board, Target::Goal(player), p, i), player) <= p.len() - i,
    decreases p.len() - i,
{
    let t = Target::Goal(player);
    let a = board.pos(player);
    if i == p.len() {
        assert(pv(board, t, p, i) == walk_end(a, p));
    } else {
        lemma_goal_rows_left(board, player, p, i + 1);
        let u = pv(board, t, p, i);
        let v = pv(board, t, p, i + 1);
        assert(v == p[i]);
        assert(spec_edge(board, t, u, v));
        if i > 0 {
            lemma_walk_on_board(board, t, a, p, i - 1);
        }
        lemma_goal_step_rows(board, player, u, v);
        lemma_walk_on_board(board, t, a, p, i);
        if v.y - u.y == 2 || v.y - u.y == -2 {
            assert forall|k: int| i + 1 <= k < p.len() implies -1 <= #[trigger] pv(board, t, p, k + 1).y - pv(board, t, p, k).y <= 1 by {
                let x = pv(board, t, p, k);
                let y2 = pv(board, t, p, k + 1);
                assert(y2 == p[k]);
                assert(spec_edge(board, t, x, y2));
                lemma_walk_on_board(board, t, a, p, k - 1);
                lemma_goal_step_rows(board, player, x, y2);
                if y2.y - x.y == 2 || y2.y - x.y == -2 {
                    lemma_walk_on_board(board, t, a, p, k);
                    if u == y2 {
                        lemma_shortest_simple(board, t, p, i, k + 1);
                    } else if v == y2 {
                        lemma_shortest_simple(board, t, p, i + 1, k + 1);
                    } else {
                        lemma_shortest_simple(board, t, p, i, i + 1);
                    }
                }
            }
        }
    }
}

/// Along a shortest walk to the goal row, the rows left are at most the steps
/// left plus one.
proof fn lemma_goal_h_bound(board: Board, player: Player, p: Seq<PiecePosition>, i: int)
    requires
        shortest_target_walk(board, Target::Goal(player), p),
        board.pos(player).on_board(),
        0 <= i <= p.len(),
    ensures
        spec_heuristic(pv(board, Target::Goal(player), p, i), player) <= p.len() - i + 1,
{
    lemma_goal_rows_left(board, player, p, i);
}

/// The estimates along a shortest walk to a target are at most the steps
/// left plus the slack.
proof fn lemma_h_bounded(board: Board, t: Target, p: Seq<PiecePosition>)
    requires
        shortest_target_walk(board, t, p),
        search_ready(board, t),
    ensures
        h_bounded(board, t, p),
{
    let a = board.pos(t.player());
    match t {
        Target::Opponent(player) => {
            assert forall|i: int| 0 <= i <= p.len() implies spec_target_h(board, t, #[trigger] pv(board, t, p, i)) <= p.len() - i + slack(t) by {
                lemma_opponent_h_bound(board, player, a, p, i);
            }
        },
        Target::Goal(player) => {
            assert forall|i: int| 0 <= i <= p.len() implies spec_target_h(board, t, #[trigger] pv(board, t, p, i)) <= p.len() - i + slack(t) by {
                lemma_goal_h_bound(board, player, p, i);
            }
        },
    }
}

fn tile_index(p: &PiecePosition) -> (i: usize)
    requires
        p.on_board(),
    ensures
        i == tile(*p),
        i < 81,
{
    p.y * 9 + p.x
}

/// The estimate of the search at `p`; zero exactly on a target.
fn target_heuristic(board: &Board, t: &Target, p: &PiecePosition) -> (h: usize)
    requires
        p.on_board(),
        search_ready(*board, *t),
    ensures
        h <= 16,
        h == 0 <==> spec_is_target(*board, *t, *p),
        h == spec_target_h(*board, *t, *p),
{
    match t {
        Target::Goal(player) => crate::a_star::heuristic(p, *player),
        Target::Opponent(player) => crate::a_star_to_opponent::heuristic(
            p,
            board.player_position(player.opponent()),
        ),
    }
}

/// The successors of `p` in the search.
fn search_neighbors(board: &Board, t: &Target, p: &PiecePosition) -> (v: Vec<PiecePosition>)
    requires
        p.on_board(),
    ensures
        forall|q: PiecePosition| #[trigger] v@.contains(q) <==> spec_edge(*board, *t, *p, q),
{
    match t {
        Target::Goal(player) => {
            let v = crate::a_star::neighbors(board, *player, p);
            proof {
                assert forall|q: PiecePosition| #[trigger] v@.contains(q) <==> spec_edge(*board, *t, *p, q) by {
                    lemma_neighbors_are_steps(*board, *player, *p, q);
                }
            }
            v
        },
        Target::Opponent(player) => {
            let v = crate::a_star_to_opponent::neighbors(&board.walls, p);
            proof {
                assert forall|q: PiecePosition| #[trigger] v@.contains(q) <==> spec_edge(*board, *t, *p, q) by {
                    lemma_steps_are_edges(*board, *player, *p, q);
                }
            }
            v
        },
    }
}

/// Follows the back links from `current` to the start; the squares on the way,
/// the start left out, `current` last.
fn reconstruct_path(
    Ghost(board): Ghost<Board>,
    Ghost(t): Ghost<Target>,
    came_from: &[Option<PiecePosition>; 81],
    g_score: &[usize; 81],
    current: &PiecePosition,
) -> (path: Vec<PiecePosition>)
    requires
        back_links(board, t, g_score@, came_from@),
        discovered(g_score@, *current),
    ensures
        is_walk(board, t, board.pos(t.player()), path@),
        walk_end(board.pos(t.player()), path@) == *current,
        path@.len() <= g_score@[tile(*current)],
{
    let ghost start = board.pos(t.player());
    let mut path: Vec<PiecePosition> = Vec::new();
    let mut cur = *current;
    loop
        invariant
            start == board.pos(t.player()),
            back_links(board, t, g_score@, came_from@),
            discovered(g_score@, cur),
            is_walk(board, t, cur, path@),
            walk_end(cur, path@) == *current,
            path@.len() + g_score@[tile(cur)] <= g_score@[tile(*current)],
        decreases g_score@[tile(cur)],
    {
        let i = tile_index(&cur);
        match came_from[i] {
            Some(next) => {
                proof {
                    assert(came_from@[tile(cur)] == Some(next));
                    assert(cur != start);
                    assert(next == came_from@[tile(cur)]->0);
                    assert(g_score@[tile(next)] < g_score@[tile(cur)]);
                    lemma_walk_prepend(board, t, next, cur, path@, *current);
                }
                let ghost old_path = path@;
                path.insert(0, cur);
                proof {
                    assert(path@ =~= seq![cur] + old_path);
                }
                cur = next;
            },
            None => {
                proof {
                    assert(came_from@[tile(cur)] is None);
                    assert(cur == start);
                }
                return path;
            },
        }
    }
}

/// A shortest-first search over the squares of `board`, from the square of the
/// player of `t` to a target of `t`, ordered by steps taken plus the estimate of
/// `target_heuristic`; the squares of the walk found, the start left out.
pub fn search(board: &Board, t: Target) -> (r: Option<Vec<PiecePosition>>)
    requires
        search_ready(*board, t),
    ensures
        r is Some <==> spec_reachable(*board, t),
        r matches Some(path) ==> is_walk(*board, t, board.pos(t.player()), path@) && spec_is_target(
            *board,
            t,
            walk_end(board.pos(t.player()), path@),
        ),
        r matches Some(path) ==> forall|w: Seq<PiecePosition>| #[trigger] target_walk(*board, t, w) ==> path@.len() <= w.len() + slack(t),
        r matches Some(path) ==> (path@.len() == 0 <==> spec_is_target(*board, t, board.pos(t.player()))),
{
    let ghost has_p = spec_reachable(*board, t);
    let ghost sp: Seq<PiecePosition> = if has_p {
        choose|w: Seq<PiecePosition>| #[trigger] shortest_target_walk(*board, t, w)
    } else {
        Seq::empty()
    };
    proof {
        if has_p {
            let w0 = choose|path: Seq<PiecePosition>|
                #[trigger] is_walk(*board, t, board.pos(t.player()), path) && spec_is_target(*board, t, walk_end(board.pos(t.player()), path));
            assert(target_walk(*board, t, w0));
            lemma_shortest_exists(*board, t, w0.len());
            lemma_h_bounded(*board, t, sp);
        }
    }
    let player = match t {
        Target::Goal(p) => p,
        Target::Opponent(p) => p,
    };
    let start = *board.player_position(player);
    let mut open_set = PriorityQueue::new();
    let mut g_score: [usize; 81] = [usize::MAX; 81];
    let mut came_from: [Option<PiecePosition>; 81] = [None; 81];
    let si = tile_index(&start);
    proof {
        lemma_tile(start);
    }
    g_score[si] = 0;
    let h = target_heuristic(board, &t, &start);
    open_set.insert((h, 0), start);
    proof {
        let g0 = Seq::<usize>::new(81, |i: int| usize::MAX);
        assert(g_score@ =~= g0.update(si as int, 0));
        lemma_counts_update(g0, 81, si as int, 0);
        lemma_all_undiscovered(g0, 81);
        assert forall|p: PiecePosition| #[trigger] discovered(g_score@, p) implies p == start by {
            lemma_tile(p);
        }
        assert forall|it: (usize, usize)| #[trigger] open_set@.dom().contains(it) implies discovered(g_score@, PiecePosition { x: it.0, y: it.1 }) by {
            assert(it == item_of(start));
        }
        assert forall|it: (usize, usize)| #[trigger] open_set@.dom().contains(it) implies open_set@[it] == (
            (g_score@[tile(PiecePosition { x: it.0, y: it.1 })] + spec_target_h(*board, t, PiecePosition { x: it.0, y: it.1 })) as usize,
            0usize,
        ) by {
            assert(it == item_of(start));
            assert(PiecePosition { x: it.0, y: it.1 } == start);
        }
        if has_p {
            assert forall|i: int|
                0 <= i < sp.len() && #[trigger] closed_at_mark(g_score@, open_set@, pv(*board, t, sp, i), i) implies discovered(g_score@, pv(*board, t, sp, i + 1))
                    && g_score@[tile(pv(*board, t, sp, i + 1))] == i + 1 by {
                assert(pv(*board, t, sp, i) == start);
            }
        }
    }
    loop
        invariant
            search_ready(*board, t),
            player == t.player(),
            start == board.pos(player),
            inv_scores(*board, t, g_score@, came_from@),
            inv_open(*board, t, g_score@, open_set@, None),
            keys_ok(*board, t, g_score@, open_set@),
            has_p ==> shortest_target_walk(*board, t, sp) && h_bounded(*board, t, sp) && path_settles(*board, t, sp, g_score@, open_set@),
            has_p == spec_reachable(*board, t),
            spec_is_target(*board, t, start) ==> open_set@.dom() =~= set![item_of(start)] && g_score@[tile(start)] == 0,
        decreases potential(g_score@, 81), open_set@.dom().len(),
    {
        let ghost pot0 = potential(g_score@, 81);
        let ghost len0 = open_set@.dom().len();
        let ghost open_before_pop = open_set@;
        match open_set.pop() {
            None => {
                proof {
                    assert forall|p: PiecePosition, q: PiecePosition|
                        #[trigger] discovered(g_score@, p) && #[trigger] spec_edge(*board, t, p, q) implies discovered(g_score@, q) by {
                        assert(!open_set@.dom().contains(item_of(p)));
                    }
                    assert forall|p: PiecePosition| #[trigger] discovered(g_score@, p) implies !spec_is_target(*board, t, p) by {
                        if spec_is_target(*board, t, p) {
                            assert(open_set@.dom().contains(item_of(p)));
                        }
                    }
                    assert(discovered(g_score@, start));
                    lemma_closed_unreachable(*board, t, g_score@);
                }
                return None;
            },
            Some((_, current)) => {
                proof {
                    assert(discovered(g_score@, PiecePosition { x: item_of(current).0, y: item_of(current).1 }));
                    assert(PiecePosition { x: item_of(current).0, y: item_of(current).1 } == current);
                }
                proof {
                    assert(open_set@.dom() =~= open_before_pop.dom().remove(item_of(current)));
                    assert(open_set@.dom().len() == len0 - 1);
                }
                let ci = tile_index(&current);
                proof {
                    if spec_is_target(*board, t, start) {
                        assert(open_before_pop.dom().contains(item_of(current)));
                        assert(item_of(current) == item_of(start));
                        assert(current == start);
                    }
                }
                if target_heuristic(board, &t, &current) == 0 {
                    let path = reconstruct_path(Ghost(*board), Ghost(t), &came_from, &g_score, &current);
                    proof {
                        if path@.len() == 0 {
                            assert(walk_end(start, path@) == start);
                        }
                        assert(is_walk(*board, t, board.pos(t.player()), path@));
                        assert(spec_is_target(*board, t, current));
                        assert(target_walk(*board, t, path@));
                        assert(has_p);
                        assert(pv(*board, t, sp, 0) == start);
                        lemma_frontier(*board, t, g_score@, came_from@, open_before_pop, sp, 0);
                        let k = choose|k: int| 0 <= k <= sp.len() && discovered(g_score@, pv(*board, t, sp, k)) && g_score@[tile(pv(*board, t, sp, k))] == k
                            && #[trigger] open_before_pop.dom().contains(item_of(pv(*board, t, sp, k)));
                        let vk = pv(*board, t, sp, k);
                        assert(open_before_pop[item_of(current)] == ((g_score@[tile(current)] + spec_target_h(*board, t, current)) as usize, 0usize));
                        assert(open_before_pop[item_of(vk)] == ((g_score@[tile(vk)] + spec_target_h(*board, t, vk)) as usize, 0usize));
                        assert(lex_le(open_before_pop[item_of(current)], open_before_pop[item_of(vk)]));
                        assert(spec_target_h(*board, t, vk) <= sp.len() - k + slack(t));
                        assert(path@.len() <= sp.len() + slack(t));
                        assert forall|w: Seq<PiecePosition>| #[trigger] target_walk(*board, t, w) implies path@.len() <= w.len() + slack(t) by {
                            assert(sp.len() <= w.len());
                        }
                    }
                    return Some(path);
                }
                let nbs = search_neighbors(board, &t, &current);
                proof {
                    let open_before = open_set@;
                    assert forall|p: PiecePosition, q: PiecePosition|
                        #[trigger] discovered(g_score@, p) && !open_set@.dom().contains(item_of(p)) && Some(current) != Some(p)
                            && #[trigger] spec_edge(*board, t, p, q) implies discovered(g_score@, q) by {
                        assert(item_of(p) != item_of(current));
                    }
                    assert forall|p: PiecePosition| #[trigger] discovered(g_score@, p) && spec_is_target(*board, t, p) implies open_set@.dom().contains(item_of(p)) by {
                        assert(p != current);
                        assert(item_of(p) != item_of(current));
                    }
                    assert forall|it: (usize, usize)| #[trigger] open_set@.dom().contains(it) implies discovered(g_score@, PiecePosition { x: it.0, y: it.1 }) by {
                    }
                }
                let ghost pot_mid = potential(g_score@, 81);
                let ghost len_mid = open_set@.dom().len();
                let ghost g0 = g_score@;
                let ghost came0 = came_from@;
                proof {
                    assert forall|it: (usize, usize)| #[trigger] open_set@.dom().contains(it) implies open_set@[it] == (
                        (g_score@[tile(PiecePosition { x: it.0, y: it.1 })] + spec_target_h(*board, t, PiecePosition { x: it.0, y: it.1 })) as usize,
                        0usize,
                    ) by {
                        assert(open_before_pop.dom().contains(it));
                    }
                }
                relax_neighbors(board, &t, &current, &nbs, &mut g_score, &mut came_from, &mut open_set);
                proof {
                    if has_p {
                        assert forall|it: (usize, usize)| #[trigger] open_before_pop.dom().contains(it) && it != item_of(current) implies open_set@.dom().contains(it) by {
                            assert(open_before_pop.remove(item_of(current)).dom().contains(it));
                        }
                        lemma_settles_step(*board, t, sp, current, g0, came0, open_before_pop, g_score@, came_from@, open_set@);
                    }
                    lemma_counts_bounds(g_score@, 81);
                    assert(pot_mid == pot0);
                    assert(len_mid == len0 - 1);
                    assert(potential(g_score@, 81) < pot0 || (potential(g_score@, 81) == pot0 && open_set@.dom().len() < len0));
                }
            },
        }
    }
}

/// Gives each neighbour of `current` the mark `g(current) + 1` and `current` as
/// its back link where that mark is smaller than its own, and then queues it.
fn relax_neighbors(
    board: &Board,
    t: &Target,
    current: &PiecePosition,
    nbs: &Vec<PiecePosition>,
    g_score: &mut [usize; 81],
    came_from: &mut [Option<PiecePosition>; 81],
    open_set: &mut PriorityQueue,
)
    requires
        search_ready(*board, *t),
        current.on_board(),
        discovered(old(g_score)@, *current),
        !spec_is_target(*board, *t, *current),
        forall|q: PiecePosition| #[trigger] nbs@.contains(q) <==> spec_edge(*board, *t, *current, q),
        inv_scores(*board, *t, old(g_score)@, old(came_from)@),
        inv_open(*board, *t, old(g_score)@, old(open_set)@, Some(*current)),
        !old(open_set)@.dom().contains(item_of(*current)),
        keys_ok(*board, *t, old(g_score)@, old(open_set)@),
    ensures
        inv_scores(*board, *t, final(g_score)@, final(came_from)@),
        inv_open(*board, *t, final(g_score)@, final(open_set)@, None),
        keys_ok(*board, *t, final(g_score)@, final(open_set)@),
        forall|i: int| 0 <= i < 81 ==> #[trigger] final(g_score)@[i] <= old(g_score)@[i],
        forall|q: PiecePosition| #[trigger] spec_edge(*board, *t, *current, q) ==> final(g_score)@[tile(q)] <= old(g_score)@[tile(*current)] + 1,
        forall|q: PiecePosition| q.on_board() && #[trigger] final(g_score)@[tile(q)] < old(g_score)@[tile(q)] ==> final(open_set)@.dom().contains(item_of(q)),
        forall|it: (usize, usize)| #[trigger] old(open_set)@.dom().contains(it) ==> final(open_set)@.dom().contains(it),
        potential(final(g_score)@, 81) < potential(old(g_score)@, 81) || (potential(final(g_score)@, 81)
            == potential(old(g_score)@, 81) && final(open_set)@.dom().len() == old(open_set)@.dom().len()),
        final(g_score)@[tile(*current)] == old(g_score)@[tile(*current)],
{
    let ghost start = board.pos(t.player());
    let ghost pot0 = potential(g_score@, 81);
    let ghost len0 = open_set@.dom().len();
    let ci = tile_index(current);
    let ghost gc = g_score@[ci as int];
    let mut j: usize = 0;
    while j < nbs.len()
        invariant
            search_ready(*board, *t),
            current.on_board(),
            ci == tile(*current),
            discovered(g_score@, *current),
            g_score@[ci as int] == gc,
            !spec_is_target(*board, *t, *current),
            forall|q: PiecePosition| #[trigger] nbs@.contains(q) <==> spec_edge(*board, *t, *current, q),
            j <= nbs.len(),
            forall|k: int| 0 <= k < j ==> #[trigger] discovered(g_score@, nbs@[k]),
            inv_scores(*board, *t, g_score@, came_from@),
            inv_open(*board, *t, g_score@, open_set@, Some(*current)),
            potential(g_score@, 81) < pot0 || (potential(g_score@, 81) == pot0 && open_set@.dom().len() == len0),
            keys_ok(*board, *t, g_score@, open_set@),
            forall|i: int| 0 <= i < 81 ==> #[trigger] g_score@[i] <= old(g_score)@[i],
            forall|k: int| 0 <= k < j ==> g_score@[tile(#[trigger] nbs@[k])] <= gc + 1,
            forall|q: PiecePosition| q.on_board() && #[trigger] g_score@[tile(q)] < old(g_score)@[tile(q)] ==> open_set@.dom().contains(item_of(q)),
            forall|it: (usize, usize)| #[trigger] old(open_set)@.dom().contains(it) ==> open_set@.dom().contains(it),
        decreases nbs.len() - j,
    {
        let neighbor = nbs[j];
        proof {
            assert(nbs@.contains(neighbor));
            lemma_edge_on_board(*board, *t, *current, neighbor);
            lemma_tile(neighbor);
            lemma_counts_bounds(g_score@, 81);
        }
        let ni = tile_index(&neighbor);
        let tentative = g_score[ci] + 1;
        if tentative < g_score[ni] {
            let ghost g_old = g_score@;
            let ghost came_old = came_from@;
            let ghost open_old = open_set@;
            came_from[ni] = Some(*current);
            g_score[ni] = tentative;
            let f = tentative + target_heuristic(board, t, &neighbor);
            open_set.insert((f, 0), neighbor);
            proof {
                assert(open_set@.dom() =~= open_old.dom().insert(item_of(neighbor)));
                lemma_insert_len(open_old, item_of(neighbor), (f, 0usize));
                relax_step_facts(*board, *t, *current, neighbor, g_old, came_old, open_old, g_score@, came_from@, open_set@, tentative);
                assert forall|k: int| 0 <= k < j + 1 implies #[trigger] discovered(g_score@, nbs@[k]) by {
                    if k < j {
                        assert(discovered(g_old, nbs@[k]));
                        lemma_tile(nbs@[k]);
                    }
                }
                assert forall|it: (usize, usize)| #[trigger] open_set@.dom().contains(it) implies open_set@[it] == (
                    (g_score@[tile(PiecePosition { x: it.0, y: it.1 })] + spec_target_h(*board, *t, PiecePosition { x: it.0, y: it.1 })) as usize,
                    0usize,
                ) by {
                    lemma_tile(PiecePosition { x: it.0, y: it.1 });
                    if it != item_of(neighbor) {
                        assert(open_old.dom().contains(it));
                        assert(tile(PiecePosition { x: it.0, y: it.1 }) != tile(neighbor));
                    } else {
                        assert(PiecePosition { x: it.0, y: it.1 } == neighbor);
                    }
                }
                assert forall|k: int| 0 <= k < j + 1 implies g_score@[tile(#[trigger] nbs@[k])] <= gc + 1 by {
                    if k < j {
                        assert(discovered(g_old, nbs@[k]));
                        lemma_tile(nbs@[k]);
                        if tile(nbs@[k]) != tile(neighbor) {
                            assert(g_score@[tile(nbs@[k])] == g_old[tile(nbs@[k])]);
                        }
                    }
                }
                assert forall|q: PiecePosition| q.on_board() && #[trigger] g_score@[tile(q)] < old(g_score)@[tile(q)] implies open_set@.dom().contains(item_of(q)) by {
                    lemma_tile(q);
                    if q != neighbor {
                        assert(tile(q) != tile(neighbor));
                        assert(g_score@[tile(q)] == g_old[tile(q)]);
                        assert(open_old.dom().contains(item_of(q)));
                    }
                }
            }
        } else {
            proof {
                assert(discovered(g_score@, neighbor));
            }
        }
        j += 1;
    }
    proof {
        assert forall|q: PiecePosition| #[trigger] spec_edge(*board, *t, *current, q) implies g_score@[tile(q)] <= gc + 1 by {
            assert(nbs@.contains(q));
            let k = choose|k: int| 0 <= k < nbs@.len() && nbs@[k] == q;
            assert(g_score@[tile(nbs@[k])] <= gc + 1);
        }
        assert forall|q: PiecePosition| #[trigger] spec_edge(*board, *t, *current, q) implies discovered(g_score@, q) by {
            assert(nbs@.contains(q));
            let k = choose|k: int| 0 <= k < nbs@.len() && nbs@[k] == q;
            assert(discovered(g_score@, nbs@[k]));
        }
    }
}

/// One relaxation keeps the invariants of the search.
proof fn relax_step_facts(
    board: Board,
    t: Target,
    current: PiecePosition,
    neighbor: PiecePosition,
    g_old: Seq<usize>,
    came_old: Seq<Option<PiecePosition>>,
    open_old: Map<(usize, usize), (usize, usize)>,
    g_new: Seq<usize>,
    came_new: Seq<Option<PiecePosition>>,
    open_new: Map<(usize, usize), (usize, usize)>,
    tentative: usize,
)
    requires
        search_ready(board, t),
        current.on_board(),
        neighbor.on_board(),
        discovered(g_old, current),
        spec_edge(board, t, current, neighbor),
        tentative == g_old[tile(current)] + 1,
        tentative < g_old[tile(neighbor)],
        g_new == g_old.update(tile(neighbor), tentative),
        came_new == came_old.update(tile(neighbor), Some(current)),
        open_new.dom() == open_old.dom().insert(item_of(neighbor)),
        inv_scores(board, t, g_old, came_old),
        inv_open(board, t, g_old, open_old, Some(current)),
    ensures
        inv_scores(board, t, g_new, came_new),
        inv_open(board, t, g_new, open_new, Some(current)),
        potential(g_new, 81) < potential(g_old, 81),
        discovered(g_new, current),
        g_new[tile(current)] == g_old[tile(current)],
{
    let start = board.pos(t.player());
    lemma_tile(neighbor);
    lemma_tile(current);
    lemma_counts_update(g_old, 81, tile(neighbor), tentative);
    lemma_counts_bounds(g_old, 81);
    lemma_counts_bounds(g_new, 81);
    assert(neighbor != start);
    assert(neighbor != current);
    assert forall|i: int| 0 <= i < 81 && #[trigger] g_new[i] != usize::MAX implies g_new[i] < 81 - undiscovered(g_new, 81) by {
        if i != tile(neighbor) {
            assert(g_old[i] != usize::MAX);
        }
    }
    assert forall|p: PiecePosition| discovered(g_new, p) && p != start implies {
        &&& #[trigger] came_new[tile(p)] is Some
        &&& discovered(g_new, came_new[tile(p)]->0)
        &&& g_new[tile(came_new[tile(p)]->0)] < g_new[tile(p)]
        &&& spec_edge(board, t, came_new[tile(p)]->0, p)
    } by {
        lemma_tile(p);
        if p != neighbor {
            assert(tile(p) != tile(neighbor));
            assert(discovered(g_old, p));
            let q = came_old[tile(p)]->0;
            lemma_tile(q);
        }
    }
    assert forall|it: (usize, usize)| #[trigger] open_new.dom().contains(it) implies discovered(g_new, PiecePosition { x: it.0, y: it.1 }) by {
        if it != item_of(neighbor) {
            assert(open_old.dom().contains(it));
            assert(discovered(g_old, PiecePosition { x: it.0, y: it.1 }));
            lemma_tile(PiecePosition { x: it.0, y: it.1 });
        }
    }
    assert forall|p: PiecePosition, q: PiecePosition|
        #[trigger] discovered(g_new, p) && !open_new.dom().contains(item_of(p)) && Some(current) != Some(p)
            && #[trigger] spec_edge(board, t, p, q) implies discovered(g_new, q) by {
        lemma_tile(p);
        assert(p != neighbor);
        assert(discovered(g_old, p));
        assert(!open_old.dom().contains(item_of(p)));
        assert(discovered(g_old, q));
        lemma_tile(q);
    }
    assert forall|p: PiecePosition| #[trigger] discovered(g_new, p) && spec_is_target(board, t, p) implies open_new.dom().contains(item_of(p)) by {
        lemma_tile(p);
        if p != neighbor {
            assert(discovered(g_old, p));
        }
    }
}

proof fn lemma_walk_prepend(
    board: Board,
    t: Target,
    next: PiecePosition,
    cur: PiecePosition,
    path: Seq<PiecePosition>,
    end: PiecePosition,
)
    requires
        spec_edge(board, t, next, cur),
        is_walk(board, t, cur, path),
        walk_end(cur, path) == end,
    ensures
        is_walk(board, t, next, seq![cur] + path),
        walk_end(next, seq![cur] + path) == end,
{
    let new_path = seq![cur] + path;
    assert forall|k: int| 0 <= k < new_path.len() implies #[trigger] spec_edge(board, t, walk_before(next, new_path, k), new_path[k]) by {
        if k > 0 {
            assert(walk_before(next, new_path, k) == walk_before(cur, path, k - 1));
            assert(new_path[k] == path[k - 1]);
        }
    }
    if path.len() > 0 {
        assert(new_path.last() == path.last());
    }
}

proof fn lemma_insert_len(m: Map<(usize, usize), (usize, usize)>, k: (usize, usize), v: (usize, usize))
    requires
        m.dom().finite(),
    ensures
        m.insert(k, v).dom().len() <= m.dom().len() + 1,
        m.dom().contains(k) ==> m.insert(k, v).dom().len() == m.dom().len(),
{
    assert(m.insert(k, v).dom() =~= m.dom().insert(k));
}

proof fn lemma_all_undiscovered(g: Seq<usize>, n: int)
    requires
        0 <= n <= g.len(),
        forall|i: int| 0 <= i < n ==> g[i] == usize::MAX,
    ensures
        undiscovered(g, n) == n,
        potential(g, n) == 81 * n,
    decreases n,
{
    if n > 0 {
        lemma_all_undiscovered(g, n - 1);
    }
}

} // verus!
