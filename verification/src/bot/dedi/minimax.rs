use vstd::prelude::*;
use arrayvec::ArrayVec;
use std::collections::HashMap;
use std::time::{Duration, Instant};
use crate::bot::abe::alpha_beta::{game_key, hash_to_u64, lemma_playable, playable};
use crate::bot::abe::heuristic::game_ok;
use crate::bot::dedi::walls::{
    fresh_board, get_board, get_wall_moves, goal_anchored, tile_at, touches, wall_entry_ok, wall_move_at, zero_tile, Board, Tile,
};
use crate::bot::monte::monte::{generated_moves, get_legal_piece_moves, piece_moves_get, piece_moves_len, piece_moves_of, target};
use crate::clock::{clock_now, instant_plus, is_later};
use crate::data_model::{Game, MovePiece, PiecePosition, Player, PlayerMove, WallOrientation, WALL_GRID_HEIGHT, WALL_GRID_WIDTH};
use crate::game_logic::{
    can_execute, execute_move_unchecked, new_position_after_move_piece_unchecked, spec_executed,
    spec_piece_legal, spec_position_after_move, spec_room_for_wall,
};
use crate::search::goal_row;

verus! {

broadcast use {vstd::std_specs::hash::group_hash_axioms, vstd::seq_lib::group_to_multiset_ensures};

/// A score beyond every evaluation: the player to move has won.
pub const INF: isize = isize::MAX - 1;

/// What a stored score says of the true one.
#[derive(Debug, Clone, Copy, PartialEq, Eq, Structural)]
pub enum CacheFlag {
    Exact,
    /// The search was cut off above: the true score is at least this.
    Lower,
    /// The search never raised the lower bound: the true score is at most this.
    Upper,
}

/// A stored search result: how deep, the move found, its score and what the
/// score says.
#[derive(Debug, Clone, Copy)]
pub struct CacheLine {
    pub depth: usize,
    pub play: PlayerMove,
    pub h: isize,
    pub flag: CacheFlag,
}

/// Stored search results under the hash of their position.
pub struct Cache {
    pub table: HashMap<u64, CacheLine>,
}

impl Cache {
    pub fn new() -> (c: Self)
        ensures
            c.table@ == Map::<u64, CacheLine>::empty(),
    {
        Cache { table: HashMap::new() }
    }
}

impl Default for Cache {
    fn default() -> (c: Self)
        ensures
            c.table@ == Map::<u64, CacheLine>::empty(),
    {
        Cache::new()
    }
}

/// Every stored score lies within the scores of a search.
pub open spec fn cache_wf(table: Map<u64, CacheLine>) -> bool {
    forall|k: u64| #[trigger] table.contains_key(k) ==> -INF <= table[k].h <= INF
}

/// The moves a search of a position weighs, with the boards after each.
pub uninterp spec fn candidates_of(v: ArrayVec<(PlayerMove, Board, Board), 136>) -> Seq<(PlayerMove, Board, Board)>;

/// `ArrayVec::new`: an empty vector.
#[verifier::external_body]
fn candidates_new() -> (v: ArrayVec<(PlayerMove, Board, Board), 136>)
    ensures
        candidates_of(v) == Seq::<(PlayerMove, Board, Board)>::empty(),
{
    ArrayVec::new()
}

/// `ArrayVec::push`: appends `e`; the vector must not be full, since `push`
/// panics then.
#[verifier::external_body]
fn candidates_push(v: &mut ArrayVec<(PlayerMove, Board, Board), 136>, e: (PlayerMove, Board, Board))
    requires
        candidates_of(*old(v)).len() < 136,
    ensures
        candidates_of(*final(v)) == candidates_of(*old(v)).push(e),
{
    v.push(e)
}

/// `ArrayVec::len`: the number of entries.
#[verifier::external_body]
fn candidates_len(v: &ArrayVec<(PlayerMove, Board, Board), 136>) -> (n: usize)
    ensures
        n == candidates_of(*v).len(),
{
    v.len()
}

/// Indexing an `ArrayVec`: the entry at `i`, which must be below the length.
#[verifier::external_body]
fn candidates_get(v: &ArrayVec<(PlayerMove, Board, Board), 136>, i: usize) -> (e: (PlayerMove, Board, Board))
    requires
        i < candidates_of(*v).len(),
    ensures
        e == candidates_of(*v)[i as int],
{
    v[i]
}

/// The distance that a square's entry gives; a square marked unreachable
/// counts as 255.
pub open spec fn tile_distance(t: Tile) -> int {
    match t {
        Tile::Valid(_, d) => d as int,
        Tile::Invalid => 255,
    }
}

fn distance_at(b: &Board, p: &PiecePosition) -> (d: isize)
    ensures
        p.on_board() ==> d == tile_distance(tile_at(*b, p.x as int, p.y as int)),
        !p.on_board() ==> d == 255,
        0 <= d <= 255,
{
    if p.x < 9 && p.y < 9 {
        match b.tiles[p.y][p.x] {
            Tile::Valid(_, dis) => dis as isize,
            Tile::Invalid => 255,
        }
    } else {
        255
    }
}

/// The key by which the moves are tried: the move stored for the position
/// first, then by how much nearer the mover is than the opponent afterwards.
pub open spec fn spec_order_key(cached: Option<PlayerMove>, p1: PiecePosition, p2: PiecePosition, e: (PlayerMove, Board, Board)) -> int {
    if cached == Some(e.0) {
        isize::MIN as int
    } else {
        let next = match e.0 {
            PlayerMove::MovePiece(mp) => spec_position_after_move(p1, mp, p2),
            _ => p1,
        };
        let a = if next.on_board() { tile_distance(tile_at(e.1, next.x as int, next.y as int)) } else { 255 };
        a - tile_distance(tile_at(e.2, p2.x as int, p2.y as int))
    }
}

/// The key of an entry; a piece move whose square would leave the board is
/// keyed as if at distance 255.
pub fn order_key(cached: &Option<PlayerMove>, p1: &PiecePosition, p2: &PiecePosition, e: &(PlayerMove, Board, Board)) -> (k: isize)
    requires
        p1.on_board(),
        p2.on_board(),
    ensures
        k == spec_order_key(*cached, *p1, *p2, *e),
{
    let is_cached = match cached {
        Some(c) => *c == e.0,
        None => false,
    };
    if is_cached {
        return isize::MIN;
    }
    let next = match &e.0 {
        PlayerMove::MovePiece(mp) => new_position_after_move_piece_unchecked(p1, mp, p2),
        _ => *p1,
    };
    let a = distance_at(&e.1, &next);
    let b = distance_at(&e.2, p2);
    a - b
}

/// The slice sort of an `ArrayVec` by `order_key`: the same entries, ordered
/// by growing key (the sort is stable, which is not stated).
#[verifier::external_body]
fn sort_candidates(
    v: &mut ArrayVec<(PlayerMove, Board, Board), 136>,
    cached: Option<PlayerMove>,
    p1: PiecePosition,
    p2: PiecePosition,
)
    requires
        p1.on_board(),
        p2.on_board(),
    ensures
        candidates_of(*final(v)).to_multiset() == candidates_of(*old(v)).to_multiset(),
        forall|i: int, j: int|
            0 <= i <= j < candidates_of(*final(v)).len() ==> spec_order_key(cached, p1, p2, #[trigger] candidates_of(*final(v))[i])
                <= spec_order_key(cached, p1, p2, #[trigger] candidates_of(*final(v))[j]),
{
    v.sort_by_key(|e| order_key(&cached, &p1, &p2, e))
}

/// The score of one player: minus ten per step to the goal row, fifteen per
/// wall left; `INF` on the goal row.
pub open spec fn spec_player_score(game: Game, player: Player, board: Board) -> int {
    let p = game.board.pos(player);
    let d = tile_distance(tile_at(board, p.x as int, p.y as int));
    if d == 0 {
        INF as int
    } else {
        -d * 10 + game.walls_left@[player.index()] * 15
    }
}

fn _heuristic(game: &Game, player: Player, board: &Board) -> (h: isize)
    requires
        game_ok(*game),
    ensures
        h == spec_player_score(*game, player, *board),
{
    let pos = game.board.player_position(player);
    let dis = distance_at(board, pos);
    if dis == 0 {
        return INF;
    }
    let mut h: isize = 0;
    h -= dis * 10;
    h += game.walls_left[player.as_index()] as isize * 15;
    h
}

/// The evaluation of a position for the player to move: its score less the
/// opponent's.
pub open spec fn spec_heuristic(game: Game, b1: Board, b2: Board) -> int {
    spec_player_score(game, game.player, b1) - spec_player_score(game, game.player.other(), b2)
}

fn heuristic(game: &Game, b1: &Board, b2: &Board) -> (h: isize)
    requires
        game_ok(*game),
        goal_anchored(*b1, game.player),
        goal_anchored(*b2, game.player.other()),
        game.board.pos(game.player).y != goal_row(game.player),
        game.board.pos(game.player.other()).y != goal_row(game.player.other()),
    ensures
        h == spec_heuristic(*game, *b1, *b2),
        -INF <= h <= INF,
{
    let ghost p1 = game.board.pos(game.player);
    let ghost p2 = game.board.pos(game.player.other());
    proof {
        assert(!zero_tile(tile_at(*b1, p1.x as int, p1.y as int)));
        assert(!zero_tile(tile_at(*b2, p2.x as int, p2.y as int)));
    }
    _heuristic(game, game.player, b1) - _heuristic(game, game.player.opponent(), b2)
}

/// The player to move has no move to weigh: no piece move, and no wall with
/// room that touches at most one thing while walls are left (walls touching
/// more are weighed only when a new search keeps a way for both pieces).
pub open spec fn no_candidates(game: Game) -> bool {
    &&& generated_moves(game.board.walls, game.board.pos(game.player), game.board.pos(game.player.other()), 4).len() == 0
    &&& game.walls_left@[game.player.index()] > 0 ==> forall|o: WallOrientation, x: int, y: int|
        0 <= x < WALL_GRID_WIDTH && 0 <= y < WALL_GRID_HEIGHT && #[trigger] spec_room_for_wall(game.board.walls, o, x, y)
            ==> touches(game.board.walls, o, x, y) >= 2
}

/// A piece stands on its goal row.
pub open spec fn is_over(game: Game) -> bool {
    game.board.pos(game.player).y == goal_row(game.player) || game.board.pos(game.player.other()).y == goal_row(
        game.player.other(),
    )
}

/// The table holds a result for `game` searched at least `depth` deep.
pub open spec fn cache_deep_enough(table: Map<u64, CacheLine>, game: Game, depth: int) -> bool {
    table.contains_key(game_key(game)) && table[game_key(game)].depth >= depth
}

/// The boards fit the players of `game`: the first is the board of the player
/// to move.
pub open spec fn boards_fit(game: Game, b1: Board, b2: Board) -> bool {
    goal_anchored(b1, game.player) && goal_anchored(b2, game.player.other())
}

/// Negamax search with alpha-beta cut-offs in the window `alpha..beta`, from
/// the view of the player to move, consulting and filling the table. A
/// position where a piece stands on its goal row scores `INF` for that player;
/// at depth zero the evaluation is returned. Otherwise the moves are the piece
/// moves and the walls of `get_wall_moves`, tried in the order of `order_key`;
/// when there is none, the position scores `-INF`. `None` means the deadline
/// passed.
#[verifier::rlimit(60)]
fn _minimax(
    game: &Game,
    depth: usize,
    alpha: isize,
    beta: isize,
    deadline: &Option<Instant>,
    board_p1: Board,
    board_p2: Board,
    cache: &mut Cache,
) -> (r: Option<(Option<PlayerMove>, isize)>)
    requires
        game_ok(*game),
        boards_fit(*game, board_p1, board_p2),
        cache_wf(old(cache).table@),
        -INF <= alpha <= INF,
        -INF <= beta <= INF,
    ensures
        cache_wf(final(cache).table@),
        old(cache).table@.dom().subset_of(final(cache).table@.dom()),
        r is None ==> deadline is Some,
        r matches Some((_, h)) ==> -INF <= h <= INF,
        r matches Some((None, _)) ==> is_over(*game) || depth == 0 || no_candidates(*game),
        r matches Some((mv, h)) ==> {
            let p1 = game.player;
            let p2 = game.player.other();
            if game.board.pos(p1).y == goal_row(p1) {
                mv is None && h == INF
            } else if game.board.pos(p2).y == goal_row(p2) {
                mv is None && h == -INF
            } else if cache_deep_enough(old(cache).table@, *game, depth as int) {
                true
            } else if depth == 0 {
                mv is None && h == spec_heuristic(*game, board_p1, board_p2)
            } else {
                &&& mv matches Some(m) ==> playable(*game, m)
                &&& mv is None ==> h == -INF && no_candidates(*game)
            }
        },
    decreases depth,
{
    let timed_out = match deadline {
        Some(d) => is_later(&clock_now(), d),
        None => false,
    };
    if timed_out {
        return None;
    }
    let p1 = game.player;
    let p2 = game.player.opponent();
    let pos_p1 = *game.board.player_position(p1);
    let pos_p2 = *game.board.player_position(p2);
    if pos_p1.y == target(p1) {
        return Some((None, INF));
    }
    if pos_p2.y == target(p2) {
        return Some((None, -INF));
    }
    let mut alpha = alpha;
    let hash = hash_to_u64(game);
    let cached_line = match cache.table.get(&hash) {
        Some(line) => Some(*line),
        None => None,
    };
    match cached_line {
        Some(line) => {
            if line.depth >= depth {
                match line.flag {
                    CacheFlag::Exact => {
                        return Some((Some(line.play), line.h));
                    },
                    CacheFlag::Lower => {
                        if line.h > alpha {
                            alpha = line.h;
                        }
                    },
                    CacheFlag::Upper => {
                        let b = if line.h < beta { line.h } else { beta };
                        if alpha >= b {
                            return Some((Some(line.play), line.h));
                        }
                    },
                }
                if alpha >= beta {
                    return Some((Some(line.play), line.h));
                }
            }
        },
        None => {},
    }
    if depth == 0 {
        let h = heuristic(game, &board_p1, &board_p2);
        return Some((None, h));
    }
    let piece_moves = get_legal_piece_moves(game, p1);
    let wall_moves = get_wall_moves(game, &board_p1, &board_p2);
    let mut moves = candidates_new();
    let n_pieces = piece_moves_len(&piece_moves);
    let mut i: usize = 0;
    while i < n_pieces
        invariant
            i <= n_pieces,
            n_pieces == piece_moves_of(piece_moves).len(),
            n_pieces <= 5,
            candidates_of(moves).len() == i,
            forall|k: int| 0 <= k < i ==> #[trigger] candidates_of(moves)[k] == (
                PlayerMove::MovePiece(piece_moves_of(piece_moves)[k]),
                board_p1,
                board_p2,
            ),
        decreases n_pieces - i,
    {
        let mp = piece_moves_get(&piece_moves, i);
        candidates_push(&mut moves, (PlayerMove::MovePiece(mp), board_p1, board_p2));
        i += 1;
    }
    let mut j: usize = 0;
    while j < wall_moves.len()
        invariant
            j <= wall_moves@.len(),
            wall_moves@.len() <= 128,
            n_pieces <= 5,
            candidates_of(moves).len() == n_pieces + j,
            forall|k: int| 0 <= k < n_pieces ==> #[trigger] candidates_of(moves)[k] == (
                PlayerMove::MovePiece(piece_moves_of(piece_moves)[k]),
                board_p1,
                board_p2,
            ),
            forall|k: int| n_pieces <= k < n_pieces + j ==> #[trigger] candidates_of(moves)[k] == wall_moves@[k - n_pieces],
        decreases wall_moves@.len() - j,
    {
        candidates_push(&mut moves, wall_moves[j]);
        j += 1;
    }
    proof {
        assert forall|k: int| 0 <= k < candidates_of(moves).len() implies entry_fits(*game, board_p1, board_p2, #[trigger] candidates_of(moves)[k]) by {
            if k < n_pieces {
                let mp = piece_moves_of(piece_moves)[k];
                lemma_playable(*game, PlayerMove::MovePiece(mp));
            } else {
                let e = wall_moves@[k - n_pieces];
                assert(wall_entry_ok(*game, board_p1, board_p2, e));
                lemma_playable(*game, e.0);
            }
        }
    }
    let ghost unsorted = candidates_of(moves);
    let cached_best = match cache.table.get(&hash) {
        Some(line) => Some(line.play),
        None => None,
    };
    sort_candidates(&mut moves, cached_best, pos_p1, pos_p2);
    proof {
        assert forall|k: int| 0 <= k < candidates_of(moves).len() implies entry_fits(*game, board_p1, board_p2, #[trigger] candidates_of(moves)[k]) by {
            let e = candidates_of(moves)[k];
            assert(candidates_of(moves).to_multiset().count(e) > 0);
            assert(unsorted.contains(e));
        }
    }
    let n = candidates_len(&moves);
    if n == 0 {
        proof {
            assert(unsorted.len() == 0) by {
                assert(candidates_of(moves).to_multiset().len() == unsorted.to_multiset().len());
            }
            assert(wall_moves@.len() == 0);
            if game.walls_left@[game.player.index()] > 0 {
                assert forall|o: WallOrientation, x: int, y: int|
                    0 <= x < WALL_GRID_WIDTH && 0 <= y < WALL_GRID_HEIGHT && #[trigger] spec_room_for_wall(game.board.walls, o, x, y)
                        implies touches(game.board.walls, o, x, y) >= 2 by {
                    if touches(game.board.walls, o, x, y) < 2 {
                        assert(exists|k: int| 0 <= k < wall_moves@.len() && #[trigger] wall_moves@[k] == (wall_move_at(o, x, y), board_p1, board_p2));
                    }
                }
            }
        }
        return Some((None, -INF));
    }
    let alpha_at_entry = alpha;
    let mut best_score = -INF;
    let mut best_move = candidates_get(&moves, 0).0;
    let ghost old_table = cache.table@;
    let mut k: usize = 0;
    while k < n
        invariant
            k <= n,
            n == candidates_of(moves).len(),
            game_ok(*game),
            forall|i: int| 0 <= i < n ==> entry_fits(*game, board_p1, board_p2, #[trigger] candidates_of(moves)[i]),
            playable(*game, best_move),
            -INF <= alpha <= INF,
            -INF <= beta <= INF,
            -INF <= best_score <= INF,
            cache_wf(cache.table@),
            old_table == old(cache).table@,
            old_table.dom().subset_of(cache.table@.dom()),
            depth > 0,
        decreases n - k,
    {
        let (mv, b1, b2) = candidates_get(&moves, k);
        assert(entry_fits(*game, board_p1, board_p2, candidates_of(moves)[k as int]));
        let game_next = execute_move_unchecked(game, &mv);
        proof {
            assert(game_ok(game_next));
            assert(boards_fit(game_next, b2, b1));
        }
        let neg_beta = -beta;
        let neg_alpha = -alpha;
        match _minimax(&game_next, depth - 1, neg_beta, neg_alpha, deadline, b2, b1, cache) {
            Some((_, h_child)) => {
                let h = -h_child;
                if h > best_score {
                    best_score = h;
                    best_move = mv;
                }
                if best_score > alpha {
                    alpha = best_score;
                }
                if alpha >= beta {
                    break;
                }
            },
            None => {
                return None;
            },
        }
        k += 1;
    }
    let flag = if best_score <= alpha_at_entry {
        CacheFlag::Upper
    } else if best_score >= beta {
        CacheFlag::Lower
    } else {
        CacheFlag::Exact
    };
    cache.table.insert(hash, CacheLine { depth, play: best_move, h: best_score, flag });
    Some((Some(best_move), best_score))
}

/// An entry of the move list of `game`: a playable move, and the boards of the
/// two players after it.
pub open spec fn entry_fits(game: Game, b1: Board, b2: Board, e: (PlayerMove, Board, Board)) -> bool {
    &&& playable(game, e.0)
    &&& goal_anchored(e.1, game.player)
    &&& goal_anchored(e.2, game.player.other())
}

/// Searches `game` to `depth` plies in the full window, from fresh boards.
pub fn minimax(game: &Game, depth: usize, deadline: Option<Instant>, cache: &mut Cache) -> (r: Option<
    (Option<PlayerMove>, isize),
>)
    requires
        game_ok(*game),
        cache_wf(old(cache).table@),
    ensures
        cache_wf(final(cache).table@),
        old(cache).table@.dom().subset_of(final(cache).table@.dom()),
        r is None ==> deadline is Some,
        r matches Some((_, h)) ==> -INF <= h <= INF,
        r matches Some((None, _)) ==> is_over(*game) || depth == 0 || no_candidates(*game),
        r matches Some((mv, h)) ==> {
            let p1 = game.player;
            let p2 = game.player.other();
            if game.board.pos(p1).y == goal_row(p1) {
                mv is None && h == INF
            } else if game.board.pos(p2).y == goal_row(p2) {
                mv is None && h == -INF
            } else if cache_deep_enough(old(cache).table@, *game, depth as int) {
                true
            } else if depth == 0 {
                mv is None && exists|b1: Board, b2: Board|
                    fresh_board(b1, game.board.walls, p1) && fresh_board(b2, game.board.walls, p2)
                        && #[trigger] spec_heuristic(*game, b1, b2) == h
            } else {
                &&& mv matches Some(m) ==> playable(*game, m)
                &&& mv is None ==> h == -INF && no_candidates(*game)
            }
        },
{
    let board_p1 = get_board(game, game.player);
    let board_p2 = get_board(game, game.player.opponent());
    let r = _minimax(game, depth, -INF, INF, &deadline, board_p1, board_p2, cache);
    proof {
        assert(fresh_board(board_p1, game.board.walls, game.player));
        assert(fresh_board(board_p2, game.board.walls, game.player.other()));
    }
    r
}

/// `m` is what a search of `game` to `depth` plies may give as its move: a
/// playable move, unless the table `t` already knew the game that deep.
pub open spec fn search_move(t: Map<u64, CacheLine>, game: Game, depth: int, m: PlayerMove) -> bool {
    cache_deep_enough(t, game, depth) || playable(game, m)
}

/// `m` is the move of a search of `game` to two to twelve plies, begun with a
/// table that holds the keys of `before` and whose keys `after` holds.
pub open spec fn deepened_move(before: Map<u64, CacheLine>, after: Map<u64, CacheLine>, game: Game, m: PlayerMove) -> bool {
    exists|d: int, t: Map<u64, CacheLine>|
        2 <= d <= 12 && before.dom().subset_of(t.dom()) && t.dom().subset_of(after.dom())
            && #[trigger] search_move(t, game, d, m)
}

/// Searches deeper and deeper from two plies, until the deadline after
/// `duration` passes, a search finds no move, a win or loss is certain, or
/// twelve plies were searched; returns the move of the last search that
/// finished. When the clock cannot hold the deadline, the search runs to twelve
/// plies.
pub fn minimax_iterative(game: &Game, duration: Duration, cache: &mut Cache) -> (r: Option<PlayerMove>)
    requires
        game_ok(*game),
        cache_wf(old(cache).table@),
    ensures
        cache_wf(final(cache).table@),
        old(cache).table@.dom().subset_of(final(cache).table@.dom()),
        r matches Some(m) ==> deepened_move(old(cache).table@, final(cache).table@, *game, m),
{
    let deadline = instant_plus(&clock_now(), duration);
    minimax_until(game, deadline, cache)
}

/// Searches deeper and deeper from two plies, until `deadline` passes, a
/// search finds no move, a win or loss is certain, or twelve plies were
/// searched; returns the move of the last search that finished. Without a
/// deadline no search is cut short, so a game not over in which the player to
/// move has a move to weigh gets one.
pub fn minimax_until(game: &Game, deadline: Option<Instant>, cache: &mut Cache) -> (r: Option<PlayerMove>)
    requires
        game_ok(*game),
        cache_wf(old(cache).table@),
    ensures
        cache_wf(final(cache).table@),
        old(cache).table@.dom().subset_of(final(cache).table@.dom()),
        r matches Some(m) ==> deepened_move(old(cache).table@, final(cache).table@, *game, m),
        deadline is None && !is_over(*game) && !no_candidates(*game) ==> r is Some,
{
    let mut depth: usize = 2;
    let mut best_move: Option<PlayerMove> = None;
    while depth <= 12
        invariant
            game_ok(*game),
            cache_wf(cache.table@),
            old(cache).table@.dom().subset_of(cache.table@.dom()),
            2 <= depth <= 13,
            best_move matches Some(m) ==> deepened_move(old(cache).table@, cache.table@, *game, m),
            deadline is None && !is_over(*game) && !no_candidates(*game) && depth > 2 ==> best_move is Some,
        ensures
            deadline is None && !is_over(*game) && !no_candidates(*game) ==> best_move is Some,
        decreases 13 - depth,
    {
        let ghost t0 = cache.table@;
        let ghost b0 = best_move;
        match minimax(game, depth, deadline, cache) {
            Some((mv, h)) => {
                if mv.is_none() {
                    proof {
                        lemma_deepened_move_grows(old(cache).table@, t0, cache.table@, *game, b0);
                    }
                    break;
                }
                proof {
                    let m = mv->0;
                    assert(search_move(t0, *game, depth as int, m));
                }
                best_move = mv;
                depth += 1;
                if h >= INF || h <= -INF {
                    break;
                }
            },
            None => {
                proof {
                    lemma_deepened_move_grows(old(cache).table@, t0, cache.table@, *game, b0);
                }
                break;
            },
        }
    }
    best_move
}

/// The move of a search begun with a table stays such as the table grows.
proof fn lemma_deepened_move_grows(
    before: Map<u64, CacheLine>,
    mid: Map<u64, CacheLine>,
    after: Map<u64, CacheLine>,
    game: Game,
    m: Option<PlayerMove>,
)
    requires
        m matches Some(mv) ==> deepened_move(before, mid, game, mv),
        mid.dom().subset_of(after.dom()),
    ensures
        m matches Some(mv) ==> deepened_move(before, after, game, mv),
{
    if let Some(mv) = m {
        let (d, t) = choose|d: int, t: Map<u64, CacheLine>|
            2 <= d <= 12 && before.dom().subset_of(t.dom()) && t.dom().subset_of(mid.dom())
                && #[trigger] search_move(t, game, d, mv);
        assert(search_move(t, game, d, mv));
    }
}


/// The leaf score of a player not on its goal row rises by 15 with each wall
/// the player has left, and falls by 10 with each step more it has to go.
pub proof fn lemma_player_score_terms(g1: Game, g2: Game, player: Player, b1: Board, b2: Board)
    requires
        g1.board == g2.board,
        tile_distance(tile_at(b1, g1.board.pos(player).x as int, g1.board.pos(player).y as int)) != 0,
        tile_distance(tile_at(b2, g1.board.pos(player).x as int, g1.board.pos(player).y as int)) != 0,
    ensures
        spec_player_score(g2, player, b2) - spec_player_score(g1, player, b1) == 15 * (g2.walls_left@[player.index()]
            - g1.walls_left@[player.index()]) - 10 * (tile_distance(
            tile_at(b2, g1.board.pos(player).x as int, g1.board.pos(player).y as int),
        ) - tile_distance(tile_at(b1, g1.board.pos(player).x as int, g1.board.pos(player).y as int))),
{
}

/// The evaluation of a position for the player to move, neither piece on its
/// goal row, rises by 15 for each wall the player to move has more left and
/// falls by 15 for each wall the opponent has more left.
pub proof fn lemma_heuristic_walls(g1: Game, g2: Game, b1: Board, b2: Board)
    requires
        g1.board == g2.board,
        g1.player == g2.player,
        tile_distance(tile_at(b1, g1.board.pos(g1.player).x as int, g1.board.pos(g1.player).y as int)) != 0,
        tile_distance(tile_at(b2, g1.board.pos(g1.player.other()).x as int, g1.board.pos(g1.player.other()).y as int)) != 0,
    ensures
        spec_heuristic(g2, b1, b2) - spec_heuristic(g1, b1, b2) == 15 * (g2.walls_left@[g1.player.index()]
            - g1.walls_left@[g1.player.index()]) - 15 * (g2.walls_left@[g1.player.other().index()]
            - g1.walls_left@[g1.player.other().index()]),
{
    lemma_player_score_terms(g1, g2, g1.player, b1, b1);
    lemma_player_score_terms(g1, g2, g1.player.other(), b2, b2);
}


/// A player standing on its goal row scores `INF`.
pub proof fn lemma_player_score_arrived(game: Game, player: Player, b: Board)
    requires
        tile_distance(tile_at(b, game.board.pos(player).x as int, game.board.pos(player).y as int)) == 0,
    ensures
        spec_player_score(game, player, b) == INF as int,
{
}

/// Between two positions with the pieces where they are, neither on its goal
/// row, the evaluation for the player to move changes by 15 per wall and minus
/// 10 per step of its own, and by minus 15 per wall and 10 per step of the
/// opponent's.
pub proof fn lemma_heuristic_terms(g1: Game, g2: Game, b1: Board, b2: Board, c1: Board, c2: Board)
    requires
        g1.board == g2.board,
        g1.player == g2.player,
        tile_distance(tile_at(b1, g1.board.pos(g1.player).x as int, g1.board.pos(g1.player).y as int)) != 0,
        tile_distance(tile_at(c1, g1.board.pos(g1.player).x as int, g1.board.pos(g1.player).y as int)) != 0,
        tile_distance(tile_at(b2, g1.board.pos(g1.player.other()).x as int, g1.board.pos(g1.player.other()).y as int)) != 0,
        tile_distance(tile_at(c2, g1.board.pos(g1.player.other()).x as int, g1.board.pos(g1.player.other()).y as int)) != 0,
    ensures
        ({
            let p = g1.board.pos(g1.player);
            let q = g1.board.pos(g1.player.other());
            spec_heuristic(g2, c1, c2) - spec_heuristic(g1, b1, b2) == 15 * (g2.walls_left@[g1.player.index()]
                - g1.walls_left@[g1.player.index()]) - 10 * (tile_distance(tile_at(c1, p.x as int, p.y as int))
                - tile_distance(tile_at(b1, p.x as int, p.y as int))) - 15 * (g2.walls_left@[g1.player.other().index()]
                - g1.walls_left@[g1.player.other().index()]) + 10 * (tile_distance(tile_at(c2, q.x as int, q.y as int))
                - tile_distance(tile_at(b2, q.x as int, q.y as int)))
        }),
{
    lemma_player_score_terms(g1, g2, g1.player, b1, c1);
    lemma_player_score_terms(g1, g2, g1.player.other(), b2, c2);
}

} // verus!
