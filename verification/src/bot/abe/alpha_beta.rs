use vstd::prelude::*;
use std::collections::hash_map::DefaultHasher;
use std::collections::HashMap;
use std::hash::Hasher;
use std::time::Duration;
use crate::clock::{clock_now, elapsed_since, longer_than, seconds};
use vstd::std_specs::hash::DefaultHasherAdditionalSpecFns;
use crate::bot::abe::heuristic::{black_distance, game_ok, spec_eval, white_distance, Heuristic};
use crate::bot::abe::move_ordering::{
    lemma_ordered_moves_playable, moves_ordered_by_heuristic_quality, spec_ordered_moves, wall_on_grid,
};
use crate::data_model::{
    Direction, Game, PiecePosition, Player, PlayerMove, WallOrientation, PIECE_GRID_HEIGHT,
    WALL_GRID_HEIGHT, WALL_GRID_WIDTH,
};
use crate::game_logic::{
    can_execute, execute_move_unchecked, is_move_piece_legal_with_player_at_position,
    spec_direction_legal, spec_executed, spec_piece_legal, spec_position_after_direction,
};
use crate::l_p_a_star::Pathfinding;

verus! {

broadcast use vstd::std_specs::hash::group_hash_axioms;

/// The score of a position that white has lost.
pub const WHITE_LOSES_BLACK_WINS: isize = isize::MIN + 1;

/// The score of a position that white has won.
pub const WHITE_WINS_BLACK_LOSES: isize = isize::MAX;

/// The value of a searched position and the line of play behind it, stored
/// last move first: the move to play now is the last element.
pub struct BoardEvaluation {
    pub score: isize,
    pub best_moves: Vec<PlayerMove>,
}

fn copy_moves(moves: &Vec<PlayerMove>) -> (r: Vec<PlayerMove>)
    ensures
        r@ == moves@,
{
    let mut r: Vec<PlayerMove> = Vec::new();
    let mut i: usize = 0;
    while i < moves.len()
        invariant
            i <= moves.len(),
            r@ == moves@.subrange(0, i as int),
        decreases moves.len() - i,
    {
        r.push(moves[i]);
        i += 1;
        assert(r@ =~= moves@.subrange(0, i as int));
    }
    assert(r@ =~= moves@);
    r
}

impl Clone for BoardEvaluation {
    fn clone(&self) -> (r: Self)
        ensures
            same_eval(r, *self),
    {
        BoardEvaluation { score: self.score, best_moves: copy_moves(&self.best_moves) }
    }
}

impl Default for BoardEvaluation {
    fn default() -> (r: Self)
        ensures
            r.score == 0,
            r.best_moves@ == Seq::<PlayerMove>::empty(),
    {
        BoardEvaluation { score: 0, best_moves: Vec::new() }
    }
}

/// Two evaluations with the same score and the same line.
pub open spec fn same_eval(a: BoardEvaluation, b: BoardEvaluation) -> bool {
    a.score == b.score && a.best_moves@ == b.best_moves@
}

/// The evaluations found so far, under the hash of the game they belong to.
pub struct Cache {
    pub transposition_table: HashMap<u64, BoardEvaluation>,
}

impl Cache {
    pub fn new() -> (c: Self)
        ensures
            c.transposition_table@ == Map::<u64, BoardEvaluation>::empty(),
    {
        Cache { transposition_table: HashMap::new() }
    }

    pub fn clear(&mut self)
        ensures
            final(self).transposition_table@ == Map::<u64, BoardEvaluation>::empty(),
    {
        self.transposition_table.clear();
    }
}

impl Default for Cache {
    fn default() -> (c: Self)
        ensures
            c.transposition_table@ == Map::<u64, BoardEvaluation>::empty(),
    {
        Cache::new()
    }
}

/// The byte that stands for a wall slot.
pub open spec fn slot_code(s: Option<WallOrientation>) -> u8 {
    match s {
        None => 0,
        Some(WallOrientation::Horizontal) => 1,
        Some(WallOrientation::Vertical) => 2,
    }
}

/// Byte `i` of the encoding of `game`: the player to move, the two pieces, the
/// walls left, then the wall slots column by column.
pub open spec fn game_byte(game: Game, i: int) -> u8 {
    if i == 0 {
        game.player.index() as u8
    } else if i == 1 {
        game.board.pos(Player::White).x as u8
    } else if i == 2 {
        game.board.pos(Player::White).y as u8
    } else if i == 3 {
        game.board.pos(Player::Black).x as u8
    } else if i == 4 {
        game.board.pos(Player::Black).y as u8
    } else if i == 5 {
        game.walls_left@[0] as u8
    } else if i == 6 {
        game.walls_left@[1] as u8
    } else {
        slot_code(game.board.walls.slot((i - 7) / 8, (i - 7) % 8))
    }
}

pub open spec fn game_bytes(game: Game) -> Seq<u8> {
    Seq::new(71, |i: int| game_byte(game, i))
}

/// The key of `game` in the table: the default hasher's digest of its encoding.
pub open spec fn game_key(game: Game) -> u64 {
    DefaultHasher::spec_finish(seq![game_bytes(game)])
}

fn slot_byte(s: Option<WallOrientation>) -> (b: u8)
    ensures
        b == slot_code(s),
{
    match s {
        None => 0,
        Some(WallOrientation::Horizontal) => 1,
        Some(WallOrientation::Vertical) => 2,
    }
}

proof fn lemma_slot_index(x: int, y: int)
    requires
        0 <= x < 8,
        0 <= y < 8,
    ensures
        (8 * x + y) / 8 == x,
        (8 * x + y) % 8 == y,
{
    assert((8 * x + y) / 8 == x) by (nonlinear_arith)
        requires
            0 <= x < 8,
            0 <= y < 8,
    ;
    assert((8 * x + y) % 8 == y) by (nonlinear_arith)
        requires
            0 <= x < 8,
            0 <= y < 8,
    ;
}

pub(crate) fn hash_to_u64(game: &Game) -> (h: u64)
    ensures
        h == game_key(*game),
{
    let mut bytes: Vec<u8> = Vec::new();
    bytes.push(game.player.as_index() as u8);
    let white = game.board.player_position(Player::White);
    let black = game.board.player_position(Player::Black);
    bytes.push(white.x as u8);
    bytes.push(white.y as u8);
    bytes.push(black.x as u8);
    bytes.push(black.y as u8);
    bytes.push(game.walls_left[0] as u8);
    bytes.push(game.walls_left[1] as u8);
    let mut x: usize = 0;
    while x < WALL_GRID_WIDTH
        invariant
            x <= WALL_GRID_WIDTH,
            bytes@.len() == 7 + 8 * x,
            forall|j: int| 0 <= j < bytes@.len() ==> bytes@[j] == game_byte(*game, j),
        decreases WALL_GRID_WIDTH - x,
    {
        let mut y: usize = 0;
        while y < WALL_GRID_HEIGHT
            invariant
                x < WALL_GRID_WIDTH,
                y <= WALL_GRID_HEIGHT,
                bytes@.len() == 7 + 8 * x + y,
                forall|j: int| 0 <= j < bytes@.len() ==> bytes@[j] == game_byte(*game, j),
            decreases WALL_GRID_HEIGHT - y,
        {
            proof {
                lemma_slot_index(x as int, y as int);
            }
            bytes.push(slot_byte(game.board.walls.get(x, y)));
            y += 1;
        }
        x += 1;
    }
    assert(bytes@ =~= game_bytes(*game));
    let mut hasher = DefaultHasher::new();
    hasher.write(bytes.as_slice());
    assert(hasher@ =~= seq![game_bytes(*game)]);
    hasher.finish()
}

/// What a search returns: an evaluation, or nothing when it was told to stop.
pub enum AlphaBetaResult {
    Moves(BoardEvaluation),
    Stopped,
}

/// A piece has reached its goal row.
pub open spec fn is_terminal(game: Game) -> bool {
    game.board.pos(Player::White).y == PIECE_GRID_HEIGHT - 1 || game.board.pos(Player::Black).y == 0
}

/// The table holds an evaluation of `game` whose line is at least `depth` long.
pub open spec fn cache_answers(table: Map<u64, BoardEvaluation>, game: Game, depth: int) -> bool {
    table.contains_key(game_key(game)) && table[game_key(game)].best_moves@.len() >= depth
}

/// The score of a position where the player to move has no move to search.
pub open spec fn worst_for(player: Player) -> isize {
    match player {
        Player::White => WHITE_LOSES_BLACK_WINS,
        Player::Black => WHITE_WINS_BLACK_LOSES,
    }
}

/// `m` can be played in `game` and leaves a game the evaluations accept.
pub open spec fn playable(game: Game, m: PlayerMove) -> bool {
    &&& can_execute(game, m)
    &&& forall|next: Game| #[trigger] spec_executed(game, m, next) ==> game_ok(next)
}

proof fn lemma_step_on_board(walls: crate::data_model::Walls, p: PiecePosition, d: Direction)
    requires
        p.on_board(),
        spec_direction_legal(walls, p, d),
    ensures
        spec_position_after_direction(p, d).on_board(),
{
}

/// A legal piece move, or a wall on the grid while walls are left, is playable.
pub proof fn lemma_playable(game: Game, m: PlayerMove)
    requires
        game_ok(game),
        m matches PlayerMove::MovePiece(mp) && spec_piece_legal(game.board, game.player, game.board.pos(game.player), mp)
            || wall_on_grid(m) && game.walls_left@[game.player.index()] > 0,
    ensures
        playable(game, m),
{
    match m {
        PlayerMove::MovePiece(mp) => {
            let p = game.board.pos(game.player);
            lemma_step_on_board(game.board.walls, p, mp.direction);
            let next = spec_position_after_direction(p, mp.direction);
            if next == game.board.pos(game.player.other()) {
                lemma_step_on_board(game.board.walls, next, mp.direction_on_collision);
            }
        },
        PlayerMove::PlaceWall { .. } => {},
    }
}

/// `line` (last move first) is a line of play from `game` of at most `depth`
/// moves that passes no position where a piece has arrived, and `score` is what
/// the search gives the position at its end: the evaluation by `heuristic`,
/// under the distances that some well-formed searches hold, where the depth is
/// used up or a piece has arrived; else the worst score for the player to move
/// there, for whom no move was left to search.
pub open spec fn line_scored(game: Game, depth: int, heuristic: Heuristic, line: Seq<PlayerMove>, score: int) -> bool
    decreases line.len(),
{
    if line.len() == 0 {
        if depth == 0 || is_terminal(game) {
            exists|pf: Pathfinding|
                pf.wf() && score == spec_eval(heuristic, game, #[trigger] black_distance(game, pf), white_distance(game, pf))
        } else {
            score == worst_for(game.player)
        }
    } else {
        &&& depth > 0
        &&& !is_terminal(game)
        &&& playable(game, line.last())
        &&& exists|next: Game|
            #[trigger] spec_executed(game, line.last(), next) && line_scored(next, depth - 1, heuristic, line.drop_last(), score)
    }
}

/// A scored line is no longer than the depth it was searched to.
pub proof fn lemma_line_scored_len(game: Game, depth: int, heuristic: Heuristic, line: Seq<PlayerMove>, score: int)
    requires
        0 <= depth,
        line_scored(game, depth, heuristic, line, score),
    ensures
        line.len() <= depth,
    decreases line.len(),
{
    if line.len() > 0 {
        let next = choose|next: Game|
            #[trigger] spec_executed(game, line.last(), next) && line_scored(next, depth - 1, heuristic, line.drop_last(), score);
        lemma_line_scored_len(next, depth - 1, heuristic, line.drop_last(), score);
    }
}

/// The game that a piece move `m` leads to from `game`.
pub open spec fn child_of(game: Game, m: PlayerMove) -> Game {
    choose|next: Game| spec_executed(game, m, next)
}

/// A piece has no way left to its goal row by the estimates of `pf`.
pub open spec fn blocked_in(game: Game, pf: Pathfinding) -> bool {
    white_distance(game, pf) == u16::MAX as int || black_distance(game, pf) == u16::MAX as int
}

/// The better of two scores for `player`: the greater for white, the lesser
/// for black.
pub open spec fn better(player: Player, a: int, b: int) -> int {
    match player {
        Player::White => if a < b { b } else { a },
        Player::Black => if b < a { b } else { a },
    }
}

/// The minimax value of `game` searched `depth` plies under the distances that
/// the searches `pf` hold: at depth zero, or where a piece has arrived, the
/// evaluation by `heuristic`; else the best, for the player to move, of the
/// values of the positions its moves lead to, a position where a piece is cut
/// off from its goal row left out (the worst score where every one is).
pub open spec fn ab_value(game: Game, depth: int, heuristic: Heuristic, pf: Pathfinding) -> int
    decreases depth, 1int, 0int,
{
    if depth <= 0 || is_terminal(game) {
        spec_eval(heuristic, game, black_distance(game, pf), white_distance(game, pf))
    } else {
        children_value(game, depth, heuristic, pf, spec_ordered_moves(game).len() as int)
    }
}

/// The best value for the player to move among the first `n` moves that the
/// ordering offers in `game`.
pub open spec fn children_value(game: Game, depth: int, heuristic: Heuristic, pf: Pathfinding, n: int) -> int
    decreases depth, 0int, n,
{
    if depth <= 0 || n <= 0 {
        worst_for(game.player) as int
    } else {
        let prev = children_value(game, depth, heuristic, pf, n - 1);
        let child = child_of(game, spec_ordered_moves(game)[n - 1]);
        if blocked_in(child, pf) {
            prev
        } else {
            better(game.player, prev, ab_value(child, depth - 1, heuristic, pf))
        }
    }
}

/// The score `score` of a search in the window `alpha..beta` stands to the true
/// value `v` as an alpha-beta search fails soft: exact inside the window, an
/// upper bound of the value at or below `alpha`, a lower bound at or above
/// `beta`.
pub open spec fn fail_soft(score: int, alpha: int, beta: int, v: int) -> bool {
    &&& alpha < score < beta ==> score == v
    &&& score <= alpha ==> v <= score
    &&& score >= beta ==> v >= score
}

/// Within `depth` plies only pieces move: no player to move in that time has a
/// wall left.
pub open spec fn no_walls_within(game: Game, depth: int) -> bool {
    depth <= 0 || (game.walls_left@[game.player.index()] == 0 && (depth == 1
        || game.walls_left@[game.player.other().index()] == 0))
}

/// The conditions under which the search's score is its minimax value: an empty
/// table that the search does not fill, no line to try first, searches with
/// nothing queued (so no distance changes while the pieces move), no wall
/// played within the depth, and a window that is not empty.
pub open spec fn plain_search(
    table: Map<u64, BoardEvaluation>,
    depth: int,
    min_depth_for_caching: int,
    search_first: Seq<PlayerMove>,
    pf: Pathfinding,
    game: Game,
    alpha: int,
    beta: int,
) -> bool {
    &&& table == Map::<u64, BoardEvaluation>::empty()
    &&& depth < min_depth_for_caching
    &&& search_first.len() == 0
    &&& pf.frozen()
    &&& no_walls_within(game, depth)
    &&& alpha < beta
}

/// The two searches hold the same estimates.
pub open spec fn same_estimates(a: Pathfinding, b: Pathfinding) -> bool {
    &&& forall|x: int, y: int| #[trigger] a.white.est(x, y) == b.white.est(x, y)
    &&& forall|x: int, y: int| #[trigger] a.black.est(x, y) == b.black.est(x, y)
}

/// The value depends on the searches only through their estimates.
proof fn lemma_value_estimates(game: Game, depth: int, heuristic: Heuristic, a: Pathfinding, b: Pathfinding)
    requires
        same_estimates(a, b),
    ensures
        ab_value(game, depth, heuristic, a) == ab_value(game, depth, heuristic, b),
    decreases depth, 1int, 0int,
{
    assert(black_distance(game, a) == black_distance(game, b));
    assert(white_distance(game, a) == white_distance(game, b));
    if !(depth <= 0 || is_terminal(game)) {
        lemma_children_estimates(game, depth, heuristic, a, b, spec_ordered_moves(game).len() as int);
    }
}

proof fn lemma_children_estimates(game: Game, depth: int, heuristic: Heuristic, a: Pathfinding, b: Pathfinding, n: int)
    requires
        same_estimates(a, b),
    ensures
        children_value(game, depth, heuristic, a, n) == children_value(game, depth, heuristic, b, n),
    decreases depth, 0int, n,
{
    if !(depth <= 0 || n <= 0) {
        lemma_children_estimates(game, depth, heuristic, a, b, n - 1);
        let child = child_of(game, spec_ordered_moves(game)[n - 1]);
        assert(black_distance(child, a) == black_distance(child, b));
        assert(white_distance(child, a) == white_distance(child, b));
        lemma_value_estimates(child, depth - 1, heuristic, a, b);
    }
}

/// Taking more moves into account can only make the value better for the
/// player to move.
proof fn lemma_children_grow(game: Game, depth: int, heuristic: Heuristic, pf: Pathfinding, k: int, n: int)
    requires
        0 <= k <= n,
    ensures
        game.player == Player::White ==> children_value(game, depth, heuristic, pf, k) <= children_value(game, depth, heuristic, pf, n),
        game.player == Player::Black ==> children_value(game, depth, heuristic, pf, k) >= children_value(game, depth, heuristic, pf, n),
    decreases n - k,
{
    if k < n {
        lemma_children_grow(game, depth, heuristic, pf, k, n - 1);
    }
}

/// A piece move leads to one game only.
proof fn lemma_piece_child(game: Game, m: PlayerMove, next: Game)
    requires
        m is MovePiece,
        spec_executed(game, m, next),
    ensures
        child_of(game, m) == next,
{
    broadcast use vstd::array::group_array_axioms;
    let c = child_of(game, m);
    assert(spec_executed(game, m, c));
    assert(c.board.player_positions@[game.player.index()] == next.board.player_positions@[game.player.index()]);
    assert(c.board.player_positions@[game.player.other().index()] == next.board.player_positions@[game.player.other().index()]);
    assert(c.board.player_positions =~= next.board.player_positions);
    assert(c.board == next.board);
}

/// The value of a position for black is no greater than the value of any
/// position that a move offered to black leads to, and the value of a
/// position for white no less, unless a piece is cut off there.
pub proof fn lemma_value_against_children(game: Game, depth: int, heuristic: Heuristic, pf: Pathfinding, i: int)
    requires
        depth > 0,
        !is_terminal(game),
        0 <= i < spec_ordered_moves(game).len(),
        !blocked_in(child_of(game, spec_ordered_moves(game)[i]), pf),
    ensures
        game.player == Player::Black ==> ab_value(game, depth, heuristic, pf) <= ab_value(
            child_of(game, spec_ordered_moves(game)[i]),
            depth - 1,
            heuristic,
            pf,
        ),
        game.player == Player::White ==> ab_value(game, depth, heuristic, pf) >= ab_value(
            child_of(game, spec_ordered_moves(game)[i]),
            depth - 1,
            heuristic,
            pf,
        ),
{
    let n = spec_ordered_moves(game).len() as int;
    lemma_children_grow(game, depth, heuristic, pf, i + 1, n);
}

/// The step invariant of a white node: `m` is the value of the moves searched.
pub open spec fn white_step(value: int, alpha: int, beta: int, a0: int, b0: int, m: int) -> bool {
    &&& m <= value
    &&& value > a0 ==> value <= m
    &&& value >= b0 ==> value == m
    &&& a0 <= alpha < b0
    &&& (alpha == a0 || alpha == value)
    &&& beta == b0
}

/// The step invariant of a black node.
pub open spec fn black_step(value: int, alpha: int, beta: int, a0: int, b0: int, m: int) -> bool {
    &&& value <= m
    &&& value < b0 ==> value >= m
    &&& value > a0
    &&& a0 < beta <= b0
    &&& (beta == b0 || beta == value)
    &&& alpha == a0
}

/// Checks that a move handed in from outside the move generator can be played:
/// a legal piece move, or a wall on the grid while the player has walls left.
fn is_playable(game: &Game, m: &PlayerMove) -> (r: bool)
    requires
        game_ok(*game),
    ensures
        r == (*m matches PlayerMove::MovePiece(mp) && spec_piece_legal(game.board, game.player, game.board.pos(game.player), mp)
            || wall_on_grid(*m) && game.walls_left@[game.player.index()] > 0),
        r ==> playable(*game, *m),
{
    let r = match m {
        PlayerMove::MovePiece(mp) => is_move_piece_legal_with_player_at_position(
            &game.board,
            game.player,
            game.board.player_position(game.player),
            mp,
        ),
        PlayerMove::PlaceWall { position, .. } => position.x < WALL_GRID_WIDTH && position.y
            < WALL_GRID_HEIGHT && game.walls_left[game.player.as_index()] > 0,
    };
    proof {
        if r {
            lemma_playable(*game, *m);
        }
    }
    r
}

/// Searches `game` to `depth` plies by alpha-beta in the window `alpha..beta`,
/// trying the line `search_first` (last move first) before the ordered moves,
/// and consulting and filling the transposition table.
///
/// When `stop` answers true the search gives up. A position the table already
/// knows to the depth asked for is answered from the table; a position at depth
/// zero, or where a piece has reached its goal row, is scored by `heuristic`
/// under the distances that `pathfinding` settles. Otherwise the line of the
/// best child found is returned, with the move to it appended; its last move is
/// one that can be played in `game`. A move of `search_first` that cannot be
/// played in `game` is skipped. Under `plain_search` the score stands to the
/// minimax value `ab_value` as a fail-soft alpha-beta search's does
/// (`fail_soft`): white keeps the greatest and black the least of the scores of
/// the moves it searches, and a side stops early only on a cut-off.
#[verifier::rlimit(40)]
pub fn alpha_beta<F: Fn() -> bool>(
    game: &Game,
    depth: usize,
    alpha: isize,
    beta: isize,
    search_first: &[PlayerMove],
    stop: &F,
    heuristic: Heuristic,
    cache: &mut Cache,
    min_depth_for_caching: usize,
    pathfinding: &mut Pathfinding,
) -> (r: AlphaBetaResult)
    requires
        game_ok(*game),
        old(pathfinding).wf(),
        stop.requires(()),
    ensures
        final(pathfinding).wf(),
        old(cache).transposition_table@.dom().subset_of(final(cache).transposition_table@.dom()),
        r is Stopped ==> stop.ensures((), true),
        old(cache).transposition_table@ == Map::<u64, BoardEvaluation>::empty() && depth < min_depth_for_caching
            ==> final(cache).transposition_table@ == Map::<u64, BoardEvaluation>::empty(),
        old(cache).transposition_table@ == Map::<u64, BoardEvaluation>::empty() && depth < min_depth_for_caching
            ==> (r matches AlphaBetaResult::Moves(e) ==> e.score >= WHITE_LOSES_BLACK_WINS
                && line_scored(*game, depth as int, heuristic, e.best_moves@, e.score as int)),
        plain_search(
            old(cache).transposition_table@,
            depth as int,
            min_depth_for_caching as int,
            search_first@,
            *old(pathfinding),
            *game,
            alpha as int,
            beta as int,
        ) ==> (r matches AlphaBetaResult::Moves(e) ==> fail_soft(
            e.score as int,
            alpha as int,
            beta as int,
            ab_value(*game, depth as int, heuristic, *old(pathfinding)),
        )),
        r matches AlphaBetaResult::Moves(e) ==> {
            if cache_answers(old(cache).transposition_table@, *game, depth as int) {
                same_eval(e, old(cache).transposition_table@[game_key(*game)])
            } else if depth == 0 || is_terminal(*game) {
                &&& e.best_moves@.len() == 0
                &&& e.score == spec_eval(
                    heuristic,
                    *game,
                    black_distance(*game, *final(pathfinding)),
                    white_distance(*game, *final(pathfinding)),
                )
            } else {
                &&& e.best_moves@.len() > 0 ==> playable(*game, e.best_moves@.last())
                &&& e.best_moves@.len() == 0 ==> e.score == worst_for(game.player)
            }
        },
    decreases depth,
{
    let ghost fresh = old(cache).transposition_table@ == Map::<u64, BoardEvaluation>::empty() && depth < min_depth_for_caching;
    let ghost law = plain_search(
        old(cache).transposition_table@,
        depth as int,
        min_depth_for_caching as int,
        search_first@,
        *old(pathfinding),
        *game,
        alpha as int,
        beta as int,
    );
    let ghost a0 = alpha as int;
    let ghost b0 = beta as int;
    let ghost pf0 = *pathfinding;
    if stop() {
        return AlphaBetaResult::Stopped;
    }
    let game_hash = hash_to_u64(game);
    let mut first_line: Vec<PlayerMove> = Vec::new();
    let mut from_table = false;
    match cache.transposition_table.get(&game_hash) {
        Some(eval) => {
            if eval.best_moves.len() >= depth {
                return AlphaBetaResult::Moves(eval.clone());
            } else if eval.best_moves.len() > search_first.len() {
                first_line = copy_moves(&eval.best_moves);
                from_table = true;
            }
        },
        None => {},
    }
    if !from_table {
        let mut i: usize = 0;
        while i < search_first.len()
            invariant
                i <= search_first.len(),
                first_line@ == search_first@.subrange(0, i as int),
            decreases search_first.len() - i,
        {
            first_line.push(search_first[i]);
            i += 1;
            assert(first_line@ =~= search_first@.subrange(0, i as int));
        }
    }
    let white_y = game.board.player_position(Player::White).y;
    let black_y = game.board.player_position(Player::Black).y;
    if depth == 0 || white_y == PIECE_GRID_HEIGHT - 1 || black_y == 0 {
        let heuristic_board_score = heuristic.eval(game, pathfinding);
        let leaf = BoardEvaluation { score: heuristic_board_score, best_moves: Vec::new() };
        proof {
            if law {
                assert(*pathfinding == pf0);
            }
            if fresh {
                assert(black_distance(*game, *pathfinding) == black_distance(*game, *pathfinding));
                assert(line_scored(*game, depth as int, heuristic, leaf.best_moves@, leaf.score as int));
            }
        }
        return AlphaBetaResult::Moves(leaf);
    }
    let last = first_line.pop();
    let rest = first_line;
    let no_moves: Vec<PlayerMove> = Vec::new();
    let ordered = moves_ordered_by_heuristic_quality(game);
    proof {
        lemma_ordered_moves_playable(*game);
    }
    let offset: usize = if last.is_some() { 1 } else { 0 };
    let mut candidates: Vec<PlayerMove> = Vec::new();
    match last {
        Some(m) => candidates.push(m),
        None => {},
    }
    let mut j: usize = 0;
    while j < ordered.len()
        invariant
            j <= ordered.len(),
            offset == candidates@.len() - j,
            offset <= 1,
            forall|i: int| offset <= i < candidates@.len() ==> #[trigger] candidates@[i] == ordered@[i - offset],
        decreases ordered.len() - j,
    {
        candidates.push(ordered[j]);
        j += 1;
    }
    proof {
        assert forall|i: int| offset <= i < candidates@.len() implies playable(*game, #[trigger] candidates@[i]) by {
            assert(candidates@[i] == spec_ordered_moves(*game)[i - offset]);
            lemma_playable(*game, candidates@[i]);
        }
    }
    proof {
        if law {
            assert(!from_table);
            assert(first_line@.len() == 0);
            assert(last is None);
            assert(candidates@ =~= spec_ordered_moves(*game));
        }
    }
    let ghost old_table = cache.transposition_table@;
    let player = game.player;
    let mut alpha = alpha;
    let mut beta = beta;
    let mut value: isize = match player {
        Player::White => WHITE_LOSES_BLACK_WINS,
        Player::Black => WHITE_WINS_BLACK_LOSES,
    };
    let mut best_moves: Vec<PlayerMove> = Vec::new();
    let mut k: usize = 0;
    while k < candidates.len()
        invariant_except_break
            law && player == Player::White ==> white_step(
                value as int,
                alpha as int,
                beta as int,
                a0,
                b0,
                children_value(*game, depth as int, heuristic, pf0, k as int),
            ),
            law && player == Player::Black ==> black_step(
                value as int,
                alpha as int,
                beta as int,
                a0,
                b0,
                children_value(*game, depth as int, heuristic, pf0, k as int),
            ),
        invariant
            game_ok(*game),
            !(depth == 0 || is_terminal(*game)),
            stop.requires(()),
            pathfinding.wf(),
            player == game.player,
            offset <= 1,
            forall|i: int| offset <= i < candidates@.len() ==> playable(*game, #[trigger] candidates@[i]),
            k <= candidates.len(),
            old_table == old(cache).transposition_table@,
            old_table.dom().subset_of(cache.transposition_table@.dom()),
            best_moves@.len() > 0 ==> playable(*game, best_moves@.last()),
            best_moves@.len() == 0 ==> value == worst_for(player),
            fresh == (old_table == Map::<u64, BoardEvaluation>::empty() && depth < min_depth_for_caching),
            fresh ==> cache.transposition_table@ == Map::<u64, BoardEvaluation>::empty(),
            fresh ==> value >= WHITE_LOSES_BLACK_WINS,
            fresh && best_moves@.len() > 0 ==> line_scored(*game, depth as int, heuristic, best_moves@, value as int),
            *pathfinding == pf0,
            law == plain_search(old_table, depth as int, min_depth_for_caching as int, search_first@, pf0, *game, a0, b0),
            law ==> offset == 0 && candidates@ == spec_ordered_moves(*game) && last is None,
            no_moves@.len() == 0,
        ensures
            law ==> fail_soft(value as int, a0, b0, ab_value(*game, depth as int, heuristic, pf0)),
        decreases candidates.len() - k,
    {
        let player_move = candidates[k];
        proof {
            if k >= offset {
                assert(playable(*game, candidates@[k as int]));
            }
        }
        k += 1;
        if k <= offset && !is_playable(game, &player_move) {
            continue;
        }
        assert(playable(*game, player_move));
        let child_game_state = execute_move_unchecked(game, &player_move);
        assert(game_ok(child_game_state));
        let mut next_pathfinding = pathfinding.clone_with_move(&child_game_state.board, &player_move);
        let ghost npf0 = next_pathfinding;
        proof {
            if law {
                lemma_ordered_moves_playable(*game);
                assert(candidates@[k - 1] == spec_ordered_moves(*game)[k - 1]);
                assert(player_move is MovePiece);
                lemma_piece_child(*game, player_move, child_game_state);
                next_pathfinding.white.lemma_same_state(pf0.white);
                next_pathfinding.black.lemma_same_state(pf0.black);
                assert(same_estimates(next_pathfinding, pf0));
                assert(next_pathfinding.frozen());
            }
        }
        let blocked = next_pathfinding.any_blocked(&child_game_state.board);
        proof {
            if law {
                assert(next_pathfinding == npf0);
                assert(blocked == blocked_in(child_game_state, pf0));
            }
        }
        if blocked {
            continue;
        }
        let follows_line = match last {
            Some(l) => l == player_move,
            None => false,
        };
        let child_first = if follows_line { rest.as_slice() } else { no_moves.as_slice() };
        let ghost ak = alpha as int;
        let ghost bk = beta as int;
        proof {
            if law {
                assert(child_first@.len() == 0);
                assert(no_walls_within(child_game_state, depth - 1));
                assert(plain_search(
                    cache.transposition_table@,
                    depth - 1,
                    min_depth_for_caching as int,
                    child_first@,
                    next_pathfinding,
                    child_game_state,
                    ak,
                    bk,
                ));
            }
        }
        let child = alpha_beta(
            &child_game_state,
            depth - 1,
            alpha,
            beta,
            child_first,
            stop,
            heuristic,
            cache,
            min_depth_for_caching,
            &mut next_pathfinding,
        );
        let (score, moves) = match child {
            AlphaBetaResult::Moves(eval) => (eval.score, eval.best_moves),
            AlphaBetaResult::Stopped => {
                return AlphaBetaResult::Stopped;
            },
        };
        let ghost value0 = value;
        let ghost best0 = best_moves@;
        proof {
            if law {
                lemma_value_estimates(child_game_state, depth - 1, heuristic, npf0, pf0);
                assert(fail_soft(score as int, ak, bk, ab_value(child_game_state, depth - 1, heuristic, pf0)));
                assert(children_value(*game, depth as int, heuristic, pf0, k as int) == better(
                    player,
                    children_value(*game, depth as int, heuristic, pf0, k - 1),
                    ab_value(child_game_state, depth - 1, heuristic, pf0),
                ));
                lemma_children_grow(*game, depth as int, heuristic, pf0, k as int, spec_ordered_moves(*game).len() as int);
            }
        }
        proof {
            if fresh {
                let line = moves@.push(player_move);
                assert(line.drop_last() =~= moves@);
                assert(line.last() == player_move);
                assert(spec_executed(*game, player_move, child_game_state));
                assert(line_scored(*game, depth as int, heuristic, line, score as int));
            }
        }
        match player {
            Player::White => {
                if score > value || best_moves.len() == 0 {
                    best_moves = moves;
                    best_moves.push(player_move);
                }
                if score > value {
                    value = score;
                }
                if value >= beta {
                    break;
                }
                if value > alpha {
                    alpha = value;
                }
            },
            Player::Black => {
                if score < value || best_moves.len() == 0 {
                    best_moves = moves;
                    best_moves.push(player_move);
                }
                if score < value {
                    value = score;
                }
                if value <= alpha {
                    break;
                }
                if value < beta {
                    beta = value;
                }
            },
        }
    }
    let eval = BoardEvaluation { score: value, best_moves };
    if depth >= min_depth_for_caching {
        let key = hash_to_u64(game);
        let replace = match cache.transposition_table.get(&key) {
            None => true,
            Some(cache_eval) => cache_eval.best_moves.len() < depth,
        };
        if replace {
            cache.transposition_table.insert(key, eval.clone());
        }
    }
    AlphaBetaResult::Moves(eval)
}

/// What a search of `game` to `depth` with an empty first line may return, for
/// the table `table` it starts from and the searches `pf` it leaves behind.
pub open spec fn search_outcome(
    table: Map<u64, BoardEvaluation>,
    game: Game,
    depth: int,
    heuristic: Heuristic,
    pf: Pathfinding,
    e: BoardEvaluation,
) -> bool {
    if cache_answers(table, game, depth) {
        same_eval(e, table[game_key(game)])
    } else if depth == 0 || is_terminal(game) {
        &&& e.best_moves@.len() == 0
        &&& e.score == spec_eval(heuristic, game, black_distance(game, pf), white_distance(game, pf))
    } else {
        &&& e.best_moves@.len() > 0 ==> playable(game, e.best_moves@.last())
        &&& e.best_moves@.len() == 0 ==> e.score == worst_for(game.player)
    }
}

/// Searches `game` to `depth` plies in the full window, never stopping.
pub fn best_move_alpha_beta(
    game: &Game,
    depth: usize,
    heuristic: Heuristic,
    cache: &mut Cache,
    min_depth_for_caching: usize,
) -> (e: BoardEvaluation)
    requires
        game_ok(*game),
    ensures
        old(cache).transposition_table@.dom().subset_of(final(cache).transposition_table@.dom()),
        exists|pf: Pathfinding|
            pf.wf() && search_outcome(old(cache).transposition_table@, *game, depth as int, heuristic, pf, e),
        old(cache).transposition_table@ == Map::<u64, BoardEvaluation>::empty() && depth < min_depth_for_caching ==> {
            &&& final(cache).transposition_table@ == Map::<u64, BoardEvaluation>::empty()
            &&& e.score >= WHITE_LOSES_BLACK_WINS
            &&& line_scored(*game, depth as int, heuristic, e.best_moves@, e.score as int)
        },
{
    let mut pathfinding = Pathfinding::new(&game.board);
    let no_moves: Vec<PlayerMove> = Vec::new();
    let never = || -> (r: bool)
        ensures
            !r,
        { false };
    match alpha_beta(
        game,
        depth,
        WHITE_LOSES_BLACK_WINS,
        WHITE_WINS_BLACK_LOSES,
        no_moves.as_slice(),
        &never,
        heuristic,
        cache,
        min_depth_for_caching,
        &mut pathfinding,
    ) {
        AlphaBetaResult::Stopped => {
            proof {
                assert(false);
            }
            BoardEvaluation::default()
        },
        AlphaBetaResult::Moves(moves) => {
            assert(search_outcome(old(cache).transposition_table@, *game, depth as int, heuristic, pathfinding, moves));
            moves
        },
    }
}

/// The search time used when neither a depth nor a time is given, in seconds.
pub const DEFAULT_SECONDS: u64 = 5;

/// `e` is the outcome of a search of `game` to some depth of at least one ply,
/// begun with a table that holds the keys of `before` and whose keys `after`
/// holds.
pub open spec fn deepened_outcome(
    before: Map<u64, BoardEvaluation>,
    after: Map<u64, BoardEvaluation>,
    game: Game,
    heuristic: Heuristic,
    e: BoardEvaluation,
) -> bool {
    exists|d: int, t: Map<u64, BoardEvaluation>, pf: Pathfinding|
        #![trigger search_outcome(t, game, d, heuristic, pf, e)]
        1 <= d && before.dom().subset_of(t.dom()) && t.dom().subset_of(after.dom()) && pf.wf()
            && search_outcome(t, game, d, heuristic, pf, e)
}

/// `e` is the scored line of a search of `game` to some depth of at least one
/// ply, unless that depth reached `min_depth`, from which on the table is filled.
pub open spec fn deepened_line(game: Game, heuristic: Heuristic, min_depth: int, e: BoardEvaluation) -> bool {
    exists|d: int| #[trigger] line_at_depth(game, heuristic, min_depth, d, e)
}

/// `e` is the scored line of a search of `game` to depth `d`, unless `d` reached
/// `min_depth`.
pub open spec fn line_at_depth(game: Game, heuristic: Heuristic, min_depth: int, d: int, e: BoardEvaluation) -> bool {
    1 <= d && (d >= min_depth || line_scored(game, d, heuristic, e.best_moves@, e.score as int))
}

/// Searches `game` one ply deeper at a time, each search trying the best line
/// of the one before first, until `search_duration` has passed; returns the
/// evaluation of the last search that finished (an empty one if none did).
pub fn best_move_alpha_beta_iterative_deepening(
    game: &Game,
    search_duration: Duration,
    heuristic: Heuristic,
    cache: &mut Cache,
    min_depth_for_caching: usize,
) -> (e: BoardEvaluation)
    requires
        game_ok(*game),
    ensures
        old(cache).transposition_table@.dom().subset_of(final(cache).transposition_table@.dom()),
        (e.score == 0 && e.best_moves@.len() == 0) || deepened_outcome(
            old(cache).transposition_table@,
            final(cache).transposition_table@,
            *game,
            heuristic,
            e,
        ),
        old(cache).transposition_table@ == Map::<u64, BoardEvaluation>::empty() ==> (e.score == 0 && e.best_moves@.len()
            == 0) || deepened_line(*game, heuristic, min_depth_for_caching as int, e),
{
    let start = clock_now();
    let stop = || longer_than(&elapsed_since(&start), &search_duration);
    let mut eval: BoardEvaluation = BoardEvaluation::default();
    let mut depth: usize = 0;
    let mut pathfinding = Pathfinding::new(&game.board);
    while depth < usize::MAX
        invariant_except_break
            old(cache).transposition_table@ == Map::<u64, BoardEvaluation>::empty() && depth < min_depth_for_caching
                ==> cache.transposition_table@ == Map::<u64, BoardEvaluation>::empty(),
        invariant
            game_ok(*game),
            pathfinding.wf(),
            stop.requires(()),
            old(cache).transposition_table@.dom().subset_of(cache.transposition_table@.dom()),
            (eval.score == 0 && eval.best_moves@.len() == 0) || deepened_outcome(
                old(cache).transposition_table@,
                cache.transposition_table@,
                *game,
                heuristic,
                eval,
            ),
            old(cache).transposition_table@ == Map::<u64, BoardEvaluation>::empty() ==> (eval.score == 0
                && eval.best_moves@.len() == 0) || deepened_line(*game, heuristic, min_depth_for_caching as int, eval),
        decreases usize::MAX - depth,
    {
        let ghost t0 = cache.transposition_table@;
        let ghost e0 = eval;
        match alpha_beta(
            game,
            depth + 1,
            WHITE_LOSES_BLACK_WINS,
            WHITE_WINS_BLACK_LOSES,
            eval.best_moves.as_slice(),
            &stop,
            heuristic,
            cache,
            min_depth_for_caching,
            &mut pathfinding,
        ) {
            AlphaBetaResult::Stopped => {
                proof {
                    if !(e0.score == 0 && e0.best_moves@.len() == 0) {
                        lemma_deepened_grows(old(cache).transposition_table@, t0, cache.transposition_table@, *game, heuristic, e0);
                    }
                }
                break;
            },
            AlphaBetaResult::Moves(moves) => {
                proof {
                    let d = depth + 1;
                    if old(cache).transposition_table@ == Map::<u64, BoardEvaluation>::empty() {
                        if d < min_depth_for_caching {
                            assert(line_scored(*game, d as int, heuristic, moves.best_moves@, moves.score as int));
                        }
                        assert(line_at_depth(*game, heuristic, min_depth_for_caching as int, d, moves));
                        assert(deepened_line(*game, heuristic, min_depth_for_caching as int, moves));
                    }
                    assert(search_outcome(t0, *game, depth + 1, heuristic, pathfinding, moves));
                    assert(deepened_outcome(old(cache).transposition_table@, cache.transposition_table@, *game, heuristic, moves));
                }
                eval = moves;
                depth += 1;
            },
        }
    }
    eval
}

/// An outcome of a search begun with a table stays one as the table grows.
proof fn lemma_deepened_grows(
    before: Map<u64, BoardEvaluation>,
    mid: Map<u64, BoardEvaluation>,
    after: Map<u64, BoardEvaluation>,
    game: Game,
    heuristic: Heuristic,
    e: BoardEvaluation,
)
    requires
        deepened_outcome(before, mid, game, heuristic, e),
        mid.dom().subset_of(after.dom()),
    ensures
        deepened_outcome(before, after, game, heuristic, e),
{
    let (d, t, pf) = choose|d: int, t: Map<u64, BoardEvaluation>, pf: Pathfinding|
        #![trigger search_outcome(t, game, d, heuristic, pf, e)]
        1 <= d && before.dom().subset_of(t.dom()) && t.dom().subset_of(mid.dom()) && pf.wf()
            && search_outcome(t, game, d, heuristic, pf, e);
    assert(search_outcome(t, game, d, heuristic, pf, e));
}

/// Searches to `depth` if one is given, else for `duration` (five seconds if
/// none is given); returns the time taken and the evaluation.
pub fn get_bot_move(
    game: &Game,
    depth: Option<usize>,
    duration: Option<Duration>,
    heuristic: Heuristic,
    cache: &mut Cache,
    min_depth_for_caching: usize,
) -> (r: (Duration, BoardEvaluation))
    requires
        game_ok(*game),
    ensures
        old(cache).transposition_table@.dom().subset_of(final(cache).transposition_table@.dom()),
        depth matches Some(d) ==> exists|pf: Pathfinding|
            pf.wf() && search_outcome(old(cache).transposition_table@, *game, d as int, heuristic, pf, r.1),
        depth matches Some(d) ==> (old(cache).transposition_table@ == Map::<u64, BoardEvaluation>::empty()
            && d < min_depth_for_caching ==> {
            &&& final(cache).transposition_table@ == Map::<u64, BoardEvaluation>::empty()
            &&& r.1.score >= WHITE_LOSES_BLACK_WINS
            &&& line_scored(*game, d as int, heuristic, r.1.best_moves@, r.1.score as int)
        }),
        depth is None ==> (r.1.score == 0 && r.1.best_moves@.len() == 0) || deepened_outcome(
            old(cache).transposition_table@,
            final(cache).transposition_table@,
            *game,
            heuristic,
            r.1,
        ),
        depth is None && old(cache).transposition_table@ == Map::<u64, BoardEvaluation>::empty() ==> (r.1.score == 0
            && r.1.best_moves@.len() == 0) || deepened_line(*game, heuristic, min_depth_for_caching as int, r.1),
{
    let start_time = clock_now();
    let best_moves = match depth {
        Some(depth) => best_move_alpha_beta(game, depth, heuristic, cache, min_depth_for_caching),
        None => {
            let duration = match duration {
                Some(d) => d,
                None => seconds(DEFAULT_SECONDS),
            };
            best_move_alpha_beta_iterative_deepening(game, duration, heuristic, cache, min_depth_for_caching)
        },
    };
    (elapsed_since(&start_time), best_moves)
}

} // verus!
