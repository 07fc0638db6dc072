use vstd::prelude::*;
use crate::data_model::{Board, MovePiece, PiecePosition, Player, PIECE_GRID_HEIGHT};
use crate::game_logic::{
    in_isize_range, is_move_piece_legal_with_player_at_position,
    new_position_after_move_piece_unchecked, spec_direction_legal, spec_piece_legal,
    spec_position_after_direction, spec_position_after_move,
};
use crate::search::{
    goal_row, search, spec_edge, spec_is_target, spec_reachable, is_walk, target_walk, walk_end, Target,
};

verus! {

/// The number of rows between `pos` and the row that `player` has to reach.
pub open spec fn spec_heuristic(pos: PiecePosition, player: Player) -> int {
    match player {
        Player::White => PIECE_GRID_HEIGHT - 1 - pos.y,
        Player::Black => pos.y as int,
    }
}

pub fn heuristic(pos: &PiecePosition, player: Player) -> (h: usize)
    requires
        player == Player::White ==> pos.y <= PIECE_GRID_HEIGHT - 1,
    ensures
        h == spec_heuristic(*pos, player),
{
    match player {
        Player::White => PIECE_GRID_HEIGHT - 1 - pos.y(),
        Player::Black => pos.y(),
    }
}

/// The piece of `player` can reach its goal row on `board`, moving and jumping
/// by the rules while the opponent stands still.
pub open spec fn spec_goal_reachable(board: Board, player: Player) -> bool {
    spec_reachable(board, Target::Goal(player))
}

/// `path` leads the piece of `player` by legal moves from its square to its goal row.
pub open spec fn spec_is_goal_path(board: Board, player: Player, path: Seq<PiecePosition>) -> bool {
    &&& is_walk(board, Target::Goal(player), board.pos(player), path)
    &&& walk_end(board.pos(player), path).y == goal_row(player)
}

/// A shortest-first search from the square of `player` to its goal row; the
/// squares of the path found, the start left out. The path is at most one move
/// longer than any way to the goal row: the estimate counts rows, and one jump
/// over the opponent can cover two. A piece already on its goal row gets the
/// empty path.
pub fn a_star(board: &Board, player: Player) -> (r: Option<Vec<PiecePosition>>)
    requires
        board.pos(player).on_board(),
    ensures
        r is Some <==> spec_goal_reachable(*board, player),
        r matches Some(path) ==> spec_is_goal_path(*board, player, path@),
        r matches Some(path) ==> forall|w: Seq<PiecePosition>| #[trigger] spec_is_goal_path(*board, player, w) ==> path@.len() <= w.len() + 1,
        r matches Some(path) ==> (path@.len() == 0 <==> board.pos(player).y == goal_row(player)),
{
    let r = search(board, Target::Goal(player));
    proof {
        if r is Some {
            assert forall|w: Seq<PiecePosition>| #[trigger] spec_is_goal_path(*board, player, w) implies r->0@.len() <= w.len() + 1 by {
                assert(target_walk(*board, Target::Goal(player), w));
            }
        }
    }
    r
}

/// The squares that the first `n` moves of `MovePiece::spec_all` lead to, of
/// those that are legal for `player` at `p`.
pub open spec fn neighbor_prefix(board: Board, player: Player, p: PiecePosition, n: int) -> Seq<PiecePosition>
    decreases n,
{
    if n <= 0 {
        Seq::empty()
    } else {
        let mp = MovePiece::spec_all()[n - 1];
        neighbor_prefix(board, player, p, n - 1) + if spec_piece_legal(board, player, p, mp) {
            seq![spec_position_after_move(p, mp, board.pos(player.other()))]
        } else {
            Seq::empty()
        }
    }
}

proof fn lemma_neighbor_prefix(board: Board, player: Player, p: PiecePosition, n: int, q: PiecePosition)
    requires
        0 <= n <= 16,
    ensures
        neighbor_prefix(board, player, p, n).contains(q) <==> exists|k: int|
            0 <= k < n && #[trigger] spec_piece_legal(board, player, p, MovePiece::spec_all()[k])
                && spec_position_after_move(p, MovePiece::spec_all()[k], board.pos(player.other()))
                == q,
    decreases n,
{
    if n > 0 {
        lemma_neighbor_prefix(board, player, p, n - 1, q);
        let mp = MovePiece::spec_all()[n - 1];
        let prev = neighbor_prefix(board, player, p, n - 1);
        let next = neighbor_prefix(board, player, p, n);
        let opp = board.pos(player.other());
        if next.contains(q) {
            if prev.contains(q) {
                let k = choose|k: int|
                    0 <= k < n - 1 && #[trigger] spec_piece_legal(board, player, p, MovePiece::spec_all()[k])
                        && spec_position_after_move(p, MovePiece::spec_all()[k], opp) == q;
                assert(spec_piece_legal(board, player, p, MovePiece::spec_all()[k]));
            } else {
                let i = choose|i: int| 0 <= i < next.len() && next[i] == q;
                if i < prev.len() {
                    assert(prev[i] == q);
                }
                assert(spec_piece_legal(board, player, p, MovePiece::spec_all()[n - 1]));
            }
        }
        if exists|k: int|
            0 <= k < n && #[trigger] spec_piece_legal(board, player, p, MovePiece::spec_all()[k])
                && spec_position_after_move(p, MovePiece::spec_all()[k], opp) == q {
            let k = choose|k: int|
                0 <= k < n && #[trigger] spec_piece_legal(board, player, p, MovePiece::spec_all()[k])
                    && spec_position_after_move(p, MovePiece::spec_all()[k], opp) == q;
            if k == n - 1 {
                assert(next[next.len() - 1] == q);
            } else {
                assert(prev.contains(q));
                let i = choose|i: int| 0 <= i < prev.len() && prev[i] == q;
                assert(next[i] == q);
            }
        }
    }
}

/// Each move is one of `MovePiece::spec_all`.
proof fn lemma_all_moves(mp: MovePiece)
    ensures
        exists|k: int| 0 <= k < 16 && MovePiece::spec_all()[k] == mp,
{
    let k = mp.direction.idx() * 4 + mp.direction_on_collision.idx();
    assert(MovePiece::spec_all()[k] == mp);
}

/// The neighbours of the search are the squares that one step leads to.
pub proof fn lemma_neighbors_are_steps(board: Board, player: Player, p: PiecePosition, q: PiecePosition)
    ensures
        neighbor_prefix(board, player, p, 16).contains(q) <==> spec_edge(board, Target::Goal(player), p, q),
{
    lemma_neighbor_prefix(board, player, p, 16, q);
    if spec_edge(board, Target::Goal(player), p, q) {
        let mp = choose|mp: MovePiece|
            #[trigger] spec_piece_legal(board, player, p, mp) && spec_position_after_move(
                p,
                mp,
                board.pos(player.other()),
            ) == q;
        lemma_all_moves(mp);
        let k = choose|k: int| 0 <= k < 16 && MovePiece::spec_all()[k] == mp;
        assert(spec_piece_legal(board, player, p, MovePiece::spec_all()[k]));
    }
    if neighbor_prefix(board, player, p, 16).contains(q) {
        let k = choose|k: int|
            0 <= k < 16 && #[trigger] spec_piece_legal(board, player, p, MovePiece::spec_all()[k])
                && spec_position_after_move(p, MovePiece::spec_all()[k], board.pos(player.other())) == q;
        let mp = MovePiece::spec_all()[k];
        assert(spec_piece_legal(board, player, p, mp));
    }
}

/// The squares that the legal moves of `player` at `player_position` lead to,
/// in the order of `MovePiece::iter`.
pub fn neighbors(board: &Board, player: Player, player_position: &PiecePosition) -> (v: Vec<PiecePosition>)
    requires
        player_position.on_board(),
    ensures
        v@ == neighbor_prefix(*board, player, *player_position, 16),
{
    let moves = MovePiece::iter();
    let mut v: Vec<PiecePosition> = Vec::new();
    let mut i: usize = 0;
    while i < moves.len()
        invariant
            moves@ == MovePiece::spec_all(),
            i <= 16,
            player_position.on_board(),
            v@ == neighbor_prefix(*board, player, *player_position, i as int),
        decreases 16 - i,
    {
        let move_piece = moves[i];
        if is_move_piece_legal_with_player_at_position(board, player, player_position, &move_piece) {
            proof {
                let next = spec_position_after_direction(*player_position, move_piece.direction);
                assert(next.on_board());
            }
            v.push(
                new_position_after_move_piece_unchecked(
                    player_position,
                    &move_piece,
                    board.player_position(player.opponent()),
                ),
            );
        }
        i += 1;
    }
    v
}

} // verus!
