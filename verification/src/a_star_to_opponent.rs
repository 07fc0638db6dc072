use vstd::prelude::*;
use crate::data_model::{Board, Direction, PiecePosition, Player, Walls};
use crate::game_logic::{
    is_move_direction_legal_with_player_at_position, new_position_after_direction_unchecked,
    spec_direction_legal, spec_position_after_direction,
};
use crate::search::{is_walk, search, spec_edge, spec_reachable, target_walk, walk_end, Target};

verus! {

pub open spec fn abs_diff(a: int, b: int) -> int {
    if a < b {
        b - a
    } else {
        a - b
    }
}

/// The distance from `pos` to `opponent_pos` counted in rows and columns.
pub open spec fn spec_manhattan(pos: PiecePosition, opponent_pos: PiecePosition) -> int {
    abs_diff(pos.x as int, opponent_pos.x as int) + abs_diff(pos.y as int, opponent_pos.y as int)
}

pub fn heuristic(pos: &PiecePosition, opponent_pos: &PiecePosition) -> (h: usize)
    requires
        spec_manhattan(*pos, *opponent_pos) <= usize::MAX,
    ensures
        h == spec_manhattan(*pos, *opponent_pos),
{
    let dx = if pos.x < opponent_pos.x {
        opponent_pos.x - pos.x
    } else {
        pos.x - opponent_pos.x
    };
    let dy = if pos.y < opponent_pos.y {
        opponent_pos.y - pos.y
    } else {
        pos.y - opponent_pos.y
    };
    dx + dy
}

/// The piece of `player` can walk, square by square around the walls, to the
/// square of the opponent.
pub open spec fn spec_opponent_reachable(board: Board, player: Player) -> bool {
    spec_reachable(board, Target::Opponent(player))
}

/// A shortest-first search from the square of `player` to the square of the
/// opponent, stepping square by square; the squares of the path found, the start
/// left out, the square of the opponent last. No walk to the opponent is
/// shorter.
pub fn a_star_to_opponent(board: &Board, player: Player) -> (r: Option<Vec<PiecePosition>>)
    requires
        board.on_board(),
    ensures
        r is Some <==> spec_opponent_reachable(*board, player),
        r matches Some(path) ==> {
            &&& is_walk(*board, Target::Opponent(player), board.pos(player), path@)
            &&& walk_end(board.pos(player), path@) == board.pos(player.other())
        },
        r matches Some(path) ==> forall|w: Seq<PiecePosition>|
            #[trigger] is_walk(*board, Target::Opponent(player), board.pos(player), w) && walk_end(board.pos(player), w) == board.pos(player.other())
                ==> path@.len() <= w.len(),
{
    let r = search(board, Target::Opponent(player));
    proof {
        if r is Some {
            assert forall|w: Seq<PiecePosition>|
                #[trigger] is_walk(*board, Target::Opponent(player), board.pos(player), w) && walk_end(board.pos(player), w) == board.pos(player.other())
                    implies r->0@.len() <= w.len() by {
                assert(target_walk(*board, Target::Opponent(player), w));
            }
        }
    }
    r
}

/// The squares that the legal steps from `p` lead to, for the first `n`
/// directions of `Direction::spec_all`.
pub open spec fn step_prefix(walls: Walls, p: PiecePosition, n: int) -> Seq<PiecePosition>
    decreases n,
{
    if n <= 0 {
        Seq::empty()
    } else {
        let d = Direction::spec_all()[n - 1];
        step_prefix(walls, p, n - 1) + if spec_direction_legal(walls, p, d) {
            seq![spec_position_after_direction(p, d)]
        } else {
            Seq::empty()
        }
    }
}

proof fn lemma_step_prefix(walls: Walls, p: PiecePosition, n: int, q: PiecePosition)
    requires
        0 <= n <= 4,
    ensures
        step_prefix(walls, p, n).contains(q) <==> exists|k: int|
            0 <= k < n && #[trigger] spec_direction_legal(walls, p, Direction::spec_all()[k])
                && spec_position_after_direction(p, Direction::spec_all()[k]) == q,
    decreases n,
{
    if n > 0 {
        lemma_step_prefix(walls, p, n - 1, q);
        let prev = step_prefix(walls, p, n - 1);
        let next = step_prefix(walls, p, n);
        if next.contains(q) {
            if prev.contains(q) {
                let k = choose|k: int|
                    0 <= k < n - 1 && #[trigger] spec_direction_legal(walls, p, Direction::spec_all()[k])
                        && spec_position_after_direction(p, Direction::spec_all()[k]) == q;
                assert(spec_direction_legal(walls, p, Direction::spec_all()[k]));
            } else {
                let i = choose|i: int| 0 <= i < next.len() && next[i] == q;
                if i < prev.len() {
                    assert(prev[i] == q);
                }
                assert(spec_direction_legal(walls, p, Direction::spec_all()[n - 1]));
            }
        }
        if exists|k: int|
            0 <= k < n && #[trigger] spec_direction_legal(walls, p, Direction::spec_all()[k])
                && spec_position_after_direction(p, Direction::spec_all()[k]) == q {
            let k = choose|k: int|
                0 <= k < n && #[trigger] spec_direction_legal(walls, p, Direction::spec_all()[k])
                    && spec_position_after_direction(p, Direction::spec_all()[k]) == q;
            if k == n - 1 {
                assert(next[next.len() - 1] == q);
            } else {
                assert(prev.contains(q));
                let i = choose|i: int| 0 <= i < prev.len() && prev[i] == q;
                assert(next[i] == q);
            }
        }
    }
}

/// The neighbours of the search are the squares that one step leads to.
pub proof fn lemma_steps_are_edges(board: Board, player: Player, p: PiecePosition, q: PiecePosition)
    ensures
        step_prefix(board.walls, p, 4).contains(q) <==> spec_edge(board, Target::Opponent(player), p, q),
{
    lemma_step_prefix(board.walls, p, 4, q);
    if spec_edge(board, Target::Opponent(player), p, q) {
        let d = choose|d: Direction|
            #[trigger] spec_direction_legal(board.walls, p, d) && spec_position_after_direction(p, d) == q;
        assert(Direction::spec_all()[d.idx()] == d);
        assert(spec_direction_legal(board.walls, p, Direction::spec_all()[d.idx()]));
    }
    if step_prefix(board.walls, p, 4).contains(q) {
        let k = choose|k: int|
            0 <= k < 4 && #[trigger] spec_direction_legal(board.walls, p, Direction::spec_all()[k])
                && spec_position_after_direction(p, Direction::spec_all()[k]) == q;
        let d = Direction::spec_all()[k];
        assert(spec_direction_legal(board.walls, p, d));
    }
}

/// The squares that the legal steps from `player_position` lead to, in the
/// order of `Direction::iter`.
pub fn neighbors(walls: &Walls, player_position: &PiecePosition) -> (v: Vec<PiecePosition>)
    requires
        player_position.on_board(),
    ensures
        v@ == step_prefix(*walls, *player_position, 4),
        forall|k: int| 0 <= k < v@.len() ==> (#[trigger] v@[k]).on_board(),
{
    let dirs = Direction::iter();
    let mut v: Vec<PiecePosition> = Vec::new();
    let mut i: usize = 0;
    while i < dirs.len()
        invariant
            dirs@ == Direction::spec_all(),
            i <= 4,
            player_position.on_board(),
            v@ == step_prefix(*walls, *player_position, i as int),
            forall|k: int| 0 <= k < v@.len() ==> (#[trigger] v@[k]).on_board(),
        decreases 4 - i,
    {
        let direction = dirs[i];
        if is_move_direction_legal_with_player_at_position(walls, player_position, &direction) {
            v.push(new_position_after_direction_unchecked(player_position, direction));
        }
        i += 1;
    }
    v
}

} // verus!
