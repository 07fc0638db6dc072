use vstd::prelude::*;
use crate::bot::carlo::board::Board;
use crate::data_model::Player;

verus! {

/// The winner of a finished playout: the piece with fewer steps left on its
/// way, none on a tie.
pub open spec fn spec_playout_winner(white_steps: int, black_steps: int) -> Option<Player> {
    if white_steps == black_steps {
        None
    } else if white_steps < black_steps {
        Some(Player::White)
    } else {
        Some(Player::Black)
    }
}

/// The winner of the playout that ended in `board`, by the steps the two kept
/// searches give for the pieces.
pub fn playout_winner(board: &Board) -> (w: Option<Player>)
    ensures
        w == spec_playout_winner(board.bfs_white.dir.1 as int, board.bfs_black.dir.1 as int),
{
    let white = board.bfs_white.dir.1;
    let black = board.bfs_black.dir.1;
    if white == black {
        None
    } else if white < black {
        Some(Player::White)
    } else {
        Some(Player::Black)
    }
}

/// What the node at place `i` of the path of a playout (the root at 0) gains:
/// on a tie one win and two games; else one game, and a win on every other
/// node, starting at the root when the player to move there won.
pub open spec fn spec_credit(i: int, winner: Option<Player>, root_player: Player) -> (int, int) {
    match winner {
        None => (1, 2),
        Some(w) => (if (w == root_player) == (i % 2 == 0) { 1 } else { 0 }, 1),
    }
}

/// The wins and games that the node at place `i` of the path gains.
fn credit(i: usize, winner: Option<Player>, root_player: Player) -> (r: (usize, usize))
    ensures
        r.0 == spec_credit(i as int, winner, root_player).0,
        r.1 == spec_credit(i as int, winner, root_player).1,
{
    match winner {
        None => (1, 2),
        Some(w) => {
            let root_won = w == root_player;
            let even = i % 2 == 0;
            (if root_won == even { 1 } else { 0 }, 1)
        },
    }
}

/// The gains of the nodes along a path of `len` nodes, root first.
pub fn credits(len: usize, winner: Option<Player>, root_player: Player) -> (r: Vec<(usize, usize)>)
    ensures
        r@.len() == len,
        forall|i: int| 0 <= i < len ==> #[trigger] r@[i].0 == spec_credit(i, winner, root_player).0
            && r@[i].1 == spec_credit(i, winner, root_player).1,
{
    let mut r: Vec<(usize, usize)> = Vec::new();
    let mut i: usize = 0;
    while i < len
        invariant
            i <= len,
            r@.len() == i,
            forall|k: int| 0 <= k < i ==> #[trigger] r@[k].0 == spec_credit(k, winner, root_player).0
                && r@[k].1 == spec_credit(k, winner, root_player).1,
        decreases len - i,
    {
        r.push(credit(i, winner, root_player));
        i += 1;
    }
    r
}

/// Over a playout, a tie gives each node as many wins as half its games, and a
/// win gives two neighbouring nodes of the path one win between them.
pub proof fn lemma_credit_shares(i: int, winner: Option<Player>, root_player: Player)
    requires
        0 <= i,
    ensures
        winner is None ==> 2 * spec_credit(i, winner, root_player).0 == spec_credit(i, winner, root_player).1,
        winner is Some ==> spec_credit(i, winner, root_player).0 + spec_credit(i + 1, winner, root_player).0 == 1,
{
}

} // verus!
