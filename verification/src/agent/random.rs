use vstd::prelude::*;
use rand::seq::IteratorRandom;
use crate::data_model::{Direction, Game, MovePiece, PlayerMove};
use crate::game_logic::{is_move_direction_legal_with_player_at_position, spec_direction_legal};

verus! {

/// The directions in which the piece of the player to move may step, walls
/// and the edge of the board permitting, in the order of `Direction::iter`.
pub open spec fn spec_legal_directions(game: Game) -> Seq<Direction> {
    Direction::spec_all().filter(|d: Direction| spec_direction_legal(game.board.walls, game.board.pos(game.player), d))
}

/// The directions in which the piece of the player to move may step.
pub fn legal_directions(game: &Game) -> (v: Vec<Direction>)
    requires
        game.board.on_board(),
    ensures
        v@ == spec_legal_directions(*game),
{
    let pos = game.board.player_position(game.player);
    let all = Direction::iter();
    let ghost f = |d: Direction| spec_direction_legal(game.board.walls, game.board.pos(game.player), d);
    let mut v: Vec<Direction> = Vec::new();
    let mut i: usize = 0;
    while i < all.len()
        invariant
            game.board.on_board(),
            *pos == game.board.pos(game.player),
            f == (|d: Direction| spec_direction_legal(game.board.walls, game.board.pos(game.player), d)),
            all@ == Direction::spec_all(),
            i <= all@.len(),
            v@ == all@.take(i as int).filter(f),
        decreases all@.len() - i,
    {
        let d = all[i];
        proof {
            reveal_with_fuel(Seq::filter, 1);
            assert(all@.take(i as int + 1).drop_last() =~= all@.take(i as int));
        }
        if is_move_direction_legal_with_player_at_position(&game.board.walls, pos, &d) {
            v.push(d);
        }
        i += 1;
    }
    proof {
        assert(all@.take(all@.len() as int) =~= all@);
    }
    v
}

/// `IteratorRandom::choose` over the directions of `dirs`, with the thread's
/// random number generator: `None` when there is none, else one of them.
#[verifier::external_body]
fn choose_direction(dirs: &Vec<Direction>) -> (r: Option<Direction>)
    ensures
        r is None <==> dirs@.len() == 0,
        r matches Some(d) ==> dirs@.contains(d),
{
    dirs.iter().copied().choose(&mut rand::rng())
}

/// The bot that steps its piece in a direction picked at random among those
/// that walls and the edge of the board leave open.
#[derive(Default)]
pub struct Random {}

impl Random {
    /// A step of the piece of the player to move in a direction picked at
    /// random among the open ones; there is always one in a game played by
    /// the rules.
    pub fn get_move(&mut self, game: &Game) -> (m: PlayerMove)
        requires
            game.board.on_board(),
            spec_legal_directions(*game).len() > 0,
        ensures
            m matches PlayerMove::MovePiece(mp) && spec_legal_directions(*game).contains(mp.direction)
                && mp.direction_on_collision == Direction::Up,
    {
        let dirs = legal_directions(game);
        let dir = match choose_direction(&dirs) {
            Some(d) => d,
            None => {
                proof {
                    assert(false);
                }
                Direction::Up
            },
        };
        PlayerMove::MovePiece(MovePiece { direction: dir, direction_on_collision: Direction::Up })
    }
}

} // verus!
