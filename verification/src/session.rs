use vstd::prelude::*;
use crate::data_model::{Game, Player, PlayerMove, WALLS_PER_PLAYER};
use crate::game_logic::{can_execute, can_execute_move, execute_move_unchecked, spec_executed};

verus! {

/// A game being played, with the positions before each move and the moves made.
pub struct Session {
    pub game: Game,
    pub game_history: Vec<Game>,
    pub move_history: Vec<PlayerMove>,
}

/// `g` is the position a game starts from.
pub open spec fn is_new_game(g: Game) -> bool {
    &&& g.player == Player::White
    &&& g.board.is_initial()
    &&& g.walls_left@ == seq![WALLS_PER_PLAYER, WALLS_PER_PLAYER]
}

impl Default for Session {
    fn default() -> (s: Self)
        ensures
            is_new_game(s.game),
            s.game_history@ == Seq::<Game>::empty(),
            s.move_history@ == Seq::<PlayerMove>::empty(),
    {
        Session { game: Game::new(), game_history: Vec::new(), move_history: Vec::new() }
    }
}

impl Session {
    /// Records `m` and the present position, and moves on to `game_state`.
    pub fn push(&mut self, game_state: Game, m: PlayerMove)
        ensures
            final(self).game == game_state,
            final(self).game_history@ == old(self).game_history@.push(old(self).game),
            final(self).move_history@ == old(self).move_history@.push(m),
    {
        self.move_history.push(m);
        self.game_history.push(self.game);
        self.game = game_state;
    }

    /// Plays `m` in the present position and records it.
    pub fn make_move(&mut self, m: PlayerMove)
        requires
            can_execute(old(self).game, m),
        ensures
            spec_executed(old(self).game, m, final(self).game),
            final(self).game_history@ == old(self).game_history@.push(old(self).game),
            final(self).move_history@ == old(self).move_history@.push(m),
    {
        let next = execute_move_unchecked(&self.game, &m);
        self.push(next, m);
    }

    /// Plays `m` when it can be executed in the present position; reports
    /// whether it was played.
    pub fn try_make_move(&mut self, m: PlayerMove) -> (played: bool)
        ensures
            played == can_execute(old(self).game, m),
            played ==> spec_executed(old(self).game, m, final(self).game)
                && final(self).game_history@ == old(self).game_history@.push(old(self).game)
                && final(self).move_history@ == old(self).move_history@.push(m),
            !played ==> *final(self) == *old(self),
    {
        if can_execute_move(&self.game, &m) {
            self.make_move(m);
            true
        } else {
            false
        }
    }

    /// Takes back the last `moves` moves, or all of them if fewer were made.
    pub fn undo(&mut self, moves: usize)
        requires
            old(self).game_history@.len() == old(self).move_history@.len(),
        ensures
            ({
                let n = old(self).game_history@.len();
                let k = if moves < n { moves as int } else { n as int };
                &&& final(self).game_history@ == old(self).game_history@.subrange(0, n - k)
                &&& final(self).move_history@ == old(self).move_history@.subrange(0, n - k)
                &&& final(self).game == if k == 0 { old(self).game } else { old(self).game_history@[n - k] }
            }),
    {
        let ghost n = self.game_history@.len();
        let mut i: usize = 0;
        while i < moves
            invariant
                i <= moves,
                self.game_history@.len() == self.move_history@.len(),
                i <= n,
                self.game_history@ == old(self).game_history@.subrange(0, n - i),
                self.move_history@ == old(self).move_history@.subrange(0, n - i),
                old(self).game_history@.len() == n,
                old(self).move_history@.len() == n,
                self.game == if i == 0 { old(self).game } else { old(self).game_history@[n - i] },
            ensures
                ({
                    let k = if moves < n { moves as int } else { n as int };
                    &&& self.game_history@ == old(self).game_history@.subrange(0, n - k)
                    &&& self.move_history@ == old(self).move_history@.subrange(0, n - k)
                    &&& self.game == if k == 0 { old(self).game } else { old(self).game_history@[n - k] }
                }),
            decreases moves - i,
        {
            match self.game_history.pop() {
                Some(new_current) => {
                    self.game = new_current;
                    self.move_history.pop();
                    i += 1;
                    assert(self.game_history@ =~= old(self).game_history@.subrange(0, n - i));
                    assert(self.move_history@ =~= old(self).move_history@.subrange(0, n - i));
                },
                None => {
                    break;
                },
            }
        }
    }

    /// Starts over from a new game.
    pub fn reset(&mut self)
        ensures
            is_new_game(final(self).game),
            final(self).game_history@ == Seq::<Game>::empty(),
            final(self).move_history@ == Seq::<PlayerMove>::empty(),
    {
        *self = Session::default();
    }
}

/// Taking back a move undoes it: after `make_move` and then `undo(1)` the
/// session holds the position and the histories it had before.
pub proof fn lemma_undo_after_move(before: Session, played: Session, after: Session, m: PlayerMove)
    requires
        before.game_history@.len() == before.move_history@.len(),
        played.game_history@ == before.game_history@.push(before.game),
        played.move_history@ == before.move_history@.push(m),
        ({
            let n = played.game_history@.len();
            &&& after.game_history@ == played.game_history@.subrange(0, n - 1)
            &&& after.move_history@ == played.move_history@.subrange(0, n - 1)
            &&& after.game == played.game_history@[n - 1]
        }),
    ensures
        after.game == before.game,
        after.game_history@ == before.game_history@,
        after.move_history@ == before.move_history@,
{
    assert(after.game_history@ =~= before.game_history@);
    assert(after.move_history@ =~= before.move_history@);
}

} // verus!
