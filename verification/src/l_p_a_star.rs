use vstd::prelude::*;
use crate::a_star_to_opponent::{neighbors, step_prefix};
use crate::data_model::{
    Board, PiecePosition, Player, PlayerMove, WallOrientation, WallPosition, Walls,
    PIECE_GRID_HEIGHT, PIECE_GRID_WIDTH,
};
use crate::priority_queue::{item_of, lex_le, PriorityQueue};

verus! {

/// Incremental searches, one per player, of the distance from each piece to its
/// goal row.
pub struct Pathfinding {
    pub white: LPAStar,
    pub black: LPAStar,
}

/// The estimates of a square: `g` the distance settled so far, `rhs` the one-step
/// lookahead; `u16::MAX` stands for unknown.
#[derive(Debug, Clone, Copy, PartialEq, Eq, Structural, Hash)]
pub struct Estimates {
    pub g: u16,
    pub rhs: u16,
}

/// The key by which a square is queued: the estimate plus the heuristic, then the
/// estimate.
#[derive(Debug, Clone, Copy, PartialEq, Eq, Structural, Hash)]
pub struct Key(pub u16, pub u16);

impl Key {
    pub open spec fn pair(self) -> (usize, usize) {
        (self.0 as usize, self.1 as usize)
    }
}

pub open spec fn u16_abs_diff(a: int, b: int) -> int {
    if a < b { b - a } else { a - b }
}

/// The number of rows and columns between `pos` and `goal`, cut to 16 bits.
pub open spec fn spec_heuristic(pos: PiecePosition, goal: PiecePosition) -> u16 {
    (u16_abs_diff(pos.x as int, goal.x as int) + u16_abs_diff(pos.y as int, goal.y as int)) as u16
}

pub fn heuristic(pos: &PiecePosition, goal: &PiecePosition) -> (h: u16)
    requires
        pos.on_board(),
        goal.on_board(),
    ensures
        h == spec_heuristic(*pos, *goal),
        h <= 16,
{
    let dx = if pos.x < goal.x { goal.x - pos.x } else { pos.x - goal.x };
    let dy = if pos.y < goal.y { goal.y - pos.y } else { pos.y - goal.y };
    (dx + dy) as u16
}

/// The row where the search of `player` starts: the row that `player` has to reach.
pub open spec fn spec_start_y(player: Player) -> int {
    match player {
        Player::White => PIECE_GRID_HEIGHT - 1,
        Player::Black => 0,
    }
}

pub fn start_y(player: Player) -> (y: usize)
    ensures
        y == spec_start_y(player),
{
    match player {
        Player::White => PIECE_GRID_HEIGHT - 1,
        Player::Black => 0,
    }
}

pub fn is_start(pos: &PiecePosition, player: Player) -> (r: bool)
    ensures
        r == (pos.y == spec_start_y(player)),
{
    pos.y == start_y(player)
}

/// The key of a square with estimates `e`: `min(g, rhs)` plus the heuristic
/// (saturating), then `min(g, rhs)`.
pub open spec fn spec_key(e: Estimates, pos: PiecePosition, goal: PiecePosition) -> Key {
    let k2 = if e.g < e.rhs { e.g } else { e.rhs };
    let sum = k2 + spec_heuristic(pos, goal);
    Key(if sum > u16::MAX { u16::MAX } else { sum as u16 }, k2)
}

fn calculate_key_of_estimates(estimates: &Estimates, pos: &PiecePosition, goal: &PiecePosition) -> (k: Key)
    requires
        pos.on_board(),
        goal.on_board(),
    ensures
        k == spec_key(*estimates, *pos, *goal),
{
    let k2 = if estimates.g < estimates.rhs { estimates.g } else { estimates.rhs };
    let k1 = k2.saturating_add(heuristic(pos, goal));
    Key(k1, k2)
}

/// The lookahead of a square: one more than the least `g` among `nbs`
/// (saturating), `u16::MAX` when `nbs` is empty.
pub open spec fn spec_lookahead(est: Seq<Seq<Estimates>>, nbs: Seq<PiecePosition>) -> u16
    decreases nbs.len(),
{
    if nbs.len() == 0 {
        u16::MAX
    } else {
        let rest = spec_lookahead(est, nbs.drop_last());
        let p = nbs.last();
        let g = est[p.y as int][p.x as int].g;
        let v = if g == u16::MAX { u16::MAX } else { (g + 1) as u16 };
        if v < rest { v } else { rest }
    }
}

/// The squares one legal step from a square of the board are on the board.
proof fn lemma_prefix_on_board(walls: Walls, p: PiecePosition, n: int)
    requires
        p.on_board(),
    ensures
        forall|k: int| 0 <= k < step_prefix(walls, p, n).len() ==> (#[trigger] step_prefix(walls, p, n)[k]).on_board(),
    decreases n,
{
    if n > 0 {
        lemma_prefix_on_board(walls, p, n - 1);
        let prev = step_prefix(walls, p, n - 1);
        let all = step_prefix(walls, p, n);
        assert forall|k: int| 0 <= k < all.len() implies (#[trigger] all[k]).on_board() by {
            if k < prev.len() {
                assert(all[k] == prev[k]);
            }
        }
    }
}

/// The lookahead reads only the `g` estimates of the squares it is given.
proof fn lemma_lookahead_same_g(r1: Seq<Seq<Estimates>>, r2: Seq<Seq<Estimates>>, nbs: Seq<PiecePosition>)
    requires
        forall|k: int| 0 <= k < nbs.len() ==> (#[trigger] nbs[k]).on_board(),
        forall|x: int, y: int| 0 <= x < 9 && 0 <= y < 9 ==> #[trigger] r1[y][x].g == r2[y][x].g,
    ensures
        spec_lookahead(r1, nbs) == spec_lookahead(r2, nbs),
    decreases nbs.len(),
{
    if nbs.len() > 0 {
        lemma_lookahead_same_g(r1, r2, nbs.drop_last());
        let p = nbs.last();
        assert(p.on_board());
        assert(r1[p.y as int][p.x as int].g == r2[p.y as int][p.x as int].g);
    }
}

/// An incremental search of the distance from a goal square to the row of
/// `player`, the `start` row.
pub struct LPAStar {
    board: [[Estimates; PIECE_GRID_WIDTH]; PIECE_GRID_HEIGHT],
    player: Player,
    queue: PriorityQueue,
}

/// `after` is `before` told of a wall at slot `pos`, the walls now being
/// `walls`: every `g` stays, and of the four squares around the slot each gets
/// the lookahead of its neighbours under `walls` (a square of the start row
/// keeps its own); every other estimate stays.
pub open spec fn wall_update(before: LPAStar, after: LPAStar, pos: WallPosition, walls: Walls) -> bool {
    &&& after.spec_player() == before.spec_player()
    &&& forall|x: int, y: int| 0 <= x < 9 && 0 <= y < 9 ==> #[trigger] after.est(x, y).g == before.est(x, y).g
    &&& forall|x: int, y: int|
        0 <= x < 9 && 0 <= y < 9 && !(pos.x <= x <= pos.x + 1 && pos.y <= y <= pos.y + 1) ==> #[trigger] after.est(x, y)
            == before.est(x, y)
    &&& forall|x: int, y: int|
        pos.x <= x <= pos.x + 1 && pos.y <= y <= pos.y + 1 ==> #[trigger] after.est(x, y).rhs == if y == spec_start_y(
            before.spec_player(),
        ) {
            before.est(x, y).rhs
        } else {
            spec_lookahead(before.rows(), step_prefix(walls, PiecePosition { x: x as usize, y: y as usize }, 4))
        }
}

impl Clone for LPAStar {
    fn clone(&self) -> (r: Self)
        ensures
            r.same_state(*self),
    {
        LPAStar { board: self.board, player: self.player, queue: self.queue.clone() }
    }
}

impl Pathfinding {
    /// Neither search has a square queued: asking either for a distance
    /// changes nothing and gives the estimate it holds.
    pub open spec fn frozen(self) -> bool {
        &&& self.white.queued().dom() == Set::<(usize, usize)>::empty()
        &&& self.black.queued().dom() == Set::<(usize, usize)>::empty()
    }

    /// Both searches are well formed, the white one for white and the black one
    /// for black.
    pub open spec fn wf(self) -> bool {
        &&& self.white.wf()
        &&& self.black.wf()
        &&& self.white.spec_player() == Player::White
        &&& self.black.spec_player() == Player::Black
    }

    pub fn new(board: &Board) -> (s: Self)
        requires
            board.on_board(),
        ensures
            s.wf(),
    {
        Self {
            white: LPAStar::new(Player::White, board.player_position(Player::White)),
            black: LPAStar::new(Player::Black, board.player_position(Player::Black)),
        }
    }

    /// Whether either piece has no way to its goal row; the white search is
    /// settled first and the black one only when white is not blocked.
    pub fn any_blocked(&mut self, board: &Board) -> (r: bool)
        requires
            old(self).wf(),
            board.on_board(),
        ensures
            final(self).wf(),
            r == (final(self).white.est(board.pos(Player::White).x as int, board.pos(Player::White).y as int).g
                == u16::MAX || final(self).black.est(board.pos(Player::Black).x as int, board.pos(Player::Black).y as int).g
                == u16::MAX),
            old(self).frozen() ==> *final(self) == *old(self),
    {
        self.white.distance_to_goal(board.player_position(Player::White), &board.walls) == u16::MAX
            || self.black.distance_to_goal(board.player_position(Player::Black), &board.walls) == u16::MAX
    }

    /// A copy of the searches after `m`: a piece move changes nothing, a wall
    /// updates the squares around it in both searches under the walls of
    /// `new_board` (see `wall_update`). Nothing is settled here.
    pub fn clone_with_move(&self, new_board: &Board, m: &PlayerMove) -> (r: Self)
        requires
            self.wf(),
            new_board.on_board(),
            m matches PlayerMove::PlaceWall { position, .. } ==> position.on_grid(),
        ensures
            r.wf(),
            m is MovePiece ==> r.white.same_state(self.white) && r.black.same_state(self.black),
            m matches PlayerMove::PlaceWall { position, .. } ==> wall_update(self.white, r.white, *position, new_board.walls)
                && wall_update(self.black, r.black, *position, new_board.walls),
    {
        let mut clone = self.clone();
        proof {
            clone.white.lemma_same_state(self.white);
            clone.black.lemma_same_state(self.black);
        }
        proof {
            assert(clone.white.rows() == self.white.rows());
            assert(clone.black.rows() == self.black.rows());
        }
        match m {
            PlayerMove::MovePiece(_) => {},
            PlayerMove::PlaceWall { orientation, position } => {
                clone.white.place_wall(
                    position,
                    *orientation,
                    new_board.player_position(Player::White),
                    &new_board.walls,
                );
                clone.black.place_wall(
                    position,
                    *orientation,
                    new_board.player_position(Player::Black),
                    &new_board.walls,
                );
            },
        }
        clone
    }
}

impl Clone for Pathfinding {
    fn clone(&self) -> (r: Self)
        ensures
            r.white.same_state(self.white),
            r.black.same_state(self.black),
    {
        Pathfinding { white: self.white.clone(), black: self.black.clone() }
    }
}

impl LPAStar {
    /// The estimates of the square at column `x`, row `y`.
    pub closed spec fn est(self, x: int, y: int) -> Estimates {
        self.board@[y]@[x]
    }

    /// Both searches hold the same estimates, player and queue.
    pub closed spec fn same_state(self, other: Self) -> bool {
        &&& self.board == other.board
        &&& self.player == other.player
        &&& self.queue@ == other.queue@
    }

    /// Searches in the same state agree on everything the contracts speak of.
    pub proof fn lemma_same_state(self, other: Self)
        requires
            self.same_state(other),
        ensures
            self.wf() == other.wf(),
            self.spec_player() == other.spec_player(),
            self.queued() == other.queued(),
            forall|x: int, y: int| #[trigger] self.est(x, y) == other.est(x, y),
    {
        if self.wf() {
            Self::lemma_wf_transfer(self, other);
        }
        if other.wf() {
            Self::lemma_wf_transfer(other, self);
        }
    }

    proof fn lemma_wf_transfer(a: Self, b: Self)
        requires
            a.same_state(b) || b.same_state(a),
            a.wf(),
        ensures
            b.wf(),
    {
        assert(a.queued() == b.queued());
        assert forall|p: PiecePosition| p.on_board() implies (#[trigger] b.queued().dom().contains(item_of(p)) <==> b.inconsistent(p)) by {
            assert(a.queued().dom().contains(item_of(p)) <==> a.inconsistent(p));
        }
        assert forall|x: int| 0 <= x < 9 implies #[trigger] b.est(x, spec_start_y(b.spec_player())).rhs == 0 by {
            assert(a.est(x, spec_start_y(a.spec_player())).rhs == 0);
        }
    }

    pub closed spec fn rows(self) -> Seq<Seq<Estimates>> {
        Seq::new(9, |y: int| self.board@[y]@)
    }

    pub closed spec fn spec_player(self) -> Player {
        self.player
    }

    /// The queued squares, each with its key.
    pub closed spec fn queued(self) -> Map<(usize, usize), (usize, usize)> {
        self.queue@
    }

    /// The square is inconsistent: its two estimates differ.
    pub open spec fn inconsistent(self, p: PiecePosition) -> bool {
        self.est(p.x as int, p.y as int).g != self.est(p.x as int, p.y as int).rhs
    }

    /// The queue holds exactly the inconsistent squares of the board, and each
    /// square of the start row has lookahead 0.
    pub open spec fn wf(self) -> bool {
        self.wf_except(None)
    }

    /// `wf`, but for the queue entry of the square `exempt`.
    pub open spec fn wf_except(self, exempt: Option<PiecePosition>) -> bool {
        &&& self.queued().dom().finite()
        &&& forall|it: (usize, usize)| #[trigger] self.queued().dom().contains(it) ==> it.0 < 9 && it.1 < 9
        &&& forall|p: PiecePosition| p.on_board() && exempt != Some(p) ==> (#[trigger] self.queued().dom().contains(item_of(p)) <==> self.inconsistent(p))
        &&& forall|x: int| 0 <= x < 9 ==> #[trigger] self.est(x, spec_start_y(self.spec_player())).rhs == 0
    }

    fn get(&self, pos: &PiecePosition) -> (e: Estimates)
        requires
            pos.on_board(),
        ensures
            e == self.est(pos.x as int, pos.y as int),
    {
        self.board[pos.y][pos.x]
    }

    fn set(&mut self, pos: &PiecePosition, e: Estimates)
        requires
            pos.on_board(),
        ensures
            final(self).player == old(self).player,
            final(self).queue@ == old(self).queue@,
            forall|x: int, y: int| 0 <= x < 9 && 0 <= y < 9 ==> #[trigger] final(self).est(x, y)
                == if x == pos.x && y == pos.y { e } else { old(self).est(x, y) },
    {
        let mut row = self.board[pos.y];
        row[pos.x] = e;
        self.board[pos.y] = row;
    }

    pub fn new(player: Player, goal: &PiecePosition) -> (s: Self)
        requires
            goal.on_board(),
        ensures
            s.wf(),
            s.spec_player() == player,
            forall|x: int, y: int| 0 <= x < 9 && 0 <= y < 9 ==> #[trigger] s.est(x, y) == (Estimates {
                g: u16::MAX,
                rhs: if y == spec_start_y(player) { 0 } else { u16::MAX },
            }),
    {
        let start_estimates = Estimates { g: u16::MAX, rhs: 0 };
        let default_estimates = Estimates { g: u16::MAX, rhs: u16::MAX };
        let sy = start_y(player);
        let mut board = [[default_estimates; PIECE_GRID_WIDTH]; PIECE_GRID_HEIGHT];
        let mut row = board[sy];
        let mut x: usize = 0;
        while x < PIECE_GRID_WIDTH
            invariant
                x <= 9,
                forall|i: int| 0 <= i < 9 ==> #[trigger] row@[i] == if i < x { start_estimates } else { default_estimates },
            decreases 9 - x,
        {
            row[x] = start_estimates;
            x += 1;
        }
        board[sy] = row;
        let mut queue = PriorityQueue::new();
        let mut start_x: usize = 0;
        while start_x < PIECE_GRID_WIDTH
            invariant
                start_x <= 9,
                sy == spec_start_y(player),
                goal.on_board(),
                queue@.dom().finite(),
                forall|it: (usize, usize)| #[trigger] queue@.dom().contains(it) <==> it.1 == sy && it.0 < start_x,
            decreases 9 - start_x,
        {
            let pos = PiecePosition::new(start_x, sy);
            let k = calculate_key_of_estimates(&start_estimates, &pos, goal);
            queue.insert((k.0 as usize, k.1 as usize), pos);
            start_x += 1;
        }
        let s = Self { board, player, queue };
        proof {
            assert forall|x: int, y: int| 0 <= x < 9 && 0 <= y < 9 implies #[trigger] s.est(x, y) == (Estimates {
                g: u16::MAX,
                rhs: if y == spec_start_y(player) { 0 } else { u16::MAX },
            }) by {
                if y == sy {
                    assert(row@[x] == start_estimates);
                }
            }
            assert forall|p: PiecePosition| p.on_board() implies (#[trigger] s.queued().dom().contains(item_of(p)) <==> s.inconsistent(p)) by {
                assert(s.est(p.x as int, p.y as int) == s.est(p.x as int, p.y as int));
            }
        }
        s
    }

    /// Recomputes the lookahead of `pos` from its neighbours under `walls` (the
    /// start row keeps 0) and queues `pos` exactly if it is inconsistent.
    fn update_node(&mut self, pos: &PiecePosition, goal: &PiecePosition, walls: &Walls)
        requires
            old(self).wf_except(Some(*pos)),
            pos.y == spec_start_y(old(self).spec_player()) ==> old(self).wf(),
            pos.on_board(),
            goal.on_board(),
        ensures
            final(self).wf(),
            final(self).spec_player() == old(self).spec_player(),
            forall|x: int, y: int| 0 <= x < 9 && 0 <= y < 9 && !(x == pos.x && y == pos.y) ==> #[trigger] final(self).est(x, y) == old(self).est(x, y),
            final(self).est(pos.x as int, pos.y as int).g == old(self).est(pos.x as int, pos.y as int).g,
            final(self).est(pos.x as int, pos.y as int).rhs == if pos.y == spec_start_y(old(self).spec_player()) {
                old(self).est(pos.x as int, pos.y as int).rhs
            } else {
                spec_lookahead(old(self).rows(), step_prefix(*walls, *pos, 4))
            },
    {
        if !is_start(pos, self.player) {
            let nbs = neighbors(walls, pos);
            let mut new_rhs: u16 = u16::MAX;
            let mut i: usize = 0;
            while i < nbs.len()
                invariant
                    i <= nbs.len(),
                    nbs@ == step_prefix(*walls, *pos, 4),
                    forall|k: int| 0 <= k < nbs.len() ==> (#[trigger] nbs@[k]).on_board(),
                    new_rhs == spec_lookahead(self.rows(), nbs@.take(i as int)),
                decreases nbs.len() - i,
            {
                let n = nbs[i];
                let g = self.get(&n).g;
                let v = g.saturating_add(1);
                if v < new_rhs {
                    new_rhs = v;
                }
                proof {
                    assert(nbs@.take(i + 1).drop_last() =~= nbs@.take(i as int));
                    assert(self.rows()[n.y as int][n.x as int] == self.est(n.x as int, n.y as int));
                }
                i += 1;
            }
            proof {
                assert(nbs@.take(nbs.len() as int) =~= nbs@);
            }
            let mut e = self.get(pos);
            e.rhs = new_rhs;
            self.set(pos, e);
            let ghost after_set = *self;
            if self.queue.contains(pos) {
                self.queue.remove(pos);
            }
            let e2 = self.get(pos);
            if e2.g != e2.rhs {
                let k = calculate_key_of_estimates(&e2, pos, goal);
                self.queue.insert((k.0 as usize, k.1 as usize), *pos);
            }
            proof {
                assert forall|p: PiecePosition| p.on_board() implies (#[trigger] self.queued().dom().contains(item_of(p)) <==> self.inconsistent(p)) by {
                    if p != *pos {
                        assert(item_of(p) != item_of(*pos));
                        assert(old(self).queued().dom().contains(item_of(p)) <==> old(self).inconsistent(p));
                        assert(after_set.est(p.x as int, p.y as int) == old(self).est(p.x as int, p.y as int));
                        assert(self.board == after_set.board);
                    }
                }
                assert(self.board == after_set.board);
                assert forall|x: int, y: int| 0 <= x < 9 && 0 <= y < 9 && !(x == pos.x && y == pos.y) implies #[trigger] self.est(x, y) == old(self).est(x, y) by {
                    assert(after_set.est(x, y) == old(self).est(x, y));
                }
                assert(after_set.est(pos.x as int, pos.y as int) == e);
                assert forall|x: int| 0 <= x < 9 implies #[trigger] self.est(x, spec_start_y(self.spec_player())).rhs == 0 by {
                    assert(old(self).est(x, spec_start_y(self.spec_player())).rhs == 0);
                    assert(after_set.est(x, spec_start_y(self.spec_player())) == old(self).est(x, spec_start_y(self.spec_player())));
                    assert(self.board == after_set.board);
                }
            }
        }
    }

    /// Settles the search for `goal` under `walls` and returns the settled
    /// distance of `goal`: `u16::MAX` stands for unreachable. The keys of the
    /// squares already queued were computed for the goals of earlier calls, so
    /// the value is the search's own estimate, not always the fewest steps.
    pub fn distance_to_goal(&mut self, goal: &PiecePosition, walls: &Walls) -> (d: u16)
        requires
            old(self).wf(),
            goal.on_board(),
        ensures
            final(self).wf(),
            final(self).spec_player() == old(self).spec_player(),
            d == final(self).est(goal.x as int, goal.y as int).g,
            old(self).queued().dom() == Set::<(usize, usize)>::empty() ==> *final(self) == *old(self),
    {
        self.compute_shortest_path(goal, walls);
        let estimates = self.get(goal);
        estimates.g
    }

    /// Updates the four squares around the wall slot `pos`, whose neighbours a
    /// wall there changes, under the new `walls`: each gets the lookahead of
    /// its neighbours under `walls` (the start row keeps its own), and every
    /// other estimate stays.
    fn place_wall(&mut self, pos: &WallPosition, _orientation: WallOrientation, goal: &PiecePosition, walls: &Walls)
        requires
            old(self).wf(),
            pos.on_grid(),
            goal.on_board(),
        ensures
            final(self).wf(),
            final(self).spec_player() == old(self).spec_player(),
            forall|x: int, y: int| 0 <= x < 9 && 0 <= y < 9 ==> #[trigger] final(self).est(x, y).g == old(self).est(x, y).g,
            forall|x: int, y: int|
                0 <= x < 9 && 0 <= y < 9 && !(pos.x <= x <= pos.x + 1 && pos.y <= y <= pos.y + 1)
                    ==> #[trigger] final(self).est(x, y) == old(self).est(x, y),
            forall|x: int, y: int|
                pos.x <= x <= pos.x + 1 && pos.y <= y <= pos.y + 1 ==> #[trigger] final(self).est(x, y).rhs == if y
                    == spec_start_y(old(self).spec_player()) {
                    old(self).est(x, y).rhs
                } else {
                    spec_lookahead(old(self).rows(), step_prefix(*walls, PiecePosition { x: x as usize, y: y as usize }, 4))
                },
    {
        let mut dx: usize = 0;
        while dx < 2
            invariant
                dx <= 2,
                pos.on_grid(),
                goal.on_board(),
                self.wf(),
                self.spec_player() == old(self).spec_player(),
                forall|x: int, y: int| 0 <= x < 9 && 0 <= y < 9 ==> #[trigger] self.est(x, y).g == old(self).est(x, y).g,
                forall|x: int, y: int|
                    0 <= x < 9 && 0 <= y < 9 && !(pos.x <= x < pos.x + dx && pos.y <= y <= pos.y + 1)
                        ==> #[trigger] self.est(x, y) == old(self).est(x, y),
                forall|x: int, y: int|
                    pos.x <= x < pos.x + dx && pos.y <= y <= pos.y + 1 ==> #[trigger] self.est(x, y).rhs == if y
                        == spec_start_y(old(self).spec_player()) {
                        old(self).est(x, y).rhs
                    } else {
                        spec_lookahead(old(self).rows(), step_prefix(*walls, PiecePosition { x: x as usize, y: y as usize }, 4))
                    },
            decreases 2 - dx,
        {
            let mut dy: usize = 0;
            while dy < 2
                invariant
                    dx < 2,
                    dy <= 2,
                    pos.on_grid(),
                    goal.on_board(),
                    self.wf(),
                    self.spec_player() == old(self).spec_player(),
                    forall|x: int, y: int| 0 <= x < 9 && 0 <= y < 9 ==> #[trigger] self.est(x, y).g == old(self).est(x, y).g,
                    forall|x: int, y: int|
                        0 <= x < 9 && 0 <= y < 9 && !((pos.x <= x < pos.x + dx && pos.y <= y <= pos.y + 1) || (x == pos.x + dx
                            && pos.y <= y < pos.y + dy)) ==> #[trigger] self.est(x, y) == old(self).est(x, y),
                    forall|x: int, y: int|
                        (pos.x <= x < pos.x + dx && pos.y <= y <= pos.y + 1) || (x == pos.x + dx && pos.y <= y < pos.y + dy)
                            ==> #[trigger] self.est(x, y).rhs == if y == spec_start_y(old(self).spec_player()) {
                            old(self).est(x, y).rhs
                        } else {
                            spec_lookahead(old(self).rows(), step_prefix(*walls, PiecePosition { x: x as usize, y: y as usize }, 4))
                        },
                decreases 2 - dy,
            {
                let p = PiecePosition::new(pos.x + dx, pos.y + dy);
                let ghost before = *self;
                proof {
                    lemma_prefix_on_board(*walls, p, 4);
                    assert forall|x: int, y: int| 0 <= x < 9 && 0 <= y < 9 implies #[trigger] before.rows()[y][x].g
                        == old(self).rows()[y][x].g by {
                        assert(before.rows()[y][x] == before.est(x, y));
                        assert(old(self).rows()[y][x] == old(self).est(x, y));
                    }
                    lemma_lookahead_same_g(before.rows(), old(self).rows(), step_prefix(*walls, p, 4));
                }
                self.update_node(&p, goal, walls);
                dy += 1;
            }
            dx += 1;
        }
    }

    /// The least key among the queued squares, if any square is queued.
    pub open spec fn spec_settled(self, goal: PiecePosition) -> bool {
        self.queued().dom() =~= Set::empty() || {
            &&& !self.inconsistent(goal)
            &&& forall|x: int| 0 <= x < 9 ==> !#[trigger] self.inconsistent(PiecePosition { x: x as usize, y: spec_start_y(self.spec_player()) as usize })
            &&& forall|it: (usize, usize)| #[trigger] self.queued().dom().contains(it) ==> lex_le(
                spec_key(self.est(goal.x as int, goal.y as int), goal, goal).pair(),
                self.queued()[it],
            )
        }
    }

    fn is_inconsistent(&self, pos: &PiecePosition) -> (r: bool)
        requires
            pos.on_board(),
        ensures
            r == self.inconsistent(*pos),
    {
        let estimates = self.get(pos);
        estimates.g != estimates.rhs
    }

    fn calculate_key(&self, pos: &PiecePosition, goal: &PiecePosition) -> (k: Key)
        requires
            pos.on_board(),
            goal.on_board(),
        ensures
            k == spec_key(self.est(pos.x as int, pos.y as int), *pos, *goal),
    {
        let estimates = self.get(pos);
        calculate_key_of_estimates(&estimates, pos, goal)
    }

    fn any_start_inconsistent(&self) -> (r: bool)
        ensures
            r == exists|x: int| 0 <= x < 9 && #[trigger] self.inconsistent(PiecePosition { x: x as usize, y: spec_start_y(self.spec_player()) as usize }),
    {
        let sy = start_y(self.player);
        let mut x: usize = 0;
        while x < PIECE_GRID_WIDTH
            invariant
                x <= 9,
                sy == spec_start_y(self.spec_player()),
                forall|i: int| 0 <= i < x ==> !#[trigger] self.inconsistent(PiecePosition { x: i as usize, y: sy }),
            decreases 9 - x,
        {
            if self.is_inconsistent(&PiecePosition::new(x, sy)) {
                proof {
                    assert(self.inconsistent(PiecePosition { x: (x as int) as usize, y: spec_start_y(self.spec_player()) as usize }));
                }
                return true;
            }
            x += 1;
        }
        false
    }

    /// Settles the estimates: repeatedly takes a square of least key off the queue
    /// and makes it consistent (or resets its `g` and requeues it), updating its
    /// neighbours, until the goal and the start row are consistent and no queued key
    /// is below the key of the goal. The steps are counted in a `u64`; returns
    /// whether the search settled before the count ran out.
    fn compute_shortest_path(&mut self, goal: &PiecePosition, walls: &Walls) -> (settled: bool)
        requires
            old(self).wf(),
            goal.on_board(),
        ensures
            final(self).wf(),
            final(self).spec_player() == old(self).spec_player(),
            settled == final(self).spec_settled(*goal),
            old(self).queued().dom() == Set::<(usize, usize)>::empty() ==> *final(self) == *old(self),
    {
        let mut steps: u64 = 0;
        loop
            invariant
                self.wf(),
                self.spec_player() == old(self).spec_player(),
                goal.on_board(),
                steps == 0 ==> *self == *old(self),
                old(self).queued().dom() == Set::<(usize, usize)>::empty() ==> steps == 0,
            decreases u64::MAX - steps,
        {
            let (top_key, top_pos) = match self.queue.peek() {
                Some((k, t)) => (k, t),
                None => {
                    return true;
                },
            };
            proof {
                if steps == 0 {
                    assert(self.queue@.dom().contains(item_of(top_pos)));
                    assert(old(self).queued().dom().contains(item_of(top_pos)));
                }
            }
            let goal_key = self.calculate_key(goal, goal);
            let goal_inconsistent = self.is_inconsistent(goal);
            let any_start_inconsistent = self.any_start_inconsistent();
            let key_reached = (goal_key.0 as usize) < top_key.0 || (goal_key.0 as usize == top_key.0
                && goal_key.1 as usize <= top_key.1);
            if !goal_inconsistent && !any_start_inconsistent && key_reached {
                proof {
                    assert forall|it: (usize, usize)| #[trigger] self.queued().dom().contains(it) implies lex_le(
                        spec_key(self.est(goal.x as int, goal.y as int), *goal, *goal).pair(),
                        self.queued()[it],
                    ) by {
                        assert(lex_le(top_key, self.queue@[it]));
                    }
                }
                return true;
            }
            if steps == u64::MAX {
                proof {
                    assert(self.queued().dom().contains(item_of(top_pos)));
                    assert(!(self.queued().dom() =~= Set::empty()));
                    if !goal_inconsistent && !any_start_inconsistent {
                        assert(!lex_le(
                            spec_key(self.est(goal.x as int, goal.y as int), *goal, *goal).pair(),
                            self.queued()[item_of(top_pos)],
                        ));
                    }
                }
                return false;
            }
            steps += 1;
            let ghost before_pop = *self;
            let top_pos = match self.queue.pop() {
                Some((_, p)) => p,
                None => {
                    return true;
                },
            };
            proof {
                assert(before_pop.queued().dom().contains((top_pos.x, top_pos.y)));
                assert(top_pos.on_board());
            }
            let mut estimates = self.get(&top_pos);
            if estimates.g > estimates.rhs {
                estimates.g = estimates.rhs;
                let ghost after_pop = *self;
                self.set(&top_pos, estimates);
                proof {
                    assert forall|p: PiecePosition| p.on_board() implies (#[trigger] self.queued().dom().contains(item_of(p)) <==> self.inconsistent(p)) by {
                        if p != top_pos {
                            assert(item_of(p) != item_of(top_pos));
                            assert(before_pop.queued().dom().contains(item_of(p)) <==> before_pop.inconsistent(p));
                            assert(self.est(p.x as int, p.y as int) == after_pop.est(p.x as int, p.y as int));
                        }
                    }
                    assert forall|x: int| 0 <= x < 9 implies #[trigger] self.est(x, spec_start_y(self.spec_player())).rhs == 0 by {
                        assert(before_pop.est(x, spec_start_y(before_pop.spec_player())).rhs == 0);
                        assert(after_pop.board == before_pop.board);
                        assert(after_pop.est(x, spec_start_y(self.spec_player())).rhs == 0);
                    }
                }
            } else {
                let ghost after_pop = *self;
                proof {
                    assert(before_pop.inconsistent(top_pos));
                    assert(top_pos.y != spec_start_y(self.spec_player()));
                }
                estimates.g = u16::MAX;
                self.set(&top_pos, estimates);
                proof {
                    assert forall|p: PiecePosition| p.on_board() && Some(top_pos) != Some(p) implies (#[trigger] self.queued().dom().contains(item_of(p)) <==> self.inconsistent(p)) by {
                        assert(item_of(p) != item_of(top_pos));
                        assert(before_pop.queued().dom().contains(item_of(p)) <==> before_pop.inconsistent(p));
                        assert(self.est(p.x as int, p.y as int) == after_pop.est(p.x as int, p.y as int));
                    }
                    assert forall|x: int| 0 <= x < 9 implies #[trigger] self.est(x, spec_start_y(self.spec_player())).rhs == 0 by {
                        assert(before_pop.est(x, spec_start_y(before_pop.spec_player())).rhs == 0);
                        assert(after_pop.board == before_pop.board);
                        assert(after_pop.est(x, spec_start_y(self.spec_player())).rhs == 0);
                    }
                }
                self.update_node(&top_pos, goal, walls);
            }
            let nbs = neighbors(walls, &top_pos);
            let mut j: usize = 0;
            while j < nbs.len()
                invariant
                    self.wf(),
                    self.spec_player() == old(self).spec_player(),
                    goal.on_board(),
                    j <= nbs.len(),
                    forall|k: int| 0 <= k < nbs.len() ==> (#[trigger] nbs@[k]).on_board(),
                decreases nbs.len() - j,
            {
                let n = nbs[j];
                self.update_node(&n, goal, walls);
                j += 1;
            }
        }
    }
}

} // verus!
