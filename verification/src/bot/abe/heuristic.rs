use vstd::prelude::*;
use crate::bot::abe::alpha_beta::{WHITE_LOSES_BLACK_WINS, WHITE_WINS_BLACK_LOSES};
use crate::data_model::{
    Game, Player, Walls, WallOrientation, PIECE_GRID_HEIGHT, TOTAL_WALLS, WALL_GRID_HEIGHT,
    WALL_GRID_WIDTH,
};
use crate::l_p_a_star::Pathfinding;

verus! {

/// The position evaluations the alpha-beta bot can search with; positive is
/// good for white.
#[derive(Debug, Default, Clone, Copy, PartialEq, Eq, Structural)]
pub enum Heuristic {
    #[default]
    WallsBehind,
    Forward,
    Basic,
    DistanceOnly,
}

/// A game the evaluations accept: both pieces on the board, and no more walls
/// left to the two players together than the game has (more would take the
/// count of walls played below zero).
pub open spec fn game_ok(game: Game) -> bool {
    &&& game.board.on_board()
    &&& game.walls_left@[0] + game.walls_left@[1] <= TOTAL_WALLS
}

/// The distance of the black piece that the searches of `pf` hold.
pub open spec fn black_distance(game: Game, pf: Pathfinding) -> int {
    pf.black.est(game.board.pos(Player::Black).x as int, game.board.pos(Player::Black).y as int).g as int
}

pub open spec fn white_distance(game: Game, pf: Pathfinding) -> int {
    pf.white.est(game.board.pos(Player::White).x as int, game.board.pos(Player::White).y as int).g as int
}

/// The number of horizontal walls among the slots `(x, y)`, `x` in `first`,
/// `first + 2`, ... below `WALL_GRID_WIDTH`, counted from slot `x`.
pub open spec fn count_every_other(walls: Walls, x: int, y: int) -> int
    decreases 10 - x,
{
    if x >= 8 || x < 0 {
        0
    } else {
        (if walls.spec_wall_at(WallOrientation::Horizontal, x, y) { 1int } else { 0int })
            + count_every_other(walls, x + 2, y)
    }
}

/// The longer of the two rows of horizontal walls that could stand side by side
/// in wall row `y`.
pub open spec fn walls_in_row(walls: Walls, y: int) -> int {
    let even = count_every_other(walls, 0, y);
    let odd = count_every_other(walls, 1, y);
    if even < odd { odd } else { even }
}

/// The most walls in one row among the wall rows `from <= y < to`; 0 for none.
pub open spec fn walls_behind_rows(walls: Walls, from: int, to: int) -> int
    decreases to - from,
{
    if from >= to {
        0
    } else {
        let here = walls_in_row(walls, from);
        let rest = walls_behind_rows(walls, from + 1, to);
        if here < rest { rest } else { here }
    }
}

pub open spec fn spec_walls_behind(game: Game, black_d: int, white_d: int) -> int {
    let wl_w = game.walls_left@[0] as int;
    let wl_b = game.walls_left@[1] as int;
    if black_d == 0 {
        WHITE_LOSES_BLACK_WINS as int
    } else if white_d == 0 {
        WHITE_WINS_BLACK_LOSES as int
    } else {
        let wall_score = wl_w * (50 + black_d * 5) - wl_b * (50 + white_d * 5);
        let distance_score = (black_d - white_d) * 100;
        let white_behind = walls_behind_rows(game.board.walls, 0, game.board.pos(Player::White).y as int);
        let black_behind = walls_behind_rows(game.board.walls, game.board.pos(Player::Black).y as int, WALL_GRID_HEIGHT as int);
        let walls_behind_score = (white_behind - black_behind) * ((50 * (wl_w + wl_b)) / TOTAL_WALLS as int);
        wall_score + distance_score + walls_behind_score
    }
}

pub open spec fn spec_forward(game: Game) -> int {
    100 * (game.board.pos(Player::Black).y - (PIECE_GRID_HEIGHT - 1 - game.board.pos(Player::White).y))
}

/// Integer division truncating toward zero.
pub open spec fn div_trunc(n: int, d: int) -> int {
    if n >= 0 { n / d } else { -((-n) / d) }
}

pub open spec fn spec_basic(game: Game, black_d: int, white_d: int) -> int {
    let wl_w = game.walls_left@[0] as int;
    let wl_b = game.walls_left@[1] as int;
    if black_d == 0 {
        WHITE_LOSES_BLACK_WINS as int
    } else if white_d == 0 {
        WHITE_WINS_BLACK_LOSES as int
    } else {
        let played = TOTAL_WALLS - wl_w - wl_b;
        // the wall weight 75 - 50 * played / 20 times the wall difference, cut toward zero
        100 * (black_d - white_d) + div_trunc((150 - 5 * played) * (wl_w - wl_b), 2)
    }
}

pub open spec fn spec_distance_only(black_d: int, white_d: int) -> int {
    if black_d == 0 {
        WHITE_LOSES_BLACK_WINS as int
    } else if white_d == 0 {
        WHITE_WINS_BLACK_LOSES as int
    } else {
        (black_d - white_d) * 100
    }
}

pub open spec fn spec_eval(h: Heuristic, game: Game, black_d: int, white_d: int) -> int {
    match h {
        Heuristic::WallsBehind => spec_walls_behind(game, black_d, white_d),
        Heuristic::Forward => spec_forward(game),
        Heuristic::Basic => spec_basic(game, black_d, white_d),
        Heuristic::DistanceOnly => spec_distance_only(black_d, white_d),
    }
}

impl Heuristic {
    /// The value of `game` under this evaluation, from the distances that
    /// `pathfinding` settles.
    pub fn eval(&self, game: &Game, pathfinding: &mut Pathfinding) -> (r: isize)
        requires
            game_ok(*game),
            old(pathfinding).wf(),
        ensures
            final(pathfinding).wf(),
            r == spec_eval(*self, *game, black_distance(*game, *final(pathfinding)), white_distance(*game, *final(pathfinding))),
            old(pathfinding).frozen() ==> *final(pathfinding) == *old(pathfinding),
            r >= WHITE_LOSES_BLACK_WINS,
    {
        match self {
            Heuristic::WallsBehind => walls_behind(game, pathfinding),
            Heuristic::Forward => forward(game, pathfinding),
            Heuristic::Basic => basic(game, pathfinding),
            Heuristic::DistanceOnly => distance_only(game, pathfinding),
        }
    }
}

proof fn lemma_small_product(a: int, b: int, max_a: int, max_b: int)
    by (nonlinear_arith)
    requires
        0 <= a <= max_a,
        0 <= b <= max_b,
    ensures
        0 <= a * b <= max_a * max_b,
        0 <= b * a <= max_a * max_b,
{
}

proof fn lemma_signed_product(a: int, b: int, max_a: int, max_b: int)
    by (nonlinear_arith)
    requires
        -max_a <= a <= max_a,
        0 <= b <= max_b,
    ensures
        -(max_a * max_b) <= a * b <= max_a * max_b,
        -(max_a * max_b) <= b * a <= max_a * max_b,
{
}

fn count_in_row(walls: &Walls, first: usize, y: usize) -> (r: usize)
    requires
        first < 2,
        y < WALL_GRID_HEIGHT,
    ensures
        r == count_every_other(*walls, first as int, y as int),
        r <= 4,
{
    let mut count: usize = 0;
    let mut x: usize = 7 - ((7 - first) % 2);
    proof {
        assert(x == first + 6);
    }
    let mut done = false;
    // walk the slots backwards so the count of the slots to the right is known
    while !done
        invariant
            first < 2,
            y < WALL_GRID_HEIGHT,
            x >= first,
            (x - first) % 2 == 0,
            x <= first + 6,
            !done ==> count == count_every_other(*walls, x + 2, y as int),
            done ==> count == count_every_other(*walls, first as int, y as int),
            count <= (first + 6 - x) / 2 + 1,
            !done ==> count <= (first + 6 - x) / 2,
        decreases x + (if done { 0int } else { 1int }),
    {
        if walls.wall_at(WallOrientation::Horizontal, x as isize, y as isize) {
            count += 1;
        }
        if x == first {
            done = true;
        } else {
            x -= 2;
        }
    }
    count
}

fn walls_behind_range(walls: &Walls, from: usize, to: usize) -> (r: usize)
    requires
        to <= WALL_GRID_HEIGHT,
    ensures
        r == walls_behind_rows(*walls, from as int, to as int),
        r <= 4,
{
    if from >= to {
        return 0;
    }
    let mut best: usize = 0;
    let mut y: usize = to;
    while y > from
        invariant
            from < to <= WALL_GRID_HEIGHT,
            from <= y <= to,
            best == walls_behind_rows(*walls, y as int, to as int),
            best <= 4,
        decreases y,
    {
        y -= 1;
        let even = count_in_row(walls, 0, y);
        let odd = count_in_row(walls, 1, y);
        let here = if even < odd { odd } else { even };
        if here >= best {
            best = here;
        }
    }
    best
}

fn walls_behind(game: &Game, pathfinding: &mut Pathfinding) -> (r: isize)
    requires
        game_ok(*game),
        old(pathfinding).wf(),
    ensures
        final(pathfinding).wf(),
        r == spec_walls_behind(*game, black_distance(*game, *final(pathfinding)), white_distance(*game, *final(pathfinding))),
        old(pathfinding).frozen() ==> *final(pathfinding) == *old(pathfinding),
        r >= WHITE_LOSES_BLACK_WINS,
{
    let black_pos = game.board.player_position(Player::Black);
    let black_distance = pathfinding.black.distance_to_goal(black_pos, &game.board.walls) as isize;
    if black_distance == 0 {
        return WHITE_LOSES_BLACK_WINS;
    }
    let white_pos = game.board.player_position(Player::White);
    let white_distance = pathfinding.white.distance_to_goal(white_pos, &game.board.walls) as isize;
    if white_distance == 0 {
        return WHITE_WINS_BLACK_LOSES;
    }
    let white_walls_left = game.walls_left[Player::White.as_index()] as isize;
    let black_walls_left = game.walls_left[Player::Black.as_index()] as isize;
    proof {
        lemma_small_product(white_walls_left as int, 50 + black_distance * 5, 20, 400000);
        lemma_small_product(black_walls_left as int, 50 + white_distance * 5, 20, 400000);
    }
    let white_wall_score = white_walls_left * (50 + black_distance * 5);
    let black_wall_score = black_walls_left * (50 + white_distance * 5);
    let distance_score = (black_distance - white_distance) * 100;
    let wall_score = white_wall_score - black_wall_score;
    let white_walls_behind = walls_behind_range(&game.board.walls, 0, white_pos.y) as isize;
    let black_walls_behind = walls_behind_range(&game.board.walls, black_pos.y, WALL_GRID_HEIGHT) as isize;
    let walls_left = game.walls_left[Player::White.as_index()] + game.walls_left[Player::Black.as_index()];
    proof {
        lemma_signed_product(white_walls_behind - black_walls_behind, (50 * walls_left as int) / 20, 4, 50);
    }
    let walls_behind_score = (white_walls_behind - black_walls_behind) * ((50 * walls_left / TOTAL_WALLS) as isize);
    wall_score + distance_score + walls_behind_score
}

fn forward(game: &Game, _pathfinding: &mut Pathfinding) -> (r: isize)
    requires
        game_ok(*game),
    ensures
        r == spec_forward(*game),
        r >= WHITE_LOSES_BLACK_WINS,
        *final(_pathfinding) == *old(_pathfinding),
{
    let black = game.board.player_position(Player::Black).y as isize;
    let white = PIECE_GRID_HEIGHT as isize - 1 - (game.board.player_position(Player::White).y as isize);
    100 * (black - white)
}

fn basic(game: &Game, pathfinding: &mut Pathfinding) -> (r: isize)
    requires
        game_ok(*game),
        old(pathfinding).wf(),
    ensures
        final(pathfinding).wf(),
        r == spec_basic(*game, black_distance(*game, *final(pathfinding)), white_distance(*game, *final(pathfinding))),
        old(pathfinding).frozen() ==> *final(pathfinding) == *old(pathfinding),
        r >= WHITE_LOSES_BLACK_WINS,
{
    let black_distance = pathfinding.black.distance_to_goal(game.board.player_position(Player::Black), &game.board.walls) as isize;
    if black_distance == 0 {
        return WHITE_LOSES_BLACK_WINS;
    }
    let white_distance = pathfinding.white.distance_to_goal(game.board.player_position(Player::White), &game.board.walls) as isize;
    if white_distance == 0 {
        return WHITE_WINS_BLACK_LOSES;
    }
    let white_walls_left = game.walls_left[Player::White.as_index()] as isize;
    let black_walls_left = game.walls_left[Player::Black.as_index()] as isize;
    let distance_score = black_distance - white_distance;
    let wall_score = white_walls_left - black_walls_left;
    let total_walls_played = (TOTAL_WALLS - game.walls_left[Player::White.as_index()] - game.walls_left[Player::Black.as_index()]) as isize;
    proof {
        lemma_signed_product(wall_score as int, 150 - 5 * total_walls_played, 20, 150);
    }
    let weighted = (150 - 5 * total_walls_played) * wall_score;
    let wall_term = if weighted >= 0 { weighted / 2 } else { -((-weighted) / 2) };
    100 * distance_score + wall_term
}

fn distance_only(game: &Game, pathfinding: &mut Pathfinding) -> (r: isize)
    requires
        game_ok(*game),
        old(pathfinding).wf(),
    ensures
        final(pathfinding).wf(),
        r == spec_distance_only(black_distance(*game, *final(pathfinding)), white_distance(*game, *final(pathfinding))),
        old(pathfinding).frozen() ==> *final(pathfinding) == *old(pathfinding),
        r >= WHITE_LOSES_BLACK_WINS,
{
    let black_distance = pathfinding.black.distance_to_goal(game.board.player_position(Player::Black), &game.board.walls) as isize;
    if black_distance == 0 {
        return WHITE_LOSES_BLACK_WINS;
    }
    let white_distance = pathfinding.white.distance_to_goal(game.board.player_position(Player::White), &game.board.walls) as isize;
    if white_distance == 0 {
        return WHITE_WINS_BLACK_LOSES;
    }
    (black_distance - white_distance) * 100
}


/// Walls behind white count for white: with the distances, the walls left and
/// the rows behind black unchanged, a position whose longest row of walls
/// behind white is at least as long scores at least as high, and one whose
/// longest row behind black is at least as long scores at most as high. The
/// difference is the difference in rows times the weight `50 * walls left / 20`.
pub proof fn lemma_walls_behind_sides(g1: Game, g2: Game, black_d: int, white_d: int)
    requires
        g1.walls_left == g2.walls_left,
        g1.board.player_positions == g2.board.player_positions,
        black_d != 0,
        white_d != 0,
    ensures
        ({
            let w1 = walls_behind_rows(g1.board.walls, 0, g1.board.pos(Player::White).y as int);
            let w2 = walls_behind_rows(g2.board.walls, 0, g2.board.pos(Player::White).y as int);
            let k1 = walls_behind_rows(g1.board.walls, g1.board.pos(Player::Black).y as int, WALL_GRID_HEIGHT as int);
            let k2 = walls_behind_rows(g2.board.walls, g2.board.pos(Player::Black).y as int, WALL_GRID_HEIGHT as int);
            let weight = (50 * (g1.walls_left@[0] + g1.walls_left@[1])) / TOTAL_WALLS as int;
            &&& spec_walls_behind(g2, black_d, white_d) - spec_walls_behind(g1, black_d, white_d) == ((w2 - w1) - (k2 - k1)) * weight
            &&& w2 >= w1 && k2 == k1 ==> spec_walls_behind(g2, black_d, white_d) >= spec_walls_behind(g1, black_d, white_d)
            &&& w2 == w1 && k2 >= k1 ==> spec_walls_behind(g2, black_d, white_d) <= spec_walls_behind(g1, black_d, white_d)
        }),
{
    let w1 = walls_behind_rows(g1.board.walls, 0, g1.board.pos(Player::White).y as int);
    let w2 = walls_behind_rows(g2.board.walls, 0, g2.board.pos(Player::White).y as int);
    let k1 = walls_behind_rows(g1.board.walls, g1.board.pos(Player::Black).y as int, WALL_GRID_HEIGHT as int);
    let k2 = walls_behind_rows(g2.board.walls, g2.board.pos(Player::Black).y as int, WALL_GRID_HEIGHT as int);
    let weight = (50 * (g1.walls_left@[0] + g1.walls_left@[1])) / TOTAL_WALLS as int;
    assert(weight >= 0);
    assert((w2 - k2) * weight - (w1 - k1) * weight == ((w2 - w1) - (k2 - k1)) * weight) by (nonlinear_arith);
    assert(w2 >= w1 && k2 == k1 ==> ((w2 - w1) - (k2 - k1)) * weight >= 0) by (nonlinear_arith)
        requires
            weight >= 0,
    ;
    assert(w2 == w1 && k2 >= k1 ==> ((w2 - w1) - (k2 - k1)) * weight <= 0) by (nonlinear_arith)
        requires
            weight >= 0,
    ;
}


/// The evaluations that read distances: a position where black has arrived is
/// lost for white and one where white has arrived (black not) is won; else
/// each step more that black has to go adds 100 (and, by walls behind, five
/// per wall white has left), and each step more for white takes off as much
/// for white.
pub proof fn lemma_eval_distances(h: Heuristic, game: Game, black_d: int, white_d: int)
    requires
        h != Heuristic::Forward,
    ensures
        black_d == 0 ==> spec_eval(h, game, black_d, white_d) == WHITE_LOSES_BLACK_WINS as int,
        black_d != 0 && white_d == 0 ==> spec_eval(h, game, black_d, white_d) == WHITE_WINS_BLACK_LOSES as int,
        black_d > 0 && white_d > 0 ==> spec_eval(h, game, black_d + 1, white_d) - spec_eval(h, game, black_d, white_d) == 100
            + if h == Heuristic::WallsBehind { 5 * game.walls_left@[0] } else { 0 },
        black_d > 0 && white_d > 0 ==> spec_eval(h, game, black_d, white_d + 1) - spec_eval(h, game, black_d, white_d) == -100
            - if h == Heuristic::WallsBehind { 5 * game.walls_left@[1] } else { 0 },
{
    let wl_w = game.walls_left@[0] as int;
    let wl_b = game.walls_left@[1] as int;
    assert(wl_w * (50 + (black_d + 1) * 5) - wl_w * (50 + black_d * 5) == 5 * wl_w) by (nonlinear_arith);
    assert(wl_b * (50 + (white_d + 1) * 5) - wl_b * (50 + white_d * 5) == 5 * wl_b) by (nonlinear_arith);
}

/// The forward evaluation: each row that white has come down and each row that
/// black is still away from its goal row is worth 100 to white.
pub proof fn lemma_forward_rows(g1: Game, g2: Game)
    ensures
        spec_eval(Heuristic::Forward, g2, 0, 0) - spec_eval(Heuristic::Forward, g1, 0, 0) == 100 * ((g2.board.pos(
            Player::White,
        ).y - g1.board.pos(Player::White).y) + (g2.board.pos(Player::Black).y - g1.board.pos(Player::Black).y)),
{
}

} // verus!
