use vstd::prelude::*;
use crate::bot::abe::heuristic::game_ok;
use crate::bot::dedi::minimax::{tile_distance, INF};
use crate::bot::dedi::walls::{tile_at, Board, Tile};
use crate::data_model::{Game, Player};

verus! {

/// The evaluations the minimax bot can use.
#[derive(Debug, Default, Clone, Copy, PartialEq, Eq, Structural)]
pub enum Heuristic {
    #[default]
    Simple,
    Tt,
}

/// The distance of the piece of `player` that `board` gives.
pub open spec fn piece_distance(game: Game, player: Player, board: Board) -> int {
    let p = game.board.pos(player);
    tile_distance(tile_at(board, p.x as int, p.y as int))
}

fn distance_of(game: &Game, player: Player, board: &Board) -> (d: isize)
    requires
        game_ok(*game),
    ensures
        d == piece_distance(*game, player, *board),
        0 <= d <= 255,
{
    let pos = game.board.player_position(player);
    match board.tiles[pos.y][pos.x] {
        Tile::Valid(_, distance) => distance as isize,
        Tile::Invalid => 255,
    }
}

/// `INF` when the piece is home; else ten less per step, and per wall left
/// eight plus half the opponent's distance.
pub open spec fn spec_tt(game: Game, player: Player, board: Board, opponent_board: Board) -> int {
    let d = piece_distance(game, player, board);
    let od = piece_distance(game, player.other(), opponent_board);
    if d == 0 {
        INF as int
    } else {
        -d * 10 + game.walls_left@[player.index()] * (8 + od / 2)
    }
}

/// `INF` when the piece is home; else ten less per step and fifteen per wall left.
pub open spec fn spec_simple(game: Game, player: Player, board: Board) -> int {
    let d = piece_distance(game, player, board);
    if d == 0 {
        INF as int
    } else {
        -d * 10 + game.walls_left@[player.index()] * 15
    }
}

fn tt(game: &Game, player: Player, board: &Board, opponent_board: &Board) -> (h: isize)
    requires
        game_ok(*game),
    ensures
        h == spec_tt(*game, player, *board, *opponent_board),
{
    let distance = distance_of(game, player, board);
    let opponent_distance = distance_of(game, player.opponent(), opponent_board);
    if distance == 0 {
        return INF;
    }
    let mut h: isize = 0;
    h -= distance * 10;
    let w = game.walls_left[player.as_index()] as isize;
    let f = 8 + opponent_distance / 2;
    assert(0 <= w * f <= 20 * 136) by (nonlinear_arith)
        requires
            0 <= w <= 20,
            0 <= f <= 136,
    ;
    h += w * f;
    h
}

fn simple(game: &Game, player: Player, board: &Board, _opponent_board: &Board) -> (h: isize)
    requires
        game_ok(*game),
    ensures
        h == spec_simple(*game, player, *board),
{
    let dis = distance_of(game, player, board);
    if dis == 0 {
        return INF;
    }
    let mut h: isize = 0;
    h -= dis * 10;
    h += game.walls_left[player.as_index()] as isize * 15;
    h
}

impl Heuristic {
    /// The value of `game` for `player` under this evaluation; a square that
    /// the board marks unreachable counts as distance 255.
    pub fn eval(&self, game: &Game, player: Player, board: &Board, opponent_board: &Board) -> (h: isize)
        requires
            game_ok(*game),
        ensures
            h == match *self {
                Heuristic::Simple => spec_simple(*game, player, *board),
                Heuristic::Tt => spec_tt(*game, player, *board, *opponent_board),
            },
    {
        match self {
            Heuristic::Simple => simple(game, player, board, opponent_board),
            Heuristic::Tt => tt(game, player, board, opponent_board),
        }
    }
}

} // verus!
