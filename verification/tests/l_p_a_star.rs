use quoridor::bot::abe::alpha_beta::{
    alpha_beta, AlphaBetaResult, Cache, WHITE_LOSES_BLACK_WINS, WHITE_WINS_BLACK_LOSES,
};
use quoridor::bot::abe::heuristic::Heuristic;
use quoridor::bot::dedi::walls::{get_board, Tile};
use quoridor::data_model::{
    Board, Direction, Game, MovePiece, PiecePosition, Player, PlayerMove, WallOrientation,
    WallPosition,
};
use quoridor::game_logic::execute_move_unchecked;
use quoridor::l_p_a_star::Pathfinding;

#[test]
fn empty_board() {
    let board = Board::new();
    let mut pathfinding = Pathfinding::new(&board);
    let a = pathfinding
        .black
        .distance_to_goal(&PiecePosition::new(0, 1), &board.walls);
    assert_eq!(a, 1);
    assert_eq!(
        pathfinding
            .black
            .distance_to_goal(&PiecePosition::new(0, 0), &board.walls),
        0
    );
    assert_eq!(
        pathfinding
            .black
            .distance_to_goal(&PiecePosition::new(0, 5), &board.walls),
        5
    );
}

#[test]
fn walls() {
    let mut board = Board::new();
    board.walls.0[0][2] = Some(WallOrientation::Horizontal);
    board.walls.0[2][2] = Some(WallOrientation::Horizontal);
    let mut pathfinding = Pathfinding::new(&board);
    assert_eq!(
        pathfinding
            .black
            .distance_to_goal(&PiecePosition::new(0, 5), &board.walls),
        9
    );
}

#[test]
fn blocked() {
    let mut game = Game::new();
    game.board.walls.0[0][1] = Some(WallOrientation::Horizontal);
    game.board.walls.0[2][1] = Some(WallOrientation::Horizontal);
    game.board.walls.0[4][1] = Some(WallOrientation::Horizontal);
    game.board.walls.0[5][0] = Some(WallOrientation::Vertical);
    let mut pathfinding = Pathfinding::new(&game.board);
    assert_eq!(
        pathfinding
            .white
            .distance_to_goal(&PiecePosition::new(0, 0), &game.board.walls),
        u16::MAX
    );
    assert!(pathfinding.any_blocked(&game.board))
}

#[test]
fn blocked_iterative() {
    let mut game = Game::new();
    game.board.walls.0[2][2] = Some(WallOrientation::Horizontal);
    game.board.walls.0[2][3] = Some(WallOrientation::Horizontal);
    game.board.walls.0[2][4] = Some(WallOrientation::Horizontal);
    game.board.walls.0[1][3] = Some(WallOrientation::Vertical);
    game.board.player_positions[Player::Black.as_index()] = PiecePosition::new(2, 3);
    game.board.player_positions[Player::White.as_index()] = PiecePosition::new(2, 4);
    let mut pathfinding = Pathfinding::new(&game.board);
    assert!(!pathfinding.any_blocked(&game.board));
    let m = &PlayerMove::PlaceWall {
        orientation: WallOrientation::Vertical,
        position: WallPosition { x: 3, y: 3 },
    };
    let new_board = &execute_move_unchecked(&game, m).board;
    let mut pathfinding = pathfinding.clone_with_move(new_board, m);

    assert!(pathfinding.any_blocked(new_board));
}

#[test]
fn iterative() {
    let mut game = Game::new();
    game.board.walls.0[0][2] = Some(WallOrientation::Horizontal);
    game.board.walls.0[2][2] = Some(WallOrientation::Horizontal);
    let mut pathfinding = Pathfinding::new(&game.board);
    assert_eq!(
        pathfinding
            .black
            .distance_to_goal(&PiecePosition::new(0, 5), &game.board.walls),
        9
    );
    let m = &PlayerMove::PlaceWall {
        orientation: WallOrientation::Horizontal,
        position: WallPosition { x: 4, y: 2 },
    };
    let new_board = &execute_move_unchecked(&game, m).board;
    let mut pathfinding = pathfinding.clone_with_move(new_board, m);
    assert_eq!(
        pathfinding
            .black
            .distance_to_goal(&PiecePosition::new(0, 5), &new_board.walls),
        11
    );
    let m = &PlayerMove::MovePiece(MovePiece {
        direction: Direction::Right,
        direction_on_collision: Direction::Right,
    });
    assert_eq!(
        pathfinding
            .clone_with_move(&execute_move_unchecked(&game, m).board, m)
            .black
            .distance_to_goal(&PiecePosition::new(1, 5), &game.board.walls),
        10
    )
}

fn game() -> Game {
    let mut game = Game::new();
    game.board.walls.0[0][1] = Some(WallOrientation::Horizontal);
    game.board.walls.0[2][1] = Some(WallOrientation::Horizontal);
    game.board.walls.0[1][2] = Some(WallOrientation::Horizontal);
    game.board.walls.0[3][2] = Some(WallOrientation::Horizontal);
    game.board.walls.0[5][2] = Some(WallOrientation::Horizontal);
    game.board.walls.0[7][2] = Some(WallOrientation::Horizontal);
    game.board.walls.0[3][3] = Some(WallOrientation::Vertical);
    game.board.walls.0[4][4] = Some(WallOrientation::Horizontal);
    game.board.walls.0[6][4] = Some(WallOrientation::Horizontal);
    game.board.walls.0[3][5] = Some(WallOrientation::Vertical);
    game.board.walls.0[5][5] = Some(WallOrientation::Horizontal);
    game.board.walls.0[7][5] = Some(WallOrientation::Vertical);
    game.board.walls.0[6][6] = Some(WallOrientation::Vertical);
    game.board.walls.0[6][7] = Some(WallOrientation::Horizontal);
    game.board.player_positions[Player::White.as_index()] = PiecePosition { x: 6, y: 4 };
    game
}

#[test]
fn iterative_complex() {
    let game = game();
    let mut pathfinding = Pathfinding::new(&game.board);
    assert_eq!(
        pathfinding
            .white
            .distance_to_goal(game.board.player_position(Player::White), &game.board.walls),
        6
    );
    let m = &PlayerMove::PlaceWall {
        orientation: WallOrientation::Horizontal,
        position: WallPosition { x: 7, y: 3 },
    };
    let game = execute_move_unchecked(&game, m);
    let mut pathfinding = pathfinding.clone_with_move(&game.board, m);
    assert_eq!(
        pathfinding
            .white
            .distance_to_goal(game.board.player_position(Player::White), &game.board.walls),
        6
    );
    let m = &PlayerMove::PlaceWall {
        orientation: WallOrientation::Horizontal,
        position: WallPosition { x: 7, y: 6 },
    };
    let game = execute_move_unchecked(&game, m);
    println!("---\n\n\n\n\n\n\n\n\n\n\n\n\n\n---");
    let mut pathfinding = pathfinding.clone_with_move(&game.board, m);
    let d = pathfinding
        .white
        .distance_to_goal(game.board.player_position(Player::White), &game.board.walls);
    assert_eq!(d, u16::MAX);
}

fn step(d: Direction) -> PlayerMove {
    PlayerMove::MovePiece(MovePiece { direction: d, direction_on_collision: d })
}

fn wall(o: WallOrientation, x: usize, y: usize) -> PlayerMove {
    PlayerMove::PlaceWall { orientation: o, position: WallPosition { x, y } }
}

/// A game after which, with both distances asked before every move, the black
/// search settles on 7 for a square whose fewest steps to row 0 are 8: keys
/// queued for earlier goals end the search early.
fn game_with_short_estimate() -> (Game, Pathfinding) {
    let history = [
        wall(WallOrientation::Horizontal, 2, 6),
        step(Direction::Up),
        step(Direction::Down),
        wall(WallOrientation::Vertical, 3, 1),
        step(Direction::Down),
        wall(WallOrientation::Vertical, 4, 1),
        wall(WallOrientation::Vertical, 1, 3),
        step(Direction::Left),
        wall(WallOrientation::Vertical, 3, 4),
        step(Direction::Right),
        step(Direction::Up),
        wall(WallOrientation::Horizontal, 2, 1),
        wall(WallOrientation::Horizontal, 5, 1),
        step(Direction::Right),
    ];
    let mut game = Game::new();
    let mut pf = Pathfinding::new(&game.board);
    for m in history.iter() {
        let w = game.board.player_positions[0];
        let b = game.board.player_positions[1];
        pf.white.distance_to_goal(&w, &game.board.walls);
        pf.black.distance_to_goal(&b, &game.board.walls);
        game = execute_move_unchecked(&game, m);
        pf = pf.clone_with_move(&game.board, m);
    }
    (game, pf)
}

fn fewest_steps(game: &Game, player: Player) -> u16 {
    let pos = game.board.player_positions[player.as_index()];
    match get_board(game, player).tiles[pos.y][pos.x] {
        Tile::Valid(_, d) => d as u16,
        Tile::Invalid => u16::MAX,
    }
}

#[test]
fn estimate_after_game_can_be_short() {
    let (game, mut pf) = game_with_short_estimate();
    let w = game.board.player_positions[0];
    let b = game.board.player_positions[1];
    let white = pf.white.distance_to_goal(&w, &game.board.walls);
    let black = pf.black.distance_to_goal(&b, &game.board.walls);
    assert_eq!(white, fewest_steps(&game, Player::White));
    assert_eq!(fewest_steps(&game, Player::Black), 8);
    assert_eq!(black, 7);
}

/// The alpha-beta leaf scores the estimate, not the fewest steps.
#[test]
fn leaf_score_follows_the_estimate() {
    let (game, mut pf) = game_with_short_estimate();
    let white = fewest_steps(&game, Player::White) as isize;
    let mut cache = Cache::new();
    let r = alpha_beta(
        &game,
        0,
        WHITE_LOSES_BLACK_WINS,
        WHITE_WINS_BLACK_LOSES,
        &[],
        &|| false,
        Heuristic::DistanceOnly,
        &mut cache,
        100,
        &mut pf,
    );
    match r {
        AlphaBetaResult::Moves(e) => {
            assert_eq!(e.score, (7 - white) * 100);
            assert_ne!(e.score, (8 - white) * 100);
        }
        AlphaBetaResult::Stopped => panic!("not stopped"),
    }
}
