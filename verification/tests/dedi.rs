use quoridor::bot::dedi::heuristic::Heuristic;
use quoridor::bot::dedi::minimax::{minimax, minimax_iterative, Cache, INF};
use quoridor::bot::dedi::walls::{get_board, get_wall_moves, Tile, _get_wall_moves};
use quoridor::bot::monte::monte::{get_legal_destinations, get_legal_piece_moves};
use quoridor::data_model::{Game, PiecePosition, Player, PlayerMove, WallOrientation};
use std::time::Duration;

fn distance(t: Tile) -> Option<u8> {
    match t {
        Tile::Valid(_, d) => Some(d),
        Tile::Invalid => None,
    }
}

#[test]
fn board_distances_on_empty_board() {
    let game = Game::new();
    let white = get_board(&game, Player::White);
    assert_eq!(distance(white.tiles[8][4]), Some(0));
    assert_eq!(distance(white.tiles[0][4]), Some(8));
    let black = get_board(&game, Player::Black);
    assert_eq!(distance(black.tiles[8][4]), Some(8));
    assert_eq!(distance(black.tiles[3][0]), Some(3));
}

#[test]
fn board_distances_around_a_wall() {
    let mut game = Game::new();
    game.board.walls.0[3][7] = Some(WallOrientation::Horizontal);
    let white = get_board(&game, Player::White);
    assert_eq!(distance(white.tiles[7][4]), Some(2));
    assert_eq!(distance(white.tiles[7][3]), Some(2));
    assert_eq!(distance(white.tiles[7][5]), Some(1));
    assert_eq!(distance(white.tiles[6][4]), Some(3));
}

#[test]
fn wall_moves_of_the_first_position() {
    let game = Game::new();
    let all = _get_wall_moves(&game);
    assert_eq!(all.len(), 128);
    let mut no_walls = Game::new();
    no_walls.walls_left = [0, 10];
    let b1 = get_board(&no_walls, Player::White);
    let b2 = get_board(&no_walls, Player::Black);
    assert_eq!(get_wall_moves(&no_walls, &b1, &b2).len(), 0);
}

#[test]
fn piece_moves_of_the_first_position() {
    let game = Game::new();
    let moves = get_legal_piece_moves(&game, Player::White);
    assert_eq!(moves.len(), 3);
    let mut facing = Game::new();
    facing.board.player_positions[0] = PiecePosition::new(4, 4);
    facing.board.player_positions[1] = PiecePosition::new(4, 5);
    assert_eq!(get_legal_piece_moves(&facing, Player::White).len(), 4);
}

#[test]
fn minimax_takes_the_winning_step() {
    let mut game = Game::new();
    game.board.player_positions[0] = PiecePosition::new(4, 7);
    let mut cache = Cache::new();
    let r = minimax(&game, 2, None, &mut cache).unwrap();
    assert_eq!(r.1, INF);
    match r.0 {
        Some(PlayerMove::MovePiece(mp)) => assert_eq!(mp.direction, quoridor::data_model::Direction::Down),
        _ => panic!("expected a piece move"),
    }
}

#[test]
fn minimax_at_depth_zero_evaluates() {
    let game = Game::new();
    let mut cache = Cache::new();
    let r = minimax(&game, 0, None, &mut cache).unwrap();
    assert_eq!(r, (None, 0));
}

#[test]
fn iterative_search_finds_a_move() {
    let mut game = Game::new();
    game.board.player_positions[0] = PiecePosition::new(4, 7);
    let mut cache = Cache::new();
    let m = minimax_iterative(&game, Duration::from_millis(500), &mut cache);
    assert!(m.is_some());
}

#[test]
fn dedi_heuristics() {
    let game = Game::new();
    let b1 = get_board(&game, Player::White);
    let b2 = get_board(&game, Player::Black);
    assert_eq!(Heuristic::Simple.eval(&game, Player::White, &b1, &b2), -80 + 150);
    assert_eq!(Heuristic::Tt.eval(&game, Player::White, &b1, &b2), -80 + 10 * (8 + 4));
}

#[test]
fn destinations_of_the_pieces() {
    let game = Game::new();
    let d = get_legal_destinations(&game.board.walls, (4, 0), (4, 8));
    assert_eq!(d.as_slice(), &[(4, 1), (5, 0), (3, 0)]);
    let facing = get_legal_destinations(&game.board.walls, (4, 4), (4, 5));
    assert_eq!(facing.as_slice(), &[(4, 6), (4, 3), (5, 4), (3, 4)]);
    let mut walled = Game::new();
    walled.board.walls.0[3][5] = Some(WallOrientation::Horizontal);
    let side = get_legal_destinations(&walled.board.walls, (4, 4), (4, 5));
    assert_eq!(side.as_slice(), &[(3, 5), (5, 5), (4, 3), (5, 4), (3, 4)]);
}

#[test]
fn fresh_board_distances_are_the_fewest_steps() {
    let mut game = Game::new();
    game.board.player_positions[0] = PiecePosition::new(0, 0);
    game.board.walls.0[0][0] = Some(WallOrientation::Horizontal);
    let white = get_board(&game, Player::White);
    match white.tiles[0][0] {
        Tile::Valid(_, d) => assert_eq!(d, 10),
        Tile::Invalid => panic!("reachable square marked unreachable"),
    }
    match white.tiles[4][4] {
        Tile::Valid(_, d) => assert_eq!(d, 4),
        Tile::Invalid => panic!("reachable square marked unreachable"),
    }
}

/// A wall that touches nothing keeps the boards given, so the move list can
/// carry a distance that the wall has made too short: the wall in front of the
/// white piece at the start leaves it 8 on the kept board, 9 on a new one.
#[test]
fn untouched_wall_keeps_the_boards() {
    let game = Game::new();
    let b1 = get_board(&game, Player::White);
    let b2 = get_board(&game, Player::Black);
    let moves = get_wall_moves(&game, &b1, &b2);
    let wall = PlayerMove::PlaceWall {
        orientation: WallOrientation::Horizontal,
        position: quoridor::data_model::WallPosition { x: 3, y: 0 },
    };
    let entry = moves.iter().find(|e| e.0 == wall).unwrap();
    assert_eq!(distance(entry.1.tiles[0][4]), Some(8));
    let mut after = Game::new();
    after.board.walls.set(3, 0, Some(WallOrientation::Horizontal));
    assert_eq!(distance(get_board(&after, Player::White).tiles[0][4]), Some(9));
}
