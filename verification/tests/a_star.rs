use quoridor::a_star::a_star;
use quoridor::a_star_to_opponent::a_star_to_opponent;
use quoridor::data_model::{Game, PiecePosition, Player, WallOrientation};

#[test]
fn single_wall_test() {
    let mut game = Game::new();
    game.board.walls.0[3][2] = Some(WallOrientation::Horizontal);
    let path = a_star(&game.board, Player::White);
    assert!(path.is_some());
    let path = path.unwrap();
    assert_eq!(
        path,
        vec![
            PiecePosition::new(4, 1),
            PiecePosition::new(4, 2),
            PiecePosition::new(5, 2),
            PiecePosition::new(5, 3),
            PiecePosition::new(5, 4),
            PiecePosition::new(5, 5),
            PiecePosition::new(5, 6),
            PiecePosition::new(5, 7),
            PiecePosition::new(5, 8),
        ]
    );
}

#[test]
fn complex_wall_test() {
    let mut game = Game::new();
    game.board.player_positions[Player::White.as_index()] = PiecePosition::new(4, 4);
    game.board.player_positions[Player::Black.as_index()] = PiecePosition::new(3, 4);
    game.board.walls.0[2][3] = Some(WallOrientation::Vertical);
    game.board.walls.0[3][3] = Some(WallOrientation::Vertical);
    game.board.walls.0[2][5] = Some(WallOrientation::Vertical);
    game.board.walls.0[4][3] = Some(WallOrientation::Horizontal);
    game.board.walls.0[4][4] = Some(WallOrientation::Horizontal);
    game.board.walls.0[5][5] = Some(WallOrientation::Vertical);
    let path = a_star(&game.board, Player::White);
    assert!(path.is_some());
}

#[test]
fn on_goal_test() {
    let mut game = Game::new();
    game.board.player_positions[0] = PiecePosition::new(4, 8);
    let path = a_star(&game.board, Player::White);
    assert!(path.is_some());
    let path = path.unwrap();
    assert_eq!(path.len(), 0);
}

#[test]
fn distance_between_players() {
    let mut game = Game::new();
    game.board.player_positions[0] = PiecePosition::new(0, 0);
    game.board.player_positions[1] = PiecePosition::new(1, 0);
    let path = a_star_to_opponent(&game.board, Player::White);
    assert!(path.is_some());
    let path = path.unwrap();
    assert_eq!(path.len(), 1);
}

#[test]
fn a_star_black_walks_up_an_empty_board() {
    let game = Game::new();
    let path = a_star(&game.board, Player::Black).unwrap();
    assert_eq!(path.len(), 8);
    assert_eq!(path.last().unwrap().y, 0);
}

#[test]
fn a_star_finds_no_path_when_walled_in() {
    let mut game = Game::new();
    for x in [0, 2, 4, 6] {
        game.board.walls.0[x][0] = Some(WallOrientation::Horizontal);
    }
    game.board.walls.0[7][0] = Some(WallOrientation::Vertical);
    assert!(a_star(&game.board, Player::White).is_none());
    assert!(a_star(&game.board, Player::Black).is_some());
}

#[test]
fn a_star_to_opponent_walks_around_a_wall() {
    let mut game = Game::new();
    game.board.player_positions[0] = PiecePosition::new(0, 0);
    game.board.player_positions[1] = PiecePosition::new(1, 0);
    game.board.walls.0[0][0] = Some(WallOrientation::Vertical);
    let path = a_star_to_opponent(&game.board, Player::White).unwrap();
    assert_eq!(path.len(), 5);
    assert_eq!(path.last(), Some(&PiecePosition::new(1, 0)));
}

#[test]
fn a_star_to_opponent_takes_the_shortest_detour() {
    let mut game = Game::new();
    game.board.player_positions[0] = PiecePosition::new(0, 0);
    game.board.player_positions[1] = PiecePosition::new(0, 2);
    game.board.walls.0[0][0] = Some(WallOrientation::Horizontal);
    let path = a_star_to_opponent(&game.board, Player::White).unwrap();
    assert_eq!(path.len(), 6);
    assert_eq!(*path.last().unwrap(), PiecePosition::new(0, 2));
}

#[test]
fn a_star_around_a_wall_is_at_most_one_longer_than_the_fewest_moves() {
    let mut game = Game::new();
    game.board.player_positions[0] = PiecePosition::new(0, 0);
    game.board.walls.0[0][0] = Some(WallOrientation::Horizontal);
    let path = a_star(&game.board, Player::White).unwrap();
    assert!(path.len() >= 10 && path.len() <= 11);
    assert_eq!(path.last().unwrap().y, 8);
}
