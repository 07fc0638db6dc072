use quoridor::agent::random::{legal_directions, Random};
use quoridor::data_model::{
    Direction, Game, MovePiece, PiecePosition, Player, PlayerMove, WallOrientation, WallPosition,
};
use quoridor::game_logic::{
    all_move_piece_moves, can_execute_move, execute_move_unchecked, is_move_legal,
    room_for_wall_placement,
};

fn piece(d: Direction, c: Direction) -> PlayerMove {
    PlayerMove::MovePiece(MovePiece { direction: d, direction_on_collision: c })
}

fn wall(o: WallOrientation, x: usize, y: usize) -> PlayerMove {
    PlayerMove::PlaceWall { orientation: o, position: WallPosition { x, y } }
}

#[test]
fn piece_move_changes_position_and_turn() {
    let game = Game::new();
    let next = execute_move_unchecked(&game, &piece(Direction::Down, Direction::Down));
    assert_eq!(next.player, Player::Black);
    assert_eq!(next.board.player_positions[0], PiecePosition::new(4, 1));
    assert_eq!(next.board.player_positions[1], PiecePosition::new(4, 8));
    assert_eq!(next.walls_left, [10, 10]);
}

#[test]
fn wall_move_counts_the_wall() {
    let game = Game::new();
    let next = execute_move_unchecked(&game, &wall(WallOrientation::Horizontal, 3, 2));
    assert_eq!(next.walls_left, [9, 10]);
    assert_eq!(next.board.walls.0[3][2], Some(WallOrientation::Horizontal));
    assert_eq!(next.player, Player::Black);
}

#[test]
fn jump_over_opponent() {
    let mut game = Game::new();
    game.board.player_positions[0] = PiecePosition::new(4, 4);
    game.board.player_positions[1] = PiecePosition::new(4, 5);
    let next = execute_move_unchecked(&game, &piece(Direction::Down, Direction::Down));
    assert_eq!(next.board.player_positions[0], PiecePosition::new(4, 6));
    let side = execute_move_unchecked(&game, &piece(Direction::Down, Direction::Left));
    assert_eq!(side.board.player_positions[0], PiecePosition::new(3, 5));
}

#[test]
fn legality_of_moves() {
    let game = Game::new();
    assert!(is_move_legal(&game, Player::White, &piece(Direction::Down, Direction::Down)));
    assert!(!is_move_legal(&game, Player::White, &piece(Direction::Up, Direction::Up)));
    assert!(is_move_legal(&game, Player::White, &wall(WallOrientation::Horizontal, 0, 0)));
    let mut blocked = Game::new();
    blocked.board.walls.0[3][0] = Some(WallOrientation::Horizontal);
    assert!(!is_move_legal(&blocked, Player::White, &wall(WallOrientation::Horizontal, 3, 0)));
    assert!(!is_move_legal(&blocked, Player::White, &wall(WallOrientation::Horizontal, 4, 0)));
    assert!(is_move_legal(&blocked, Player::White, &wall(WallOrientation::Vertical, 4, 0)));
}

#[test]
fn wall_that_closes_the_way_is_illegal() {
    let mut game = Game::new();
    game.board.walls.0[0][0] = Some(WallOrientation::Horizontal);
    game.board.walls.0[2][0] = Some(WallOrientation::Horizontal);
    game.board.walls.0[4][0] = Some(WallOrientation::Horizontal);
    game.board.walls.0[6][0] = Some(WallOrientation::Horizontal);
    assert!(!is_move_legal(&game, Player::White, &wall(WallOrientation::Vertical, 7, 0)));
    assert!(is_move_legal(&game, Player::White, &wall(WallOrientation::Vertical, 7, 2)));
}

#[test]
fn room_for_walls() {
    let mut game = Game::new();
    assert!(room_for_wall_placement(&game.board.walls, WallOrientation::Horizontal, 0, 0));
    assert!(!room_for_wall_placement(&game.board.walls, WallOrientation::Horizontal, -1, 0));
    assert!(!room_for_wall_placement(&game.board.walls, WallOrientation::Horizontal, 8, 0));
    game.board.walls.0[2][2] = Some(WallOrientation::Vertical);
    assert!(!room_for_wall_placement(&game.board.walls, WallOrientation::Horizontal, 2, 2));
    assert!(!room_for_wall_placement(&game.board.walls, WallOrientation::Vertical, 2, 3));
    assert!(room_for_wall_placement(&game.board.walls, WallOrientation::Horizontal, 2, 3));
}

#[test]
fn all_piece_moves() {
    let moves = all_move_piece_moves(&PiecePosition::new(4, 4), &PiecePosition::new(4, 5));
    assert!(moves.len() > 4);
    let far = all_move_piece_moves(&PiecePosition::new(0, 0), &PiecePosition::new(8, 8));
    assert_eq!(far.len(), 4);
}

#[test]
fn executable_checks() {
    let game = Game::new();
    assert!(can_execute_move(&game, &piece(Direction::Up, Direction::Up)));
    assert!(can_execute_move(&game, &wall(WallOrientation::Vertical, 7, 7)));
    assert!(!can_execute_move(&game, &wall(WallOrientation::Vertical, 8, 7)));
    let mut empty = Game::new();
    empty.walls_left = [0, 10];
    assert!(!can_execute_move(&empty, &wall(WallOrientation::Vertical, 1, 1)));
}

#[test]
fn random_steps_are_open() {
    let game = Game::new();
    let dirs = legal_directions(&game);
    assert_eq!(dirs, vec![Direction::Down, Direction::Left, Direction::Right]);
    let mut bot = Random::default();
    for _ in 0..20 {
        match bot.get_move(&game) {
            PlayerMove::MovePiece(mp) => {
                assert!(dirs.contains(&mp.direction));
                assert_eq!(mp.direction_on_collision, Direction::Up);
            }
            _ => panic!("a wall was placed"),
        }
    }
}
