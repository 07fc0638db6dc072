use quoridor::data_model::{Direction, Game, MovePiece, PiecePosition, PlayerMove, WallOrientation, WallPosition};
use quoridor::session::Session;

fn piece(d: Direction) -> PlayerMove {
    PlayerMove::MovePiece(MovePiece { direction: d, direction_on_collision: d })
}

#[test]
fn make_move_records_history() {
    let mut s = Session::default();
    s.make_move(piece(Direction::Down));
    assert_eq!(s.move_history.len(), 1);
    assert_eq!(s.game_history.len(), 1);
    assert_eq!(s.game.board.player_positions[0], PiecePosition::new(4, 1));
}

#[test]
fn undo_restores_the_position() {
    let mut s = Session::default();
    s.make_move(piece(Direction::Down));
    s.make_move(PlayerMove::PlaceWall { orientation: WallOrientation::Horizontal, position: WallPosition { x: 0, y: 0 } });
    s.undo(1);
    assert_eq!(s.move_history.len(), 1);
    assert_eq!(s.game.walls_left, [10, 10]);
    assert_eq!(s.game.board.player_positions[0], PiecePosition::new(4, 1));
    s.undo(5);
    assert_eq!(s.move_history.len(), 0);
    assert_eq!(s.game.board.player_positions[0], Game::new().board.player_positions[0]);
}

#[test]
fn try_make_move_refuses_what_cannot_run() {
    let mut s = Session::default();
    s.game.walls_left = [0, 10];
    assert!(!s.try_make_move(PlayerMove::PlaceWall { orientation: WallOrientation::Horizontal, position: WallPosition { x: 0, y: 0 } }));
    assert_eq!(s.move_history.len(), 0);
    assert!(s.try_make_move(piece(Direction::Down)));
    s.reset();
    assert_eq!(s.move_history.len(), 0);
    assert_eq!(s.game.walls_left, [10, 10]);
}
