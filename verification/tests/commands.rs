use quoridor::commands::{decimal, export_moves, move_to_string, parse_moves, parse_player_move};
use quoridor::data_model::{Direction, MovePiece, PlayerMove, WallOrientation, WallPosition};

fn piece(d: Direction, c: Direction) -> PlayerMove {
    PlayerMove::MovePiece(MovePiece { direction: d, direction_on_collision: c })
}

fn wall(o: WallOrientation, x: usize, y: usize) -> PlayerMove {
    PlayerMove::PlaceWall { orientation: o, position: WallPosition { x, y } }
}

#[test]
fn parse_piece_moves() {
    assert_eq!(parse_player_move("mu"), Some(piece(Direction::Up, Direction::Up)));
    assert_eq!(parse_player_move("mdl"), Some(piece(Direction::Down, Direction::Left)));
    assert_eq!(parse_player_move("mrx"), Some(piece(Direction::Right, Direction::Right)));
    assert_eq!(parse_player_move("m"), None);
    assert_eq!(parse_player_move("mx"), None);
}

#[test]
fn parse_wall_moves() {
    assert_eq!(parse_player_move("h34"), Some(wall(WallOrientation::Horizontal, 3, 4)));
    assert_eq!(parse_player_move("v07"), Some(wall(WallOrientation::Vertical, 0, 7)));
    assert_eq!(parse_player_move("h3"), None);
    assert_eq!(parse_player_move("h3a"), None);
    assert_eq!(parse_player_move(""), None);
    assert_eq!(parse_player_move("x12"), None);
}

#[test]
fn notation_of_moves() {
    assert_eq!(move_to_string(&piece(Direction::Up, Direction::Left)), "mul");
    assert_eq!(move_to_string(&wall(WallOrientation::Vertical, 2, 5)), "v25");
    assert_eq!(decimal(0), "0");
    assert_eq!(decimal(1234), "1234");
}

#[test]
fn notation_reads_back() {
    for m in [
        piece(Direction::Down, Direction::Down),
        piece(Direction::Left, Direction::Up),
        wall(WallOrientation::Horizontal, 7, 7),
        wall(WallOrientation::Vertical, 0, 0),
    ] {
        assert_eq!(parse_player_move(&move_to_string(&m)), Some(m));
    }
}

#[test]
fn export_and_import() {
    let moves = vec![
        piece(Direction::Down, Direction::Down),
        wall(WallOrientation::Horizontal, 3, 4),
        piece(Direction::Up, Direction::Right),
    ];
    let text = export_moves(&moves);
    assert_eq!(text, "mdd;h34;mur;");
    assert_eq!(parse_moves(&text), Some(moves));
}

#[test]
fn import_trims_and_rejects() {
    assert_eq!(parse_moves(";;mu;h12;;"), Some(vec![piece(Direction::Up, Direction::Up), wall(WallOrientation::Horizontal, 1, 2)]));
    assert_eq!(parse_moves("mu;;h12"), None);
    assert_eq!(parse_moves(""), None);
    assert_eq!(parse_moves("mu;zz"), None);
}
