use quoridor::data_model::{Board, WallOrientation};
use quoridor::render_board::render_board;

#[test]
fn picture_of_the_first_position() {
    let board = Board::new();
    let picture = render_board(&board);
    let lines: Vec<&str> = picture.split('\n').collect();
    assert_eq!(lines.len(), 9 * 4 - 1);
    assert_eq!(lines[0], "┌───┐   ".repeat(9));
    assert_eq!(lines[1], format!("{}│ W │   {}", "│   │   ".repeat(4), "│   │   ".repeat(4)));
    assert_eq!(lines[3], format!("{}        ", (0..8).map(|x| format!("     {x} 0")).collect::<String>()));
    assert_eq!(lines[33], format!("{}│ B │   {}", "│   │   ".repeat(4), "│   │   ".repeat(4)));
}

#[test]
fn picture_with_walls() {
    let mut board = Board::new();
    board.walls.0[0][0] = Some(WallOrientation::Horizontal);
    board.walls.0[2][1] = Some(WallOrientation::Vertical);
    let picture = render_board(&board);
    let lines: Vec<&str> = picture.split('\n').collect();
    assert!(lines[3].starts_with("─────────────1 0     2 0"));
    assert!(lines[4].starts_with("┌───┐   ┌───┐   ┌───┐ │ "));
    assert!(lines[7].starts_with("     0 1     1 1      │      3 1"));
}
