use quoridor::bot::abe::heuristic::Heuristic;
use quoridor::data_model::{Game, PiecePosition};
use quoridor::l_p_a_star::Pathfinding;

fn eval(h: Heuristic, game: &Game) -> isize {
    let mut pf = Pathfinding::new(&game.board);
    h.eval(game, &mut pf)
}

#[test]
fn heuristics_of_the_first_position() {
    let game = Game::new();
    assert_eq!(eval(Heuristic::DistanceOnly, &game), 0);
    assert_eq!(eval(Heuristic::Basic, &game), 0);
    assert_eq!(eval(Heuristic::Forward, &game), 0);
    assert_eq!(eval(Heuristic::WallsBehind, &game), 0);
}

#[test]
fn distance_only_counts_steps() {
    let mut game = Game::new();
    game.board.player_positions[0] = PiecePosition::new(4, 3);
    assert_eq!(eval(Heuristic::DistanceOnly, &game), 300);
    assert_eq!(eval(Heuristic::Forward, &game), 300);
}

/// The basic evaluation weighs walls by a weight that falls as walls are
/// played; the integer form agrees with the float computation of that weight
/// on every count of walls.
#[test]
fn basic_matches_float_weighting() {
    for wl_w in 0..=10usize {
        for wl_b in 0..=10usize {
            let mut game = Game::new();
            game.walls_left = [wl_w, wl_b];
            game.board.player_positions[0] = PiecePosition::new(4, 2);
            let played = 20 - wl_w - wl_b;
            let wall_progress = played as f32 / 20.0f32;
            let wall_value = 75.0f32 - 50.0f32 * wall_progress;
            let wall_score = wl_w as isize - wl_b as isize;
            let expected = 100 * (8 - 6) as isize + (wall_value * wall_score as f32) as isize;
            assert_eq!(eval(Heuristic::Basic, &game), expected, "{wl_w} {wl_b}");
        }
    }
}
