use quoridor::bot::abe::alpha_beta::{
    alpha_beta, best_move_alpha_beta, get_bot_move, AlphaBetaResult, BoardEvaluation, Cache,
    WHITE_LOSES_BLACK_WINS, WHITE_WINS_BLACK_LOSES,
};
use quoridor::bot::abe::heuristic::Heuristic;
use quoridor::data_model::{Direction, Game, MovePiece, PiecePosition, PlayerMove};
use quoridor::l_p_a_star::Pathfinding;

#[test]
fn depth_zero_is_the_heuristic() {
    let game = Game::new();
    let mut cache = Cache::new();
    let e = best_move_alpha_beta(&game, 0, Heuristic::DistanceOnly, &mut cache, 1);
    assert_eq!(e.score, 0);
    assert!(e.best_moves.is_empty());
}

#[test]
fn white_takes_the_winning_step() {
    let mut game = Game::new();
    game.board.player_positions[0] = PiecePosition::new(0, 7);
    let mut cache = Cache::new();
    let e = best_move_alpha_beta(&game, 1, Heuristic::DistanceOnly, &mut cache, 1);
    assert_eq!(e.score, WHITE_WINS_BLACK_LOSES);
    assert_eq!(
        *e.best_moves.last().unwrap(),
        PlayerMove::MovePiece(MovePiece { direction: Direction::Down, direction_on_collision: Direction::Down })
    );
    assert!(cache.transposition_table.len() >= 1);
}

#[test]
fn stopped_search() {
    let game = Game::new();
    let mut cache = Cache::new();
    let mut pathfinding = Pathfinding::new(&game.board);
    let r = alpha_beta(
        &game,
        2,
        WHITE_LOSES_BLACK_WINS,
        WHITE_WINS_BLACK_LOSES,
        &[],
        &|| true,
        Heuristic::WallsBehind,
        &mut cache,
        1,
        &mut pathfinding,
    );
    assert!(matches!(r, AlphaBetaResult::Stopped));
}

#[test]
fn evaluation_clone_and_default() {
    let e = BoardEvaluation::default();
    assert_eq!(e.score, 0);
    let f = BoardEvaluation { score: 3, best_moves: vec![PlayerMove::MovePiece(MovePiece { direction: Direction::Up, direction_on_collision: Direction::Up })] };
    let g = f.clone();
    assert_eq!(g.score, 3);
    assert_eq!(g.best_moves, f.best_moves);
}

#[test]
fn bot_move_with_depth() {
    let game = Game::new();
    let mut cache = Cache::new();
    let (_, e) = get_bot_move(&game, Some(1), None, Heuristic::WallsBehind, &mut cache, 1);
    assert_eq!(e.best_moves.len(), 1);
}

#[test]
fn opening_at_depth_one_steps_forward() {
    let game = Game::new();
    let mut cache = Cache::new();
    let e = best_move_alpha_beta(&game, 1, Heuristic::Forward, &mut cache, 100);
    assert_eq!(e.score, 100);
    assert_eq!(
        e.best_moves,
        vec![PlayerMove::MovePiece(MovePiece { direction: Direction::Down, direction_on_collision: Direction::Down })]
    );
    assert!(cache.transposition_table.is_empty());
}

#[test]
fn opening_at_depth_two_answers_the_step() {
    let game = Game::new();
    let mut cache = Cache::new();
    let mut pathfinding = Pathfinding::new(&game.board);
    let r = alpha_beta(
        &game,
        2,
        WHITE_LOSES_BLACK_WINS,
        WHITE_WINS_BLACK_LOSES,
        &[],
        &|| false,
        Heuristic::Forward,
        &mut cache,
        100,
        &mut pathfinding,
    );
    match r {
        AlphaBetaResult::Moves(e) => {
            assert_eq!(e.score, 0);
            assert_eq!(
                e.best_moves,
                vec![
                    PlayerMove::MovePiece(MovePiece { direction: Direction::Up, direction_on_collision: Direction::Up }),
                    PlayerMove::MovePiece(MovePiece { direction: Direction::Down, direction_on_collision: Direction::Down }),
                ]
            );
        },
        AlphaBetaResult::Stopped => panic!("the search was not to stop"),
    }
    assert!(cache.transposition_table.is_empty());
}
