use quoridor::a_star::a_star;
use quoridor::bot::carlo::bfs::{game_winner, Bfs, PathBlock};
use quoridor::bot::carlo::board::{board_neighbors, board_neighbors_unchecked, outside_board, wall_blocks, Board, Dir};
use quoridor::bot::carlo::buffer::Buffer;
use quoridor::bot::carlo::mcts::{credits, playout_winner};
use quoridor::bot::dedi::walls::{get_board, Tile};
use quoridor::data_model::{Direction, Game, MovePiece, Player, PlayerMove, WallOrientation, WallPosition};

#[test]
fn buffer_is_first_in_first_out() {
    let mut b: Buffer<(i8, i8), 4> = Buffer::new((0, 0));
    assert!(b.empty());
    b.insert((1, 1));
    b.insert((2, 2));
    assert_eq!(*b.peek_first(), (1, 1));
    assert_eq!(b.pop_first(), (1, 1));
    b.insert((3, 3));
    b.insert((4, 4));
    b.insert((5, 5));
    assert_eq!(b.iter(), vec![(2, 2), (3, 3), (4, 4), (5, 5)]);
    assert_eq!(b.pop_first(), (2, 2));
    assert!(b.non_empty());
    assert_eq!(b.count(), 3);
}

#[test]
fn dirs() {
    assert!(Dir::Left.reverse() == Dir::Right);
    assert!(Dir::Up.reverse().reverse() == Dir::Up);
    assert_eq!(Dir::Down.delta(), (0, 1));
    assert!(Dir::from_delta((0, -1)) == Dir::Up);
}

#[test]
fn neighbors_on_the_board() {
    assert!(outside_board(-1, 0));
    assert!(outside_board(0, 9));
    assert!(!outside_board(8, 8));
    assert_eq!(board_neighbors_unchecked(0, 0), vec![(1, 0), (0, 1)]);
    assert_eq!(board_neighbors_unchecked(4, 4).len(), 4);
    let mut game = Game::new();
    game.board.walls.0[3][3] = Some(WallOrientation::Horizontal);
    assert!(wall_blocks(&game, 4, 3, 0, 1));
    assert!(wall_blocks(&game, 3, 4, 0, -1));
    assert!(!wall_blocks(&game, 5, 3, 0, 1));
    assert_eq!(board_neighbors(&game, 4, 3), vec![(-1, 0), (0, -1), (1, 0)]);
}

#[test]
fn search_from_the_start() {
    let game = Game::new();
    let bfs = Bfs::from_game(&game);
    assert!(bfs.dir.0 == PathBlock::Dir(Dir::Down));
    assert_eq!(bfs.dir.1, 8);
    for x in 0..9 {
        assert!(bfs.path[8][x] == (PathBlock::Goal, 0));
    }
    for y in 0..9 {
        assert!(bfs.on_path[y][4]);
    }
    assert!(game_winner(&game).is_none());
}

#[test]
fn search_after_a_wall() {
    let mut game = Game::new();
    let mut bfs = Bfs::from_game(&game);
    game.board.walls.0[4][0] = Some(WallOrientation::Horizontal);
    bfs.recalculate_bfs(&game, 4, 0, WallOrientation::Horizontal);
    assert!(bfs.dir.0 != PathBlock::Unreachable);
    assert_eq!(bfs.dir.1, 9);
    let fresh = Bfs::from_game(&game);
    assert_eq!(fresh.dir.1, 9);
    assert!(bfs.path[0][4].0 == fresh.path[0][4].0);
}

#[test]
fn search_of_black() {
    let mut game = Game::new();
    game.player = Player::Black;
    let bfs = Bfs::from_game(&game);
    assert!(bfs.dir.0 == PathBlock::Dir(Dir::Up));
    assert_eq!(bfs.dir.1, 8);
    assert!(bfs.path[0][0] == (PathBlock::Goal, 0));
}

#[test]
fn board_moves_at_the_start() {
    let board = Board::from_game(&Game::new());
    let pieces = board.piece_moves();
    assert_eq!(pieces.len(), 3);
    let mut dists: Vec<usize> = pieces.iter().map(|(_, s)| s.unwrap().dist[0]).collect();
    dists.sort();
    assert_eq!(dists, vec![7, 8, 8]);
    for (_, s) in pieces.iter() {
        assert_eq!(s.unwrap().dist[1], 8);
        assert_eq!(s.unwrap().walls, [10, 10]);
    }
    assert_eq!(board.wall_moves().len(), 128);
    assert_eq!(board.all_moves().len(), 131);
    let nw = board.non_wait_moves();
    assert_eq!(nw.len(), 129);
    assert!(matches!(nw[0].0, PlayerMove::MovePiece(_)));
    assert_eq!(nw[0].1.unwrap().dist[0], 7);
}

#[test]
fn board_valid_wall() {
    let board = Board::from_game(&Game::new());
    let (valid, stats) = board.valid_wall(4, 0, WallOrientation::Horizontal);
    assert!(valid);
    let stats = stats.unwrap();
    assert_eq!(stats.dist, [9, 9]);
    assert_eq!(stats.walls, [9, 10]);
}

#[test]
fn board_play_moves() {
    let mut board = Board::from_game(&Game::new());
    board.play_move(PlayerMove::PlaceWall {
        orientation: WallOrientation::Horizontal,
        position: WallPosition { x: 4, y: 0 },
    });
    assert!(board.game.player == Player::Black);
    assert_eq!(board.game.walls_left, [9, 10]);
    assert_eq!(board.bfs_white.dir.1, 9);
    assert_eq!(board.bfs_black.dir.1, 9);
    let walls = board.wall_moves();
    assert!(walls.iter().all(|(m, _)| !matches!(m, PlayerMove::PlaceWall { position: WallPosition { x: 4, y: 0 }, .. })));
    board.play_move(PlayerMove::MovePiece(MovePiece {
        direction: Direction::Up,
        direction_on_collision: Direction::Up,
    }));
    assert_eq!(board.game.board.player_positions[1].y, 7);
    assert_eq!(board.bfs_black.dir.1, 8);
}

#[test]
fn board_of_a_game_with_walls() {
    let mut game = Game::new();
    game.board.walls.0[4][0] = Some(WallOrientation::Horizontal);
    game.board.walls.0[2][0] = Some(WallOrientation::Horizontal);
    let board = Board::from_game(&game);
    assert_eq!(board.bfs_white.dir.1, 10);
    let walls = board.wall_moves();
    assert_eq!(walls.len(), 121);
}

#[test]
fn kept_distances_are_walkable() {
    let mut board = Board::from_game(&Game::new());
    board.play_move(PlayerMove::PlaceWall {
        orientation: WallOrientation::Horizontal,
        position: WallPosition { x: 4, y: 0 },
    });
    board.play_move(PlayerMove::PlaceWall {
        orientation: WallOrientation::Vertical,
        position: WallPosition { x: 4, y: 7 },
    });
    for player in [Player::White, Player::Black] {
        let bfs = if player == Player::White { &board.bfs_white } else { &board.bfs_black };
        assert!(bfs.dir.0 != PathBlock::Unreachable);
        let path = a_star(&board.game.board, player).unwrap();
        assert!(path.len() <= bfs.dir.1);
    }
}

#[test]
fn wall_blocks_both_ways() {
    let mut game = Game::new();
    game.board.walls.0[2][5] = Some(WallOrientation::Vertical);
    for (x, y, dx, dy) in [(2i8, 5i8, 1i8, 0i8), (3, 6, -1, 0), (2, 6, 1, 0), (4, 4, 0, 1)] {
        assert_eq!(wall_blocks(&game, x, y, dx, dy), wall_blocks(&game, x + dx, y + dy, -dx, -dy));
    }
    assert!(wall_blocks(&game, 2, 5, 1, 0));
    assert!(!wall_blocks(&game, 2, 4, 1, 0));
}

/// A move in the short notation of this test: a letter for a step, or `H`/`V`
/// with the slot for a wall.
fn short_move(code: &str) -> PlayerMove {
    let b = code.as_bytes();
    let dir = |c: u8| match c {
        b'U' => Direction::Up,
        b'D' => Direction::Down,
        b'L' => Direction::Left,
        _ => Direction::Right,
    };
    match b[0] {
        b'H' | b'V' => PlayerMove::PlaceWall {
            orientation: if b[0] == b'H' { WallOrientation::Horizontal } else { WallOrientation::Vertical },
            position: WallPosition { x: (b[1] - b'0') as usize, y: (b[2] - b'0') as usize },
        },
        c => PlayerMove::MovePiece(MovePiece { direction: dir(c), direction_on_collision: dir(c) }),
    }
}

fn reaches_goal(game: &Game, player: Player) -> bool {
    let pos = game.board.player_positions[player.as_index()];
    matches!(get_board(game, player).tiles[pos.y][pos.x], Tile::Valid(..))
}

/// After this game the kept searches refuse the wall `V20`, though both pieces
/// still reach their goal rows with it: a search kept move by move can miss a
/// way that a new search finds.
#[test]
fn kept_search_refuses_a_wall_that_blocks_nothing() {
    let history = "D H24 V31 H55 R R H05 R H03 V04 L V73 U H40 H22 L V01 V66 H54 V15 V11 H76 V13 H46 L L V41 H23 L L";
    let mut board = Board::from_game(&Game::new());
    for code in history.split(' ') {
        board.play_move(short_move(code));
    }
    assert!(board.wall_moves[0][2][1]);
    assert!(!board.valid_wall(2, 0, WallOrientation::Vertical).0);
    let mut after = board.game.clone();
    after.board.walls.set(2, 0, Some(WallOrientation::Vertical));
    assert!(reaches_goal(&after, Player::White));
    assert!(reaches_goal(&after, Player::Black));
}

#[test]
fn playout_credits_alternate_from_the_root() {
    assert_eq!(credits(3, Some(Player::White), Player::White), vec![(1, 1), (0, 1), (1, 1)]);
    assert_eq!(credits(2, Some(Player::Black), Player::White), vec![(0, 1), (1, 1)]);
    assert_eq!(credits(2, None, Player::Black), vec![(1, 2), (1, 2)]);
    assert!(credits(0, None, Player::White).is_empty());
}

#[test]
fn playout_winner_counts_steps_left() {
    let board = Board::from_game(&Game::new());
    assert_eq!(playout_winner(&board), None);
    let mut game = Game::new();
    game.board.player_positions[0].y = 5;
    let board = Board::from_game(&game);
    assert_eq!(playout_winner(&board), Some(Player::White));
}
