use quoridor::agent::dedi::bit_set::Bitset192;
use quoridor::agent::dedi::walls::{
    bfs, get_illegal_walls, move_index, tile_from_index, tile_index, wall_from_index, wall_index, walls_between, Wall,
    WallsBetween,
};
use quoridor::data_model::{Game, PiecePosition, WallOrientation, WallPosition};

#[test]
fn set_get_clear() {
    let mut s = Bitset192::new(0, 0, 0);
    assert!(!s.any());
    s.set_bit(5);
    s.set_bit(70);
    s.set_bit(191);
    assert!(s.get_bit(5) && s.get_bit(70) && s.get_bit(191));
    assert!(!s.get_bit(6));
    assert!(s.any());
    assert_eq!(s.iter_ones(), vec![5, 70, 191]);
    s.clear_bit(70);
    assert!(!s.get_bit(70));
    assert_eq!(s.iter_ones(), vec![5, 191]);
}

#[test]
fn set_operations() {
    let a = Bitset192::new(0b1100, 1, 0);
    let b = Bitset192::new(0b1010, 0, 1);
    assert_eq!(a.bitand(b).iter_ones(), vec![3]);
    assert_eq!(a.bitor(b).iter_ones(), vec![1, 2, 3, 64, 128]);
    assert_eq!(a.bitxor(b).iter_ones(), vec![1, 2, 64, 128]);
    assert_eq!(Bitset192::new(u64::MAX, u64::MAX, u64::MAX - 1).not().iter_ones(), vec![128]);
    let mut c = a;
    c.bitand_assign(b);
    assert_eq!(c, Bitset192::new(0b1000, 0, 0));
}

#[test]
fn numbering_round_trips() {
    let p = PiecePosition::new(3, 7);
    assert_eq!(tile_index(&p), 66);
    assert_eq!(tile_from_index(66), p);
    let w = Wall { position: WallPosition { x: 2, y: 5 }, orientation: WallOrientation::Vertical };
    assert_eq!(wall_index(w), 64 + 42);
    assert_eq!(wall_from_index(106), w);
    assert_eq!(move_index(PiecePosition::new(4, 4), PiecePosition::new(3, 4)), tile_index(&PiecePosition::new(3, 4)));
    assert_eq!(move_index(PiecePosition::new(4, 4), PiecePosition::new(4, 5)), 81 + 40);
}

#[test]
fn walls_between_squares() {
    let a = PiecePosition::new(0, 3);
    let b = PiecePosition::new(0, 4);
    assert_eq!(walls_between(&a, &b), WallsBetween::Single(Wall { position: WallPosition { x: 0, y: 3 }, orientation: WallOrientation::Horizontal }));
    let c = PiecePosition::new(4, 4);
    let d = PiecePosition::new(5, 4);
    assert_eq!(
        walls_between(&d, &c),
        WallsBetween::Double(
            Wall { position: WallPosition { x: 4, y: 4 }, orientation: WallOrientation::Vertical },
            Wall { position: WallPosition { x: 4, y: 3 }, orientation: WallOrientation::Vertical },
        )
    );
}

#[test]
fn no_wall_cuts_every_path_on_an_open_board() {
    let game = Game::new();
    assert!(get_illegal_walls(&game).is_empty());
    let empty = Bitset192::new(0, 0, 0);
    assert!(bfs(&empty, &PiecePosition::new(4, 0), 8).is_empty());
}

#[test]
fn a_path_on_the_goal_row_is_recorded() {
    let empty = Bitset192::new(0, 0, 0);
    let paths = bfs(&empty, &PiecePosition::new(4, 8), 8);
    assert_eq!(paths.len(), 1);
    assert!(!paths[0].any());
}

#[test]
fn bits_are_written_highest_first() {
    let s = Bitset192::new(1, 0, 1u64 << 63).to_bit_string();
    let expected = format!("Bitset192(1{}_{}_{}1)", "0".repeat(63), "0".repeat(64), "0".repeat(63));
    assert_eq!(s, expected);
    assert_eq!(s.len(), 10 + 64 * 3 + 3);
}
