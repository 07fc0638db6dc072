use vstd::prelude::*;
use arrayvec::ArrayVec;
use crate::bot::carlo::board::spec_wall_blocks;
use crate::bot::dedi::walls::{
    _get_wall_moves, board_ok, dir_direction, spec_apply, spec_can_apply, touches, wall_blocks, wall_list_ok, wall_move_at, Board, Dir,
};
use crate::data_model::{
    Direction, Game, MovePiece, PiecePosition, Player, PlayerMove, WallOrientation, Walls, PIECE_GRID_HEIGHT,
    WALL_GRID_HEIGHT, WALL_GRID_WIDTH,
};
use crate::game_logic::{
    spec_direction_legal, spec_piece_legal, spec_position_after_direction, spec_position_after_move, spec_room_for_wall,
};

verus! {

#[verifier::external_type_specification]
#[verifier::external_body]
#[verifier::reject_recursive_types(T)]
pub struct ExArrayVec<T, const CAP: usize>(ArrayVec<T, CAP>);

/// The most piece moves a player can have.
pub const PIECE_MOVE_COUNT: usize = 6;

/// The moves held by an `ArrayVec` of piece moves, in order.
pub uninterp spec fn piece_moves_of(v: ArrayVec<MovePiece, 6>) -> Seq<MovePiece>;

/// `ArrayVec::new`: an empty vector.
#[verifier::external_body]
fn piece_moves_new() -> (v: ArrayVec<MovePiece, 6>)
    ensures
        piece_moves_of(v) == Seq::<MovePiece>::empty(),
{
    ArrayVec::new()
}

/// `ArrayVec::push`: appends `m`; the vector must not be full, since `push`
/// panics then.
#[verifier::external_body]
fn piece_moves_push(v: &mut ArrayVec<MovePiece, 6>, m: MovePiece)
    requires
        piece_moves_of(*old(v)).len() < 6,
    ensures
        piece_moves_of(*final(v)) == piece_moves_of(*old(v)).push(m),
{
    v.push(m)
}

/// `ArrayVec::len`: the number of moves held.
#[verifier::external_body]
pub(crate) fn piece_moves_len(v: &ArrayVec<MovePiece, 6>) -> (n: usize)
    ensures
        n == piece_moves_of(*v).len(),
{
    v.len()
}

/// Indexing an `ArrayVec`: the move at `i`, which must be below the length.
#[verifier::external_body]
pub(crate) fn piece_moves_get(v: &ArrayVec<MovePiece, 6>, i: usize) -> (m: MovePiece)
    requires
        i < piece_moves_of(*v).len(),
    ensures
        m == piece_moves_of(*v)[i as int],
{
    v[i]
}

/// The squares held by an `ArrayVec` of destinations, in order.
pub uninterp spec fn destinations_of(v: ArrayVec<(usize, usize), 8>) -> Seq<(usize, usize)>;

/// `ArrayVec::new`: an empty vector of destinations.
#[verifier::external_body]
fn destinations_new() -> (v: ArrayVec<(usize, usize), 8>)
    ensures
        destinations_of(v) == Seq::<(usize, usize)>::empty(),
{
    ArrayVec::new()
}

/// `ArrayVec::push`: appends `xy`; the vector must not be full, since `push`
/// panics then.
#[verifier::external_body]
fn destinations_push(v: &mut ArrayVec<(usize, usize), 8>, xy: (usize, usize))
    requires
        destinations_of(*old(v)).len() < 8,
    ensures
        destinations_of(*final(v)) == destinations_of(*old(v)).push(xy),
{
    v.push(xy)
}

/// The two directions across `d`.
pub open spec fn spec_orthogonal(d: Dir) -> (Dir, Dir) {
    match d {
        Dir::PosX | Dir::NegX => (Dir::NegY, Dir::PosY),
        _ => (Dir::NegX, Dir::PosX),
    }
}

fn orthogonal(d: Dir) -> (r: (Dir, Dir))
    ensures
        r == spec_orthogonal(d),
{
    match d {
        Dir::PosX | Dir::NegX => (Dir::NegY, Dir::PosY),
        _ => (Dir::NegX, Dir::PosX),
    }
}

fn to_direction(d: Dir) -> (r: Direction)
    requires
        d != Dir::Stay,
    ensures
        dir_direction(d) == Some(r),
{
    match d {
        Dir::PosX => Direction::Right,
        Dir::PosY => Direction::Down,
        Dir::NegX => Direction::Left,
        _ => Direction::Up,
    }
}

/// A step from `(x, y)` in `d` stays on the board and crosses no wall.
fn allow(walls: &Walls, xy: (usize, usize), d: Dir) -> (r: bool)
    requires
        xy.0 < 9 && xy.1 < 9,
        d != Dir::Stay,
    ensures
        r == spec_direction_legal(*walls, PiecePosition { x: xy.0, y: xy.1 }, dir_direction(d)->0),
{
    if d.can_apply(xy) {
        let (x, y) = d.apply(xy);
        let dx: i8 = if x > xy.0 { 1 } else if x < xy.0 { -1 } else { 0 };
        let dy: i8 = if y > xy.1 { 1 } else if y < xy.1 { -1 } else { 0 };
        !wall_blocks(walls, xy.0, xy.1, dx, dy)
    } else {
        false
    }
}

/// The piece moves from `p1` with the opponent at `p2`, one direction after the
/// other in the order down, up, right, left: a step onto a free square, a jump
/// over the opponent, or, where the jump is blocked, the side steps from the
/// opponent's square.
pub open spec fn generated_moves(walls: Walls, p1: PiecePosition, p2: PiecePosition, n: int) -> Seq<MovePiece>
    decreases n,
{
    if n <= 0 {
        Seq::empty()
    } else {
        let d = seq![Dir::PosY, Dir::NegY, Dir::PosX, Dir::NegX][n - 1];
        let dir = dir_direction(d)->0;
        generated_moves(walls, p1, p2, n - 1) + if !spec_direction_legal(walls, p1, dir) {
            Seq::empty()
        } else if spec_position_after_direction(p1, dir) != p2 {
            seq![MovePiece { direction: dir, direction_on_collision: dir }]
        } else if spec_direction_legal(walls, p2, dir) {
            seq![MovePiece { direction: dir, direction_on_collision: dir }]
        } else {
            let (left, right) = spec_orthogonal(d);
            let l = dir_direction(left)->0;
            let r = dir_direction(right)->0;
            (if spec_direction_legal(walls, p2, l) {
                seq![MovePiece { direction: dir, direction_on_collision: l }]
            } else {
                Seq::empty()
            }) + (if spec_direction_legal(walls, p2, r) {
                seq![MovePiece { direction: dir, direction_on_collision: r }]
            } else {
                Seq::empty()
            })
        }
    }
}

/// The piece moves of the player at `p1` with the opponent at `p2`.
pub fn get_legal_piece_moves_from_positions(walls: &Walls, p1: &PiecePosition, p2: &PiecePosition) -> (moves:
    ArrayVec<MovePiece, 6>)
    requires
        p1.on_board(),
        p2.on_board(),
    ensures
        piece_moves_of(moves) == generated_moves(*walls, *p1, *p2, 4),
        piece_moves_of(moves).len() <= 5,
{
    let xy1 = (p1.x, p1.y);
    let xy2 = (p2.x, p2.y);
    let mut moves = piece_moves_new();
    let dirs = [Dir::PosY, Dir::NegY, Dir::PosX, Dir::NegX];
    let mut k: usize = 0;
    let mut jumped = false;
    while k < 4
        invariant
            k <= 4,
            p1.on_board(),
            p2.on_board(),
            xy1 == (p1.x, p1.y),
            xy2 == (p2.x, p2.y),
            dirs@ == seq![Dir::PosY, Dir::NegY, Dir::PosX, Dir::NegX],
            piece_moves_of(moves) == generated_moves(*walls, *p1, *p2, k as int),
            piece_moves_of(moves).len() <= k + if jumped { 1int } else { 0int },
            jumped ==> exists|j: int| 0 <= j < k && spec_position_after_direction(*p1, dir_direction(#[trigger] dirs@[j])->0) == *p2,
        decreases 4 - k,
    {
        let d = dirs[k];
        let dir = to_direction(d);
        let ghost before = piece_moves_of(moves);
        if allow(walls, xy1, d) {
            let (x, y) = d.apply(xy1);
            if x == xy2.0 && y == xy2.1 {
                proof {
                    assert(spec_position_after_direction(*p1, dir) == *p2);
                    if jumped {
                        let j = choose|j: int| 0 <= j < k && spec_position_after_direction(*p1, dir_direction(#[trigger] dirs@[j])->0) == *p2;
                        assert(dirs@[j] != d);
                        assert(false);
                    }
                }
                if allow(walls, xy2, d) {
                    piece_moves_push(&mut moves, MovePiece { direction: dir, direction_on_collision: dir });
                } else {
                    let (left, right) = orthogonal(d);
                    if allow(walls, xy2, left) {
                        piece_moves_push(&mut moves, MovePiece { direction: dir, direction_on_collision: to_direction(left) });
                    }
                    if allow(walls, xy2, right) {
                        piece_moves_push(&mut moves, MovePiece { direction: dir, direction_on_collision: to_direction(right) });
                    }
                }
                jumped = true;
            } else {
                piece_moves_push(&mut moves, MovePiece { direction: dir, direction_on_collision: dir });
            }
        }
        proof {
            assert(piece_moves_of(moves) =~= generated_moves(*walls, *p1, *p2, k + 1));
        }
        k += 1;
    }
    moves
}

/// Every move generated is a legal piece move.
pub proof fn lemma_generated_legal(walls: Walls, p1: PiecePosition, p2: PiecePosition, n: int, board: crate::data_model::Board, player: Player)
    requires
        board.walls == walls,
        board.pos(player) == p1,
        board.pos(player.other()) == p2,
    ensures
        forall|k: int| 0 <= k < generated_moves(walls, p1, p2, n).len() ==> spec_piece_legal(
            board,
            player,
            p1,
            #[trigger] generated_moves(walls, p1, p2, n)[k],
        ),
    decreases n,
{
    if n > 0 {
        lemma_generated_legal(walls, p1, p2, n - 1, board, player);
        let prev = generated_moves(walls, p1, p2, n - 1);
        let all = generated_moves(walls, p1, p2, n);
        assert forall|k: int| 0 <= k < all.len() implies spec_piece_legal(board, player, p1, #[trigger] all[k]) by {
            if k < prev.len() {
                assert(all[k] == prev[k]);
            }
        }
    }
}

/// The place of `d` in the order in which `generated_moves` tries the
/// directions: down, up, right, left.
pub open spec fn direction_rank(d: Direction) -> int {
    match d {
        Direction::Down => 0,
        Direction::Up => 1,
        Direction::Right => 2,
        Direction::Left => 3,
    }
}

proof fn lemma_direction_rank(d: Direction)
    ensures
        0 <= direction_rank(d) < 4,
        dir_direction(seq![Dir::PosY, Dir::NegY, Dir::PosX, Dir::NegX][direction_rank(d)]) == Some(d),
{
}

/// A move listed for fewer directions stays listed for more.
proof fn lemma_generated_grows(walls: Walls, p1: PiecePosition, p2: PiecePosition, n: int, m: int, x: MovePiece)
    requires
        0 <= n <= m,
        generated_moves(walls, p1, p2, n).contains(x),
    ensures
        generated_moves(walls, p1, p2, m).contains(x),
    decreases m - n,
{
    if n < m {
        lemma_generated_grows(walls, p1, p2, n, m - 1, x);
        let prev = generated_moves(walls, p1, p2, m - 1);
        let i = choose|i: int| 0 <= i < prev.len() && prev[i] == x;
        assert(generated_moves(walls, p1, p2, m)[i] == prev[i]);
    }
}

/// The moves of one direction, and where they land.
proof fn lemma_generated_step(walls: Walls, p1: PiecePosition, p2: PiecePosition, n: int)
    requires
        1 <= n <= 4,
        p1.on_board(),
        p2.on_board(),
        p1 != p2,
    ensures
        ({
            let d = dir_direction(seq![Dir::PosY, Dir::NegY, Dir::PosX, Dir::NegX][n - 1])->0;
            let next = spec_position_after_direction(p1, d);
            &&& spec_direction_legal(walls, p1, d) && next != p2 ==> generated_moves(walls, p1, p2, n).contains(
                MovePiece { direction: d, direction_on_collision: d },
            )
            &&& spec_direction_legal(walls, p1, d) && next == p2 && spec_direction_legal(walls, p2, d)
                ==> generated_moves(walls, p1, p2, n).contains(MovePiece { direction: d, direction_on_collision: d })
            &&& forall|c: Direction|
                spec_direction_legal(walls, p1, d) && next == p2 && !spec_direction_legal(walls, p2, d)
                    && #[trigger] spec_direction_legal(walls, p2, c) && spec_position_after_direction(p2, c) != p1
                    ==> generated_moves(walls, p1, p2, n).contains(MovePiece { direction: d, direction_on_collision: c })
        }),
        forall|k: int|
            generated_moves(walls, p1, p2, n - 1).len() <= k < generated_moves(walls, p1, p2, n).len()
                ==> spec_position_after_move(p1, #[trigger] generated_moves(walls, p1, p2, n)[k], p2) != p1,
{
    let prev = generated_moves(walls, p1, p2, n - 1);
    let all = generated_moves(walls, p1, p2, n);
    let dd = seq![Dir::PosY, Dir::NegY, Dir::PosX, Dir::NegX][n - 1];
    let d = dir_direction(dd)->0;
    let next = spec_position_after_direction(p1, d);
    if spec_direction_legal(walls, p1, d) {
        if next != p2 {
            assert(all[prev.len() as int] == MovePiece { direction: d, direction_on_collision: d });
        } else if spec_direction_legal(walls, p2, d) {
            assert(all[prev.len() as int] == MovePiece { direction: d, direction_on_collision: d });
        } else {
            let (left, right) = spec_orthogonal(dd);
            let l = dir_direction(left)->0;
            let r = dir_direction(right)->0;
            let sl: Seq<MovePiece> = if spec_direction_legal(walls, p2, l) {
                seq![MovePiece { direction: d, direction_on_collision: l }]
            } else {
                Seq::empty()
            };
            let sr: Seq<MovePiece> = if spec_direction_legal(walls, p2, r) {
                seq![MovePiece { direction: d, direction_on_collision: r }]
            } else {
                Seq::empty()
            };
            assert(all == prev + (sl + sr));
            assert forall|c: Direction|
                #[trigger] spec_direction_legal(walls, p2, c) && spec_position_after_direction(p2, c) != p1
                    implies all.contains(MovePiece { direction: d, direction_on_collision: c }) by {
                assert(c == l || c == r);
                if c == l {
                    assert(all[prev.len() as int] == MovePiece { direction: d, direction_on_collision: c });
                } else {
                    assert(all[(prev.len() + sl.len()) as int] == MovePiece { direction: d, direction_on_collision: c });
                }
            }
        }
    }
}

/// The moves that `generated_moves` lists for the piece at `p1` with the
/// opponent at `p2` never land on `p1`, and list every way out: a step to each
/// free square next to `p1`, the straight jump over the opponent where no wall
/// stands behind it, and, where one does, each side step from the opponent's
/// square that does not lead back to `p1`.
pub proof fn lemma_generated_moves_complete(walls: Walls, p1: PiecePosition, p2: PiecePosition)
    requires
        p1.on_board(),
        p2.on_board(),
        p1 != p2,
    ensures
        forall|k: int| 0 <= k < generated_moves(walls, p1, p2, 4).len() ==> spec_position_after_move(
            p1,
            #[trigger] generated_moves(walls, p1, p2, 4)[k],
            p2,
        ) != p1,
        forall|d: Direction|
            #[trigger] spec_direction_legal(walls, p1, d) && spec_position_after_direction(p1, d) != p2
                ==> generated_moves(walls, p1, p2, 4).contains(MovePiece { direction: d, direction_on_collision: d }),
        forall|d: Direction|
            #[trigger] spec_direction_legal(walls, p1, d) && spec_position_after_direction(p1, d) == p2
                && spec_direction_legal(walls, p2, d) ==> generated_moves(walls, p1, p2, 4).contains(
                MovePiece { direction: d, direction_on_collision: d },
            ),
        forall|d: Direction, c: Direction|
            #[trigger] spec_direction_legal(walls, p1, d) && spec_position_after_direction(p1, d) == p2
                && !spec_direction_legal(walls, p2, d) && #[trigger] spec_direction_legal(walls, p2, c)
                && spec_position_after_direction(p2, c) != p1 ==> generated_moves(walls, p1, p2, 4).contains(
                MovePiece { direction: d, direction_on_collision: c },
            ),
{
    lemma_generated_step(walls, p1, p2, 1);
    lemma_generated_step(walls, p1, p2, 2);
    lemma_generated_step(walls, p1, p2, 3);
    lemma_generated_step(walls, p1, p2, 4);
    let g4 = generated_moves(walls, p1, p2, 4);
    assert forall|k: int| 0 <= k < g4.len() implies spec_position_after_move(p1, #[trigger] g4[k], p2) != p1 by {
        let g0 = generated_moves(walls, p1, p2, 0);
        let g1 = generated_moves(walls, p1, p2, 1);
        let g2 = generated_moves(walls, p1, p2, 2);
        let g3 = generated_moves(walls, p1, p2, 3);
        assert(g0.len() == 0);
        if k < g1.len() {
            assert(g4[k] == g1[k]);
        } else if k < g2.len() {
            assert(g4[k] == g2[k]);
        } else if k < g3.len() {
            assert(g4[k] == g3[k]);
        }
    }
    assert forall|d: Direction, c: Direction|
        #[trigger] spec_direction_legal(walls, p1, d) && spec_position_after_direction(p1, d) == p2
            && !spec_direction_legal(walls, p2, d) && #[trigger] spec_direction_legal(walls, p2, c)
            && spec_position_after_direction(p2, c) != p1 implies g4.contains(MovePiece { direction: d, direction_on_collision: c }) by {
        lemma_direction_rank(d);
        let n = direction_rank(d) + 1;
        lemma_generated_step(walls, p1, p2, n);
        lemma_generated_grows(walls, p1, p2, n, 4, MovePiece { direction: d, direction_on_collision: c });
    }
    assert forall|d: Direction|
        #[trigger] spec_direction_legal(walls, p1, d) && spec_position_after_direction(p1, d) != p2
            implies g4.contains(MovePiece { direction: d, direction_on_collision: d }) by {
        lemma_direction_rank(d);
        let n = direction_rank(d) + 1;
        lemma_generated_step(walls, p1, p2, n);
        lemma_generated_grows(walls, p1, p2, n, 4, MovePiece { direction: d, direction_on_collision: d });
    }
    assert forall|d: Direction|
        #[trigger] spec_direction_legal(walls, p1, d) && spec_position_after_direction(p1, d) == p2
            && spec_direction_legal(walls, p2, d) implies g4.contains(MovePiece { direction: d, direction_on_collision: d }) by {
        lemma_direction_rank(d);
        let n = direction_rank(d) + 1;
        lemma_generated_step(walls, p1, p2, n);
        lemma_generated_grows(walls, p1, p2, n, 4, MovePiece { direction: d, direction_on_collision: d });
    }
}

/// The piece moves of `player` in `game`.
pub fn get_legal_piece_moves(game: &Game, player: Player) -> (moves: ArrayVec<MovePiece, 6>)
    requires
        game.board.on_board(),
    ensures
        piece_moves_of(moves) == generated_moves(game.board.walls, game.board.pos(player), game.board.pos(player.other()), 4),
        piece_moves_of(moves).len() <= 5,
        forall|k: int| 0 <= k < piece_moves_of(moves).len() ==> spec_piece_legal(
            game.board,
            player,
            game.board.pos(player),
            #[trigger] piece_moves_of(moves)[k],
        ),
{
    let p1 = game.board.player_position(player);
    let p2 = game.board.player_position(player.opponent());
    let moves = get_legal_piece_moves_from_positions(&game.board.walls, p1, p2);
    proof {
        lemma_generated_legal(game.board.walls, *p1, *p2, 4, game.board, player);
    }
    moves
}

/// A wall on the grid with room on `walls`.
pub open spec fn wall_with_room(walls: Walls, m: PlayerMove) -> bool {
    m matches PlayerMove::PlaceWall { orientation, position } && position.on_grid() && spec_room_for_wall(
        walls,
        orientation,
        position.x as int,
        position.y as int,
    )
}

/// `s` lists walls that the player to move may consider: none without a wall
/// left, each with room, and every wall with room that touches at most one
/// thing.
pub open spec fn wall_moves_listed(game: Game, s: Seq<PlayerMove>) -> bool {
    &&& s.len() <= 128
    &&& game.walls_left@[game.player.index()] == 0 ==> s.len() == 0
    &&& forall|k: int| 0 <= k < s.len() ==> wall_with_room(game.board.walls, #[trigger] s[k])
    &&& game.walls_left@[game.player.index()] > 0 ==> forall|o: WallOrientation, x: int, y: int|
        0 <= x < WALL_GRID_WIDTH && 0 <= y < WALL_GRID_HEIGHT && spec_room_for_wall(game.board.walls, o, x, y)
            && touches(game.board.walls, o, x, y) < 2 ==> #[trigger] s.contains(wall_move_at(o, x, y))
}

/// The walls that the player to move may consider, as moves.
pub fn get_legal_wall_moves(game: &Game) -> (moves: Vec<PlayerMove>)
    requires
        game.board.on_board(),
    ensures
        wall_moves_listed(*game, moves@),
        moves@.len() <= 128,
        forall|k: int| 0 <= k < moves@.len() ==> wall_with_room(game.board.walls, #[trigger] moves@[k]),
{
    let entries = _get_wall_moves(game);
    let ghost (b1, b2) = choose|b1: Board, b2: Board|
        board_ok(b1, game.board.walls, game.player) && board_ok(b2, game.board.walls, game.player.other())
            && #[trigger] wall_list_ok(*game, b1, b2, entries@);
    let mut moves: Vec<PlayerMove> = Vec::new();
    let mut i: usize = 0;
    while i < entries.len()
        invariant
            i <= entries@.len(),
            entries@.len() <= 128,
            moves@.len() == i,
            forall|k: int| 0 <= k < entries@.len() ==> wall_with_room(game.board.walls, #[trigger] entries@[k].0),
            forall|k: int| 0 <= k < i ==> #[trigger] moves@[k] == entries@[k].0,
        decreases entries@.len() - i,
    {
        moves.push(entries[i].0);
        i += 1;
    }
    proof {
        assert(wall_list_ok(*game, b1, b2, entries@));
        if game.walls_left@[game.player.index()] > 0 {
            assert forall|o: WallOrientation, x: int, y: int|
                0 <= x < WALL_GRID_WIDTH && 0 <= y < WALL_GRID_HEIGHT && spec_room_for_wall(game.board.walls, o, x, y)
                    && touches(game.board.walls, o, x, y) < 2 implies #[trigger] moves@.contains(wall_move_at(o, x, y)) by {
                let k = choose|k: int| 0 <= k < entries@.len() && #[trigger] entries@[k] == (wall_move_at(o, x, y), b1, b2);
                assert(moves@[k] == entries@[k].0);
            }
        }
    }
    moves
}

/// The piece moves of the player to move, then the walls it may consider.
pub fn get_legal_moves(game: &Game) -> (moves: Vec<PlayerMove>)
    requires
        game.board.on_board(),
    ensures
        forall|k: int| 0 <= k < moves@.len() ==> {
            ||| #[trigger] moves@[k] matches PlayerMove::MovePiece(mp) && spec_piece_legal(game.board, game.player, game.board.pos(game.player), mp)
            ||| wall_with_room(game.board.walls, moves@[k])
        },
        ({
            let gen = generated_moves(game.board.walls, game.board.pos(game.player), game.board.pos(game.player.other()), 4);
            &&& gen.len() <= moves@.len()
            &&& forall|k: int| 0 <= k < gen.len() ==> #[trigger] moves@[k] == PlayerMove::MovePiece(gen[k])
            &&& wall_moves_listed(*game, moves@.subrange(gen.len() as int, moves@.len() as int))
        }),
{
    let pieces = get_legal_piece_moves(game, game.player);
    let n = piece_moves_len(&pieces);
    let mut moves: Vec<PlayerMove> = Vec::new();
    let mut i: usize = 0;
    while i < n
        invariant
            i <= n,
            n == piece_moves_of(pieces).len(),
            forall|k: int| 0 <= k < n ==> spec_piece_legal(game.board, game.player, game.board.pos(game.player), #[trigger] piece_moves_of(pieces)[k]),
            moves@.len() == i,
            forall|k: int| 0 <= k < i ==> #[trigger] moves@[k] == PlayerMove::MovePiece(piece_moves_of(pieces)[k]),
        decreases n - i,
    {
        moves.push(PlayerMove::MovePiece(piece_moves_get(&pieces, i)));
        i += 1;
    }
    let walls = get_legal_wall_moves(game);
    let mut j: usize = 0;
    while j < walls.len()
        invariant
            j <= walls@.len(),
            moves@.len() == n + j,
            forall|k: int| 0 <= k < n ==> #[trigger] moves@[k] == PlayerMove::MovePiece(piece_moves_of(pieces)[k]),
            forall|k: int| 0 <= k < n ==> spec_piece_legal(game.board, game.player, game.board.pos(game.player), #[trigger] piece_moves_of(pieces)[k]),
            forall|k: int| n <= k < n + j ==> #[trigger] moves@[k] == walls@[k - n],
            forall|k: int| 0 <= k < walls@.len() ==> wall_with_room(game.board.walls, #[trigger] walls@[k]),
        decreases walls@.len() - j,
    {
        moves.push(walls[j]);
        j += 1;
    }
    proof {
        assert(moves@.subrange(n as int, moves@.len() as int) =~= walls@);
        assert forall|k: int| 0 <= k < moves@.len() implies {
            ||| #[trigger] moves@[k] matches PlayerMove::MovePiece(mp) && spec_piece_legal(game.board, game.player, game.board.pos(game.player), mp)
            ||| wall_with_room(game.board.walls, moves@[k])
        } by {
            if k < n {
                assert(moves@[k] == PlayerMove::MovePiece(piece_moves_of(pieces)[k]));
            } else {
                assert(moves@[k] == walls@[k - n]);
            }
        }
    }
    moves
}

/// The row that `player` has to reach.
pub fn target(player: Player) -> (y: usize)
    ensures
        y == crate::search::goal_row(player),
{
    if player == Player::White {
        PIECE_GRID_HEIGHT - 1
    } else {
        0
    }
}

/// The square where a piece move of the piece at `p1` ends, with the
/// opponent at `p2`.
pub open spec fn destination(p1: PiecePosition, p2: PiecePosition, m: MovePiece) -> (usize, usize) {
    let to = spec_position_after_move(p1, m, p2);
    (to.x, to.y)
}

/// The squares that the piece at `p1` can reach in one move with the
/// opponent at `p2`: where the moves of `generated_moves` end, in their order.
pub fn get_legal_destinations(walls: &Walls, p1: (usize, usize), p2: (usize, usize)) -> (moves: ArrayVec<(usize, usize), 8>)
    requires
        p1.0 < 9 && p1.1 < 9,
        p2.0 < 9 && p2.1 < 9,
    ensures
        destinations_of(moves).len() == generated_moves(*walls, PiecePosition { x: p1.0, y: p1.1 }, PiecePosition { x: p2.0, y: p2.1 }, 4).len(),
        forall|i: int| 0 <= i < destinations_of(moves).len() ==> #[trigger] destinations_of(moves)[i] == destination(
            PiecePosition { x: p1.0, y: p1.1 },
            PiecePosition { x: p2.0, y: p2.1 },
            generated_moves(*walls, PiecePosition { x: p1.0, y: p1.1 }, PiecePosition { x: p2.0, y: p2.1 }, 4)[i],
        ),
{
    let ghost q1 = PiecePosition { x: p1.0, y: p1.1 };
    let ghost q2 = PiecePosition { x: p2.0, y: p2.1 };
    let mut moves = destinations_new();
    let dirs = [Dir::PosY, Dir::NegY, Dir::PosX, Dir::NegX];
    let mut k: usize = 0;
    let mut jumped = false;
    while k < 4
        invariant
            k <= 4,
            p1.0 < 9 && p1.1 < 9,
            p2.0 < 9 && p2.1 < 9,
            q1 == (PiecePosition { x: p1.0, y: p1.1 }),
            q2 == (PiecePosition { x: p2.0, y: p2.1 }),
            dirs@ == seq![Dir::PosY, Dir::NegY, Dir::PosX, Dir::NegX],
            destinations_of(moves).len() == generated_moves(*walls, q1, q2, k as int).len(),
            forall|i: int| 0 <= i < destinations_of(moves).len() ==> #[trigger] destinations_of(moves)[i] == destination(
                q1,
                q2,
                generated_moves(*walls, q1, q2, k as int)[i],
            ),
            destinations_of(moves).len() <= k + if jumped { 1int } else { 0int },
            jumped ==> exists|j: int| 0 <= j < k && spec_position_after_direction(q1, dir_direction(#[trigger] dirs@[j])->0) == q2,
        decreases 4 - k,
    {
        let d = dirs[k];
        let dir = to_direction(d);
        let ghost before = generated_moves(*walls, q1, q2, k as int);
        let ghost after = generated_moves(*walls, q1, q2, k as int + 1);
        let ghost m0 = destinations_of(moves);
        assert(forall|i: int| 0 <= i < before.len() ==> #[trigger] after[i] == before[i]);
        if allow(walls, p1, d) {
            let (x, y) = d.apply(p1);
            if x == p2.0 && y == p2.1 {
                proof {
                    assert(spec_position_after_direction(q1, dir) == q2);
                    if jumped {
                        let j = choose|j: int| 0 <= j < k && spec_position_after_direction(q1, dir_direction(#[trigger] dirs@[j])->0) == q2;
                        assert(dirs@[j] != d);
                        assert(false);
                    }
                }
                if allow(walls, p2, d) {
                    destinations_push(&mut moves, d.apply(p2));
                } else {
                    let (left, right) = orthogonal(d);
                    if allow(walls, p2, left) {
                        destinations_push(&mut moves, left.apply(p2));
                    }
                    if allow(walls, p2, right) {
                        destinations_push(&mut moves, right.apply(p2));
                    }
                }
                jumped = true;
            } else {
                destinations_push(&mut moves, (x, y));
            }
        }
        k += 1;
    }
    moves
}

} // verus!

