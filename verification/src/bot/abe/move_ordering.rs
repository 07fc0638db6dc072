use vstd::prelude::*;
use crate::data_model::{
    Game, MovePiece, Player, PlayerMove, Walls, WallOrientation, WallPosition, WALL_GRID_HEIGHT,
    WALL_GRID_WIDTH,
};
use crate::game_logic::{
    all_move_piece_moves, is_move_piece_legal_with_player_at_position, room_for_wall_placement,
    spec_all_move_piece_moves, spec_piece_legal, spec_room_for_wall,
};
use crate::square_outline_iterator::{square_outline, spec_outline};

verus! {

/// The legal ones among the first `n` candidate piece moves, as player moves.
pub open spec fn legal_piece_moves(game: Game, n: int) -> Seq<PlayerMove>
    decreases n,
{
    let p = game.board.pos(game.player);
    let candidates = spec_all_move_piece_moves(p, game.board.pos(game.player.other()));
    if n <= 0 {
        Seq::empty()
    } else {
        legal_piece_moves(game, n - 1) + if spec_piece_legal(game.board, game.player, p, candidates[n - 1]) {
            seq![PlayerMove::MovePiece(candidates[n - 1])]
        } else {
            Seq::empty()
        }
    }
}

pub open spec fn in_wall_grid(p: (int, int)) -> bool {
    0 <= p.0 < WALL_GRID_WIDTH && 0 <= p.1 < WALL_GRID_HEIGHT
}

pub open spec fn wall_move(o: WallOrientation, p: (int, int)) -> PlayerMove {
    PlayerMove::PlaceWall { orientation: o, position: WallPosition { x: p.0 as usize, y: p.1 as usize } }
}

/// The walls, horizontal then vertical, that have room at slot `p`.
pub open spec fn walls_with_room(walls: Walls, p: (int, int)) -> Seq<PlayerMove> {
    (if spec_room_for_wall(walls, WallOrientation::Horizontal, p.0, p.1) {
        seq![wall_move(WallOrientation::Horizontal, p)]
    } else {
        Seq::empty()
    }) + (if spec_room_for_wall(walls, WallOrientation::Vertical, p.0, p.1) {
        seq![wall_move(WallOrientation::Vertical, p)]
    } else {
        Seq::empty()
    })
}

/// The walls with room at the first `n` points of `outline` that lie on the wall grid.
pub open spec fn outline_walls(walls: Walls, outline: Seq<(int, int)>, n: int) -> Seq<PlayerMove>
    decreases n,
{
    if n <= 0 {
        Seq::empty()
    } else {
        outline_walls(walls, outline, n - 1) + if in_wall_grid(outline[n - 1]) {
            walls_with_room(walls, outline[n - 1])
        } else {
            Seq::empty()
        }
    }
}

/// The ring of slots at distance `i` around `(ox, oy)`.
pub open spec fn ring(ox: int, oy: int, i: int) -> Seq<(int, int)> {
    spec_outline(ox - i, oy - i, 2 * i)
}

pub open spec fn ring_touches_grid(ox: int, oy: int, i: int) -> bool {
    exists|k: int| 0 <= k < ring(ox, oy, i).len() && #[trigger] in_wall_grid(ring(ox, oy, i)[k])
}

/// The walls with room on the rings at distance `i`, `i + 1`, ... around
/// `(ox, oy)`, up to the first ring that misses the wall grid.
pub open spec fn rings_from(walls: Walls, ox: int, oy: int, i: int) -> Seq<PlayerMove>
    decreases 10 - i,
{
    if i > 9 || i < 1 || !ring_touches_grid(ox, oy, i) {
        Seq::empty()
    } else {
        outline_walls(walls, ring(ox, oy, i), ring(ox, oy, i).len() as int) + rings_from(walls, ox, oy, i + 1)
    }
}

/// The moves of the player to move, the likely good ones first: the legal piece
/// moves in the order of `all_move_piece_moves`, then, if the player has walls
/// left, the walls with room ring by ring outwards from the opponent.
pub open spec fn spec_ordered_moves(game: Game) -> Seq<PlayerMove> {
    let opp = game.board.pos(game.player.other());
    let candidates = spec_all_move_piece_moves(game.board.pos(game.player), opp);
    legal_piece_moves(game, candidates.len() as int) + if game.walls_left@[game.player.index()] > 0 {
        rings_from(game.board.walls, opp.x as int, opp.y as int, 1)
    } else {
        Seq::empty()
    }
}

proof fn lemma_outline_walls_empty(walls: Walls, outline: Seq<(int, int)>, n: int)
    requires
        0 <= n <= outline.len(),
        !exists|k: int| 0 <= k < n && #[trigger] in_wall_grid(outline[k]),
    ensures
        outline_walls(walls, outline, n) =~= Seq::empty(),
    decreases n,
{
    if n > 0 {
        assert(!in_wall_grid(outline[n - 1]));
        lemma_outline_walls_empty(walls, outline, n - 1);
    }
}

/// No slot of the ring at distance 9 around a square of the board lies on the wall grid.
proof fn lemma_far_ring_misses(ox: int, oy: int)
    requires
        0 <= ox <= 8,
        0 <= oy <= 8,
    ensures
        !ring_touches_grid(ox, oy, 9),
{
    assert forall|k: int| 0 <= k < ring(ox, oy, 9).len() implies !#[trigger] in_wall_grid(ring(ox, oy, 9)[k]) by {
        crate::square_outline_iterator::lemma_outline_on_border(ox - 9, oy - 9, 18, k);
    }
}

/// A wall move on the wall grid.
pub open spec fn wall_on_grid(m: PlayerMove) -> bool {
    m matches PlayerMove::PlaceWall { position, .. } && position.on_grid()
}

proof fn lemma_legal_piece_moves(game: Game, n: int)
    ensures
        forall|k: int| 0 <= k < legal_piece_moves(game, n).len() ==> {
            let m = #[trigger] legal_piece_moves(game, n)[k];
            m matches PlayerMove::MovePiece(mp) && spec_piece_legal(game.board, game.player, game.board.pos(game.player), mp)
        },
    decreases n,
{
    if n > 0 {
        lemma_legal_piece_moves(game, n - 1);
    }
}

proof fn lemma_outline_walls_on_grid(walls: Walls, outline: Seq<(int, int)>, n: int)
    ensures
        forall|k: int| 0 <= k < outline_walls(walls, outline, n).len() ==> wall_on_grid(#[trigger] outline_walls(walls, outline, n)[k]),
    decreases n,
{
    if n > 0 {
        lemma_outline_walls_on_grid(walls, outline, n - 1);
        let prev = outline_walls(walls, outline, n - 1);
        let p = outline[n - 1];
        let tail = if in_wall_grid(p) { walls_with_room(walls, p) } else { Seq::empty() };
        assert(outline_walls(walls, outline, n) == prev + tail);
        assert forall|k: int| 0 <= k < tail.len() implies wall_on_grid(#[trigger] tail[k]) by {
            assert(in_wall_grid(p));
            assert(tail[k] == wall_move(WallOrientation::Horizontal, p) || tail[k] == wall_move(WallOrientation::Vertical, p));
        }
        assert forall|k: int| 0 <= k < outline_walls(walls, outline, n).len() implies wall_on_grid(#[trigger] outline_walls(walls, outline, n)[k]) by {
            if k < prev.len() {
                assert(outline_walls(walls, outline, n)[k] == prev[k]);
            } else {
                assert(outline_walls(walls, outline, n)[k] == tail[k - prev.len()]);
            }
        }
    }
}

proof fn lemma_rings_on_grid(walls: Walls, ox: int, oy: int, i: int)
    ensures
        forall|k: int| 0 <= k < rings_from(walls, ox, oy, i).len() ==> wall_on_grid(#[trigger] rings_from(walls, ox, oy, i)[k]),
    decreases 10 - i,
{
    if !(i > 9 || i < 1 || !ring_touches_grid(ox, oy, i)) {
        let r = ring(ox, oy, i);
        lemma_outline_walls_on_grid(walls, r, r.len() as int);
        lemma_rings_on_grid(walls, ox, oy, i + 1);
        let a = outline_walls(walls, r, r.len() as int);
        let b = rings_from(walls, ox, oy, i + 1);
        assert(rings_from(walls, ox, oy, i) == a + b);
        assert forall|k: int| 0 <= k < rings_from(walls, ox, oy, i).len() implies wall_on_grid(#[trigger] rings_from(walls, ox, oy, i)[k]) by {
            if k < a.len() {
                assert(rings_from(walls, ox, oy, i)[k] == a[k]);
            } else {
                assert(rings_from(walls, ox, oy, i)[k] == b[k - a.len()]);
            }
        }
    }
}

/// Every move that the ordering offers is a legal piece move of the player to
/// move, or a wall on the grid offered only while that player has walls left.
pub proof fn lemma_ordered_moves_playable(game: Game)
    ensures
        forall|k: int| 0 <= k < spec_ordered_moves(game).len() ==> {
            let m = #[trigger] spec_ordered_moves(game)[k];
            ||| m matches PlayerMove::MovePiece(mp) && spec_piece_legal(game.board, game.player, game.board.pos(game.player), mp)
            ||| wall_on_grid(m) && game.walls_left@[game.player.index()] > 0
        },
{
    let opp = game.board.pos(game.player.other());
    let n = spec_all_move_piece_moves(game.board.pos(game.player), opp).len() as int;
    lemma_legal_piece_moves(game, n);
    lemma_rings_on_grid(game.board.walls, opp.x as int, opp.y as int, 1);
    let pieces = legal_piece_moves(game, n);
    assert forall|k: int| 0 <= k < spec_ordered_moves(game).len() implies {
        let m = #[trigger] spec_ordered_moves(game)[k];
        ||| m matches PlayerMove::MovePiece(mp) && spec_piece_legal(game.board, game.player, game.board.pos(game.player), mp)
        ||| wall_on_grid(m) && game.walls_left@[game.player.index()] > 0
    } by {
        if k < pieces.len() {
            assert(spec_ordered_moves(game)[k] == pieces[k]);
        } else {
            let rings = rings_from(game.board.walls, opp.x as int, opp.y as int, 1);
            assert(game.walls_left@[game.player.index()] > 0);
            assert(spec_ordered_moves(game)[k] == rings[k - pieces.len()]);
        }
    }
}

pub fn moves_ordered_by_heuristic_quality(game: &Game) -> (moves: Vec<PlayerMove>)
    requires
        game.board.on_board(),
    ensures
        moves@ == spec_ordered_moves(*game),
{
    let player_position = game.board.player_position(game.player);
    let opponent_position = game.board.player_position(game.player.opponent());
    let candidates = all_move_piece_moves(player_position, opponent_position);
    let ghost n = candidates@.len();
    let mut moves: Vec<PlayerMove> = Vec::new();
    let mut k: usize = 0;
    while k < candidates.len()
        invariant
            game.board.on_board(),
            *player_position == game.board.pos(game.player),
            *opponent_position == game.board.pos(game.player.other()),
            candidates@ == spec_all_move_piece_moves(*player_position, *opponent_position),
            k <= candidates.len(),
            moves@ == legal_piece_moves(*game, k as int),
        decreases candidates.len() - k,
    {
        let move_piece = candidates[k];
        if is_move_piece_legal_with_player_at_position(&game.board, game.player, player_position, &move_piece) {
            moves.push(PlayerMove::MovePiece(move_piece));
        }
        k += 1;
    }
    if game.walls_left[game.player.as_index()] > 0 {
        let ox = opponent_position.x as isize;
        let oy = opponent_position.y as isize;
        let ghost pieces = moves@;
        let mut i: usize = 1;
        loop
            invariant
                1 <= i <= 9,
                game.board.on_board(),
                ox == game.board.pos(game.player.other()).x,
                oy == game.board.pos(game.player.other()).y,
                0 <= ox <= 8,
                0 <= oy <= 8,
                pieces + rings_from(game.board.walls, ox as int, oy as int, 1) == moves@ + rings_from(game.board.walls, ox as int, oy as int, i as int),
            ensures
                moves@ == pieces + rings_from(game.board.walls, ox as int, oy as int, 1),
            decreases 10 - i,
        {
            let top_left_x = ox - i as isize;
            let top_left_y = oy - i as isize;
            let side_length = 2 * i;
            let outline = square_outline(top_left_x, top_left_y, side_length);
            let ghost before = moves@;
            let mut some_in_bounds = false;
            let mut j: usize = 0;
            while j < outline.len()
                invariant
                    outline@.len() == 4 * side_length,
                    forall|k: int| 0 <= k < outline@.len() ==> (#[trigger] outline@[k]).0 == spec_outline(top_left_x as int, top_left_y as int, side_length as int)[k].0
                        && outline@[k].1 == spec_outline(top_left_x as int, top_left_y as int, side_length as int)[k].1,
                    j <= outline.len(),
                    moves@ == before + outline_walls(game.board.walls, ring(ox as int, oy as int, i as int), j as int),
                    some_in_bounds == exists|k: int| 0 <= k < j && #[trigger] in_wall_grid(ring(ox as int, oy as int, i as int)[k]),
                    ring(ox as int, oy as int, i as int) == spec_outline(top_left_x as int, top_left_y as int, side_length as int),
                decreases outline.len() - j,
            {
                let (x, y) = outline[j];
                let in_bounds = x >= 0 && y >= 0 && x < WALL_GRID_WIDTH as isize && y < WALL_GRID_HEIGHT as isize;
                let ghost moves_before = moves@;
                if in_bounds {
                    some_in_bounds = true;
                    if room_for_wall_placement(&game.board.walls, WallOrientation::Horizontal, x, y) {
                        moves.push(PlayerMove::PlaceWall {
                            orientation: WallOrientation::Horizontal,
                            position: WallPosition { x: x as usize, y: y as usize },
                        });
                    }
                    if room_for_wall_placement(&game.board.walls, WallOrientation::Vertical, x, y) {
                        moves.push(PlayerMove::PlaceWall {
                            orientation: WallOrientation::Vertical,
                            position: WallPosition { x: x as usize, y: y as usize },
                        });
                    }
                    proof {
                        assert(moves@ =~= moves_before + walls_with_room(game.board.walls, (x as int, y as int)));
                    }
                }
                proof {
                    let r = ring(ox as int, oy as int, i as int);
                    assert(r[j as int] == (x as int, y as int));
                    assert(moves@ =~= before + outline_walls(game.board.walls, r, j + 1));
                    if in_bounds {
                        assert(in_wall_grid(r[j as int]));
                    }
                }
                j += 1;
            }
            proof {
                let r = ring(ox as int, oy as int, i as int);
                assert(some_in_bounds == ring_touches_grid(ox as int, oy as int, i as int));
                if i == 9 {
                    lemma_far_ring_misses(ox as int, oy as int);
                }
            }
            if !some_in_bounds {
                proof {
                    assert(rings_from(game.board.walls, ox as int, oy as int, i as int) =~= Seq::empty());
                    lemma_outline_walls_empty(game.board.walls, ring(ox as int, oy as int, i as int), outline@.len() as int);
                    assert(moves@ =~= before);
                    assert(moves@ =~= moves@ + rings_from(game.board.walls, ox as int, oy as int, i as int));
                }
                break;
            }
            proof {
                assert(rings_from(game.board.walls, ox as int, oy as int, i as int) == outline_walls(game.board.walls, ring(ox as int, oy as int, i as int), ring(ox as int, oy as int, i as int).len() as int) + rings_from(game.board.walls, ox as int, oy as int, i + 1));
            }
            i += 1;
        }
    } else {
        proof {
            assert(moves@ =~= spec_ordered_moves(*game));
        }
    }
    moves
}

} // verus!
