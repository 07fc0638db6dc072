use vstd::prelude::*;
use crate::a_star::{a_star, spec_goal_reachable};
use crate::data_model::{
    Board, Direction, Game, MovePiece, PiecePosition, Player, PlayerMove, Walls, WallOrientation,
    WallPosition, PIECE_GRID_HEIGHT, PIECE_GRID_WIDTH, WALL_GRID_HEIGHT, WALL_GRID_WIDTH,
};

verus! {

/// Coordinates whose conversion to `isize` is exact.
pub open spec fn in_isize_range(p: PiecePosition) -> bool {
    p.x <= isize::MAX && p.y <= isize::MAX
}

/// One step of `d` (-1, 0 or 1) from coordinate `v`; a step below zero wraps to
/// `usize::MAX`.
pub open spec fn spec_step(v: usize, d: int) -> usize {
    if v + d < 0 {
        usize::MAX
    } else {
        (v + d) as usize
    }
}

/// A step in `direction` from `p` stays within the exact range of `isize`.
pub open spec fn can_step(p: PiecePosition, direction: Direction) -> bool {
    &&& in_isize_range(p)
    &&& p.x + direction.dx() <= isize::MAX
    &&& p.y + direction.dy() <= isize::MAX
}

pub open spec fn spec_position_after_direction(p: PiecePosition, direction: Direction) -> PiecePosition {
    PiecePosition { x: spec_step(p.x, direction.dx()), y: spec_step(p.y, direction.dy()) }
}

/// No wall blocks a step of the piece at `p` in `direction`, and the step stays
/// on the board.
pub open spec fn spec_direction_legal(walls: Walls, p: PiecePosition, direction: Direction) -> bool {
    let x = p.x as int;
    let y = p.y as int;
    match direction {
        Direction::Up => p.y > 0 && !walls.spec_wall_at(WallOrientation::Horizontal, x - 1, y - 1)
            && !walls.spec_wall_at(WallOrientation::Horizontal, x, y - 1),
        Direction::Down => p.y < PIECE_GRID_HEIGHT - 1 && !walls.spec_wall_at(
            WallOrientation::Horizontal,
            x - 1,
            y,
        ) && !walls.spec_wall_at(WallOrientation::Horizontal, x, y),
        Direction::Left => p.x > 0 && !walls.spec_wall_at(WallOrientation::Vertical, x - 1, y)
            && !walls.spec_wall_at(WallOrientation::Vertical, x - 1, y - 1),
        Direction::Right => p.x < PIECE_GRID_HEIGHT - 1 && !walls.spec_wall_at(
            WallOrientation::Vertical,
            x,
            y,
        ) && !walls.spec_wall_at(WallOrientation::Vertical, x, y - 1),
    }
}

/// The piece of `player` at `p` may make `mp`: its first step is legal, and if it
/// lands on the opponent, the step in `direction_on_collision` from there is legal.
pub open spec fn spec_piece_legal(board: Board, player: Player, p: PiecePosition, mp: MovePiece) -> bool {
    spec_direction_legal(board.walls, p, mp.direction) && {
        let next = spec_position_after_direction(p, mp.direction);
        next == board.pos(player.other()) ==> spec_direction_legal(
            board.walls,
            next,
            mp.direction_on_collision,
        )
    }
}

pub open spec fn spec_position_after_move(p: PiecePosition, mp: MovePiece, opponent: PiecePosition) -> PiecePosition {
    let next = spec_position_after_direction(p, mp.direction);
    if opponent == next {
        spec_position_after_direction(opponent, mp.direction_on_collision)
    } else {
        next
    }
}

/// The wall slot `(x, y)` is on the grid and free, and neither neighbour along
/// `o` holds a wall of the same orientation.
pub open spec fn spec_room_for_wall(walls: Walls, o: WallOrientation, x: int, y: int) -> bool {
    &&& 0 <= x < WALL_GRID_WIDTH
    &&& 0 <= y < WALL_GRID_HEIGHT
    &&& walls.slot(x, y) is None
    &&& match o {
        WallOrientation::Horizontal => !walls.spec_wall_at(o, x - 1, y) && !walls.spec_wall_at(
            o,
            x + 1,
            y,
        ),
        WallOrientation::Vertical => !walls.spec_wall_at(o, x, y - 1) && !walls.spec_wall_at(
            o,
            x,
            y + 1,
        ),
    }
}

/// `execute_move_unchecked` does not overflow on `m`.
pub open spec fn can_execute(game: Game, m: PlayerMove) -> bool {
    match m {
        PlayerMove::PlaceWall { position, .. } => position.on_grid() && game.walls_left@[game.player.index()] > 0,
        PlayerMove::MovePiece(mp) => {
            let p = game.board.pos(game.player);
            let next = spec_position_after_direction(p, mp.direction);
            &&& can_step(p, mp.direction)
            &&& next == game.board.pos(game.player.other()) ==> can_step(next, mp.direction_on_collision)
        },
    }
}

/// `next` is the game after `m` by the player to move in `game`: the wall is
/// placed and counted, or the piece is moved; then the other player is to move.
pub open spec fn spec_executed(game: Game, m: PlayerMove, next: Game) -> bool {
    let player = game.player;
    &&& next.player == player.other()
    &&& match m {
        PlayerMove::PlaceWall { orientation, position } => {
            &&& forall|x: int, y: int|
                0 <= x < WALL_GRID_WIDTH && 0 <= y < WALL_GRID_HEIGHT ==> #[trigger] next.board.walls.slot(x, y)
                    == if x == position.x && y == position.y {
                    Some(orientation)
                } else {
                    game.board.walls.slot(x, y)
                }
            &&& next.board.player_positions == game.board.player_positions
            &&& next.walls_left@[player.index()] == game.walls_left@[player.index()] - 1
            &&& next.walls_left@[player.other().index()] == game.walls_left@[player.other().index()]
        },
        PlayerMove::MovePiece(mp) => {
            &&& next.board.walls == game.board.walls
            &&& next.walls_left == game.walls_left
            &&& next.board.pos(player) == spec_position_after_move(
                game.board.pos(player),
                mp,
                game.board.pos(player.other()),
            )
            &&& next.board.pos(player.other()) == game.board.pos(player.other())
        },
    }
}


/// Whether `m` can be executed on `game` without overflow: the checked form of
/// `can_execute`.
pub fn can_execute_move(game: &Game, m: &PlayerMove) -> (r: bool)
    ensures
        r == can_execute(*game, *m),
{
    match m {
        PlayerMove::PlaceWall { position, .. } => position.x < WALL_GRID_WIDTH && position.y < WALL_GRID_HEIGHT
            && game.walls_left[game.player.as_index()] > 0,
        PlayerMove::MovePiece(mp) => {
            let p = game.board.player_position(game.player);
            if step_fits(p, mp.direction) {
                let next = new_position_after_direction_unchecked(p, mp.direction);
                if next == *game.board.player_position(game.player.opponent()) {
                    step_fits(&next, mp.direction_on_collision)
                } else {
                    true
                }
            } else {
                false
            }
        },
    }
}

fn step_fits(p: &PiecePosition, d: Direction) -> (r: bool)
    ensures
        r == can_step(*p, d),
{
    let m = isize::MAX as usize;
    if p.x > m || p.y > m {
        return false;
    }
    match d {
        Direction::Right => p.x < m,
        Direction::Down => p.y < m,
        _ => true,
    }
}

pub fn execute_move_unchecked(game: &Game, m: &PlayerMove) -> (next: Game)
    requires
        can_execute(*game, *m),
    ensures
        spec_executed(*game, *m, next),
{
    let mut next = *game;
    execute_move_unchecked_inplace(&mut next, m);
    next
}

pub fn execute_move_unchecked_inplace(game: &mut Game, player_move: &PlayerMove)
    requires
        can_execute(*old(game), *player_move),
    ensures
        spec_executed(*old(game), *player_move, *final(game)),
{
    let player = game.player;
    match player_move {
        PlayerMove::PlaceWall { orientation, position } => {
            game.board.walls.set(position.x, position.y, Some(*orientation));
            let i = player.as_index();
            game.walls_left[i] = game.walls_left[i] - 1;
        },
        PlayerMove::MovePiece(move_piece) => {
            let new_position = new_position_after_move_piece_unchecked(
                game.board.player_position(player),
                move_piece,
                game.board.player_position(player.opponent()),
            );
            game.board.player_positions[player.as_index()] = new_position;
        },
    }
    game.player = player.opponent();
}

pub fn is_move_piece_legal_with_player_at_position(
    board: &Board,
    player: Player,
    player_position: &PiecePosition,
    move_piece: &MovePiece,
) -> (r: bool)
    requires
        in_isize_range(*player_position),
    ensures
        r == spec_piece_legal(*board, player, *player_position, *move_piece),
{
    if is_move_direction_legal_with_player_at_position(
        &board.walls,
        player_position,
        &move_piece.direction,
    ) {
        let new_position = new_position_after_direction_unchecked(
            player_position,
            move_piece.direction,
        );
        if new_position == *board.player_position(player.opponent()) {
            is_move_direction_legal_with_player_at_position(
                &board.walls,
                &new_position,
                &move_piece.direction_on_collision,
            )
        } else {
            true
        }
    } else {
        false
    }
}

pub fn is_move_direction_legal_with_player_at_position(
    walls: &Walls,
    player_position: &PiecePosition,
    direction: &Direction,
) -> (r: bool)
    requires
        in_isize_range(*player_position),
    ensures
        r == spec_direction_legal(*walls, *player_position, *direction),
        r && player_position.on_board() ==> spec_position_after_direction(
            *player_position,
            *direction,
        ).on_board(),
{
    let x = player_position.x() as isize;
    let y = player_position.y() as isize;
    match direction {
        Direction::Up => {
            player_position.y() > 0 && !walls.wall_at(WallOrientation::Horizontal, x - 1, y - 1)
                && !walls.wall_at(WallOrientation::Horizontal, x, y - 1)
        },
        Direction::Down => {
            player_position.y() < PIECE_GRID_HEIGHT - 1 && !walls.wall_at(
                WallOrientation::Horizontal,
                x - 1,
                y,
            ) && !walls.wall_at(WallOrientation::Horizontal, x, y)
        },
        Direction::Left => {
            player_position.x() > 0 && !walls.wall_at(WallOrientation::Vertical, x - 1, y)
                && !walls.wall_at(WallOrientation::Vertical, x - 1, y - 1)
        },
        Direction::Right => {
            player_position.x() < PIECE_GRID_HEIGHT - 1 && !walls.wall_at(
                WallOrientation::Vertical,
                x,
                y,
            ) && !walls.wall_at(WallOrientation::Vertical, x, y - 1)
        },
    }
}

pub fn room_for_wall_placement(walls: &Walls, orientation: WallOrientation, x: isize, y: isize) -> (r:
    bool)
    ensures
        r == spec_room_for_wall(*walls, orientation, x as int, y as int),
{
    if x >= 0 && y >= 0 && x < WALL_GRID_WIDTH as isize && y < WALL_GRID_HEIGHT as isize {
        match walls.get(x as usize, y as usize) {
            Some(_) => false,
            None => match orientation {
                WallOrientation::Horizontal => !walls.wall_at(orientation, x - 1, y)
                    && !walls.wall_at(orientation, x + 1, y),
                WallOrientation::Vertical => !walls.wall_at(orientation, x, y - 1)
                    && !walls.wall_at(orientation, x, y + 1),
            },
        }
    } else {
        false
    }
}

pub fn new_position_after_direction_unchecked(player_position: &PiecePosition, direction: Direction) -> (p:
    PiecePosition)
    requires
        can_step(*player_position, direction),
    ensures
        p == spec_position_after_direction(*player_position, direction),
{
    let (dx, dy) = direction.to_offset();
    let nx = player_position.x() as isize + dx;
    let ny = player_position.y() as isize + dy;
    PiecePosition::new(
        if nx < 0 {
            usize::MAX
        } else {
            nx as usize
        },
        if ny < 0 {
            usize::MAX
        } else {
            ny as usize
        },
    )
}

pub fn new_position_after_move_piece_unchecked(
    player_position: &PiecePosition,
    move_piece: &MovePiece,
    opponent_position: &PiecePosition,
) -> (p: PiecePosition)
    requires
        can_step(*player_position, move_piece.direction),
        spec_position_after_direction(*player_position, move_piece.direction) == *opponent_position
            ==> can_step(*opponent_position, move_piece.direction_on_collision),
    ensures
        p == spec_position_after_move(*player_position, *move_piece, *opponent_position),
{
    let new_position = new_position_after_direction_unchecked(player_position, move_piece.direction);
    if *opponent_position == new_position {
        new_position_after_direction_unchecked(opponent_position, move_piece.direction_on_collision)
    } else {
        new_position
    }
}

/// The direction from `p` to an orthogonally adjacent `opponent`, if it is adjacent.
pub open spec fn spec_jump_direction(p: PiecePosition, opponent: PiecePosition) -> Option<Direction> {
    let dx = opponent.x - p.x;
    let dy = opponent.y - p.y;
    if dx == 0 && dy == 1 {
        Some(Direction::Down)
    } else if dx == 0 && dy == -1 {
        Some(Direction::Up)
    } else if dx == 1 && dy == 0 {
        Some(Direction::Right)
    } else if dx == -1 && dy == 0 {
        Some(Direction::Left)
    } else {
        None
    }
}

/// The directions other than `e`, in the order of `Direction::spec_all`.
pub open spec fn directions_except(e: Direction) -> Seq<Direction> {
    match e {
        Direction::Up => seq![Direction::Down, Direction::Left, Direction::Right],
        Direction::Down => seq![Direction::Up, Direction::Left, Direction::Right],
        Direction::Left => seq![Direction::Up, Direction::Down, Direction::Right],
        Direction::Right => seq![Direction::Up, Direction::Down, Direction::Left],
    }
}

pub open spec fn straight_moves(ds: Seq<Direction>) -> Seq<MovePiece> {
    ds.map_values(|d: Direction| MovePiece { direction: d, direction_on_collision: d })
}

pub open spec fn jump_moves(j: Direction) -> Seq<MovePiece> {
    directions_except(j.opposite()).map_values(|d: Direction| MovePiece { direction: j, direction_on_collision: d })
}

/// The candidate piece moves of a player at `p` whose opponent stands at
/// `opponent`: next to the opponent, the jumps over it first (landing anywhere
/// but back), then the plain steps in the other directions; otherwise the four
/// plain steps.
pub open spec fn spec_all_move_piece_moves(p: PiecePosition, opponent: PiecePosition) -> Seq<MovePiece> {
    match spec_jump_direction(p, opponent) {
        Some(j) => jump_moves(j) + straight_moves(directions_except(j)),
        None => straight_moves(Direction::spec_all()),
    }
}

fn jump_direction(player_position: &PiecePosition, opponent_position: &PiecePosition) -> (r: Option<Direction>)
    requires
        in_isize_range(*player_position),
        in_isize_range(*opponent_position),
    ensures
        r == spec_jump_direction(*player_position, *opponent_position),
{
    let x_diff = opponent_position.x() as isize - player_position.x() as isize;
    let y_diff = opponent_position.y() as isize - player_position.y() as isize;
    if x_diff == 0 && y_diff == 1 {
        Some(Direction::Down)
    } else if x_diff == 0 && y_diff == -1 {
        Some(Direction::Up)
    } else if x_diff == 1 && y_diff == 0 {
        Some(Direction::Right)
    } else if x_diff == -1 && y_diff == 0 {
        Some(Direction::Left)
    } else {
        None
    }
}

fn opposite(d: Direction) -> (r: Direction)
    ensures
        r == d.opposite(),
{
    match d {
        Direction::Up => Direction::Down,
        Direction::Down => Direction::Up,
        Direction::Left => Direction::Right,
        Direction::Right => Direction::Left,
    }
}

pub fn all_move_piece_moves(player_position: &PiecePosition, opponent_position: &PiecePosition) -> (v:
    Vec<MovePiece>)
    requires
        in_isize_range(*player_position),
        in_isize_range(*opponent_position),
    ensures
        v@ == spec_all_move_piece_moves(*player_position, *opponent_position),
{
    let dirs = Direction::iter();
    let mut v: Vec<MovePiece> = Vec::new();
    match jump_direction(player_position, opponent_position) {
        Some(j) => {
            let back = opposite(j);
            let ghost target = jump_moves(j) + straight_moves(directions_except(j));
            let mut i: usize = 0;
            while i < 4
                invariant
                    i <= 4,
                    dirs@ == Direction::spec_all(),
                    back == j.opposite(),
                    v@ == jump_moves(j).take(i - (if i > j.opposite().idx() { 1int } else { 0int })),
                decreases 4 - i,
            {
                if dirs[i] != back {
                    v.push(MovePiece { direction: j, direction_on_collision: dirs[i] });
                }
                assert(v@ =~= jump_moves(j).take((i + 1) - (if i + 1 > j.opposite().idx() { 1int } else { 0int })));
                i += 1;
            }
            let mut i: usize = 0;
            while i < 4
                invariant
                    i <= 4,
                    dirs@ == Direction::spec_all(),
                    v@ == jump_moves(j) + straight_moves(directions_except(j)).take(i - (if i > j.idx() { 1int } else { 0int })),
                decreases 4 - i,
            {
                if dirs[i] != j {
                    v.push(MovePiece { direction: dirs[i], direction_on_collision: dirs[i] });
                }
                assert(v@ =~= jump_moves(j) + straight_moves(directions_except(j)).take((i + 1) - (if i + 1 > j.idx() { 1int } else { 0int })));
                i += 1;
            }
            assert(v@ =~= target);
        },
        None => {
            let mut i: usize = 0;
            while i < 4
                invariant
                    i <= 4,
                    dirs@ == Direction::spec_all(),
                    v@ == straight_moves(Direction::spec_all()).take(i as int),
                decreases 4 - i,
            {
                v.push(MovePiece { direction: dirs[i], direction_on_collision: dirs[i] });
                assert(v@ =~= straight_moves(Direction::spec_all()).take(i + 1));
                i += 1;
            }
            assert(v@ =~= straight_moves(Direction::spec_all()));
        },
    }
    v
}


/// `m` is a legal move for `player` standing at `p` in `game`: a piece move that
/// the rules allow, or a wall for which the player has walls left, there is
/// room, and after which both players can still reach their goal rows.
pub open spec fn spec_move_legal_at(game: Game, player: Player, p: PiecePosition, m: PlayerMove) -> bool {
    match m {
        PlayerMove::MovePiece(mp) => spec_piece_legal(game.board, player, p, mp),
        PlayerMove::PlaceWall { orientation, position } => {
            &&& game.walls_left@[player.index()] > 0
            &&& spec_room_for_wall(game.board.walls, orientation, position.x as int, position.y as int)
            &&& forall|next: Game| #[trigger] spec_executed(game, m, next) ==> spec_goal_reachable(next.board, player)
                && spec_goal_reachable(next.board, player.other())
        },
    }
}

/// What `is_move_legal_with_player_at_position` needs: the squares fit `isize`,
/// the pieces stand on the board for the path checks, and a wall check can count
/// the wall of the player to move.
pub open spec fn legality_checkable(game: Game, player: Player, p: PiecePosition, m: PlayerMove) -> bool {
    &&& in_isize_range(p)
    &&& (m is PlaceWall ==> game.board.on_board())
    &&& (m matches PlayerMove::PlaceWall { orientation, position } && game.walls_left@[player.index()] > 0
        && spec_room_for_wall(game.board.walls, orientation, position.x as int, position.y as int)
        ==> game.walls_left@[game.player.index()] > 0)
}

pub fn is_move_legal(game: &Game, player: Player, player_move: &PlayerMove) -> (r: bool)
    requires
        legality_checkable(*game, player, game.board.pos(player), *player_move),
    ensures
        r == spec_move_legal_at(*game, player, game.board.pos(player), *player_move),
{
    is_move_legal_with_player_at_position(game, player, game.board.player_position(player), player_move)
}

/// Placing the wall of `m` makes the goal row of `checked` unreachable for it.
fn blocks_path(game: &Game, player_move: &PlayerMove, checked: Player) -> (r: bool)
    requires
        player_move is PlaceWall,
        can_execute(*game, *player_move),
        game.board.on_board(),
    ensures
        r == !(forall|next: Game| #[trigger] spec_executed(*game, *player_move, next) ==> spec_goal_reachable(next.board, checked)),
{
    let next_game_state = execute_move_unchecked(game, player_move);
    proof {
        lemma_executed_unique(*game, *player_move, next_game_state);
    }
    a_star(&next_game_state.board, checked).is_none()
}

/// A game after a move is determined by the game and the move.
pub proof fn lemma_executed_unique(game: Game, m: PlayerMove, next: Game)
    requires
        spec_executed(game, m, next),
    ensures
        forall|other: Game| #[trigger] spec_executed(game, m, other) ==> other == next,
{
    assert forall|other: Game| #[trigger] spec_executed(game, m, other) implies other == next by {
        match m {
            PlayerMove::PlaceWall { .. } => {
                assert forall|x: int| 0 <= x < WALL_GRID_WIDTH implies other.board.walls.0[x] == next.board.walls.0[x] by {
                    assert forall|y: int| 0 <= y < WALL_GRID_HEIGHT implies other.board.walls.0[x][y] == next.board.walls.0[x][y] by {
                        assert(other.board.walls.slot(x, y) == next.board.walls.slot(x, y));
                    }
                    assert(other.board.walls.0[x] =~= next.board.walls.0[x]);
                }
                assert(other.board.walls.0 =~= next.board.walls.0);
                assert(other.walls_left =~= next.walls_left);
                assert(other.board.walls == next.board.walls);
                assert(other.board == next.board);
            },
            PlayerMove::MovePiece(_) => {
                assert(other.board.player_positions =~= next.board.player_positions);
                assert(other.board == next.board);
            },
        }
    }
}

pub fn is_move_legal_with_player_at_position(
    game: &Game,
    player: Player,
    player_position: &PiecePosition,
    player_move: &PlayerMove,
) -> (r: bool)
    requires
        legality_checkable(*game, player, *player_position, *player_move),
    ensures
        r == spec_move_legal_at(*game, player, *player_position, *player_move),
{
    match player_move {
        PlayerMove::MovePiece(move_piece) => is_move_piece_legal_with_player_at_position(
            &game.board,
            player,
            player_position,
            move_piece,
        ),
        PlayerMove::PlaceWall { orientation, position } => {
            if game.walls_left[player.as_index()] > 0 && position.x <= isize::MAX as usize
                && position.y <= isize::MAX as usize
                && room_for_wall_placement(
                &game.board.walls,
                *orientation,
                position.x as isize,
                position.y as isize,
            ) {
                !blocks_path(game, player_move, player) && !blocks_path(game, player_move, player.opponent())
            } else {
                false
            }
        },
    }
}

} // verus!
