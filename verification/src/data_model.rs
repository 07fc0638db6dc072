use vstd::prelude::*;

verus! {

pub const PIECE_GRID_WIDTH: usize = 9;
pub const PIECE_GRID_HEIGHT: usize = 9;
pub const WALL_GRID_WIDTH: usize = 8;
pub const WALL_GRID_HEIGHT: usize = 8;
pub const PLAYER_COUNT: usize = 2;
/// Walls each player starts with.
pub const WALLS_PER_PLAYER: usize = 10;
/// Walls of both players together at the start of a game.
pub const TOTAL_WALLS: usize = 20;

#[derive(Debug, Clone, Copy, PartialEq, Eq, Structural, Hash)]
pub enum WallOrientation {
    Horizontal,
    Vertical,
}

impl WallOrientation {
    pub fn to_char(&self) -> (c: char)
        ensures
            c == (match *self {
                WallOrientation::Horizontal => 'h',
                WallOrientation::Vertical => 'v',
            }),
    {
        match self {
            WallOrientation::Horizontal => 'h',
            WallOrientation::Vertical => 'v',
        }
    }
}

/// A square of the board, by column `x` and row `y`.
#[derive(Default, Debug, Clone, Copy, PartialEq, Eq, Structural, Hash)]
pub struct PiecePosition {
    pub x: usize,
    pub y: usize,
}

impl PiecePosition {
    pub fn new(x: usize, y: usize) -> (p: Self)
        ensures
            p.x == x,
            p.y == y,
    {
        Self { x, y }
    }

    pub fn x(&self) -> (r: usize)
        ensures
            r == self.x,
    {
        self.x
    }

    pub fn y(&self) -> (r: usize)
        ensures
            r == self.y,
    {
        self.y
    }

    /// The square lies on the board.
    pub open spec fn on_board(self) -> bool {
        self.x < PIECE_GRID_WIDTH && self.y < PIECE_GRID_HEIGHT
    }
}

#[derive(Default, Debug, Clone, Copy, PartialEq, Eq, Structural, Hash)]
pub struct WallPosition {
    pub x: usize,
    pub y: usize,
}

impl WallPosition {
    /// The wall slot lies on the wall grid.
    pub open spec fn on_grid(self) -> bool {
        self.x < WALL_GRID_WIDTH && self.y < WALL_GRID_HEIGHT
    }
}

/// The wall grid, indexed `[x][y]`; a slot holds the orientation of the wall
/// whose centre lies there.
#[derive(Default, Debug, Clone, Copy, Hash)]
pub struct Walls(pub [[Option<WallOrientation>; WALL_GRID_HEIGHT]; WALL_GRID_WIDTH]);

impl Walls {
    /// The slot at `(x, y)` of the grid.
    pub open spec fn slot(self, x: int, y: int) -> Option<WallOrientation> {
        self.0@[x]@[y]
    }

    pub open spec fn spec_wall_at(self, o: WallOrientation, x: int, y: int) -> bool {
        &&& 0 <= x < WALL_GRID_WIDTH
        &&& 0 <= y < WALL_GRID_HEIGHT
        &&& self.slot(x, y) == Some(o)
    }

    /// No wall has been placed.
    pub fn empty() -> (w: Self)
        ensures
            forall|x: int, y: int|
                0 <= x < WALL_GRID_WIDTH && 0 <= y < WALL_GRID_HEIGHT ==> #[trigger] w.slot(x, y)
                    is None,
    {
        Walls([[None; WALL_GRID_HEIGHT]; WALL_GRID_WIDTH])
    }

    pub fn get(&self, x: usize, y: usize) -> (r: Option<WallOrientation>)
        requires
            x < WALL_GRID_WIDTH,
            y < WALL_GRID_HEIGHT,
        ensures
            r == self.slot(x as int, y as int),
    {
        self.0[x][y]
    }

    pub fn set(&mut self, x: usize, y: usize, v: Option<WallOrientation>)
        requires
            x < WALL_GRID_WIDTH,
            y < WALL_GRID_HEIGHT,
        ensures
            forall|i: int, j: int|
                0 <= i < WALL_GRID_WIDTH && 0 <= j < WALL_GRID_HEIGHT ==> #[trigger] final(self).slot(i, j) == if i == x && j == y {
                    v
                } else {
                    old(self).slot(i, j)
                },
    {
        let mut column = self.0[x];
        column[y] = v;
        self.0[x] = column;
    }

    /// Whether a wall of orientation `o` has its centre at `(x, y)`; slots
    /// outside the grid hold no wall.
    pub fn wall_at(&self, o: WallOrientation, x: isize, y: isize) -> (r: bool)
        ensures
            r == self.spec_wall_at(o, x as int, y as int),
    {
        if x >= 0 && y >= 0 && x < WALL_GRID_WIDTH as isize && y < WALL_GRID_HEIGHT as isize {
            match self.0[x as usize][y as usize] {
                Some(WallOrientation::Horizontal) => o == WallOrientation::Horizontal,
                Some(WallOrientation::Vertical) => o == WallOrientation::Vertical,
                None => false,
            }
        } else {
            false
        }
    }
}

#[derive(Default, Debug, Clone, Copy, Hash)]
pub struct Board {
    pub walls: Walls,
    pub player_positions: [PiecePosition; PLAYER_COUNT],
}

#[derive(Default, Debug, Clone, Copy, Hash)]
pub struct Game {
    pub player: Player,
    pub board: Board,
    pub walls_left: [usize; PLAYER_COUNT],
}

#[derive(Debug, Clone, Copy, PartialEq, Eq, Structural, Hash)]
pub enum Direction {
    Up,
    Down,
    Left,
    Right,
}

#[derive(Debug, Clone, Copy, PartialEq, Eq, Structural, Hash)]
pub struct MovePiece {
    pub direction: Direction,
    pub direction_on_collision: Direction,
}

#[derive(Debug, Clone, Copy, PartialEq, Eq, Structural, Hash)]
pub enum PlayerMove {
    PlaceWall { orientation: WallOrientation, position: WallPosition },
    MovePiece(MovePiece),
}

#[derive(Debug, Default, Clone, Copy, PartialEq, Eq, Structural, Hash)]
pub enum Player {
    #[default]
    White,
    Black,
}

impl Board {
    /// The position of `player`.
    pub open spec fn pos(self, player: Player) -> PiecePosition {
        self.player_positions@[player.index()]
    }

    /// Both pieces stand on the board.
    pub open spec fn on_board(self) -> bool {
        self.pos(Player::White).on_board() && self.pos(Player::Black).on_board()
    }

    /// No wall stands on the board.
    pub open spec fn no_walls(self) -> bool {
        forall|x: int, y: int|
            0 <= x < WALL_GRID_WIDTH && 0 <= y < WALL_GRID_HEIGHT ==> #[trigger] self.walls.slot(x, y)
                is None
    }

    /// The board a game starts from: no walls, white at (4, 0) and black at (4, 8).
    pub open spec fn is_initial(self) -> bool {
        &&& self.no_walls()
        &&& self.pos(Player::White) == (PiecePosition { x: 4, y: 0 })
        &&& self.pos(Player::Black) == (PiecePosition { x: 4, y: 8 })
    }

    pub fn new() -> (b: Self)
        ensures
            b.is_initial(),
    {
        Self {
            walls: Walls::empty(),
            player_positions: [PiecePosition::new(4, 0), PiecePosition::new(4, 8)],
        }
    }

    pub fn new_with_initial_moves_skipped() -> (b: Self)
        ensures
            b.no_walls(),
            b.pos(Player::White) == (PiecePosition { x: 4, y: 3 }),
            b.pos(Player::Black) == (PiecePosition { x: 4, y: 5 }),
    {
        Self {
            walls: Walls::empty(),
            player_positions: [PiecePosition::new(4, 3), PiecePosition::new(4, 5)],
        }
    }

    pub fn wall_at(&self, wall_orientation: WallOrientation, wall_pos_x: isize, wall_pos_y: isize) -> (r:
        bool)
        ensures
            r == self.walls.spec_wall_at(wall_orientation, wall_pos_x as int, wall_pos_y as int),
    {
        self.walls.wall_at(wall_orientation, wall_pos_x, wall_pos_y)
    }

    pub fn player_position(&self, player: Player) -> (r: &PiecePosition)
        ensures
            *r == self.pos(player),
    {
        &self.player_positions[player.as_index()]
    }
}

impl Game {
    pub fn new() -> (g: Self)
        ensures
            g.player == Player::White,
            g.board.is_initial(),
            g.walls_left@ == seq![WALLS_PER_PLAYER, WALLS_PER_PLAYER],
    {
        Self { player: Player::White, board: Board::new(), walls_left: [10, 10] }
    }
}

impl Direction {
    /// The four directions, in the order `Up`, `Down`, `Left`, `Right`.
    pub open spec fn spec_all() -> Seq<Direction> {
        seq![Direction::Up, Direction::Down, Direction::Left, Direction::Right]
    }

    pub fn iter() -> (v: Vec<Direction>)
        ensures
            v@ == Self::spec_all(),
    {
        vec![Direction::Up, Direction::Down, Direction::Left, Direction::Right]
    }

    /// The place of the direction in `spec_all`.
    pub open spec fn idx(self) -> int {
        match self {
            Direction::Up => 0,
            Direction::Down => 1,
            Direction::Left => 2,
            Direction::Right => 3,
        }
    }

    pub open spec fn dx(self) -> int {
        match self {
            Direction::Left => -1,
            Direction::Right => 1,
            _ => 0,
        }
    }

    pub open spec fn dy(self) -> int {
        match self {
            Direction::Up => -1,
            Direction::Down => 1,
            _ => 0,
        }
    }

    pub open spec fn opposite(self) -> Direction {
        match self {
            Direction::Up => Direction::Down,
            Direction::Down => Direction::Up,
            Direction::Left => Direction::Right,
            Direction::Right => Direction::Left,
        }
    }

    pub fn to_offset(&self) -> (r: (isize, isize))
        ensures
            r.0 == self.dx(),
            r.1 == self.dy(),
    {
        match self {
            Direction::Up => (0, -1),
            Direction::Down => (0, 1),
            Direction::Left => (-1, 0),
            Direction::Right => (1, 0),
        }
    }

    pub fn to_char(&self) -> (c: char)
        ensures
            c == (match *self {
                Direction::Up => 'u',
                Direction::Down => 'd',
                Direction::Left => 'l',
                Direction::Right => 'r',
            }),
    {
        match self {
            Direction::Up => 'u',
            Direction::Down => 'd',
            Direction::Left => 'l',
            Direction::Right => 'r',
        }
    }
}

impl Player {
    pub open spec fn index(self) -> int {
        match self {
            Player::White => 0,
            Player::Black => 1,
        }
    }

    pub open spec fn other(self) -> Player {
        match self {
            Player::White => Player::Black,
            Player::Black => Player::White,
        }
    }

    pub fn opponent(&self) -> (p: Player)
        ensures
            p == self.other(),
    {
        match self {
            Player::White => Player::Black,
            Player::Black => Player::White,
        }
    }

    pub fn as_index(self) -> (i: usize)
        ensures
            i == self.index(),
    {
        match self {
            Player::White => 0,
            Player::Black => 1,
        }
    }

    pub fn to_string(self) -> (s: &'static str)
        ensures
            s@ == (match self {
                Player::White => "White"@,
                Player::Black => "Black"@,
            }),
    {
        match self {
            Player::White => "White",
            Player::Black => "Black",
        }
    }
}

impl MovePiece {
    /// The sixteen moves, ordered by `direction`, then by `direction_on_collision`,
    /// each in the order of `Direction::spec_all`.
    pub open spec fn spec_all() -> Seq<MovePiece> {
        Seq::new(
            16,
            |i: int|
                MovePiece {
                    direction: Direction::spec_all()[i / 4],
                    direction_on_collision: Direction::spec_all()[i % 4],
                },
        )
    }

    pub fn iter() -> (v: Vec<MovePiece>)
        ensures
            v@ == Self::spec_all(),
    {
        let dirs = Direction::iter();
        let mut v: Vec<MovePiece> = Vec::new();
        let mut i: usize = 0;
        while i < 4
            invariant
                i <= 4,
                dirs@ == Direction::spec_all(),
                v@ == Self::spec_all().take(4 * i as int),
            decreases 4 - i,
        {
            let mut j: usize = 0;
            while j < 4
                invariant
                    i < 4,
                    j <= 4,
                    dirs@ == Direction::spec_all(),
                    v@ == Self::spec_all().take(4 * i + j),
                decreases 4 - j,
            {
                v.push(MovePiece { direction: dirs[i], direction_on_collision: dirs[j] });
                assert(v@ =~= Self::spec_all().take(4 * i + j + 1));
                j += 1;
            }
            i += 1;
        }
        assert(v@ =~= Self::spec_all());
        v
    }
}

/// The text of a move: `m` and the two direction letters for a piece move,
/// the orientation letter and the two coordinates for a wall.
pub open spec fn spec_move_notation(m: PlayerMove) -> Seq<char> {
    match m {
        PlayerMove::MovePiece(mp) => seq![
            'm',
            direction_char(mp.direction),
            direction_char(mp.direction_on_collision),
        ],
        PlayerMove::PlaceWall { orientation, position } => seq![
            if orientation == WallOrientation::Horizontal {
                'h'
            } else {
                'v'
            },
        ] + spec_decimal(position.x as nat) + spec_decimal(position.y as nat),
    }
}

pub open spec fn direction_char(d: Direction) -> char {
    match d {
        Direction::Up => 'u',
        Direction::Down => 'd',
        Direction::Left => 'l',
        Direction::Right => 'r',
    }
}

pub open spec fn digit_char(d: nat) -> char {
    if d == 0 { '0' }
    else if d == 1 { '1' }
    else if d == 2 { '2' }
    else if d == 3 { '3' }
    else if d == 4 { '4' }
    else if d == 5 { '5' }
    else if d == 6 { '6' }
    else if d == 7 { '7' }
    else if d == 8 { '8' }
    else { '9' }
}

/// The decimal digits of `n`, most significant first.
pub open spec fn spec_decimal(n: nat) -> Seq<char>
    decreases n,
{
    if n < 10 {
        seq![digit_char(n)]
    } else {
        spec_decimal(n / 10) + seq![digit_char(n % 10)]
    }
}

} // verus!
