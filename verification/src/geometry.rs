use vstd::prelude::*;

verus! {

/// A coordinate pair on the 16 x 16 board. Robots, goals and tiles occupy
/// positions with 0 <= x < 16 and 0 <= y < 16; `Tile::get_adjacent_position`
/// may step one unit outside that range.
#[derive(Debug, Copy, Clone, PartialEq, Eq, Structural, Hash)]
pub struct Position {
    pub x: i8,
    pub y: i8,
}

/// Whether a position lies on the board.
pub open spec fn on_board(p: Position) -> bool {
    0 <= p.x < 16 && 0 <= p.y < 16
}

/// A direction of robot motion. `UP` decreases y, `DOWN` increases y,
/// `LEFT` decreases x, `RIGHT` increases x.
#[derive(Debug, Copy, Clone, PartialEq, Eq, Structural)]
pub enum Direction {
    UP,
    DOWN,
    LEFT,
    RIGHT,
}

/// The direction that crosses the same tile edge from the other side.
pub open spec fn opposite(direction: Direction) -> Direction {
    match direction {
        Direction::UP => Direction::DOWN,
        Direction::DOWN => Direction::UP,
        Direction::LEFT => Direction::RIGHT,
        Direction::RIGHT => Direction::LEFT,
    }
}

/// The neighbouring position one step away in the given direction.
pub open spec fn step(p: Position, direction: Direction) -> Position {
    match direction {
        Direction::UP => Position { x: p.x, y: (p.y - 1) as i8 },
        Direction::DOWN => Position { x: p.x, y: (p.y + 1) as i8 },
        Direction::LEFT => Position { x: (p.x - 1) as i8, y: p.y },
        Direction::RIGHT => Position { x: (p.x + 1) as i8, y: p.y },
    }
}

/// One square of the board: its position, one flag per direction saying
/// whether motion out of the square that way is open, and the precomputed
/// resting position of a slide in each direction on an otherwise empty board.
#[derive(Debug, Copy, Clone)]
pub struct Tile {
    pub position: Position,
    pub up: bool,
    pub down: bool,
    pub left: bool,
    pub right: bool,
    pub up_move: Position,
    pub down_move: Position,
    pub left_move: Position,
    pub right_move: Position,
}

impl Tile {
    /// The wall flag of this tile for the given direction.
    pub open spec fn open_towards(self, direction: Direction) -> bool {
        match direction {
            Direction::UP => self.up,
            Direction::DOWN => self.down,
            Direction::LEFT => self.left,
            Direction::RIGHT => self.right,
        }
    }

    /// The stored slide destination of this tile for the given direction.
    pub open spec fn slide_towards(self, direction: Direction) -> Position {
        match direction {
            Direction::UP => self.up_move,
            Direction::DOWN => self.down_move,
            Direction::LEFT => self.left_move,
            Direction::RIGHT => self.right_move,
        }
    }

    /// The position one step away from this tile in the given direction,
    /// whether or not the board has a tile there.
    pub fn get_adjacent_position(&self, direction: Direction) -> (r: Position)
        requires
            on_board(self.position),
        ensures
            r == step(self.position, direction),
    {
        match direction {
            Direction::UP => Position { x: self.position.x, y: self.position.y - 1 },
            Direction::DOWN => Position { x: self.position.x, y: self.position.y + 1 },
            Direction::LEFT => Position { x: self.position.x - 1, y: self.position.y },
            Direction::RIGHT => Position { x: self.position.x + 1, y: self.position.y },
        }
    }
}

/// Whether a robot on this tile could start moving in the given direction,
/// going by the tile's own wall flag alone.
pub fn can_move(tile: Tile, direction: Direction) -> (r: bool)
    ensures
        r == tile.open_towards(direction),
{
    match direction {
        Direction::UP => tile.up,
        Direction::DOWN => tile.down,
        Direction::LEFT => tile.left,
        Direction::RIGHT => tile.right,
    }
}

/// The tile of a 256-entry tile table that stands at column x, row y.
pub open spec fn tile_at(tiles: Seq<Tile>, x: int, y: int) -> Tile {
    tiles[x * 16 + y]
}

/// The wall flag at column x, row y for the given direction.
pub open spec fn open_at(tiles: Seq<Tile>, x: int, y: int, direction: Direction) -> bool {
    tile_at(tiles, x, y).open_towards(direction)
}

/// The row on which a slide upward from (x, y) comes to rest on an empty
/// board: y itself when the wall is closed, else the resting row from one
/// step up.
pub open spec fn slide_up(tiles: Seq<Tile>, x: int, y: int) -> int
    decreases y,
{
    if y <= 0 || !open_at(tiles, x, y, Direction::UP) {
        y
    } else {
        slide_up(tiles, x, y - 1)
    }
}

/// The row on which a slide downward from (x, y) comes to rest.
pub open spec fn slide_down(tiles: Seq<Tile>, x: int, y: int) -> int
    decreases 15 - y,
{
    if y >= 15 || !open_at(tiles, x, y, Direction::DOWN) {
        y
    } else {
        slide_down(tiles, x, y + 1)
    }
}

/// The column on which a slide leftward from (x, y) comes to rest.
pub open spec fn slide_left(tiles: Seq<Tile>, x: int, y: int) -> int
    decreases x,
{
    if x <= 0 || !open_at(tiles, x, y, Direction::LEFT) {
        x
    } else {
        slide_left(tiles, x - 1, y)
    }
}

/// The column on which a slide rightward from (x, y) comes to rest.
pub open spec fn slide_right(tiles: Seq<Tile>, x: int, y: int) -> int
    decreases 15 - x,
{
    if x >= 15 || !open_at(tiles, x, y, Direction::RIGHT) {
        x
    } else {
        slide_right(tiles, x + 1, y)
    }
}

/// The resting position of a slide from p in the given direction on an
/// otherwise empty board.
pub open spec fn slide_dest(tiles: Seq<Tile>, p: Position, direction: Direction) -> Position {
    match direction {
        Direction::UP => Position { x: p.x, y: slide_up(tiles, p.x as int, p.y as int) as i8 },
        Direction::DOWN => Position { x: p.x, y: slide_down(tiles, p.x as int, p.y as int) as i8 },
        Direction::LEFT => Position { x: slide_left(tiles, p.x as int, p.y as int) as i8, y: p.y },
        Direction::RIGHT => Position {
            x: slide_right(tiles, p.x as int, p.y as int) as i8,
            y: p.y,
        },
    }
}

/// The immutable board geometry: a 16 x 16 table of tiles, stored column by
/// column (the tile at column x, row y sits at index x * 16 + y).
#[derive(Debug)]
pub struct Geometry {
    pub tiles: Vec<Tile>,
}

impl Geometry {
    /// Well-formedness: the table has one tile per board position, each tile
    /// knows its own position, walls are closed at the board edge and agree
    /// across every shared edge, and the stored slide destinations equal the
    /// slides that the wall flags define.
    pub open spec fn wf(self) -> bool {
        &&& self.tiles@.len() == 256
        &&& forall|x: int, y: int|
            0 <= x < 16 && 0 <= y < 16 ==> (#[trigger] tile_at(self.tiles@, x, y)).position
                == (Position { x: x as i8, y: y as i8 })
        &&& forall|x: int, y: int|
            0 <= x < 16 && 0 <= y < 16 && #[trigger] open_at(self.tiles@, x, y, Direction::UP)
                ==> y >= 1 && open_at(self.tiles@, x, y - 1, Direction::DOWN)
        &&& forall|x: int, y: int|
            0 <= x < 16 && 0 <= y < 16 && #[trigger] open_at(self.tiles@, x, y, Direction::DOWN)
                ==> y <= 14 && open_at(self.tiles@, x, y + 1, Direction::UP)
        &&& forall|x: int, y: int|
            0 <= x < 16 && 0 <= y < 16 && #[trigger] open_at(self.tiles@, x, y, Direction::LEFT)
                ==> x >= 1 && open_at(self.tiles@, x - 1, y, Direction::RIGHT)
        &&& forall|x: int, y: int|
            0 <= x < 16 && 0 <= y < 16 && #[trigger] open_at(self.tiles@, x, y, Direction::RIGHT)
                ==> x <= 14 && open_at(self.tiles@, x + 1, y, Direction::LEFT)
        &&& forall|x: int, y: int, d: Direction|
            0 <= x < 16 && 0 <= y < 16 ==> #[trigger] tile_at(self.tiles@, x, y).slide_towards(d)
                == slide_dest(self.tiles@, Position { x: x as i8, y: y as i8 }, d)
    }

    /// The tile that stands at the given position.
    pub fn get_tile(&self, position: Position) -> (r: Tile)
        requires
            self.wf(),
            on_board(position),
        ensures
            r == tile_at(self.tiles@, position.x as int, position.y as int),
    {
        let idx: usize = (position.x as usize) * 16 + (position.y as usize);
        self.tiles[idx]
    }
}

/// A board with no robots on it: the geometry and a goal. The heuristic
/// flood fill runs over it.
#[derive(Debug, Copy, Clone)]
pub struct EmptyBoard<'a> {
    pub map: &'a Geometry,
    pub goal: Position,
}

impl<'a> EmptyBoard<'a> {
    /// Well-formedness: the geometry is well-formed and the goal stands on
    /// the board.
    pub open spec fn wf(self) -> bool {
        &&& self.map.wf()
        &&& on_board(self.goal)
    }

    /// The directions with an open wall at a position, in the fixed order up,
    /// down, left, right.
    pub open spec fn open_directions(self, p: Position) -> Seq<Direction> {
        (if open_at(self.map.tiles@, p.x as int, p.y as int, Direction::UP) {
            seq![Direction::UP]
        } else {
            Seq::empty()
        }) + (if open_at(self.map.tiles@, p.x as int, p.y as int, Direction::DOWN) {
            seq![Direction::DOWN]
        } else {
            Seq::empty()
        }) + (if open_at(self.map.tiles@, p.x as int, p.y as int, Direction::LEFT) {
            seq![Direction::LEFT]
        } else {
            Seq::empty()
        }) + (if open_at(self.map.tiles@, p.x as int, p.y as int, Direction::RIGHT) {
            seq![Direction::RIGHT]
        } else {
            Seq::empty()
        })
    }

    /// An empty board over the given geometry with the given goal.
    pub fn new(map: &'a Geometry, goal: Position) -> (r: EmptyBoard<'a>)
        requires
            map.wf(),
            on_board(goal),
        ensures
            r == (EmptyBoard { map, goal }),
            r.wf(),
    {
        EmptyBoard { map, goal }
    }

    /// The directions a lone robot at the given position could start moving
    /// in: those with an open wall, robots being absent here.
    pub fn get_valid_directions(&self, position: Position) -> (r: Vec<Direction>)
        requires
            self.wf(),
            on_board(position),
        ensures
            r@ == self.open_directions(position),
    {
        let tile = self.get_tile(position);

        let mut directions = Vec::new();
        if tile.up {
            directions.push(Direction::UP);
        }
        if tile.down {
            directions.push(Direction::DOWN);
        }
        if tile.left {
            directions.push(Direction::LEFT);
        }
        if tile.right {
            directions.push(Direction::RIGHT);
        }
        proof {
            assert(directions@ =~= self.open_directions(position));
        }
        directions
    }

    /// The tile under a position.
    pub fn get_tile(&self, position: Position) -> (r: Tile)
        requires
            self.wf(),
            on_board(position),
        ensures
            r == tile_at(self.map.tiles@, position.x as int, position.y as int),
    {
        self.map.get_tile(position)
    }

    /// Whether a lone robot at the given position could move one step in the
    /// given direction: its tile's wall that way is open.
    pub fn can_move(&self, position: Position, direction: Direction) -> (r: bool)
        requires
            self.wf(),
            on_board(position),
        ensures
            r == open_at(self.map.tiles@, position.x as int, position.y as int, direction),
    {
        let tile = self.get_tile(position);
        !match direction {
            Direction::UP => !tile.up,
            Direction::DOWN => !tile.down,
            Direction::LEFT => !tile.left,
            Direction::RIGHT => !tile.right,
        }
    }
}

/// Walls agree across shared edges: an edge of the board is open from one of
/// its two sides exactly when it is open from the other.
pub proof fn lemma_wall_symmetry(g: Geometry, p: Position, direction: Direction)
    requires
        g.wf(),
        on_board(p),
        on_board(step(p, direction)),
    ensures
        open_at(g.tiles@, p.x as int, p.y as int, direction) == open_at(
            g.tiles@,
            step(p, direction).x as int,
            step(p, direction).y as int,
            opposite(direction),
        ),
{
}

/// Slide destinations are idempotent: sliding again from a slide's resting
/// position, in the same direction, stays put.
pub proof fn lemma_slide_destination_idempotent(g: Geometry, p: Position, direction: Direction)
    requires
        g.wf(),
        on_board(p),
    ensures
        on_board(slide_dest(g.tiles@, p, direction)),
        slide_dest(g.tiles@, slide_dest(g.tiles@, p, direction), direction) == slide_dest(
            g.tiles@,
            p,
            direction,
        ),
{
    match direction {
        Direction::UP => {
            lemma_slide_up_fixed(g.tiles@, p.x as int, p.y as int);
        },
        Direction::DOWN => {
            lemma_slide_down_fixed(g.tiles@, p.x as int, p.y as int);
        },
        Direction::LEFT => {
            lemma_slide_left_fixed(g.tiles@, p.x as int, p.y as int);
        },
        Direction::RIGHT => {
            lemma_slide_right_fixed(g.tiles@, p.x as int, p.y as int);
        },
    }
}

/// A slide upward lands between row 0 and the start row, on a tile whose
/// upward wall is closed unless it sits on row 0.
pub(crate) proof fn lemma_slide_up_fixed(tiles: Seq<Tile>, x: int, y: int)
    requires
        0 <= y,
    ensures
        0 <= slide_up(tiles, x, y) <= y,
        slide_up(tiles, x, slide_up(tiles, x, y)) == slide_up(tiles, x, y),
    decreases y,
{
    if y > 0 && open_at(tiles, x, y, Direction::UP) {
        lemma_slide_up_fixed(tiles, x, y - 1);
    }
}

/// A slide downward lands between the start row and row 15, on a tile whose
/// downward wall is closed unless it sits on row 15.
pub(crate) proof fn lemma_slide_down_fixed(tiles: Seq<Tile>, x: int, y: int)
    requires
        y <= 15,
    ensures
        y <= slide_down(tiles, x, y) <= 15,
        slide_down(tiles, x, slide_down(tiles, x, y)) == slide_down(tiles, x, y),
    decreases 15 - y,
{
    if y < 15 && open_at(tiles, x, y, Direction::DOWN) {
        lemma_slide_down_fixed(tiles, x, y + 1);
    }
}

/// A slide leftward lands between column 0 and the start column.
pub(crate) proof fn lemma_slide_left_fixed(tiles: Seq<Tile>, x: int, y: int)
    requires
        0 <= x,
    ensures
        0 <= slide_left(tiles, x, y) <= x,
        slide_left(tiles, slide_left(tiles, x, y), y) == slide_left(tiles, x, y),
    decreases x,
{
    if x > 0 && open_at(tiles, x, y, Direction::LEFT) {
        lemma_slide_left_fixed(tiles, x - 1, y);
    }
}

/// A slide rightward lands between the start column and column 15.
pub(crate) proof fn lemma_slide_right_fixed(tiles: Seq<Tile>, x: int, y: int)
    requires
        x <= 15,
    ensures
        x <= slide_right(tiles, x, y) <= 15,
        slide_right(tiles, slide_right(tiles, x, y), y) == slide_right(tiles, x, y),
    decreases 15 - x,
{
    if x < 15 && open_at(tiles, x, y, Direction::RIGHT) {
        lemma_slide_right_fixed(tiles, x + 1, y);
    }
}

} // verus!
