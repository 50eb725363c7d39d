use vstd::prelude::*;

use thincollections::thin_vec::ThinVec;

use crate::geometry::Direction;
use crate::geometry::Geometry;
use crate::geometry::Position;
use crate::geometry::on_board;
use crate::geometry::open_at;
use crate::geometry::slide_dest;
use crate::geometry::slide_down;
use crate::geometry::slide_left;
use crate::geometry::slide_right;
use crate::geometry::slide_up;
use crate::geometry::step;
use crate::geometry::tile_at;

use vstd::arithmetic::div_mod::lemma_basic_div;
use vstd::arithmetic::div_mod::lemma_hoist_over_denominator;
use vstd::arithmetic::div_mod::lemma_mod_multiples_vanish;
use vstd::arithmetic::div_mod::lemma_small_mod;

verus! {

pub const SIXTEEN_POWER_1: u64 = 16;

pub const SIXTEEN_POWER_2: u64 = 256;

pub const SIXTEEN_POWER_3: u64 = 4096;

pub const SIXTEEN_POWER_4: u64 = 65536;

pub const SIXTEEN_POWER_5: u64 = 1048576;

pub const SIXTEEN_POWER_6: u64 = 16777216;

pub const SIXTEEN_POWER_7: u64 = 268435456;

/// One of the four robots.
#[derive(Debug, Copy, Clone, PartialEq, Eq, Structural)]
pub enum Colour {
    RED,
    BLUE,
    GREEN,
    YELLOW,
}

/// A puzzle state: the four robot positions and the goal, over a shared
/// immutable geometry.
#[derive(Debug, Copy, Clone)]
pub struct Board<'a> {
    pub map: &'a Geometry,
    pub red: Position,
    pub green: Position,
    pub blue: Position,
    pub yellow: Position,
    pub goal: Position,
}

/// One clamp step of an upward slide: acc, or the row just below robot r when
/// r stands on the slide line from p down to e0 and tightens the clamp.
pub open spec fn up_stop(p: Position, e0: int, acc: int, r: Position) -> int {
    if r.x == p.x && r.y < p.y && r.y >= e0 && acc < r.y + 1 {
        r.y + 1
    } else {
        acc
    }
}

/// One clamp step of a downward slide.
pub open spec fn down_stop(p: Position, e0: int, acc: int, r: Position) -> int {
    if r.x == p.x && r.y > p.y && r.y <= e0 && acc > r.y - 1 {
        r.y - 1
    } else {
        acc
    }
}

/// One clamp step of a leftward slide.
pub open spec fn left_stop(p: Position, e0: int, acc: int, r: Position) -> int {
    if r.y == p.y && r.x < p.x && r.x >= e0 && acc < r.x + 1 {
        r.x + 1
    } else {
        acc
    }
}

/// One clamp step of a rightward slide.
pub open spec fn right_stop(p: Position, e0: int, acc: int, r: Position) -> int {
    if r.y == p.y && r.x > p.x && r.x <= e0 && acc > r.x - 1 {
        r.x - 1
    } else {
        acc
    }
}

impl<'a> Board<'a> {
    /// The position of the robot of the given colour.
    pub open spec fn robot(self, colour: Colour) -> Position {
        match colour {
            Colour::RED => self.red,
            Colour::BLUE => self.blue,
            Colour::GREEN => self.green,
            Colour::YELLOW => self.yellow,
        }
    }

    /// This board with the robot of the given colour at p.
    pub open spec fn with_robot(self, colour: Colour, p: Position) -> Board<'a> {
        match colour {
            Colour::RED => Board { red: p, ..self },
            Colour::BLUE => Board { blue: p, ..self },
            Colour::GREEN => Board { green: p, ..self },
            Colour::YELLOW => Board { yellow: p, ..self },
        }
    }

    /// Whether a robot stands on p.
    pub open spec fn occupied(self, p: Position) -> bool {
        self.red == p || self.blue == p || self.yellow == p || self.green == p
    }

    /// Well-formedness: the geometry is well-formed, every robot and the goal
    /// stand on the board, and the robots stand on four distinct tiles.
    pub open spec fn wf(self) -> bool {
        &&& self.map.wf()
        &&& on_board(self.red)
        &&& on_board(self.green)
        &&& on_board(self.blue)
        &&& on_board(self.yellow)
        &&& on_board(self.goal)
        &&& self.red != self.green
        &&& self.red != self.blue
        &&& self.red != self.yellow
        &&& self.green != self.blue
        &&& self.green != self.yellow
        &&& self.blue != self.yellow
    }

    /// Where a robot shoved in the given direction comes to rest: the empty
    /// board slide destination, clamped to the tile just before the nearest
    /// robot that stands on the slide line.
    pub open spec fn move_destination(self, colour: Colour, direction: Direction) -> Position {
        let p = self.robot(colour);
        let tiles = self.map.tiles@;
        match direction {
            Direction::UP => {
                let e0 = slide_up(tiles, p.x as int, p.y as int);
                let c = up_stop(
                    p,
                    e0,
                    up_stop(p, e0, up_stop(p, e0, up_stop(p, e0, e0, self.red), self.green), self.blue),
                    self.yellow,
                );
                Position { x: p.x, y: c as i8 }
            },
            Direction::DOWN => {
                let e0 = slide_down(tiles, p.x as int, p.y as int);
                let c = down_stop(
                    p,
                    e0,
                    down_stop(
                        p,
                        e0,
                        down_stop(p, e0, down_stop(p, e0, e0, self.red), self.green),
                        self.blue,
                    ),
                    self.yellow,
                );
                Position { x: p.x, y: c as i8 }
            },
            Direction::LEFT => {
                let e0 = slide_left(tiles, p.x as int, p.y as int);
                let c = left_stop(
                    p,
                    e0,
                    left_stop(
                        p,
                        e0,
                        left_stop(p, e0, left_stop(p, e0, e0, self.red), self.green),
                        self.blue,
                    ),
                    self.yellow,
                );
                Position { x: c as i8, y: p.y }
            },
            Direction::RIGHT => {
                let e0 = slide_right(tiles, p.x as int, p.y as int);
                let c = right_stop(
                    p,
                    e0,
                    right_stop(
                        p,
                        e0,
                        right_stop(p, e0, right_stop(p, e0, e0, self.red), self.green),
                        self.blue,
                    ),
                    self.yellow,
                );
                Position { x: c as i8, y: p.y }
            },
        }
    }

    /// Whether the robot of the given colour may be shoved in the given
    /// direction: its tile is open that way and the adjacent tile is free.
    pub open spec fn valid_direction(self, colour: Colour, direction: Direction) -> bool {
        let p = self.robot(colour);
        &&& open_at(self.map.tiles@, p.x as int, p.y as int, direction)
        &&& !self.occupied(step(p, direction))
    }

    /// The valid directions of a robot, in the fixed order up, down, left,
    /// right.
    pub open spec fn valid_directions_seq(self, colour: Colour) -> Seq<Direction> {
        (if self.valid_direction(colour, Direction::UP) {
            seq![Direction::UP]
        } else {
            Seq::empty()
        }) + (if self.valid_direction(colour, Direction::DOWN) {
            seq![Direction::DOWN]
        } else {
            Seq::empty()
        }) + (if self.valid_direction(colour, Direction::LEFT) {
            seq![Direction::LEFT]
        } else {
            Seq::empty()
        }) + (if self.valid_direction(colour, Direction::RIGHT) {
            seq![Direction::RIGHT]
        } else {
            Seq::empty()
        })
    }

    /// The 64-bit fingerprint of the four robot positions: eight coordinate
    /// nibbles packed in fixed order.
    pub open spec fn fingerprint(self) -> u64 {
        fingerprint_of(self.red, self.green, self.blue, self.yellow)
    }

    /// The six fingerprints of this state under all orderings of the three
    /// non-red robots.
    pub open spec fn permuted_fingerprints(self) -> Seq<u64> {
        seq![
            fingerprint_of(self.red, self.green, self.blue, self.yellow),
            fingerprint_of(self.red, self.green, self.yellow, self.blue),
            fingerprint_of(self.red, self.blue, self.green, self.yellow),
            fingerprint_of(self.red, self.blue, self.yellow, self.green),
            fingerprint_of(self.red, self.yellow, self.blue, self.green),
            fingerprint_of(self.red, self.yellow, self.green, self.blue),
        ]
    }
}

/// The fingerprint of four robot coordinate pairs, first pair lowest.
pub open spec fn fingerprint_of(a: Position, b: Position, c: Position, d: Position) -> u64 {
    (a.x + 16 * a.y + 256 * b.x + 4096 * b.y + 65536 * c.x + 1048576 * c.y + 16777216 * d.x
        + 268435456 * d.y) as u64
}

impl<'a> Board<'a> {
    /// A new board over the given geometry, with the four robots and the
    /// goal where the caller puts them. The robots must stand on four
    /// distinct board tiles, the goal on the board.
    pub fn new(
        map: &'a Geometry,
        red: Position,
        green: Position,
        blue: Position,
        yellow: Position,
        goal: Position,
    ) -> (r: Board<'a>)
        requires
            map.wf(),
            on_board(red),
            on_board(green),
            on_board(blue),
            on_board(yellow),
            on_board(goal),
            red != green,
            red != blue,
            red != yellow,
            green != blue,
            green != yellow,
            blue != yellow,
        ensures
            r == (Board { map, red, green, blue, yellow, goal }),
            r.wf(),
    {
        Board { map, red, green, blue, yellow, goal }
    }

    /// The goal position.
    pub fn get_goal(&self) -> (r: Position)
        ensures
            r == self.goal,
    {
        self.goal
    }

    /// The position of the robot of the given colour.
    pub fn get_robot_by_colour(&self, colour: Colour) -> (r: Position)
        ensures
            r == self.robot(colour),
    {
        match colour {
            Colour::RED => self.red,
            Colour::BLUE => self.blue,
            Colour::GREEN => self.green,
            Colour::YELLOW => self.yellow,
        }
    }

    /// Whether the robot of the given colour stands on the goal.
    pub fn is_solved(&self, colour: Colour) -> (r: bool)
        ensures
            r == (self.robot(colour) == self.goal),
    {
        match colour {
            Colour::RED => self.red == self.goal,
            Colour::BLUE => self.blue == self.goal,
            Colour::YELLOW => self.yellow == self.goal,
            Colour::GREEN => self.green == self.goal,
        }
    }

    /// The four robot positions, in colour order.
    pub fn get_robots(&self) -> (r: Vec<Position>)
        ensures
            r@ == seq![self.red, self.green, self.blue, self.yellow],
    {
        let robots = vec![self.red, self.green, self.blue, self.yellow];
        proof {
            assert(robots@ =~= seq![self.red, self.green, self.blue, self.yellow]);
        }
        robots
    }

    /// The state fingerprint: eight coordinate nibbles packed into a u64 in
    /// the order red.x, red.y, green.x, green.y, blue.x, blue.y, yellow.x,
    /// yellow.y.
    pub fn hash(&self) -> (r: u64)
        requires
            self.wf(),
        ensures
            r == self.fingerprint(),
    {
        self.red.x as u64 + SIXTEEN_POWER_1 * self.red.y as u64 + SIXTEEN_POWER_2
            * self.green.x as u64 + SIXTEEN_POWER_3 * self.green.y as u64 + SIXTEEN_POWER_4
            * self.blue.x as u64 + SIXTEEN_POWER_5 * self.blue.y as u64 + SIXTEEN_POWER_6
            * self.yellow.x as u64 + SIXTEEN_POWER_7 * self.yellow.y as u64
    }

    /// The six fingerprints of this state under all orderings of the three
    /// non-red robots; states that differ only in such an ordering share the
    /// same six values.
    pub fn permuted_hashes(&self) -> (r: [u64; 6])
        requires
            self.wf(),
        ensures
            r@ == self.permuted_fingerprints(),
    {
        let r = [
            pack_fingerprint(self.red, self.green, self.blue, self.yellow),
            pack_fingerprint(self.red, self.green, self.yellow, self.blue),
            pack_fingerprint(self.red, self.blue, self.green, self.yellow),
            pack_fingerprint(self.red, self.blue, self.yellow, self.green),
            pack_fingerprint(self.red, self.yellow, self.blue, self.green),
            pack_fingerprint(self.red, self.yellow, self.green, self.blue),
        ];
        proof {
            assert(r@ =~= self.permuted_fingerprints());
        }
        r
    }

    /// Whether a robot stands on p.
    fn is_occupied(&self, position: Position) -> (r: bool)
        ensures
            r == self.occupied(position),
    {
        self.red == position || self.blue == position || self.yellow == position || self.green
            == position
    }

    /// The tile under a position.
    fn get_tile(&self, position: Position) -> (r: crate::geometry::Tile)
        requires
            self.map.wf(),
            on_board(position),
        ensures
            r == tile_at(self.map.tiles@, position.x as int, position.y as int),
    {
        self.map.get_tile(position)
    }

    /// Put the robot of the given colour on a position.
    fn set_robot_by_colour(&mut self, colour: Colour, position: Position)
        ensures
            *final(self) == old(self).with_robot(colour, position),
    {
        match colour {
            Colour::RED => self.red = position,
            Colour::BLUE => self.blue = position,
            Colour::GREEN => self.green = position,
            Colour::YELLOW => self.yellow = position,
        }
    }

    /// Whether the robot standing on `position` may be shoved one tile in the
    /// given direction.
    fn can_move(&self, position: Position, direction: Direction) -> (r: bool)
        requires
            self.map.wf(),
            on_board(position),
        ensures
            r == (open_at(self.map.tiles@, position.x as int, position.y as int, direction)
                && !self.occupied(step(position, direction))),
    {
        let tile = self.get_tile(position);
        let is_blocked_by_wall = match direction {
            Direction::UP => !tile.up,
            Direction::DOWN => !tile.down,
            Direction::LEFT => !tile.left,
            Direction::RIGHT => !tile.right,
        };
        !is_blocked_by_wall && !self.is_occupied(tile.get_adjacent_position(direction))
    }
}

impl<'a> Board<'a> {
    /// Shove the robot of the given colour in the given direction: it slides
    /// to the precomputed wall stop, clamped to the tile just before the
    /// nearest robot in its way, and the board records its new position.
    /// Returns the resting position, which is the old one when nothing can
    /// move that way.
    #[verifier::rlimit(100)]
    pub fn move_robot(&mut self, colour: Colour, direction: Direction) -> (r: Position)
        requires
            old(self).wf(),
        ensures
            r == old(self).move_destination(colour, direction),
            *final(self) == old(self).with_robot(colour, r),
            final(self).wf(),
    {
        let p = self.get_robot_by_colour(colour);
        let tile = self.get_tile(p);
        proof {
            let tiles = self.map.tiles@;
            assert(tile_at(tiles, p.x as int, p.y as int).slide_towards(direction) == slide_dest(
                tiles,
                p,
                direction,
            ));
            crate::geometry::lemma_slide_up_fixed(tiles, p.x as int, p.y as int);
            crate::geometry::lemma_slide_down_fixed(tiles, p.x as int, p.y as int);
            crate::geometry::lemma_slide_left_fixed(tiles, p.x as int, p.y as int);
            crate::geometry::lemma_slide_right_fixed(tiles, p.x as int, p.y as int);
            lemma_move_destination_wf(*self, colour, direction);
        }
        let end_position = match direction {
            Direction::UP => {
                let mut end_position = tile.up_move;
                let mut collision_y = end_position.y;
                if self.red.x == end_position.x && self.red.y < p.y && self.red.y
                    >= end_position.y {
                    if collision_y < self.red.y + 1 {
                        collision_y = self.red.y + 1;
                    }
                }
                if self.green.x == end_position.x && self.green.y < p.y && self.green.y
                    >= end_position.y {
                    if collision_y < self.green.y + 1 {
                        collision_y = self.green.y + 1;
                    }
                }
                if self.blue.x == end_position.x && self.blue.y < p.y && self.blue.y
                    >= end_position.y {
                    if collision_y < self.blue.y + 1 {
                        collision_y = self.blue.y + 1;
                    }
                }
                if self.yellow.x == end_position.x && self.yellow.y < p.y && self.yellow.y
                    >= end_position.y {
                    if collision_y < self.yellow.y + 1 {
                        collision_y = self.yellow.y + 1;
                    }
                }
                end_position.y = collision_y;
                end_position
            },
            Direction::DOWN => {
                let mut end_position = tile.down_move;
                let mut collision_y = end_position.y;
                if self.red.x == end_position.x && self.red.y > p.y && self.red.y
                    <= end_position.y {
                    if collision_y > self.red.y - 1 {
                        collision_y = self.red.y - 1;
                    }
                }
                if self.green.x == end_position.x && self.green.y > p.y && self.green.y
                    <= end_position.y {
                    if collision_y > self.green.y - 1 {
                        collision_y = self.green.y - 1;
                    }
                }
                if self.blue.x == end_position.x && self.blue.y > p.y && self.blue.y
                    <= end_position.y {
                    if collision_y > self.blue.y - 1 {
                        collision_y = self.blue.y - 1;
                    }
                }
                if self.yellow.x == end_position.x && self.yellow.y > p.y && self.yellow.y
                    <= end_position.y {
                    if collision_y > self.yellow.y - 1 {
                        collision_y = self.yellow.y - 1;
                    }
                }
                end_position.y = collision_y;
                end_position
            },
            Direction::LEFT => {
                let mut end_position = tile.left_move;
                let mut collision_x = end_position.x;
                if self.red.y == end_position.y && self.red.x < p.x && self.red.x
                    >= end_position.x {
                    if collision_x < self.red.x + 1 {
                        collision_x = self.red.x + 1;
                    }
                }
                if self.green.y == end_position.y && self.green.x < p.x && self.green.x
                    >= end_position.x {
                    if collision_x < self.green.x + 1 {
                        collision_x = self.green.x + 1;
                    }
                }
                if self.blue.y == end_position.y && self.blue.x < p.x && self.blue.x
                    >= end_position.x {
                    if collision_x < self.blue.x + 1 {
                        collision_x = self.blue.x + 1;
                    }
                }
                if self.yellow.y == end_position.y && self.yellow.x < p.x && self.yellow.x
                    >= end_position.x {
                    if collision_x < self.yellow.x + 1 {
                        collision_x = self.yellow.x + 1;
                    }
                }
                end_position.x = collision_x;
                end_position
            },
            Direction::RIGHT => {
                let mut end_position = tile.right_move;
                let mut collision_x = end_position.x;
                if self.red.y == end_position.y && self.red.x > p.x && self.red.x
                    <= end_position.x {
                    if collision_x > self.red.x - 1 {
                        collision_x = self.red.x - 1;
                    }
                }
                if self.green.y == end_position.y && self.green.x > p.x && self.green.x
                    <= end_position.x {
                    if collision_x > self.green.x - 1 {
                        collision_x = self.green.x - 1;
                    }
                }
                if self.blue.y == end_position.y && self.blue.x > p.x && self.blue.x
                    <= end_position.x {
                    if collision_x > self.blue.x - 1 {
                        collision_x = self.blue.x - 1;
                    }
                }
                if self.yellow.y == end_position.y && self.yellow.x > p.x && self.yellow.x
                    <= end_position.x {
                    if collision_x > self.yellow.x - 1 {
                        collision_x = self.yellow.x - 1;
                    }
                }
                end_position.x = collision_x;
                end_position
            },
        };
        self.set_robot_by_colour(colour, end_position);
        end_position
    }
}

/// A robot's move destination stays on the board, and moving it there keeps
/// the four robots on four distinct tiles.
pub proof fn lemma_move_destination_wf(b: Board, colour: Colour, direction: Direction)
    requires
        b.wf(),
    ensures
        on_board(b.move_destination(colour, direction)),
        b.with_robot(colour, b.move_destination(colour, direction)).wf(),
{
    let p = b.robot(colour);
    let tiles = b.map.tiles@;
    match direction {
        Direction::UP => {
            crate::geometry::lemma_slide_up_fixed(tiles, p.x as int, p.y as int);
        },
        Direction::DOWN => {
            crate::geometry::lemma_slide_down_fixed(tiles, p.x as int, p.y as int);
        },
        Direction::LEFT => {
            crate::geometry::lemma_slide_left_fixed(tiles, p.x as int, p.y as int);
        },
        Direction::RIGHT => {
            crate::geometry::lemma_slide_right_fixed(tiles, p.x as int, p.y as int);
        },
    }
}

/// thincollections' `ThinVec`, declared so that it can stand in signatures;
/// Verus sees nothing of its inside.
#[verifier::external_type_specification]
#[verifier::external_body]
#[verifier::reject_recursive_types(V)]
pub struct ExThinVec<V>(ThinVec<V>);

/// The directions that a `ThinVec<Direction>` holds, in order.
pub uninterp spec fn thin_vec_directions(v: ThinVec<Direction>) -> Seq<Direction>;

/// Relies on ThinVec::new: a fresh vector holds no element.
#[verifier::external_body]
pub(crate) fn thin_vec_new() -> (r: ThinVec<Direction>)
    ensures
        thin_vec_directions(r) == Seq::<Direction>::empty(),
{
    ThinVec::new()
}

/// Relies on ThinVec::push: appends the element at the back and moves no
/// other.
#[verifier::external_body]
pub(crate) fn thin_vec_push(v: &mut ThinVec<Direction>, d: Direction)
    ensures
        thin_vec_directions(*final(v)) == thin_vec_directions(*old(v)).push(d),
{
    v.push(d)
}

/// Relies on ThinVec::len: the number of elements held.
#[verifier::external_body]
pub(crate) fn thin_vec_len(v: &ThinVec<Direction>) -> (r: usize)
    ensures
        r == thin_vec_directions(*v).len(),
{
    v.len()
}

/// Relies on ThinVec's Index impl over usize, which hands out the i-th
/// element.
#[verifier::external_body]
pub(crate) fn thin_vec_get(v: &ThinVec<Direction>, i: usize) -> (r: Direction)
    requires
        i < thin_vec_directions(*v).len(),
    ensures
        r == thin_vec_directions(*v)[i as int],
{
    v[i]
}

impl<'a> Board<'a> {
    /// The directions in which the robot of the given colour can actually
    /// move: the wall is open and the adjacent tile is free. Fixed order up,
    /// down, left, right.
    pub fn get_valid_directions(&self, colour: Colour) -> (r: ThinVec<Direction>)
        requires
            self.wf(),
        ensures
            thin_vec_directions(r) == self.valid_directions_seq(colour),
    {
        let robot_position = self.get_robot_by_colour(colour);
        let tile = self.get_tile(robot_position);

        let mut directions = thin_vec_new();
        if tile.up && !self.is_occupied(tile.get_adjacent_position(Direction::UP)) {
            thin_vec_push(&mut directions, Direction::UP);
        }
        if tile.down && !self.is_occupied(tile.get_adjacent_position(Direction::DOWN)) {
            thin_vec_push(&mut directions, Direction::DOWN);
        }
        if tile.left && !self.is_occupied(tile.get_adjacent_position(Direction::LEFT)) {
            thin_vec_push(&mut directions, Direction::LEFT);
        }
        if tile.right && !self.is_occupied(tile.get_adjacent_position(Direction::RIGHT)) {
            thin_vec_push(&mut directions, Direction::RIGHT);
        }
        proof {
            assert(thin_vec_directions(directions) =~= self.valid_directions_seq(colour));
        }
        directions
    }
}

/// A direction is returned by `get_valid_directions` exactly when shoving the
/// robot that way changes its position: a zero-length move is never offered,
/// and every offered move advances at least one tile.
pub proof fn lemma_valid_directions_exact(b: Board, colour: Colour, direction: Direction)
    requires
        b.wf(),
    ensures
        b.valid_directions_seq(colour).contains(direction) <==> b.valid_direction(
            colour,
            direction,
        ),
        b.valid_direction(colour, direction) <==> b.move_destination(colour, direction) != b.robot(
            colour,
        ),
{
    let p = b.robot(colour);
    let tiles = b.map.tiles@;
    let s = b.valid_directions_seq(colour);
    assert forall|i: int| 0 <= i < s.len() implies b.valid_direction(colour, #[trigger] s[i]) by {}
    if b.valid_direction(colour, direction) {
        let n_up: int = if b.valid_direction(colour, Direction::UP) {
            1
        } else {
            0
        };
        let n_down: int = n_up + (if b.valid_direction(colour, Direction::DOWN) {
            1int
        } else {
            0int
        });
        let n_left: int = n_down + (if b.valid_direction(colour, Direction::LEFT) {
            1int
        } else {
            0int
        });
        match direction {
            Direction::UP => {
                assert(s[0] == Direction::UP);
            },
            Direction::DOWN => {
                assert(s[n_up] == Direction::DOWN);
            },
            Direction::LEFT => {
                assert(s[n_down] == Direction::LEFT);
            },
            Direction::RIGHT => {
                assert(s[n_left] == Direction::RIGHT);
            },
        }
    }
    match direction {
        Direction::UP => {
            crate::geometry::lemma_slide_up_fixed(tiles, p.x as int, p.y as int);
            if open_at(tiles, p.x as int, p.y as int, Direction::UP) {
                crate::geometry::lemma_slide_up_fixed(tiles, p.x as int, p.y as int - 1);
            }
        },
        Direction::DOWN => {
            crate::geometry::lemma_slide_down_fixed(tiles, p.x as int, p.y as int);
            if open_at(tiles, p.x as int, p.y as int, Direction::DOWN) {
                crate::geometry::lemma_slide_down_fixed(tiles, p.x as int, p.y as int + 1);
            }
        },
        Direction::LEFT => {
            crate::geometry::lemma_slide_left_fixed(tiles, p.x as int, p.y as int);
            if open_at(tiles, p.x as int, p.y as int, Direction::LEFT) {
                crate::geometry::lemma_slide_left_fixed(tiles, p.x as int - 1, p.y as int);
            }
        },
        Direction::RIGHT => {
            crate::geometry::lemma_slide_right_fixed(tiles, p.x as int, p.y as int);
            if open_at(tiles, p.x as int, p.y as int, Direction::RIGHT) {
                crate::geometry::lemma_slide_right_fixed(tiles, p.x as int + 1, p.y as int);
            }
        },
    }
}

/// Whether two boards hold the same three non-red robots, in some order.
pub open spec fn same_non_target_robots(b1: Board, b2: Board) -> bool {
    ||| (b2.green == b1.green && b2.blue == b1.blue && b2.yellow == b1.yellow)
    ||| (b2.green == b1.green && b2.blue == b1.yellow && b2.yellow == b1.blue)
    ||| (b2.green == b1.blue && b2.blue == b1.green && b2.yellow == b1.yellow)
    ||| (b2.green == b1.blue && b2.blue == b1.yellow && b2.yellow == b1.green)
    ||| (b2.green == b1.yellow && b2.blue == b1.blue && b2.yellow == b1.green)
    ||| (b2.green == b1.yellow && b2.blue == b1.green && b2.yellow == b1.blue)
}

/// Permuting the three non-red robots of a state permutes its six fingerprints
/// among themselves: two states that agree on the red robot and hold the same
/// non-red robots in any order share the same set of permuted hashes. This is
/// the symmetry that the solution cache exploits.
pub proof fn lemma_permuted_hashes_symmetric(b1: Board, b2: Board)
    requires
        b1.red == b2.red,
        same_non_target_robots(b1, b2),
    ensures
        b1.permuted_fingerprints().to_set() == b2.permuted_fingerprints().to_set(),
{
    let s1 = b1.permuted_fingerprints();
    let s2 = b2.permuted_fingerprints();
    assert forall|h: u64| s1.to_set().contains(h) implies s2.to_set().contains(h) by {
        let i = choose|i: int| 0 <= i < s1.len() && s1[i] == h;
        assert(exists|j: int| 0 <= j < s2.len() && s2[j] == s1[i]) by {
            lemma_fingerprint_index(b1, b2, i);
        }
    }
    assert forall|h: u64| s2.to_set().contains(h) implies s1.to_set().contains(h) by {
        let i = choose|i: int| 0 <= i < s2.len() && s2[i] == h;
        assert(exists|j: int| 0 <= j < s1.len() && s1[j] == s2[i]) by {
            lemma_fingerprint_index(b2, b1, i);
        }
    }
    assert(s1.to_set() =~= s2.to_set());
}

/// Each of the six permuted fingerprints of one state appears among the six
/// of any state with the same red robot and the same non-red robots.
proof fn lemma_fingerprint_index(b1: Board, b2: Board, i: int)
    requires
        b1.red == b2.red,
        same_non_target_robots(b1, b2),
        0 <= i < 6,
    ensures
        exists|j: int|
            0 <= j < 6 && #[trigger] b2.permuted_fingerprints()[j] == b1.permuted_fingerprints()[i],
{
    let s1 = b1.permuted_fingerprints();
    let s2 = b2.permuted_fingerprints();
    assert(s1[i] == s2[0] || s1[i] == s2[1] || s1[i] == s2[2] || s1[i] == s2[3] || s1[i] == s2[4]
        || s1[i] == s2[5]);
}


/// A nibble of a packed value is recovered by remainder and quotient: the
/// packing of the eight robot coordinates into one word loses nothing.
proof fn lemma_nibble_peel(v: int, low: int, rest: int)
    requires
        v == low + 16 * rest,
        0 <= low < 16,
        0 <= rest,
    ensures
        v % 16 == low,
        v / 16 == rest,
{
    lemma_hoist_over_denominator(low, rest, 16);
    lemma_basic_div(low, 16);
    lemma_mod_multiples_vanish(rest, low, 16);
    lemma_small_mod(low as nat, 16);
}

/// The state fingerprint identifies a four-robot placement uniquely: two
/// placements with the same fingerprint agree on every robot position.
pub proof fn lemma_fingerprint_injective(
    a1: Position,
    b1: Position,
    c1: Position,
    d1: Position,
    a2: Position,
    b2: Position,
    c2: Position,
    d2: Position,
)
    requires
        on_board(a1),
        on_board(b1),
        on_board(c1),
        on_board(d1),
        on_board(a2),
        on_board(b2),
        on_board(c2),
        on_board(d2),
        fingerprint_of(a1, b1, c1, d1) == fingerprint_of(a2, b2, c2, d2),
    ensures
        a1 == a2,
        b1 == b2,
        c1 == c2,
        d1 == d2,
{
    let v1: int = a1.x + 16 * a1.y + 256 * b1.x + 4096 * b1.y + 65536 * c1.x + 1048576
        * c1.y + 16777216 * d1.x + 268435456 * d1.y;
    let v2: int = a2.x + 16 * a2.y + 256 * b2.x + 4096 * b2.y + 65536 * c2.x + 1048576
        * c2.y + 16777216 * d2.x + 268435456 * d2.y;
    assert(v1 == v2);
    let w0: int = v1;
    lemma_nibble_peel(w0, a1.x as int, a1.y + 16 * b1.x + 256 * b1.y + 4096 * c1.x + 65536 * c1.y + 1048576 * d1.x + 16777216 * d1.y);
    lemma_nibble_peel(w0, a2.x as int, a2.y + 16 * b2.x + 256 * b2.y + 4096 * c2.x + 65536 * c2.y + 1048576 * d2.x + 16777216 * d2.y);
    let w1: int = w0 / 16;
    lemma_nibble_peel(w1, a1.y as int, b1.x + 16 * b1.y + 256 * c1.x + 4096 * c1.y + 65536 * d1.x + 1048576 * d1.y);
    lemma_nibble_peel(w1, a2.y as int, b2.x + 16 * b2.y + 256 * c2.x + 4096 * c2.y + 65536 * d2.x + 1048576 * d2.y);
    let w2: int = w1 / 16;
    lemma_nibble_peel(w2, b1.x as int, b1.y + 16 * c1.x + 256 * c1.y + 4096 * d1.x + 65536 * d1.y);
    lemma_nibble_peel(w2, b2.x as int, b2.y + 16 * c2.x + 256 * c2.y + 4096 * d2.x + 65536 * d2.y);
    let w3: int = w2 / 16;
    lemma_nibble_peel(w3, b1.y as int, c1.x + 16 * c1.y + 256 * d1.x + 4096 * d1.y);
    lemma_nibble_peel(w3, b2.y as int, c2.x + 16 * c2.y + 256 * d2.x + 4096 * d2.y);
    let w4: int = w3 / 16;
    lemma_nibble_peel(w4, c1.x as int, c1.y + 16 * d1.x + 256 * d1.y);
    lemma_nibble_peel(w4, c2.x as int, c2.y + 16 * d2.x + 256 * d2.y);
    let w5: int = w4 / 16;
    lemma_nibble_peel(w5, c1.y as int, d1.x + 16 * d1.y);
    lemma_nibble_peel(w5, c2.y as int, d2.x + 16 * d2.y);
    let w6: int = w5 / 16;
    lemma_nibble_peel(w6, d1.x as int, d1.y as int);
    lemma_nibble_peel(w6, d2.x as int, d2.y as int);
    let w7: int = w6 / 16;
    lemma_nibble_peel(w7, d1.y as int, 0);
    lemma_nibble_peel(w7, d2.y as int, 0);
}

/// The packed fingerprint of four coordinate pairs.
fn pack_fingerprint(a: Position, b: Position, c: Position, d: Position) -> (r: u64)
    requires
        on_board(a),
        on_board(b),
        on_board(c),
        on_board(d),
    ensures
        r == fingerprint_of(a, b, c, d),
{
    a.x as u64 + SIXTEEN_POWER_1 * a.y as u64 + SIXTEEN_POWER_2 * b.x as u64 + SIXTEEN_POWER_3
        * b.y as u64 + SIXTEEN_POWER_4 * c.x as u64 + SIXTEEN_POWER_5 * c.y as u64
        + SIXTEEN_POWER_6 * d.x as u64 + SIXTEEN_POWER_7 * d.y as u64
}

} // verus!
