use vstd::prelude::*;

use vstd::arithmetic::div_mod::lemma_hoist_over_denominator;
use vstd::arithmetic::div_mod::lemma_mod_multiples_vanish;
use vstd::arithmetic::div_mod::lemma_basic_div;
use vstd::arithmetic::div_mod::lemma_small_mod;

use crate::board::Colour;
use crate::geometry::Direction;

verus! {

/// One move of the solution path: which robot was shoved, and which way.
#[derive(Debug, Copy, Clone, PartialEq, Eq, Structural)]
pub struct Move {
    pub direction: Direction,
    pub colour: Colour,
}

/// The powers of four: the radix of the packed move history.
pub open spec fn pow4(k: nat) -> nat
    decreases k,
{
    if k == 0 {
        1
    } else {
        4 * pow4((k - 1) as nat)
    }
}

/// Every power of four is positive.
pub proof fn lemma_pow4_positive(k: nat)
    ensures
        pow4(k) >= 1,
    decreases k,
{
    if k > 0 {
        lemma_pow4_positive((k - 1) as nat);
    }
}

/// Powers of four multiply when exponents add.
pub proof fn lemma_pow4_adds(a: nat, b: nat)
    ensures
        pow4(a + b) == pow4(a) * pow4(b),
    decreases a,
{
    if a == 0 {
        assert(pow4(0 + b) == 1 * pow4(b));
    } else {
        lemma_pow4_adds((a - 1) as nat, b);
        assert(pow4(a + b) == 4 * pow4((a + b - 1) as nat));
        assert(4 * (pow4((a - 1) as nat) * pow4(b)) == (4 * pow4((a - 1) as nat)) * pow4(b))
            by (nonlinear_arith);
    }
}

/// The numeric code of a direction in the packed history.
pub open spec fn direction_index(d: Direction) -> int {
    match d {
        Direction::UP => 0,
        Direction::RIGHT => 1,
        Direction::DOWN => 2,
        Direction::LEFT => 3,
    }
}

/// The direction a numeric code stands for.
pub open spec fn index_direction(n: int) -> Direction {
    if n == 0 {
        Direction::UP
    } else if n == 1 {
        Direction::RIGHT
    } else if n == 2 {
        Direction::DOWN
    } else {
        Direction::LEFT
    }
}

/// The numeric code of a colour in the packed history.
pub open spec fn colour_index(c: Colour) -> int {
    match c {
        Colour::RED => 0,
        Colour::GREEN => 1,
        Colour::BLUE => 2,
        Colour::YELLOW => 3,
    }
}

/// The colour a numeric code stands for.
pub open spec fn index_colour(n: int) -> Colour {
    if n == 0 {
        Colour::RED
    } else if n == 1 {
        Colour::GREEN
    } else if n == 2 {
        Colour::BLUE
    } else {
        Colour::YELLOW
    }
}

/// The numeric code of a direction.
pub fn to_int(direction: Direction) -> (r: u64)
    ensures
        r == direction_index(direction),
{
    match direction {
        Direction::UP => 0,
        Direction::RIGHT => 1,
        Direction::DOWN => 2,
        Direction::LEFT => 3,
    }
}

/// The direction of a numeric code below four.
pub fn to_direction(num: u64) -> (r: Direction)
    requires
        num < 4,
    ensures
        r == index_direction(num as int),
{
    match num {
        0 => Direction::UP,
        1 => Direction::RIGHT,
        2 => Direction::DOWN,
        _ => Direction::LEFT,
    }
}

/// The numeric code of a colour.
pub fn colour_to_int(colour: Colour) -> (r: u64)
    ensures
        r == colour_index(colour),
{
    match colour {
        Colour::RED => 0,
        Colour::GREEN => 1,
        Colour::BLUE => 2,
        Colour::YELLOW => 3,
    }
}

/// The colour of a numeric code below four.
pub fn to_colour(num: u64) -> (r: Colour)
    requires
        num < 4,
    ensures
        r == index_colour(num as int),
{
    match num {
        0 => Colour::RED,
        1 => Colour::GREEN,
        2 => Colour::BLUE,
        _ => Colour::YELLOW,
    }
}

/// Base-4 digit i of a packed history word. The moves of a path of length L
/// sit at digits 1 through L; digit 0 is never used.
pub open spec fn digit(w: int, i: nat) -> int {
    (w / pow4(i) as int) % 4
}

/// The move sequence that a pair of packed history words of the given length
/// encodes: move i is read off digit i + 1 of each word.
pub open spec fn path_moves(dirs: int, cols: int, len: nat) -> Seq<Move> {
    Seq::new(
        len,
        |i: int|
            Move {
                direction: index_direction(digit(dirs, (i + 1) as nat)),
                colour: index_colour(digit(cols, (i + 1) as nat)),
            },
    )
}

/// Adding d * pow4(k) to a word below pow4(k) leaves digits 1 through k - 1
/// unchanged and writes d at digit k.
proof fn lemma_digit_add_high(w: int, d: int, k: nat, i: nat)
    requires
        0 <= w < pow4(k),
        0 <= d < 4,
        1 <= i <= k,
    ensures
        i < k ==> digit(w + d * pow4(k), i) == digit(w, i),
        i == k ==> digit(w + d * pow4(k), i) == d,
    decreases k,
{
    let p = pow4(i) as int;
    let q = pow4(k) as int;
    lemma_pow4_positive(i);
    lemma_pow4_positive(k);
    if i < k {
        lemma_pow4_adds(i, (k - i) as nat);
        let r = pow4((k - i) as nat) as int;
        assert(q == p * r);
        assert(d * q == (d * r) * p) by (nonlinear_arith)
            requires
                q == p * r,
        ;
        lemma_hoist_over_denominator(w, d * r, pow4(i));
        assert(w / p + d * r == (w + (d * r) * p) / p);
        assert((w + d * q) / p == w / p + d * r);
        lemma_pow4_positive((k - i - 1) as nat);
        assert(r == 4 * pow4((k - i - 1) as nat));
        let r4 = pow4((k - i - 1) as nat) as int;
        assert(d * r == 4 * (d * r4)) by (nonlinear_arith)
            requires
                r == 4 * r4,
        ;
        lemma_mod_multiples_vanish(d * r4, w / p, 4);
        assert((4 * (d * r4) + w / p) % 4 == (w / p) % 4);
        assert(w / p + d * r == 4 * (d * r4) + w / p);
    } else {
        lemma_hoist_over_denominator(w, d, pow4(k));
        assert(w / q + d == (w + d * q) / q);
        lemma_basic_div(w, q);
        assert(w / q == 0);
        assert((w + d * q) / q == d);
        lemma_small_mod(d as nat, 4);
    }
}

/// Appending one move to a packed history of length k, by writing its codes
/// at digit k + 1, encodes exactly the old sequence with the move pushed.
pub proof fn lemma_path_moves_append(dirs: int, cols: int, k: nat, m: Move)
    requires
        0 <= dirs < pow4(k + 1),
        0 <= cols < pow4(k + 1),
    ensures
        path_moves(
            dirs + direction_index(m.direction) * pow4((k + 1) as nat),
            cols + colour_index(m.colour) * pow4((k + 1) as nat),
            (k + 1) as nat,
        ) == path_moves(dirs, cols, k).push(m),
{
    let nd = dirs + direction_index(m.direction) * pow4((k + 1) as nat);
    let nc = cols + colour_index(m.colour) * pow4((k + 1) as nat);
    let s1 = path_moves(nd, nc, (k + 1) as nat);
    let s2 = path_moves(dirs, cols, k).push(m);
    assert forall|i: int| 0 <= i < k + 1 implies s1[i] == s2[i] by {
        lemma_digit_add_high(dirs, direction_index(m.direction), (k + 1) as nat, (i + 1) as nat);
        lemma_digit_add_high(cols, colour_index(m.colour), (k + 1) as nat, (i + 1) as nat);
    }
    assert(s1 =~= s2);
}

/// The packed direction word of a move sequence: the code of move i stands
/// at digit i, counting from one.
pub open spec fn packed_directions(moves: Seq<Move>) -> int
    decreases moves.len(),
{
    if moves.len() == 0 {
        0
    } else {
        packed_directions(moves.drop_last()) + direction_index(moves.last().direction) * pow4(
            moves.len(),
        )
    }
}

/// The packed colour word of a move sequence.
pub open spec fn packed_colours(moves: Seq<Move>) -> int
    decreases moves.len(),
{
    if moves.len() == 0 {
        0
    } else {
        packed_colours(moves.drop_last()) + colour_index(moves.last().colour) * pow4(moves.len())
    }
}

/// Packed words stay below the power of four just past the last digit used.
pub proof fn lemma_packed_bounds(moves: Seq<Move>)
    ensures
        0 <= packed_directions(moves) < pow4(moves.len() + 1),
        0 <= packed_colours(moves) < pow4(moves.len() + 1),
    decreases moves.len(),
{
    if moves.len() == 0 {
    } else {
        lemma_packed_bounds(moves.drop_last());
        let n = moves.len();
        lemma_pow4_positive(n);
        assert(pow4((n - 1) as nat + 1) == pow4(n));
        assert(direction_index(moves.last().direction) * pow4(n) <= 3 * pow4(n))
            by (nonlinear_arith)
            requires
                direction_index(moves.last().direction) <= 3,
                pow4(n) >= 1,
        ;
        assert(direction_index(moves.last().direction) * pow4(n) >= 0) by (nonlinear_arith)
            requires
                direction_index(moves.last().direction) >= 0,
                pow4(n) >= 1,
        ;
        assert(colour_index(moves.last().colour) * pow4(n) <= 3 * pow4(n)) by (nonlinear_arith)
            requires
                colour_index(moves.last().colour) <= 3,
                pow4(n) >= 1,
        ;
        assert(colour_index(moves.last().colour) * pow4(n) >= 0) by (nonlinear_arith)
            requires
                colour_index(moves.last().colour) >= 0,
                pow4(n) >= 1,
        ;
        assert(pow4(n + 1) == 4 * pow4(n));
    }
}

/// Round trip of the move-history packing: decoding the packed words of any
/// move sequence recovers the sequence exactly. The packing carries one
/// base-4 digit per move, so any length that fits the word, thirty-one moves
/// and below, is covered.
pub proof fn lemma_packing_round_trip(moves: Seq<Move>)
    ensures
        path_moves(packed_directions(moves), packed_colours(moves), moves.len()) == moves,
    decreases moves.len(),
{
    if moves.len() == 0 {
        assert(path_moves(0, 0, 0) =~= moves);
    } else {
        let prefix = moves.drop_last();
        lemma_packing_round_trip(prefix);
        lemma_packed_bounds(prefix);
        lemma_path_moves_append(
            packed_directions(prefix),
            packed_colours(prefix),
            prefix.len(),
            moves.last(),
        );
        assert(prefix.push(moves.last()) =~= moves);
    }
}

/// The power of four with the given exponent.
pub fn four_pow(k: u64) -> (r: u64)
    requires
        k <= 31,
    ensures
        r == pow4(k as nat),
{
    let mut r: u64 = 1;
    let mut i: u64 = 0;
    while i < k
        invariant
            i <= k <= 31,
            r == pow4(i as nat),
            r <= 0x4000_0000_0000_0000,
        decreases k - i,
    {
        proof {
            lemma_pow4_le_max((i + 1) as nat);
        }
        r = r * 4;
        i = i + 1;
    }
    r
}

/// The value of the thirty-first power of four, the largest digit weight the
/// packing uses.
pub(crate) proof fn lemma_pow4_31()
    ensures
        pow4(31) == 0x4000_0000_0000_0000,
{
    assert(pow4(0) == 0x1);
    assert(pow4(1) == 0x4);
    assert(pow4(2) == 0x10);
    assert(pow4(3) == 0x40);
    assert(pow4(4) == 0x100);
    assert(pow4(5) == 0x400);
    assert(pow4(6) == 0x1000);
    assert(pow4(7) == 0x4000);
    assert(pow4(8) == 0x10000);
    assert(pow4(9) == 0x40000);
    assert(pow4(10) == 0x100000);
    assert(pow4(11) == 0x400000);
    assert(pow4(12) == 0x1000000);
    assert(pow4(13) == 0x4000000);
    assert(pow4(14) == 0x10000000);
    assert(pow4(15) == 0x40000000);
    assert(pow4(16) == 0x100000000);
    assert(pow4(17) == 0x400000000);
    assert(pow4(18) == 0x1000000000);
    assert(pow4(19) == 0x4000000000);
    assert(pow4(20) == 0x10000000000);
    assert(pow4(21) == 0x40000000000);
    assert(pow4(22) == 0x100000000000);
    assert(pow4(23) == 0x400000000000);
    assert(pow4(24) == 0x1000000000000);
    assert(pow4(25) == 0x4000000000000);
    assert(pow4(26) == 0x10000000000000);
    assert(pow4(27) == 0x40000000000000);
    assert(pow4(28) == 0x100000000000000);
    assert(pow4(29) == 0x400000000000000);
    assert(pow4(30) == 0x1000000000000000);
    assert(pow4(31) == 0x4000000000000000);
}

/// Powers of four up to the thirty-first stay within a u64.
pub(crate) proof fn lemma_pow4_le_max(k: nat)
    requires
        k <= 31,
    ensures
        pow4(k) <= 0x4000_0000_0000_0000,
{
    lemma_pow4_grows(k, 31);
    lemma_pow4_31();
}

/// pow4 is monotone in the exponent.
proof fn lemma_pow4_grows(a: nat, b: nat)
    requires
        a <= b,
    ensures
        pow4(a) <= pow4(b),
    decreases b,
{
    if a < b {
        lemma_pow4_grows(a, (b - 1) as nat);
        lemma_pow4_positive((b - 1) as nat);
    }
}

/// The moves that a pair of packed history words of the given length holds,
/// first move first.
pub fn decode_path(directions: u64, colours: u64, length: i16) -> (r: Vec<Move>)
    requires
        0 <= length <= 31,
    ensures
        r@ == path_moves(directions as int, colours as int, length as nat),
{
    let mut moves: Vec<Move> = Vec::new();
    let n = length as u64;
    let mut i: u64 = 1;
    while i <= n
        invariant
            1 <= i <= n + 1,
            n <= 31,
            moves@.len() == i - 1,
            forall|j: int|
                0 <= j < i - 1 ==> #[trigger] moves@[j] == path_moves(
                    directions as int,
                    colours as int,
                    n as nat,
                )[j],
        decreases n + 1 - i,
    {
        let f = four_pow(i);
        proof {
            lemma_pow4_positive(i as nat);
        }
        let dnum = (directions / f) % 4;
        let cnum = (colours / f) % 4;
        let m = Move { direction: to_direction(dnum), colour: to_colour(cnum) };
        moves.push(m);
        i = i + 1;
    }
    proof {
        assert(moves@ =~= path_moves(directions as int, colours as int, length as nat));
    }
    moves
}

} // verus!
