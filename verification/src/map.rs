use vstd::prelude::*;

use crate::geometry::Direction;
use crate::geometry::Geometry;
use crate::geometry::Position;
use crate::geometry::Tile;
use crate::geometry::on_board;
use crate::geometry::open_at;
use crate::geometry::opposite;
use crate::geometry::step;
use crate::geometry::tile_at;

verus! {

/// The line feed character that separates map lines.
pub const LINE_FEED: u8 = 10;

/// The carriage return character; one at the end of a line is ignored, so
/// that maps written with two-character line endings decode the same way.
pub const CARRIAGE_RETURN: u8 = 13;

/// A line with a single trailing carriage return removed.
pub open spec fn strip_cr(line: Seq<u8>) -> Seq<u8> {
    if line.len() > 0 && line.last() == CARRIAGE_RETURN {
        line.drop_last()
    } else {
        line
    }
}

/// Why a map text was rejected.
#[derive(Debug, Copy, Clone, PartialEq, Eq, Structural)]
pub enum MapError {
    /// One of the first sixteen lines holds more than sixteen characters.
    LineTooLong,
    /// A line after the sixteenth holds a character.
    TooManyLines,
}

/// Which characters of the map alphabet (ASCII codes for '0' to '9' and 'A'
/// to 'E') leave the upward side of a tile open.
pub open spec fn char_opens_up(c: u8) -> bool {
    c == 48 || c == 50 || c == 51 || c == 52 || c == 56 || c == 57 || c == 65 || c == 69
}

/// Which characters of the map alphabet leave the downward side open.
pub open spec fn char_opens_down(c: u8) -> bool {
    c == 48 || c == 49 || c == 50 || c == 52 || c == 53 || c == 55 || c == 57 || c == 67
}

/// Which characters of the map alphabet leave the leftward side open.
pub open spec fn char_opens_left(c: u8) -> bool {
    c == 48 || c == 49 || c == 50 || c == 51 || c == 53 || c == 54 || c == 56 || c == 66
}

/// Which characters of the map alphabet leave the rightward side open.
pub open spec fn char_opens_right(c: u8) -> bool {
    c == 48 || c == 49 || c == 51 || c == 52 || c == 54 || c == 55 || c == 65 || c == 68
}

/// The side of its tile that a map character leaves open, by direction.
/// A character outside the map alphabet leaves every side closed.
pub open spec fn char_opens(c: u8, direction: Direction) -> bool {
    match direction {
        Direction::UP => char_opens_up(c),
        Direction::DOWN => char_opens_down(c),
        Direction::LEFT => char_opens_left(c),
        Direction::RIGHT => char_opens_right(c),
    }
}

/// The index of the first line feed at or after position i, or the length of
/// the text when none is left.
pub open spec fn next_nl(text: Seq<u8>, i: int) -> int
    decreases text.len() - i,
{
    if i < 0 || i >= text.len() {
        text.len() as int
    } else if text[i] == LINE_FEED {
        i
    } else {
        next_nl(text, i + 1)
    }
}

/// The text split on line feeds, a trailing carriage return dropped from
/// each line. Empty text gives one empty line; a trailing line feed gives a
/// final empty line.
pub open spec fn spec_lines(text: Seq<u8>) -> Seq<Seq<u8>>
    decreases text.len(),
{
    let e = next_nl(text, 0);
    if e < 0 || e >= text.len() {
        seq![strip_cr(text)]
    } else {
        seq![strip_cr(text.subrange(0, e))] + spec_lines(text.subrange(e + 1, text.len() as int))
    }
}

/// What the map text says of one side of one tile, before the two sides of
/// each edge are reconciled: the character at column x of line y leaves the
/// side open. A tile with no character keeps every side closed.
pub open spec fn raw_open(lines: Seq<Seq<u8>>, x: int, y: int, direction: Direction) -> bool {
    &&& 0 <= x < 16
    &&& 0 <= y < 16
    &&& y < lines.len()
    &&& x < lines[y].len()
    &&& char_opens(lines[y][x], direction)
}

/// The effective wall flag of a tile: motion across an edge is open only when
/// the edge stays on the board and both of its sides are declared open.
pub open spec fn eff_open(lines: Seq<Seq<u8>>, x: int, y: int, direction: Direction) -> bool {
    let q = step(Position { x: x as i8, y: y as i8 }, direction);
    &&& raw_open(lines, x, y, direction)
    &&& on_board(q)
    &&& raw_open(lines, q.x as int, q.y as int, opposite(direction))
}

/// Whether one of the first sixteen lines is longer than sixteen characters.
pub open spec fn long_line(lines: Seq<Seq<u8>>) -> bool {
    exists|y: int| 0 <= y < 16 && y < lines.len() && #[trigger] lines[y].len() > 16
}

/// Whether a line after the sixteenth holds any character.
pub open spec fn extra_lines(lines: Seq<Seq<u8>>) -> bool {
    exists|y: int| 16 <= y < lines.len() && #[trigger] lines[y].len() > 0
}

/// The views of a vector of byte lines.
pub open spec fn line_views(lines: Seq<Vec<u8>>) -> Seq<Seq<u8>> {
    Seq::new(lines.len(), |i: int| lines[i]@)
}

/// If no line feed stands in [i, k) and either k is the length or a line
/// feed stands at k, then k is the next line feed position from i.
proof fn lemma_next_nl_at(text: Seq<u8>, i: int, k: int)
    requires
        0 <= i <= k <= text.len(),
        forall|j: int| i <= j < k ==> text[j] != LINE_FEED,
        k == text.len() || text[k] == LINE_FEED,
    ensures
        next_nl(text, i) == k,
    decreases k - i,
{
    if i < k {
        lemma_next_nl_at(text, i + 1, k);
    }
}

/// Splitting a text whose head line is a, followed by a line feed and the
/// rest, yields a, its trailing carriage return dropped, as the first line.
proof fn lemma_spec_lines_step(text: Seq<u8>, a: Seq<u8>, rest: Seq<u8>)
    requires
        text == a + seq![LINE_FEED] + rest,
        forall|j: int| 0 <= j < a.len() ==> a[j] != LINE_FEED,
    ensures
        spec_lines(text) == seq![strip_cr(a)] + spec_lines(rest),
{
    assert forall|j: int| 0 <= j < a.len() implies text[j] != LINE_FEED by {
        assert(text[j] == a[j]);
    }
    assert(text[a.len() as int] == LINE_FEED);
    lemma_next_nl_at(text, 0, a.len() as int);
    assert(text.subrange(0, a.len() as int) =~= a);
    assert(text.subrange(a.len() as int + 1, text.len() as int) =~= rest);
}

/// A text with no line feed splits into the single line that it is, its
/// trailing carriage return dropped.
proof fn lemma_spec_lines_last(text: Seq<u8>)
    requires
        forall|j: int| 0 <= j < text.len() ==> text[j] != LINE_FEED,
    ensures
        spec_lines(text) == seq![strip_cr(text)],
{
    lemma_next_nl_at(text, 0, text.len() as int);
}

/// The map text split into lines, one vector of bytes per line.
fn split_lines(text: &Vec<u8>) -> (r: Vec<Vec<u8>>)
    ensures
        line_views(r@) == spec_lines(text@),
{
    let n = text.len();
    let mut out: Vec<Vec<u8>> = Vec::new();
    let mut cur: Vec<u8> = Vec::new();
    proof {
        assert(cur@ + text@.subrange(0, n as int) =~= text@);
        assert(line_views(out@) + spec_lines(text@) =~= spec_lines(text@));
    }
    for i in 0..n
        invariant
            n == text@.len(),
            spec_lines(text@) == line_views(out@) + spec_lines(
                cur@ + text@.subrange(i as int, n as int),
            ),
            forall|j: int| 0 <= j < cur@.len() ==> cur@[j] != LINE_FEED,
    {
        let ghost rest = text@.subrange(i as int, n as int);
        let ghost rest1 = text@.subrange(i as int + 1, n as int);
        let ghost cv = cur@;
        let b = text[i];
        if b == LINE_FEED {
            proof {
                assert(cv + rest =~= cv + seq![LINE_FEED] + rest1);
                lemma_spec_lines_step(cv + rest, cv, rest1);
            }
            if cur.len() > 0 && cur[cur.len() - 1] == CARRIAGE_RETURN {
                cur.pop();
            }
            proof {
                assert(cur@ == strip_cr(cv));
            }
            let ghost prev_out = out@;
            out.push(cur);
            cur = Vec::new();
            proof {
                assert(line_views(out@) =~= line_views(prev_out).push(strip_cr(cv)));
                assert(cur@ + rest1 =~= rest1);
                assert(line_views(out@) + spec_lines(rest1) =~= line_views(prev_out)
                    + (seq![strip_cr(cv)] + spec_lines(rest1)));
                assert(spec_lines(text@) == line_views(out@) + spec_lines(cur@ + rest1));
            }
        } else {
            cur.push(b);
            proof {
                assert(cur@ + rest1 =~= cv + rest);
            }
        }
    }
    proof {
        assert(cur@ + text@.subrange(n as int, n as int) =~= cur@);
        lemma_spec_lines_last(cur@);
    }
    let ghost cv = cur@;
    if cur.len() > 0 && cur[cur.len() - 1] == CARRIAGE_RETURN {
        cur.pop();
    }
    proof {
        assert(cur@ == strip_cr(cv));
    }
    let ghost prev_out = out@;
    out.push(cur);
    proof {
        assert(line_views(out@) =~= line_views(prev_out).push(strip_cr(cv)));
        assert(line_views(prev_out) + seq![strip_cr(cv)] =~= line_views(out@));
        assert(line_views(out@) =~= spec_lines(text@));
    }
    out
}

/// Whether a map character leaves the upward side open.
fn opens_up(c: u8) -> (r: bool)
    ensures
        r == char_opens_up(c),
{
    c == 48 || c == 50 || c == 51 || c == 52 || c == 56 || c == 57 || c == 65 || c == 69
}

/// Whether a map character leaves the downward side open.
fn opens_down(c: u8) -> (r: bool)
    ensures
        r == char_opens_down(c),
{
    c == 48 || c == 49 || c == 50 || c == 52 || c == 53 || c == 55 || c == 57 || c == 67
}

/// Whether a map character leaves the leftward side open.
fn opens_left(c: u8) -> (r: bool)
    ensures
        r == char_opens_left(c),
{
    c == 48 || c == 49 || c == 50 || c == 51 || c == 53 || c == 54 || c == 56 || c == 66
}

/// Whether a map character leaves the rightward side open.
fn opens_right(c: u8) -> (r: bool)
    ensures
        r == char_opens_right(c),
{
    c == 48 || c == 49 || c == 51 || c == 52 || c == 54 || c == 55 || c == 65 || c == 68
}

/// The tile table index of column x, row y, and how it decomposes again.
proof fn lemma_tile_index(x: int, y: int)
    requires
        0 <= x < 16,
        0 <= y < 16,
    ensures
        0 <= x * 16 + y < 256,
        (x * 16 + y) / 16 == x,
        (x * 16 + y) % 16 == y,
{
    assert(0 <= x * 16 + y < 256 && (x * 16 + y) / 16 == x && (x * 16 + y) % 16 == y)
        by (nonlinear_arith)
        requires
            0 <= x < 16,
            0 <= y < 16,
    ;
}

/// A table of 256 tiles, one per board position, with every side closed and
/// every slide destination still unset.
fn blank_tiles() -> (r: Vec<Tile>)
    ensures
        r@.len() == 256,
        forall|i: int|
            0 <= i < 256 ==> (#[trigger] r@[i]).position == (Position {
                x: (i / 16) as i8,
                y: (i % 16) as i8,
            }) && !r@[i].up && !r@[i].down && !r@[i].left && !r@[i].right,
{
    let mut out: Vec<Tile> = Vec::new();
    for i in 0..256usize
        invariant
            out@.len() == i,
            forall|j: int|
                0 <= j < i ==> (#[trigger] out@[j]).position == (Position {
                    x: (j / 16) as i8,
                    y: (j % 16) as i8,
                }) && !out@[j].up && !out@[j].down && !out@[j].left && !out@[j].right,
    {
        let p = Position { x: (i / 16) as i8, y: (i % 16) as i8 };
        out.push(
            Tile {
                position: p,
                up: false,
                down: false,
                left: false,
                right: false,
                up_move: p,
                down_move: p,
                left_move: p,
                right_move: p,
            },
        );
    }
    out
}

/// Positions are correct in a tile table built over `blank_tiles`.
proof fn lemma_blank_positions(tiles: Seq<Tile>)
    requires
        tiles.len() == 256,
        forall|i: int|
            0 <= i < 256 ==> (#[trigger] tiles[i]).position == (Position {
                x: (i / 16) as i8,
                y: (i % 16) as i8,
            }),
    ensures
        forall|x: int, y: int|
            0 <= x < 16 && 0 <= y < 16 ==> (#[trigger] tile_at(tiles, x, y)).position
                == (Position { x: x as i8, y: y as i8 }),
{
    assert forall|x: int, y: int| 0 <= x < 16 && 0 <= y < 16 implies (#[trigger] tile_at(
        tiles,
        x,
        y,
    )).position == (Position { x: x as i8, y: y as i8 }) by {
        lemma_tile_index(x, y);
    }
}

/// The per-side wall flags that the map text declares, tile by tile, or the
/// error that the text's shape forces.
fn decode_raw(lines: &Vec<Vec<u8>>) -> (r: Result<Vec<Tile>, MapError>)
    ensures
        r == Err::<Vec<Tile>, MapError>(MapError::LineTooLong) <==> long_line(line_views(lines@)),
        r == Err::<Vec<Tile>, MapError>(MapError::TooManyLines) <==> !long_line(line_views(lines@))
            && extra_lines(line_views(lines@)),
        r matches Ok(t) ==> {
            &&& t@.len() == 256
            &&& forall|i: int|
                0 <= i < 256 ==> (#[trigger] t@[i]).position == (Position {
                    x: (i / 16) as i8,
                    y: (i % 16) as i8,
                })
            &&& forall|x: int, y: int, d: Direction|
                0 <= x < 16 && 0 <= y < 16 ==> #[trigger] open_at(t@, x, y, d) == raw_open(
                    line_views(lines@),
                    x,
                    y,
                    d,
                )
        },
{
    let ghost ls = line_views(lines@);
    let mut tiles = blank_tiles();
    let n = lines.len();
    for y in 0..n
        invariant
            n == lines@.len(),
            ls == line_views(lines@),
            tiles@.len() == 256,
            forall|i: int|
                0 <= i < 256 ==> (#[trigger] tiles@[i]).position == (Position {
                    x: (i / 16) as i8,
                    y: (i % 16) as i8,
                }),
            forall|yy: int| 0 <= yy < y && yy < 16 ==> #[trigger] ls[yy].len() <= 16,
            forall|yy: int| 16 <= yy < y ==> #[trigger] ls[yy].len() == 0,
            forall|xx: int, yy: int, d: Direction|
                0 <= xx < 16 && 0 <= yy < 16 ==> #[trigger] open_at(tiles@, xx, yy, d) == (yy < y
                    && raw_open(ls, xx, yy, d)),
    {
        proof {
            assert(ls[y as int] == lines@[y as int]@);
        }
        if y >= 16 {
            if lines[y].len() > 0 {
                proof {
                    assert(extra_lines(ls));
                    assert(!long_line(ls));
                }
                return Err(MapError::TooManyLines);
            }
        } else {
            if lines[y].len() > 16 {
                proof {
                    assert(long_line(ls));
                }
                return Err(MapError::LineTooLong);
            }
            let m = lines[y].len();
            for x in 0..m
                invariant
                    n == lines@.len(),
                    ls == line_views(lines@),
                    y < 16,
                    y < n,
                    m == ls[y as int].len(),
                    m == lines@[y as int]@.len(),
                    m <= 16,
                    tiles@.len() == 256,
                    forall|i: int|
                        0 <= i < 256 ==> (#[trigger] tiles@[i]).position == (Position {
                            x: (i / 16) as i8,
                            y: (i % 16) as i8,
                        }),
                    forall|xx: int, yy: int, d: Direction|
                        0 <= xx < 16 && 0 <= yy < 16 ==> #[trigger] open_at(tiles@, xx, yy, d) == (
                        (yy < y || (yy == y && xx < x)) && raw_open(ls, xx, yy, d)),
            {
                let c = lines[y][x];
                let idx: usize = x * 16 + y;
                proof {
                    lemma_tile_index(x as int, y as int);
                }
                let ghost prev = tiles@;
                let mut t = tiles[idx];
                t.up = opens_up(c);
                t.down = opens_down(c);
                t.left = opens_left(c);
                t.right = opens_right(c);
                tiles[idx] = t;
                proof {
                    assert(tiles@ == prev.update(idx as int, t));
                    assert forall|xx: int, yy: int, d: Direction|
                        0 <= xx < 16 && 0 <= yy < 16 implies #[trigger] open_at(tiles@, xx, yy, d)
                        == ((yy < y || (yy == y && xx < x + 1)) && raw_open(ls, xx, yy, d)) by {
                        lemma_tile_index(xx, yy);
                        assert(open_at(prev, xx, yy, d) == ((yy < y || (yy == y && xx < x))
                            && raw_open(ls, xx, yy, d)));
                        if xx == x as int && yy == y as int {
                            assert(tile_at(tiles@, xx, yy) == t);
                            assert(ls[y as int] == lines@[y as int]@);
                            assert(c == ls[y as int][x as int]);
                        } else {
                            assert(xx * 16 + yy != idx as int);
                            assert(tile_at(tiles@, xx, yy) == tile_at(prev, xx, yy));
                        }
                    }
                }
            }
        }
    }
    proof {
        assert(!long_line(ls));
        assert(!extra_lines(ls));
    }
    Ok(tiles)
}

/// Wall flags after the two sides of every edge are reconciled: a side stays
/// open only when the edge is interior and its far side is open too.
fn symmetrize(raw: &Vec<Tile>) -> (r: Vec<Tile>)
    requires
        raw@.len() == 256,
        forall|i: int|
            0 <= i < 256 ==> (#[trigger] raw@[i]).position == (Position {
                x: (i / 16) as i8,
                y: (i % 16) as i8,
            }),
    ensures
        r@.len() == 256,
        forall|i: int|
            0 <= i < 256 ==> (#[trigger] r@[i]).position == (Position {
                x: (i / 16) as i8,
                y: (i % 16) as i8,
            }),
        forall|x: int, y: int, d: Direction|
            0 <= x < 16 && 0 <= y < 16 ==> #[trigger] open_at(r@, x, y, d) == {
                let q = step(Position { x: x as i8, y: y as i8 }, d);
                &&& open_at(raw@, x, y, d)
                &&& on_board(q)
                &&& open_at(raw@, q.x as int, q.y as int, opposite(d))
            },
{
    let mut out: Vec<Tile> = Vec::new();
    for x in 0..16usize
        invariant
            raw@.len() == 256,
            forall|i: int|
                0 <= i < 256 ==> (#[trigger] raw@[i]).position == (Position {
                    x: (i / 16) as i8,
                    y: (i % 16) as i8,
                }),
            out@.len() == 16 * x,
            forall|i: int|
                0 <= i < out@.len() ==> (#[trigger] out@[i]).position == (Position {
                    x: (i / 16) as i8,
                    y: (i % 16) as i8,
                }),
            forall|xx: int, yy: int, d: Direction|
                0 <= xx < 16 && 0 <= yy < 16 && xx * 16 + yy < out@.len() ==> #[trigger] open_at(
                    out@,
                    xx,
                    yy,
                    d,
                ) == {
                    let q = step(Position { x: xx as i8, y: yy as i8 }, d);
                    &&& open_at(raw@, xx, yy, d)
                    &&& on_board(q)
                    &&& open_at(raw@, q.x as int, q.y as int, opposite(d))
                },
    {
        for y in 0..16usize
            invariant
                raw@.len() == 256,
                forall|i: int|
                    0 <= i < 256 ==> (#[trigger] raw@[i]).position == (Position {
                        x: (i / 16) as i8,
                        y: (i % 16) as i8,
                    }),
                x < 16,
                out@.len() == 16 * x + y,
                forall|i: int|
                    0 <= i < out@.len() ==> (#[trigger] out@[i]).position == (Position {
                        x: (i / 16) as i8,
                        y: (i % 16) as i8,
                    }),
                forall|xx: int, yy: int, d: Direction|
                    0 <= xx < 16 && 0 <= yy < 16 && xx * 16 + yy < out@.len()
                        ==> #[trigger] open_at(out@, xx, yy, d) == {
                        let q = step(Position { x: xx as i8, y: yy as i8 }, d);
                        &&& open_at(raw@, xx, yy, d)
                        &&& on_board(q)
                        &&& open_at(raw@, q.x as int, q.y as int, opposite(d))
                    },
        {
            let idx: usize = x * 16 + y;
            proof {
                lemma_tile_index(x as int, y as int);
            }
            let t = raw[idx];
            let up = t.up && y > 0 && raw[idx - 1].down;
            let down = t.down && y < 15 && raw[idx + 1].up;
            let left = t.left && x > 0 && raw[idx - 16].right;
            let right = t.right && x < 15 && raw[idx + 16].left;
            let p = Position { x: x as i8, y: y as i8 };
            let ghost prev = out@;
            let nt = Tile {
                position: p,
                up,
                down,
                left,
                right,
                up_move: p,
                down_move: p,
                left_move: p,
                right_move: p,
            };
            out.push(nt);
            proof {
                if y > 0 {
                    lemma_tile_index(x as int, y as int - 1);
                }
                if y < 15 {
                    lemma_tile_index(x as int, y as int + 1);
                }
                if x > 0 {
                    lemma_tile_index(x as int - 1, y as int);
                }
                if x < 15 {
                    lemma_tile_index(x as int + 1, y as int);
                }
                assert(out@ == prev.push(nt));
                assert forall|xx: int, yy: int, d: Direction|
                    0 <= xx < 16 && 0 <= yy < 16 && xx * 16 + yy < out@.len()
                    implies #[trigger] open_at(out@, xx, yy, d) == {
                    let q = step(Position { x: xx as i8, y: yy as i8 }, d);
                    &&& open_at(raw@, xx, yy, d)
                    &&& on_board(q)
                    &&& open_at(raw@, q.x as int, q.y as int, opposite(d))
                } by {
                    lemma_tile_index(xx, yy);
                    if xx * 16 + yy < prev.len() {
                        assert(open_at(prev, xx, yy, d) == {
                            let q = step(Position { x: xx as i8, y: yy as i8 }, d);
                            &&& open_at(raw@, xx, yy, d)
                            &&& on_board(q)
                            &&& open_at(raw@, q.x as int, q.y as int, opposite(d))
                        });
                        assert(tile_at(out@, xx, yy) == tile_at(prev, xx, yy));
                    } else {
                        assert(xx == x as int && yy == y as int);
                        assert(tile_at(out@, xx, yy) == nt);
                    }
                }
            }
        }
    }
    out
}

/// Two tile tables with the same wall flags define the same upward slides.
proof fn lemma_slide_up_same(t1: Seq<Tile>, t2: Seq<Tile>, x: int, y: int)
    requires
        forall|xx: int, yy: int, d: Direction|
            0 <= xx < 16 && 0 <= yy < 16 ==> #[trigger] open_at(t1, xx, yy, d) == open_at(
                t2,
                xx,
                yy,
                d,
            ),
        0 <= x < 16,
        0 <= y < 16,
    ensures
        crate::geometry::slide_up(t1, x, y) == crate::geometry::slide_up(t2, x, y),
    decreases y,
{
    if y > 0 && open_at(t1, x, y, Direction::UP) {
        lemma_slide_up_same(t1, t2, x, y - 1);
    }
}

/// Two tile tables with the same wall flags define the same downward slides.
proof fn lemma_slide_down_same(t1: Seq<Tile>, t2: Seq<Tile>, x: int, y: int)
    requires
        forall|xx: int, yy: int, d: Direction|
            0 <= xx < 16 && 0 <= yy < 16 ==> #[trigger] open_at(t1, xx, yy, d) == open_at(
                t2,
                xx,
                yy,
                d,
            ),
        0 <= x < 16,
        0 <= y < 16,
    ensures
        crate::geometry::slide_down(t1, x, y) == crate::geometry::slide_down(t2, x, y),
    decreases 15 - y,
{
    if y < 15 && open_at(t1, x, y, Direction::DOWN) {
        lemma_slide_down_same(t1, t2, x, y + 1);
    }
}

/// Two tile tables with the same wall flags define the same leftward slides.
proof fn lemma_slide_left_same(t1: Seq<Tile>, t2: Seq<Tile>, x: int, y: int)
    requires
        forall|xx: int, yy: int, d: Direction|
            0 <= xx < 16 && 0 <= yy < 16 ==> #[trigger] open_at(t1, xx, yy, d) == open_at(
                t2,
                xx,
                yy,
                d,
            ),
        0 <= x < 16,
        0 <= y < 16,
    ensures
        crate::geometry::slide_left(t1, x, y) == crate::geometry::slide_left(t2, x, y),
    decreases x,
{
    if x > 0 && open_at(t1, x, y, Direction::LEFT) {
        lemma_slide_left_same(t1, t2, x - 1, y);
    }
}

/// Two tile tables with the same wall flags define the same rightward slides.
proof fn lemma_slide_right_same(t1: Seq<Tile>, t2: Seq<Tile>, x: int, y: int)
    requires
        forall|xx: int, yy: int, d: Direction|
            0 <= xx < 16 && 0 <= yy < 16 ==> #[trigger] open_at(t1, xx, yy, d) == open_at(
                t2,
                xx,
                yy,
                d,
            ),
        0 <= x < 16,
        0 <= y < 16,
    ensures
        crate::geometry::slide_right(t1, x, y) == crate::geometry::slide_right(t2, x, y),
    decreases 15 - x,
{
    if x < 15 && open_at(t1, x, y, Direction::RIGHT) {
        lemma_slide_right_same(t1, t2, x + 1, y);
    }
}

/// The resting row of a slide upward from (x, y) over the given tile table.
fn slide_up_exec(tiles: &Vec<Tile>, x: usize, y: usize) -> (r: usize)
    requires
        tiles@.len() == 256,
        x < 16,
        y < 16,
    ensures
        r == crate::geometry::slide_up(tiles@, x as int, y as int),
        r <= y,
{
    let mut cy = y;
    while cy > 0 && tiles[x * 16 + cy].up
        invariant
            tiles@.len() == 256,
            x < 16,
            cy <= y < 16,
            crate::geometry::slide_up(tiles@, x as int, y as int) == crate::geometry::slide_up(
                tiles@,
                x as int,
                cy as int,
            ),
        decreases cy,
    {
        cy = cy - 1;
    }
    cy
}

/// The resting row of a slide downward from (x, y).
fn slide_down_exec(tiles: &Vec<Tile>, x: usize, y: usize) -> (r: usize)
    requires
        tiles@.len() == 256,
        x < 16,
        y < 16,
    ensures
        r == crate::geometry::slide_down(tiles@, x as int, y as int),
        y <= r < 16,
{
    let mut cy = y;
    while cy < 15 && tiles[x * 16 + cy].down
        invariant
            tiles@.len() == 256,
            x < 16,
            y <= cy < 16,
            crate::geometry::slide_down(tiles@, x as int, y as int) == crate::geometry::slide_down(
                tiles@,
                x as int,
                cy as int,
            ),
        decreases 15 - cy,
    {
        cy = cy + 1;
    }
    cy
}

/// The resting column of a slide leftward from (x, y).
fn slide_left_exec(tiles: &Vec<Tile>, x: usize, y: usize) -> (r: usize)
    requires
        tiles@.len() == 256,
        x < 16,
        y < 16,
    ensures
        r == crate::geometry::slide_left(tiles@, x as int, y as int),
        r <= x,
{
    let mut cx = x;
    while cx > 0 && tiles[cx * 16 + y].left
        invariant
            tiles@.len() == 256,
            y < 16,
            cx <= x < 16,
            crate::geometry::slide_left(tiles@, x as int, y as int) == crate::geometry::slide_left(
                tiles@,
                cx as int,
                y as int,
            ),
        decreases cx,
    {
        cx = cx - 1;
    }
    cx
}

/// The resting column of a slide rightward from (x, y).
fn slide_right_exec(tiles: &Vec<Tile>, x: usize, y: usize) -> (r: usize)
    requires
        tiles@.len() == 256,
        x < 16,
        y < 16,
    ensures
        r == crate::geometry::slide_right(tiles@, x as int, y as int),
        x <= r < 16,
{
    let mut cx = x;
    while cx < 15 && tiles[cx * 16 + y].right
        invariant
            tiles@.len() == 256,
            y < 16,
            x <= cx < 16,
            crate::geometry::slide_right(tiles@, x as int, y as int)
                == crate::geometry::slide_right(tiles@, cx as int, y as int),
        decreases 15 - cx,
    {
        cx = cx + 1;
    }
    cx
}

/// The tile table with every slide destination filled in from the wall flags.
fn with_slides(eff: &Vec<Tile>) -> (r: Vec<Tile>)
    requires
        eff@.len() == 256,
        forall|i: int|
            0 <= i < 256 ==> (#[trigger] eff@[i]).position == (Position {
                x: (i / 16) as i8,
                y: (i % 16) as i8,
            }),
    ensures
        r@.len() == 256,
        forall|x: int, y: int|
            0 <= x < 16 && 0 <= y < 16 ==> (#[trigger] tile_at(r@, x, y)).position == (Position {
                x: x as i8,
                y: y as i8,
            }),
        forall|x: int, y: int, d: Direction|
            0 <= x < 16 && 0 <= y < 16 ==> #[trigger] open_at(r@, x, y, d) == open_at(eff@, x, y, d),
        forall|x: int, y: int, d: Direction|
            0 <= x < 16 && 0 <= y < 16 ==> #[trigger] tile_at(r@, x, y).slide_towards(d)
                == crate::geometry::slide_dest(eff@, Position { x: x as i8, y: y as i8 }, d),
{
    let mut out: Vec<Tile> = Vec::new();
    for x in 0..16usize
        invariant
            eff@.len() == 256,
            forall|i: int|
                0 <= i < 256 ==> (#[trigger] eff@[i]).position == (Position {
                    x: (i / 16) as i8,
                    y: (i % 16) as i8,
                }),
            out@.len() == 16 * x,
            forall|xx: int, yy: int|
                0 <= xx < 16 && 0 <= yy < 16 && xx * 16 + yy < out@.len() ==> (#[trigger] tile_at(
                    out@,
                    xx,
                    yy,
                )) == slide_filled(eff@, xx, yy),
    {
        for y in 0..16usize
            invariant
                eff@.len() == 256,
                forall|i: int|
                    0 <= i < 256 ==> (#[trigger] eff@[i]).position == (Position {
                        x: (i / 16) as i8,
                        y: (i % 16) as i8,
                    }),
                x < 16,
                out@.len() == 16 * x + y,
                forall|xx: int, yy: int|
                    0 <= xx < 16 && 0 <= yy < 16 && xx * 16 + yy < out@.len() ==> (
                    #[trigger] tile_at(out@, xx, yy)) == slide_filled(eff@, xx, yy),
        {
            let idx: usize = x * 16 + y;
            proof {
                lemma_tile_index(x as int, y as int);
            }
            let t = eff[idx];
            let uy = slide_up_exec(eff, x, y);
            let dy = slide_down_exec(eff, x, y);
            let lx = slide_left_exec(eff, x, y);
            let rx = slide_right_exec(eff, x, y);
            let nt = Tile {
                position: t.position,
                up: t.up,
                down: t.down,
                left: t.left,
                right: t.right,
                up_move: Position { x: x as i8, y: uy as i8 },
                down_move: Position { x: x as i8, y: dy as i8 },
                left_move: Position { x: lx as i8, y: y as i8 },
                right_move: Position { x: rx as i8, y: y as i8 },
            };
            let ghost prev = out@;
            out.push(nt);
            proof {
                assert(out@ == prev.push(nt));
                assert(nt == slide_filled(eff@, x as int, y as int));
                assert forall|xx: int, yy: int|
                    0 <= xx < 16 && 0 <= yy < 16 && xx * 16 + yy < out@.len() implies (
                #[trigger] tile_at(out@, xx, yy)) == slide_filled(eff@, xx, yy) by {
                    lemma_tile_index(xx, yy);
                    if xx * 16 + yy < prev.len() {
                        assert(tile_at(out@, xx, yy) == tile_at(prev, xx, yy));
                    } else {
                        assert(xx == x as int && yy == y as int);
                    }
                }
            }
        }
    }
    proof {
        assert forall|x: int, y: int, d: Direction| 0 <= x < 16 && 0 <= y < 16 implies (
        #[trigger] open_at(out@, x, y, d)) == open_at(eff@, x, y, d) by {
            lemma_tile_index(x, y);
            assert(tile_at(out@, x, y) == slide_filled(eff@, x, y));
        }
    }
    out
}

/// The tile at (x, y) of a table, with its slide destinations filled from the
/// table's wall flags.
pub open spec fn slide_filled(eff: Seq<Tile>, x: int, y: int) -> Tile {
    let t = tile_at(eff, x, y);
    let p = Position { x: x as i8, y: y as i8 };
    Tile {
        position: p,
        up: t.up,
        down: t.down,
        left: t.left,
        right: t.right,
        up_move: Position { x: x as i8, y: crate::geometry::slide_up(eff, x, y) as i8 },
        down_move: Position { x: x as i8, y: crate::geometry::slide_down(eff, x, y) as i8 },
        left_move: Position { x: crate::geometry::slide_left(eff, x, y) as i8, y: y as i8 },
        right_move: Position { x: crate::geometry::slide_right(eff, x, y) as i8, y: y as i8 },
    }
}

impl Geometry {
    /// The geometry that a textual map describes: sixteen lines of sixteen
    /// characters, each character saying which sides of its tile are open.
    /// Characters outside the map alphabet close every side of their tile,
    /// missing characters and missing lines do the same, a wall is kept only
    /// when both of its sides agree, and slide destinations are then computed
    /// from the walls. Texts of the wrong shape are rejected.
    pub fn from_map_text(text: &Vec<u8>) -> (r: Result<Geometry, MapError>)
        ensures
            r matches Err(e) ==> (e == MapError::LineTooLong <==> long_line(spec_lines(text@))),
            r matches Err(e) ==> (e == MapError::TooManyLines <==> !long_line(spec_lines(text@))
                && extra_lines(spec_lines(text@))),
            r matches Ok(g) <==> !long_line(spec_lines(text@)) && !extra_lines(spec_lines(text@)),
            r matches Ok(g) ==> g.wf() && forall|x: int, y: int, d: Direction|
                0 <= x < 16 && 0 <= y < 16 ==> #[trigger] open_at(g.tiles@, x, y, d) == eff_open(
                    spec_lines(text@),
                    x,
                    y,
                    d,
                ),
    {
        let lines = split_lines(text);
        let ghost ls = spec_lines(text@);
        let raw = match decode_raw(&lines) {
            Ok(t) => t,
            Err(e) => {
                return Err(e);
            },
        };
        let eff = symmetrize(&raw);
        let tiles = with_slides(&eff);
        proof {
            lemma_blank_positions(eff@);
            assert forall|x: int, y: int, d: Direction| 0 <= x < 16 && 0 <= y < 16 implies (
            #[trigger] open_at(eff@, x, y, d)) == eff_open(ls, x, y, d) by {
                let q = step(Position { x: x as i8, y: y as i8 }, d);
                if on_board(q) {
                    assert(open_at(raw@, q.x as int, q.y as int, opposite(d)) == raw_open(
                        ls,
                        q.x as int,
                        q.y as int,
                        opposite(d),
                    ));
                }
            }
        }
        let g = Geometry { tiles };
        proof {
            assert forall|x: int, y: int, d: Direction| 0 <= x < 16 && 0 <= y < 16 implies (
            #[trigger] open_at(g.tiles@, x, y, d)) == eff_open(ls, x, y, d) by {}
            assert forall|x: int, y: int, d: Direction|
                0 <= x < 16 && 0 <= y < 16 implies #[trigger] tile_at(g.tiles@, x, y).slide_towards(
                d,
            ) == crate::geometry::slide_dest(g.tiles@, Position { x: x as i8, y: y as i8 }, d) by {
                lemma_slide_up_same(g.tiles@, eff@, x, y);
                lemma_slide_down_same(g.tiles@, eff@, x, y);
                lemma_slide_left_same(g.tiles@, eff@, x, y);
                lemma_slide_right_same(g.tiles@, eff@, x, y);
            }
            assert(g.wf());
        }
        Ok(g)
    }
}

} // verus!
