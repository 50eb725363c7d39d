use vstd::prelude::*;

use crate::geometry::Direction;
use crate::geometry::EmptyBoard;
use crate::geometry::Position;
use crate::geometry::Tile;
use crate::geometry::on_board;
use crate::geometry::open_at;
use crate::geometry::slide_down;
use crate::geometry::slide_left;
use crate::geometry::slide_right;
use crate::geometry::slide_up;

verus! {

/// The value that marks a tile the flood fill has not reached.
pub const UNREACHED: i8 = 127;

/// Whether p is a stopping point of the slide run that starts one step from q
/// in the given direction: p lies strictly between q and q's empty-board
/// slide destination, the destination included.
pub open spec fn on_slide(tiles: Seq<Tile>, q: Position, d: Direction, p: Position) -> bool {
    match d {
        Direction::UP => p.x == q.x && slide_up(tiles, q.x as int, q.y as int) <= p.y < q.y,
        Direction::DOWN => p.x == q.x && q.y < p.y <= slide_down(tiles, q.x as int, q.y as int),
        Direction::LEFT => p.y == q.y && slide_left(tiles, q.x as int, q.y as int) <= p.x < q.x,
        Direction::RIGHT => p.y == q.y && q.x < p.x <= slide_right(tiles, q.x as int, q.y as int),
    }
}

/// Whether a lone robot can stop on p after exactly k slide segments from the
/// goal, counting every tile of a segment as a stopping point.
pub open spec fn reach(tiles: Seq<Tile>, goal: Position, p: Position, k: int) -> bool
    decreases k,
{
    if k < 0 {
        false
    } else if k == 0 {
        p == goal
    } else {
        exists|q: Position, d: Direction|
            reach(tiles, goal, q, k - 1) && on_board(q) && #[trigger] on_slide(tiles, q, d, p)
    }
}

/// A tile reached from a reached tile along one slide segment is reached with
/// one more move.
proof fn lemma_reach_step(
    tiles: Seq<Tile>,
    goal: Position,
    q: Position,
    d: Direction,
    p: Position,
    k: int,
)
    requires
        k >= 1,
        reach(tiles, goal, q, k - 1),
        on_board(q),
        on_slide(tiles, q, d, p),
    ensures
        reach(tiles, goal, p, k),
{
}

/// The per-tile lower bound table that the flood fill computes: the number of
/// slide segments a lone robot needs from the goal, `UNREACHED` where none
/// exists.
#[derive(Debug)]
pub struct HeuristicTable {
    pub values: Vec<i8>,
}

impl HeuristicTable {
    /// Well-formedness: one value per tile, each between zero and the
    /// sentinel.
    pub open spec fn wf(self) -> bool {
        &&& self.values@.len() == 256
        &&& forall|i: int| 0 <= i < 256 ==> 0 <= #[trigger] self.values@[i] <= UNREACHED
    }

    /// The table value at column x, row y.
    pub open spec fn at(self, x: int, y: int) -> int {
        self.values@[x * 16 + y] as int
    }

    /// The table value under a position.
    pub fn get(&self, p: Position) -> (r: i8)
        requires
            self.wf(),
            on_board(p),
        ensures
            r == self.at(p.x as int, p.y as int),
            0 <= r <= UNREACHED,
    {
        self.values[(p.x as usize) * 16 + (p.y as usize)]
    }
}

/// The table entry under a position.
pub open spec fn val_at(vals: Seq<i8>, p: Position) -> int {
    vals[p.x * 16 + p.y] as int
}

/// The standing obligation of one slide edge while the flood fill runs: the
/// stopping tile's entry is already within one move of the starting tile's,
/// or an item that will make it so still waits on the stack.
pub open spec fn edge_covered(
    vals: Seq<i8>,
    stack: Seq<(Position, i8)>,
    p: Position,
    q: Position,
) -> bool {
    ||| val_at(vals, q) <= val_at(vals, p) + 1
    ||| exists|j: int|
        0 <= j < stack.len() && (#[trigger] stack[j]).0 == q && stack[j].1 <= val_at(vals, p) + 1
}

/// A finished table is closed under slide edges: every stopping point of a
/// slide out of a filled tile carries at most one move more.
pub open spec fn closed_table(tiles: Seq<Tile>, vals: Seq<i8>) -> bool {
    forall|p: Position, d: Direction, q: Position|
        on_board(p) && on_board(q) && val_at(vals, p) < UNREACHED && #[trigger] on_slide(
            tiles,
            p,
            d,
            q,
        ) ==> val_at(vals, q) <= val_at(vals, p) + 1
}

/// A direction with an open wall at p is among p's open directions.
proof fn lemma_open_directions_contains(b: EmptyBoard, p: Position, d: Direction)
    requires
        open_at(b.map.tiles@, p.x as int, p.y as int, d),
    ensures
        b.open_directions(p).contains(d),
{
    let s = b.open_directions(p);
    let tiles = b.map.tiles@;
    let n_up: int = if open_at(tiles, p.x as int, p.y as int, Direction::UP) {
        1
    } else {
        0
    };
    let n_down: int = n_up + (if open_at(tiles, p.x as int, p.y as int, Direction::DOWN) {
        1int
    } else {
        0int
    });
    let n_left: int = n_down + (if open_at(tiles, p.x as int, p.y as int, Direction::LEFT) {
        1int
    } else {
        0int
    });
    match d {
        Direction::UP => {
            assert(s[0] == Direction::UP);
        },
        Direction::DOWN => {
            assert(s[n_up] == Direction::DOWN);
        },
        Direction::LEFT => {
            assert(s[n_down] == Direction::LEFT);
        },
        Direction::RIGHT => {
            assert(s[n_left] == Direction::RIGHT);
        },
    }
}

/// Over a closed table with zero at the goal, every tile a lone robot can
/// stop on within k segments carries an entry of at most k: the table's
/// entries are true minima, not merely achievable counts.
proof fn lemma_closed_bounds_reach(
    tiles: Seq<Tile>,
    goal: Position,
    vals: Seq<i8>,
    p: Position,
    k: int,
)
    requires
        vals.len() == 256,
        forall|j: int| 0 <= j < 256 ==> 0 <= #[trigger] vals[j] <= UNREACHED,
        on_board(goal),
        val_at(vals, goal) == 0,
        closed_table(tiles, vals),
        reach(tiles, goal, p, k),
    ensures
        on_board(p),
        val_at(vals, p) <= k,
    decreases k,
{
    if k == 0 {
        assert(p == goal);
    } else {
        let (q, d) = choose|q: Position, d: Direction|
            reach(tiles, goal, q, k - 1) && on_board(q) && #[trigger] on_slide(tiles, q, d, p);
        lemma_closed_bounds_reach(tiles, goal, vals, q, k - 1);
        match d {
            Direction::UP => {
                crate::geometry::lemma_slide_up_fixed(tiles, q.x as int, q.y as int);
            },
            Direction::DOWN => {
                crate::geometry::lemma_slide_down_fixed(tiles, q.x as int, q.y as int);
            },
            Direction::LEFT => {
                crate::geometry::lemma_slide_left_fixed(tiles, q.x as int, q.y as int);
            },
            Direction::RIGHT => {
                crate::geometry::lemma_slide_right_fixed(tiles, q.x as int, q.y as int);
            },
        }
        assert(on_board(p));
        if val_at(vals, q) < UNREACHED {
            assert(val_at(vals, p) <= val_at(vals, q) + 1);
        } else {
            assert(k - 1 >= UNREACHED);
            assert(val_at(vals, p) <= UNREACHED);
        }
    }
}

/// The sum of the values of a table, the flood fill's measure of progress.
pub open spec fn sum_vals(s: Seq<i8>) -> int
    decreases s.len(),
{
    if s.len() == 0 {
        0
    } else {
        s[0] + sum_vals(s.drop_first())
    }
}

/// Updating one entry moves the sum by the difference at that entry.
proof fn lemma_sum_update(s: Seq<i8>, i: int, v: i8)
    requires
        0 <= i < s.len(),
    ensures
        sum_vals(s.update(i, v)) == sum_vals(s) - s[i] + v,
    decreases s.len(),
{
    if i == 0 {
        assert(s.update(0, v).drop_first() =~= s.drop_first());
        assert(s.update(0, v)[0] == v);
    } else {
        assert(s.update(i, v).drop_first() =~= s.drop_first().update(i - 1, v));
        lemma_sum_update(s.drop_first(), i - 1, v);
    }
}

/// A table of non-negative values has a non-negative sum.
proof fn lemma_sum_nonneg(s: Seq<i8>)
    requires
        forall|i: int| 0 <= i < s.len() ==> 0 <= #[trigger] s[i],
    ensures
        sum_vals(s) >= 0,
    decreases s.len(),
{
    if s.len() > 0 {
        let t = s.drop_first();
        assert forall|i: int| 0 <= i < t.len() implies 0 <= #[trigger] t[i] by {
            assert(t[i] == s[i + 1]);
        }
        lemma_sum_nonneg(t);
    }
}

/// The walk measure of a step-by-step slide: how many tiles are left before
/// the board edge in the walking direction.
pub open spec fn walk_measure(p: Position, d: Direction) -> int {
    match d {
        Direction::UP => p.y as int,
        Direction::DOWN => 15 - p.y,
        Direction::LEFT => p.x as int,
        Direction::RIGHT => 15 - p.x,
    }
}

/// The coordinate on which a slide from p in the given direction stops on an
/// empty board: the row for vertical motion, the column for horizontal.
pub open spec fn slide_stop(tiles: Seq<Tile>, p: Position, d: Direction) -> int {
    match d {
        Direction::UP => slide_up(tiles, p.x as int, p.y as int),
        Direction::DOWN => slide_down(tiles, p.x as int, p.y as int),
        Direction::LEFT => slide_left(tiles, p.x as int, p.y as int),
        Direction::RIGHT => slide_right(tiles, p.x as int, p.y as int),
    }
}

/// The flood-fill distance table for the board's goal: the goal gets zero,
/// every entry below the sentinel is a count of slide segments that a lone
/// robot can indeed need to stop on the tile, and no smaller count is
/// possible: entries below the sentinel are exact minima, counting every
/// tile of a slide segment as a stopping point.
#[verifier::rlimit(100)]
pub fn flood_fill(board: &EmptyBoard) -> (r: HeuristicTable)
    requires
        board.wf(),
    ensures
        r.wf(),
        r.at(board.goal.x as int, board.goal.y as int) == 0,
        forall|x: int, y: int|
            0 <= x < 16 && 0 <= y < 16 && #[trigger] r.at(x, y) < UNREACHED ==> reach(
                board.map.tiles@,
                board.goal,
                Position { x: x as i8, y: y as i8 },
                r.at(x, y),
            ),
        forall|x: int, y: int, k: int|
            0 <= x < 16 && 0 <= y < 16 && #[trigger] reach(
                board.map.tiles@,
                board.goal,
                Position { x: x as i8, y: y as i8 },
                k,
            ) ==> r.at(x, y) <= k,
{
    let goal = board.goal;
    let ghost tiles = board.map.tiles@;
    let mut values: Vec<i8> = Vec::new();
    for i in 0..256usize
        invariant
            values@.len() == i,
            forall|j: int| 0 <= j < i ==> #[trigger] values@[j] == UNREACHED,
    {
        values.push(UNREACHED);
    }
    let mut stack: Vec<(Position, i8)> = Vec::new();
    stack.push((goal, 0));
    proof {
        assert(stack@[0] == (goal, 0i8));
    }
    let ghost gidx = goal.x as int * 16 + goal.y as int;
    proof {
        assert(0 <= gidx < 256) by (nonlinear_arith)
            requires
                0 <= goal.x < 16,
                0 <= goal.y < 16,
                gidx == goal.x as int * 16 + goal.y as int,
        ;
    }
    while stack.len() > 0
        invariant
            board.wf(),
            goal == board.goal,
            tiles == board.map.tiles@,
            gidx == goal.x as int * 16 + goal.y as int,
            0 <= gidx < 256,
            values@.len() == 256,
            forall|j: int| 0 <= j < 256 ==> 0 <= #[trigger] values@[j] <= UNREACHED,
            forall|j: int|
                0 <= j < stack@.len() ==> {
                    let item = #[trigger] stack@[j];
                    &&& on_board(item.0)
                    &&& 0 <= item.1 <= UNREACHED
                    &&& reach(tiles, goal, item.0, item.1 as int)
                },
            values@[gidx] == 0 || exists|j: int|
                0 <= j < stack@.len() && #[trigger] stack@[j] == (goal, 0i8),
            forall|x: int, y: int|
                0 <= x < 16 && 0 <= y < 16 && #[trigger] values@[x * 16 + y] < UNREACHED ==> reach(
                    tiles,
                    goal,
                    Position { x: x as i8, y: y as i8 },
                    values@[x * 16 + y] as int,
                ),
            forall|pp: Position, d: Direction, q: Position|
                on_board(pp) && on_board(q) && val_at(values@, pp) < UNREACHED && #[trigger] on_slide(
                    tiles,
                    pp,
                    d,
                    q,
                ) ==> edge_covered(values@, stack@, pp, q),
        decreases sum_vals(values@), stack@.len(),
    {
        proof {
            lemma_sum_nonneg(values@);
        }
        let ghost prev_stack = stack@;
        let ghost prev_values = values@;
        let top = stack.pop().unwrap();
        let p = top.0;
        let count = top.1;
        let idx: usize = (p.x as usize) * 16 + (p.y as usize);
        proof {
            assert(0 <= idx < 256) by (nonlinear_arith)
                requires
                    0 <= p.x < 16,
                    0 <= p.y < 16,
                    idx == p.x as int * 16 + p.y as int,
            ;
        }
        if count >= values[idx] {
            proof {
                if values@[gidx] != 0 {
                    let j = choose|j: int|
                        0 <= j < prev_stack.len() && #[trigger] prev_stack[j] == (goal, 0i8);
                    if j == prev_stack.len() - 1 {
                        assert(p == goal && count == 0);
                        assert(values@[gidx] == 0);
                    } else {
                        assert(stack@[j] == (goal, 0i8));
                    }
                }
                assert forall|pp: Position, d: Direction, q: Position|
                    on_board(pp) && on_board(q) && val_at(values@, pp) < UNREACHED
                        && #[trigger] on_slide(tiles, pp, d, q) implies edge_covered(
                    values@,
                    stack@,
                    pp,
                    q,
                ) by {
                    assert(edge_covered(values@, prev_stack, pp, q));
                    if !(val_at(values@, q) <= val_at(values@, pp) + 1) {
                        let j = choose|j: int|
                            0 <= j < prev_stack.len() && (#[trigger] prev_stack[j]).0 == q
                                && prev_stack[j].1 <= val_at(values@, pp) + 1;
                        if j == prev_stack.len() - 1 {
                            assert(prev_stack[j] == (p, count));
                            assert(val_at(values@, q) <= count);
                        } else {
                            assert(stack@[j] == prev_stack[j]);
                        }
                    }
                }
            }
            continue ;
        }
        values[idx] = count;
        proof {
            lemma_sum_update(prev_values, idx as int, count);
            lemma_sum_nonneg(values@);
            assert forall|x: int, y: int|
                0 <= x < 16 && 0 <= y < 16 && #[trigger] values@[x * 16 + y]
                    < UNREACHED implies reach(
                tiles,
                goal,
                Position { x: x as i8, y: y as i8 },
                values@[x * 16 + y] as int,
            ) by {
                assert(0 <= x * 16 + y < 256) by (nonlinear_arith)
                    requires
                        0 <= x < 16,
                        0 <= y < 16,
                ;
                if x * 16 + y == idx as int {
                    assert((x * 16 + y) / 16 == x && (x * 16 + y) % 16 == y) by (nonlinear_arith)
                        requires
                            0 <= x < 16,
                            0 <= y < 16,
                    ;
                    assert((idx as int) / 16 == p.x as int && (idx as int) % 16 == p.y as int)
                        by (nonlinear_arith)
                        requires
                            0 <= p.x < 16,
                            0 <= p.y < 16,
                            idx == p.x as int * 16 + p.y as int,
                    ;
                    assert(Position { x: x as i8, y: y as i8 } == p);
                } else {
                    assert(values@[x * 16 + y] == prev_values[x * 16 + y]);
                }
            }
            if values@[gidx] != 0 {
                let j = choose|j: int|
                    0 <= j < prev_stack.len() && #[trigger] prev_stack[j] == (goal, 0i8);
                assert(j < prev_stack.len() - 1);
                assert(stack@[j] == (goal, 0i8));
            }
        }
        let ghost sum_now = sum_vals(values@);
        let next_count = count + 1;
        let dirs = board.get_valid_directions(p);
        let nd = dirs.len();
        proof {
            assert forall|pp: Position, d: Direction, q: Position|
                on_board(pp) && on_board(q) && val_at(values@, pp) < UNREACHED
                    && #[trigger] on_slide(tiles, pp, d, q) implies edge_covered(
                values@,
                stack@,
                pp,
                q,
            ) || (pp == p && dirs@.skip(0).contains(d)) by {
                if pp == p {
                    match d {
                        Direction::UP => {
                            assert(open_at(tiles, p.x as int, p.y as int, Direction::UP));
                        },
                        Direction::DOWN => {
                            assert(open_at(tiles, p.x as int, p.y as int, Direction::DOWN));
                        },
                        Direction::LEFT => {
                            assert(open_at(tiles, p.x as int, p.y as int, Direction::LEFT));
                        },
                        Direction::RIGHT => {
                            assert(open_at(tiles, p.x as int, p.y as int, Direction::RIGHT));
                        },
                    }
                    lemma_open_directions_contains(*board, p, d);
                    assert(dirs@.skip(0) =~= dirs@);
                } else {
                    assert(pp.x * 16 + pp.y != idx as int);
                    assert(val_at(prev_values, pp) == val_at(values@, pp));
                    assert(edge_covered(prev_values, prev_stack, pp, q));
                    if val_at(prev_values, q) <= val_at(prev_values, pp) + 1 {
                        assert(val_at(values@, q) <= val_at(prev_values, q));
                    } else {
                        let j = choose|j: int|
                            0 <= j < prev_stack.len() && (#[trigger] prev_stack[j]).0 == q
                                && prev_stack[j].1 <= val_at(prev_values, pp) + 1;
                        if j == prev_stack.len() - 1 {
                            assert(prev_stack[j] == (p, count));
                            assert(q == p);
                            assert(val_at(values@, q) == count);
                        } else {
                            assert(stack@[j] == prev_stack[j]);
                        }
                    }
                }
            }
        }
        for di in 0..nd
            invariant
                nd == dirs@.len(),
                dirs@ == board.open_directions(p),
                board.wf(),
                goal == board.goal,
                tiles == board.map.tiles@,
                gidx == goal.x as int * 16 + goal.y as int,
                0 <= gidx < 256,
                on_board(p),
                0 <= count < UNREACHED,
                next_count == count + 1,
                reach(tiles, goal, p, count as int),
                values@.len() == 256,
                sum_vals(values@) == sum_now,
                val_at(values@, p) == count,
                forall|j: int| 0 <= j < 256 ==> 0 <= #[trigger] values@[j] <= UNREACHED,
                forall|j: int|
                    0 <= j < stack@.len() ==> {
                        let item = #[trigger] stack@[j];
                        &&& on_board(item.0)
                        &&& 0 <= item.1 <= UNREACHED
                        &&& reach(tiles, goal, item.0, item.1 as int)
                    },
                values@[gidx] == 0 || exists|j: int|
                    0 <= j < stack@.len() && #[trigger] stack@[j] == (goal, 0i8),
                forall|x: int, y: int|
                    0 <= x < 16 && 0 <= y < 16 && #[trigger] values@[x * 16 + y] < UNREACHED
                        ==> reach(
                        tiles,
                        goal,
                        Position { x: x as i8, y: y as i8 },
                        values@[x * 16 + y] as int,
                    ),
                forall|pp: Position, d: Direction, q: Position|
                    on_board(pp) && on_board(q) && val_at(values@, pp) < UNREACHED
                        && #[trigger] on_slide(tiles, pp, d, q) ==> edge_covered(
                        values@,
                        stack@,
                        pp,
                        q,
                    ) || (pp == p && dirs@.skip(di as int).contains(d)),
        {
            let direction = dirs[di];
            let mut position = p;
            proof {
                assert forall|pp: Position, d: Direction, q: Position|
                    on_board(pp) && on_board(q) && val_at(values@, pp) < UNREACHED
                        && #[trigger] on_slide(tiles, pp, d, q) implies edge_covered(
                    values@,
                    stack@,
                    pp,
                    q,
                ) || (pp == p && dirs@.skip(di as int + 1).contains(d)) || (pp == p && d
                    == direction && on_slide(tiles, position, direction, q)) by {
                    if !edge_covered(values@, stack@, pp, q) && pp == p && dirs@.skip(
                        di as int,
                    ).contains(d) {
                        let i = choose|i: int|
                            0 <= i < dirs@.skip(di as int).len() && dirs@.skip(di as int)[i] == d;
                        if i == 0 {
                            assert(d == direction);
                        } else {
                            assert(dirs@.skip(di as int + 1)[i - 1] == d);
                            assert(dirs@.skip(di as int + 1).contains(d));
                        }
                    }
                }
            }
            while board.can_move(position, direction)
                invariant
                    board.wf(),
                    goal == board.goal,
                    tiles == board.map.tiles@,
                    gidx == goal.x as int * 16 + goal.y as int,
                    0 <= gidx < 256,
                    nd == dirs@.len(),
                    dirs@ == board.open_directions(p),
                    di < nd,
                    direction == dirs@[di as int],
                    on_board(p),
                    on_board(position),
                    0 <= count < UNREACHED,
                    next_count == count + 1,
                    reach(tiles, goal, p, count as int),
                    on_slide(tiles, p, direction, position) || position == p,
                    walk_measure(position, direction) <= walk_measure(p, direction),
                    slide_stop(tiles, p, direction) == slide_stop(tiles, position, direction),
                    values@.len() == 256,
                    sum_vals(values@) == sum_now,
                    val_at(values@, p) == count,
                    forall|j: int| 0 <= j < 256 ==> 0 <= #[trigger] values@[j] <= UNREACHED,
                    forall|j: int|
                        0 <= j < stack@.len() ==> {
                            let item = #[trigger] stack@[j];
                            &&& on_board(item.0)
                            &&& 0 <= item.1 <= UNREACHED
                            &&& reach(tiles, goal, item.0, item.1 as int)
                        },
                    values@[gidx] == 0 || exists|j: int|
                        0 <= j < stack@.len() && #[trigger] stack@[j] == (goal, 0i8),
                    forall|x: int, y: int|
                        0 <= x < 16 && 0 <= y < 16 && #[trigger] values@[x * 16 + y] < UNREACHED
                            ==> reach(
                            tiles,
                            goal,
                            Position { x: x as i8, y: y as i8 },
                            values@[x * 16 + y] as int,
                        ),
                    forall|pp: Position, d: Direction, q: Position|
                        on_board(pp) && on_board(q) && val_at(values@, pp) < UNREACHED
                            && #[trigger] on_slide(tiles, pp, d, q) ==> edge_covered(
                            values@,
                            stack@,
                            pp,
                            q,
                        ) || (pp == p && dirs@.skip(di as int + 1).contains(d)) || (pp == p && d
                            == direction && on_slide(tiles, position, direction, q)),
                decreases walk_measure(position, direction),
            {
                let ghost oldpos = position;
                let ghost mid_stack = stack@;
                proof {
                    match direction {
                        Direction::UP => {
                            assert(open_at(tiles, oldpos.x as int, oldpos.y as int, Direction::UP));
                        },
                        Direction::DOWN => {
                            assert(open_at(
                                tiles,
                                oldpos.x as int,
                                oldpos.y as int,
                                Direction::DOWN,
                            ));
                        },
                        Direction::LEFT => {
                            assert(open_at(
                                tiles,
                                oldpos.x as int,
                                oldpos.y as int,
                                Direction::LEFT,
                            ));
                        },
                        Direction::RIGHT => {
                            assert(open_at(
                                tiles,
                                oldpos.x as int,
                                oldpos.y as int,
                                Direction::RIGHT,
                            ));
                        },
                    }
                }
                let tile = board.get_tile(position);
                position = tile.get_adjacent_position(direction);
                proof {
                    crate::geometry::lemma_slide_up_fixed(
                        tiles,
                        position.x as int,
                        position.y as int,
                    );
                    crate::geometry::lemma_slide_down_fixed(
                        tiles,
                        position.x as int,
                        position.y as int,
                    );
                    crate::geometry::lemma_slide_left_fixed(
                        tiles,
                        position.x as int,
                        position.y as int,
                    );
                    crate::geometry::lemma_slide_right_fixed(
                        tiles,
                        position.x as int,
                        position.y as int,
                    );
                    assert(on_board(position));
                    assert(on_slide(tiles, p, direction, position));
                    lemma_reach_step(tiles, goal, p, direction, position, next_count as int);
                    if values@[gidx] != 0 {
                        let j = choose|j: int|
                            0 <= j < stack@.len() && #[trigger] stack@[j] == (goal, 0i8);
                        assert(stack@.push((position, next_count))[j] == (goal, 0i8));
                    }
                }
                stack.push((position, next_count));
                proof {
                    assert(stack@ == mid_stack.push((position, next_count)));
                    assert(stack@[mid_stack.len() as int] == (position, next_count));
                    assert forall|pp: Position, d: Direction, q: Position|
                        on_board(pp) && on_board(q) && val_at(values@, pp) < UNREACHED
                            && #[trigger] on_slide(tiles, pp, d, q) implies edge_covered(
                        values@,
                        stack@,
                        pp,
                        q,
                    ) || (pp == p && dirs@.skip(di as int + 1).contains(d)) || (pp == p && d
                        == direction && on_slide(tiles, position, direction, q)) by {
                        if edge_covered(values@, mid_stack, pp, q) {
                            if !(val_at(values@, q) <= val_at(values@, pp) + 1) {
                                let j = choose|j: int|
                                    0 <= j < mid_stack.len() && (#[trigger] mid_stack[j]).0 == q
                                        && mid_stack[j].1 <= val_at(values@, pp) + 1;
                                assert(stack@[j] == mid_stack[j]);
                            }
                            assert(edge_covered(values@, stack@, pp, q));
                        } else if pp == p && d == direction && on_slide(
                            tiles,
                            oldpos,
                            direction,
                            q,
                        ) {
                            if q == position {
                                assert(stack@[mid_stack.len() as int].0 == q);
                                assert(stack@[mid_stack.len() as int].1 <= val_at(values@, pp) + 1);
                                assert(edge_covered(values@, stack@, pp, q));
                            } else {
                                match direction {
                                    Direction::UP => {
                                        assert(q.y < position.y);
                                    },
                                    Direction::DOWN => {
                                        assert(q.y > position.y);
                                    },
                                    Direction::LEFT => {
                                        assert(q.x < position.x);
                                    },
                                    Direction::RIGHT => {
                                        assert(q.x > position.x);
                                    },
                                }
                                assert(on_slide(tiles, position, direction, q));
                            }
                        }
                    }
                }
            }
            proof {
                assert forall|pp: Position, d: Direction, q: Position|
                    on_board(pp) && on_board(q) && val_at(values@, pp) < UNREACHED
                        && #[trigger] on_slide(tiles, pp, d, q) implies edge_covered(
                    values@,
                    stack@,
                    pp,
                    q,
                ) || (pp == p && dirs@.skip(di as int + 1).contains(d)) by {
                    if pp == p && d == direction && on_slide(tiles, position, direction, q)
                        && !edge_covered(values@, stack@, pp, q) && !dirs@.skip(
                        di as int + 1,
                    ).contains(d) {
                        match direction {
                            Direction::UP => {
                                assert(slide_up(tiles, position.x as int, position.y as int)
                                    == position.y as int);
                            },
                            Direction::DOWN => {
                                assert(slide_down(tiles, position.x as int, position.y as int)
                                    == position.y as int);
                            },
                            Direction::LEFT => {
                                assert(slide_left(tiles, position.x as int, position.y as int)
                                    == position.x as int);
                            },
                            Direction::RIGHT => {
                                assert(slide_right(tiles, position.x as int, position.y as int)
                                    == position.x as int);
                            },
                        }
                        assert(false);
                    }
                }
            }
        }
        proof {
            assert(dirs@.skip(nd as int).len() == 0);
        }
    }
    proof {
        assert(values@[gidx] == 0);
        assert((gidx / 16) == goal.x as int && (gidx % 16) == goal.y as int) by (nonlinear_arith)
            requires
                0 <= goal.x < 16,
                0 <= goal.y < 16,
                gidx == goal.x as int * 16 + goal.y as int,
        ;
    }
    let table = HeuristicTable { values };
    proof {
        assert(closed_table(tiles, table.values@)) by {
            assert forall|pp: Position, d: Direction, q: Position|
                on_board(pp) && on_board(q) && val_at(table.values@, pp) < UNREACHED
                    && #[trigger] on_slide(tiles, pp, d, q) implies val_at(table.values@, q)
                <= val_at(table.values@, pp) + 1 by {
                assert(edge_covered(table.values@, stack@, pp, q));
            }
        }
        assert(val_at(table.values@, goal) == 0);
        assert forall|x: int, y: int, k: int|
            0 <= x < 16 && 0 <= y < 16 && #[trigger] reach(
                tiles,
                goal,
                Position { x: x as i8, y: y as i8 },
                k,
            ) implies table.at(x, y) <= k by {
            lemma_closed_bounds_reach(
                tiles,
                goal,
                table.values@,
                Position { x: x as i8, y: y as i8 },
                k,
            );
        }
    }
    table
}

} // verus!
