use vstd::prelude::*;

use crate::board::Board;
use crate::board::Colour;
use crate::board::thin_vec_get;
use crate::board::thin_vec_len;
use crate::cache::DistanceCache;
use crate::geometry::Direction;
use crate::cache::cache_ok;
use crate::cache::entries_ok;
use crate::cache::fingerprint_entries;
use crate::heuristic::HeuristicTable;
use crate::packing::Move;
use crate::packing::colour_to_int;
use crate::packing::decode_path;
use crate::packing::four_pow;
use crate::packing::lemma_path_moves_append;
use crate::packing::lemma_pow4_31;
use crate::packing::path_moves;
use crate::packing::pow4;
use crate::packing::to_int;
use vstd::arithmetic::div_mod::lemma_mod_multiples_vanish;

verus! {

/// A search-frontier entry: the board reached, the number of moves taken,
/// the priority it was queued under, and the packed history of those moves.
#[derive(Debug, Copy, Clone)]
pub struct PathOption<'a> {
    pub priority: i16,
    pub distance: i16,
    pub board: Board<'a>,
    pub directions: u64,
    pub colours: u64,
}

/// A found solution: its length and the frontier entry that reached the
/// goal, whose packed history holds the move sequence.
#[derive(Debug, Copy, Clone)]
pub struct Solution<'a> {
    pub length: i16,
    pub path: PathOption<'a>,
}

/// The board after one move: the shoved robot stands on its move
/// destination.
pub open spec fn apply_move<'a>(b: Board<'a>, m: Move) -> Board<'a> {
    b.with_robot(m.colour, b.move_destination(m.colour, m.direction))
}

/// The board after a sequence of moves, first move first.
pub open spec fn replay<'a>(b: Board<'a>, moves: Seq<Move>) -> Board<'a>
    decreases moves.len(),
{
    if moves.len() == 0 {
        b
    } else {
        replay(apply_move(b, moves[0]), moves.drop_first())
    }
}

/// Replaying one more move is one more application.
pub proof fn lemma_replay_push<'a>(b: Board<'a>, moves: Seq<Move>, m: Move)
    ensures
        replay(b, moves.push(m)) == apply_move(replay(b, moves), m),
    decreases moves.len(),
{
    let s = moves.push(m);
    if moves.len() == 0 {
        assert(s[0] == m);
        assert(s.drop_first() =~= Seq::<Move>::empty());
        assert(replay(b, s) == replay(apply_move(b, m), s.drop_first()));
        assert(replay(apply_move(b, m), Seq::<Move>::empty()) == apply_move(b, m));
        assert(replay(b, moves) == b);
    } else {
        assert(s[0] == moves[0]);
        assert(s.drop_first() =~= moves.drop_first().push(m));
        assert(replay(b, s) == replay(apply_move(b, moves[0]), s.drop_first()));
        lemma_replay_push(apply_move(b, moves[0]), moves.drop_first(), m);
        assert(replay(b, moves) == replay(apply_move(b, moves[0]), moves.drop_first()));
    }
}

/// Replaying any move sequence on a well-formed board gives a well-formed
/// board over the same geometry, with the same goal.
pub proof fn lemma_replay_wf<'a>(b: Board<'a>, moves: Seq<Move>)
    requires
        b.wf(),
    ensures
        replay(b, moves).wf(),
        replay(b, moves).map == b.map,
        replay(b, moves).goal == b.goal,
    decreases moves.len(),
{
    if moves.len() > 0 {
        crate::board::lemma_move_destination_wf(b, moves[0].colour, moves[0].direction);
        lemma_replay_wf(apply_move(b, moves[0]), moves.drop_first());
    }
}

/// Whether every move of a sequence is offered by `get_valid_directions` at
/// the state it is played from.
pub open spec fn moves_enabled<'a>(b: Board<'a>, moves: Seq<Move>) -> bool
    decreases moves.len(),
{
    if moves.len() == 0 {
        true
    } else {
        &&& b.valid_direction(moves[0].colour, moves[0].direction)
        &&& moves_enabled(apply_move(b, moves[0]), moves.drop_first())
    }
}

/// One more enabled move is one more valid direction at the replayed state.
pub proof fn lemma_moves_enabled_push<'a>(b: Board<'a>, moves: Seq<Move>, m: Move)
    ensures
        moves_enabled(b, moves.push(m)) == (moves_enabled(b, moves) && replay(
            b,
            moves,
        ).valid_direction(m.colour, m.direction)),
    decreases moves.len(),
{
    let s = moves.push(m);
    if moves.len() == 0 {
        assert(s[0] == m);
        assert(s.drop_first() =~= Seq::<Move>::empty());
        assert(moves_enabled(apply_move(b, m), Seq::<Move>::empty()));
        assert(replay(b, moves) == b);
    } else {
        assert(s[0] == moves[0]);
        assert(s.drop_first() =~= moves.drop_first().push(m));
        lemma_moves_enabled_push(apply_move(b, moves[0]), moves.drop_first(), m);
        assert(replay(b, moves) == replay(apply_move(b, moves[0]), moves.drop_first()));
    }
}

/// Well-formedness of a frontier entry relative to the search's start board:
/// its packed history fits its distance and uses only digits one and above,
/// every move of that history is offered by `get_valid_directions` where it
/// is played, and replaying it from the start gives exactly its board.
pub open spec fn opt_wf<'a>(o: PathOption<'a>, start: Board<'a>) -> bool {
    &&& 0 <= o.distance <= 31
    &&& 0 <= o.priority < 160
    &&& o.directions < pow4((o.distance + 1) as nat)
    &&& o.colours < pow4((o.distance + 1) as nat)
    &&& o.directions % 4 == 0
    &&& o.colours % 4 == 0
    &&& moves_enabled(start, path_moves(o.directions as int, o.colours as int, o.distance as nat))
    &&& o.board == replay(
        start,
        path_moves(o.directions as int, o.colours as int, o.distance as nat),
    )
}

/// Every entry of a queue is well-formed for the given start board.
pub open spec fn heap_ok<'a>(q: PriorityQueue<'a>, start: Board<'a>) -> bool {
    forall|o: PathOption<'a>| #[trigger] q.has(o) ==> opt_wf(o, start)
}

/// The number of entries in the first n buckets.
pub open spec fn total_len<'a>(bs: Seq<Vec<PathOption<'a>>>, n: int) -> int
    decreases n,
{
    if n <= 0 {
        0
    } else {
        total_len(bs, n - 1) + bs[n - 1]@.len()
    }
}

/// Replacing one bucket moves the total by the difference in that bucket.
proof fn lemma_total_len_update<'a>(
    bs: Seq<Vec<PathOption<'a>>>,
    i: int,
    v: Vec<PathOption<'a>>,
    n: int,
)
    requires
        0 <= i < bs.len(),
    ensures
        i < n <= bs.len() ==> total_len(bs.update(i, v), n) == total_len(bs, n) - bs[i]@.len()
            + v@.len(),
        n <= i ==> total_len(bs.update(i, v), n) == total_len(bs, n),
    decreases n,
{
    if n > 0 {
        lemma_total_len_update(bs, i, v, n - 1);
    }
}

/// Buckets that are all empty hold nothing.
proof fn lemma_total_len_empty<'a>(bs: Seq<Vec<PathOption<'a>>>, n: int)
    requires
        n <= bs.len(),
        forall|b: int| 0 <= b < n ==> (#[trigger] bs[b])@.len() == 0,
    ensures
        total_len(bs, n) == 0,
    decreases n,
{
    if n > 0 {
        lemma_total_len_empty(bs, n - 1);
    }
}

/// The total over any number of buckets is not negative.
proof fn lemma_total_len_nonneg<'a>(bs: Seq<Vec<PathOption<'a>>>, n: int)
    ensures
        total_len(bs, n) >= 0,
    decreases n,
{
    if n > 0 {
        lemma_total_len_nonneg(bs, n - 1);
    }
}

/// The total over n buckets is at least the size of any one of them.
proof fn lemma_total_len_lower<'a>(bs: Seq<Vec<PathOption<'a>>>, b: int, n: int)
    requires
        0 <= b < n <= bs.len(),
    ensures
        total_len(bs, n) >= bs[b]@.len(),
    decreases n,
{
    if b < n - 1 {
        lemma_total_len_lower(bs, b, n - 1);
    } else {
        lemma_total_len_nonneg(bs, n - 1);
    }
}

/// The frontier of the best-first search: a bucket queue over the small
/// integer priorities, the cursor a lower bound on the least non-empty
/// bucket.
#[derive(Debug)]
pub struct PriorityQueue<'a> {
    pub buckets: Vec<Vec<PathOption<'a>>>,
    pub cursor: usize,
    pub count: u64,
}

impl<'a> PriorityQueue<'a> {
    /// Well-formedness: one bucket per priority, every bucket below the
    /// cursor empty, and every entry filed under its own priority.
    pub open spec fn inv(self) -> bool {
        &&& self.buckets@.len() == 160
        &&& self.cursor <= 160
        &&& self.count == total_len(self.buckets@, 160)
        &&& forall|b: int| 0 <= b < self.cursor ==> (#[trigger] self.buckets@[b])@.len() == 0
        &&& forall|b: int, i: int|
            0 <= b < 160 && 0 <= i < self.buckets@[b]@.len() ==> (#[trigger] self.buckets@[b]@[i]).priority
                == b
    }

    /// Whether an entry is in the queue.
    pub open spec fn has(self, o: PathOption<'a>) -> bool {
        exists|b: int, i: int|
            0 <= b < 160 && 0 <= i < self.buckets@[b]@.len() && (#[trigger] self.buckets@[b]@[i])
                == o
    }

    /// The number of entries in the queue.
    pub open spec fn size(self) -> int {
        total_len(self.buckets@, 160)
    }

    /// An empty queue.
    pub fn new() -> (r: PriorityQueue<'a>)
        ensures
            r.inv(),
            r.size() == 0,
            forall|o: PathOption<'a>| !(#[trigger] r.has(o)),
    {
        let mut buckets: Vec<Vec<PathOption<'a>>> = Vec::new();
        for i in 0..160usize
            invariant
                buckets@.len() == i,
                forall|b: int| 0 <= b < i ==> (#[trigger] buckets@[b])@.len() == 0,
        {
            buckets.push(Vec::new());
        }
        proof {
            lemma_total_len_empty(buckets@, 160);
        }
        PriorityQueue { buckets, cursor: 0, count: 0 }
    }

    /// The number of entries in the queue.
    pub fn len(&self) -> (r: u64)
        requires
            self.inv(),
        ensures
            r == self.size(),
    {
        self.count
    }

    /// File an entry under its priority.
    pub fn push(&mut self, o: PathOption<'a>)
        requires
            old(self).inv(),
            old(self).size() < 0xFFFF_FFFF_FFFF_FFFF,
            0 <= o.priority < 160,
        ensures
            final(self).inv(),
            final(self).size() == old(self).size() + 1,
            forall|x: PathOption<'a>| #[trigger] final(self).has(x) <==> old(self).has(x) || x == o,
    {
        let pr = o.priority as usize;
        if pr < self.cursor {
            self.cursor = pr;
        }
        let ghost prev = self.buckets@;
        self.buckets[pr].push(o);
        self.count = self.count + 1;
        proof {
            assert(self.buckets@ =~= prev.update(pr as int, self.buckets@[pr as int]));
            lemma_total_len_update(prev, pr as int, self.buckets@[pr as int], 160);
            assert forall|x: PathOption<'a>| #[trigger] self.has(x) implies old(self).has(x) || x
                == o by {
                let (b, i) = choose|b: int, i: int|
                    0 <= b < 160 && 0 <= i < self.buckets@[b]@.len() && (#[trigger] self.buckets@[b]@[i])
                        == x;
                if b == pr as int && i == prev[pr as int]@.len() {
                    assert(x == o);
                } else {
                    assert(prev[b]@[i] == x);
                }
            }
            assert forall|x: PathOption<'a>| old(self).has(x) || x == o implies #[trigger] self.has(
                x,
            ) by {
                if old(self).has(x) {
                    let (b, i) = choose|b: int, i: int|
                        0 <= b < 160 && 0 <= i < prev[b]@.len() && (#[trigger] prev[b]@[i]) == x;
                    assert(self.buckets@[b]@[i] == x);
                } else {
                    assert(self.buckets@[pr as int]@[prev[pr as int]@.len() as int] == o);
                }
            }
        }
    }

    /// Take out an entry of least priority, or nothing when the queue is
    /// empty.
    pub fn pop_min(&mut self) -> (r: Option<PathOption<'a>>)
        requires
            old(self).inv(),
        ensures
            final(self).inv(),
            r is None <==> old(self).size() == 0,
            match r {
                None => final(self).size() == 0 && old(self).size() == 0,
                Some(o) => {
                    &&& old(self).has(o)
                    &&& forall|x: PathOption<'a>|
                        #[trigger] old(self).has(x) ==> o.priority <= x.priority
                    &&& final(self).size() == old(self).size() - 1
                    &&& forall|x: PathOption<'a>| #[trigger] final(self).has(x) ==> old(self).has(x)
                    &&& forall|x: PathOption<'a>|
                        #[trigger] old(self).has(x) && x != o ==> final(self).has(x)
                },
            },
    {
        let ghost prev = self.buckets@;
        while self.cursor < 160 && self.buckets[self.cursor].len() == 0
            invariant
                self.inv(),
                self.buckets@ == prev,
            decreases 160 - self.cursor,
        {
            self.cursor = self.cursor + 1;
        }
        if self.cursor == 160 {
            proof {
                lemma_total_len_empty(self.buckets@, 160);
                assert forall|x: PathOption<'a>| !(#[trigger] self.has(x)) by {}
            }
            return None;
        }
        let cur = self.cursor;
        proof {
            lemma_total_len_lower(prev, self.cursor as int, 160);
            lemma_total_len_nonneg(prev, 160);
        }
        let o = self.buckets[cur].pop().unwrap();
        self.count = self.count - 1;
        proof {
            assert(self.buckets@ =~= prev.update(cur as int, self.buckets@[cur as int]));
            lemma_total_len_update(prev, cur as int, self.buckets@[cur as int], 160);
            lemma_total_len_lower(prev, cur as int, 160);
            assert(prev[cur as int]@[prev[cur as int]@.len() - 1] == o);
            assert(old(self).has(o));
            assert forall|x: PathOption<'a>| #[trigger] old(self).has(x) implies o.priority
                <= x.priority by {
                let (b, i) = choose|b: int, i: int|
                    0 <= b < 160 && 0 <= i < prev[b]@.len() && (#[trigger] prev[b]@[i]) == x;
                assert(b >= cur as int);
            }
            assert forall|x: PathOption<'a>| #[trigger] self.has(x) implies old(self).has(x) by {
                let (b, i) = choose|b: int, i: int|
                    0 <= b < 160 && 0 <= i < self.buckets@[b]@.len() && (#[trigger] self.buckets@[b]@[i])
                        == x;
                assert(prev[b]@[i] == x);
            }
            assert forall|x: PathOption<'a>| #[trigger] old(self).has(x) && x != o implies self.has(
                x,
            ) by {
                let (b, i) = choose|b: int, i: int|
                    0 <= b < 160 && 0 <= i < prev[b]@.len() && (#[trigger] prev[b]@[i]) == x;
                if b == cur as int && i == prev[cur as int]@.len() - 1 {
                    assert(x == o);
                } else {
                    assert(self.buckets@[b]@[i] == x);
                }
            }
        }
        Some(o)
    }
}

/// The number of distinct pairs of a state fingerprint and a depth that the
/// best-known-distance table can ever record: fingerprints fit thirty-two
/// bits, depths run from one to thirty-one, and the pairs are coded below
/// thirty-two times two to the thirty-second. Every enqueued frontier entry
/// records a fresh pair, so no search enqueues more than this many.
pub const ENQUEUE_LIMIT: u64 = 32 * 4294967296;

/// Whether a move sequence solves a board for the target colour: replaying
/// it leaves the target robot on the goal.
pub open spec fn solves<'a>(b: Board<'a>, moves: Seq<Move>, target: Colour) -> bool {
    replay(b, moves).robot(target) == b.goal
}

/// Two well-formed boards over the same geometry and goal with the same
/// fingerprint hold the same robots, and so are the same board.
pub proof fn lemma_board_fingerprint_injective<'a>(b1: Board<'a>, b2: Board<'a>)
    requires
        b1.wf(),
        b2.wf(),
        b1.map == b2.map,
        b1.goal == b2.goal,
        b1.fingerprint() == b2.fingerprint(),
    ensures
        b1 == b2,
{
    crate::board::lemma_fingerprint_injective(
        b1.red,
        b1.green,
        b1.blue,
        b1.yellow,
        b2.red,
        b2.green,
        b2.blue,
        b2.yellow,
    );
}

/// Every slide successor of b stands in the best-known table at most one
/// move deeper than b itself.
pub open spec fn successors_recorded<'a>(v: Map<u64, i16>, b: Board<'a>) -> bool {
    forall|c: Colour, d: Direction|
        #[trigger] b.valid_direction(c, d) ==> {
            let b2 = apply_move(b, Move { direction: d, colour: c });
            &&& v.contains_key(b2.fingerprint())
            &&& v[b2.fingerprint()] <= v[b.fingerprint()] + 1
        }
}

/// Every slide successor of the start stands in the best-known table at
/// depth one.
pub open spec fn start_recorded<'a>(v: Map<u64, i16>, b: Board<'a>) -> bool {
    forall|c: Colour, d: Direction|
        #[trigger] b.valid_direction(c, d) ==> {
            let b2 = apply_move(b, Move { direction: d, colour: c });
            &&& v.contains_key(b2.fingerprint())
            &&& v[b2.fingerprint()] <= 1
        }
}

/// A state the best-known table holds is covered by the search: a frontier
/// entry for it waits at the recorded depth or better, or the state is
/// unsolved and fully expanded with its successors recorded one deeper --
/// except at depth thirty-one, the deepest the packed history carries.
pub open spec fn state_covered<'a>(
    q: PriorityQueue<'a>,
    v: Map<u64, i16>,
    b: Board<'a>,
    target: Colour,
) -> bool {
    ||| exists|o: PathOption<'a>|
        #[trigger] q.has(o) && o.board == b && o.distance <= v[b.fingerprint()]
    ||| (b.robot(target) != b.goal && (v[b.fingerprint()] >= 31 || successors_recorded(v, b)))
}

/// What remains of the popped state's expansion: each valid move is already
/// recorded one past the given depth, or its colour or direction is still in
/// the unprocessed suffix.
pub open spec fn pending_expansion<'a>(
    v: Map<u64, i16>,
    b: Board<'a>,
    depth: int,
    cs: Seq<Colour>,
    dcol: Colour,
    ds: Seq<Direction>,
) -> bool {
    forall|c: Colour, d: Direction|
        #[trigger] b.valid_direction(c, d) ==> {
            let b2 = apply_move(b, Move { direction: d, colour: c });
            ||| (v.contains_key(b2.fingerprint()) && v[b2.fingerprint()] <= depth + 1)
            ||| cs.contains(c)
            ||| (c == dcol && ds.contains(d))
        }
}

/// The search's coverage invariant: the start waits on the queue or has its
/// successors recorded, every state in the best-known table is covered, and
/// every queue entry beyond the start one stands in the table at its own
/// depth or better; the pending parameters carve out the one state whose
/// expansion is underway.
pub open spec fn covered_with_pending<'a>(
    q: PriorityQueue<'a>,
    v: Map<u64, i16>,
    start: Board<'a>,
    target: Colour,
    ob: Board<'a>,
    depth: int,
    cs: Seq<Colour>,
    dcol: Colour,
    ds: Seq<Direction>,
) -> bool {
    &&& (exists|o: PathOption<'a>| #[trigger] q.has(o) && o.board == start && o.distance == 0)
        || start_recorded(v, start) || (ob == start && depth == 0 && pending_expansion(
        v,
        start,
        0,
        cs,
        dcol,
        ds,
    ))
    &&& forall|b: Board<'a>|
        b.wf() && b.map == start.map && b.goal == start.goal && #[trigger] v.contains_key(
            b.fingerprint(),
        ) ==> state_covered(q, v, b, target) || (b == ob && v[b.fingerprint()] >= depth
            && pending_expansion(v, b, depth, cs, dcol, ds))
    &&& forall|o: PathOption<'a>|
        #[trigger] q.has(o) ==> (o.board == start && o.distance == 0) || (v.contains_key(
            o.board.fingerprint(),
        ) && v[o.board.fingerprint()] <= o.distance)
}

/// The coverage invariant with no expansion underway: the depth of minus
/// one can never match a popped entry and, the table holding no value below
/// one, makes the pending escape unusable, so only the covered disjuncts
/// remain.
pub open spec fn search_covered<'a>(
    q: PriorityQueue<'a>,
    v: Map<u64, i16>,
    start: Board<'a>,
    target: Colour,
) -> bool {
    covered_with_pending(
        q,
        v,
        start,
        target,
        start,
        -1,
        Seq::empty(),
        Colour::RED,
        Seq::empty(),
    )
}

/// Over the table a finished search leaves, no move sequence the packed
/// history can carry solves the board: walking any would-be solution
/// forward, every state it reaches is recorded and unsolved.
proof fn lemma_table_refutes<'a>(
    v: Map<u64, i16>,
    start: Board<'a>,
    target: Colour,
    moves: Seq<Move>,
    i: int,
    s: Board<'a>,
    e: int,
)
    requires
        start.wf(),
        start.robot(target) != start.goal,
        start_recorded(v, start),
        forall|b: Board<'a>|
            b.wf() && b.map == start.map && b.goal == start.goal && #[trigger] v.contains_key(
                b.fingerprint(),
            ) ==> b.robot(target) != b.goal && (v[b.fingerprint()] >= 31 || successors_recorded(
                v,
                b,
            )),
        moves.len() <= 31,
        0 <= i <= moves.len(),
        0 <= e <= i,
        s == replay(start, moves.take(i)),
        (e == 0 && s == start) || (v.contains_key(s.fingerprint()) && v[s.fingerprint()] <= e),
    ensures
        !solves(start, moves, target),
    decreases moves.len() - i,
{
    lemma_replay_wf(start, moves.take(i));
    if i == moves.len() {
        assert(moves.take(i) =~= moves);
        if e == 0 && s == start {
            assert(replay(start, moves).robot(target) != start.goal);
        } else {
            assert(s.robot(target) != s.goal);
            assert(s.goal == start.goal);
        }
    } else {
        let m = moves[i];
        let s2 = apply_move(s, m);
        assert(moves.take(i + 1) =~= moves.take(i).push(m));
        lemma_replay_push(start, moves.take(i), m);
        assert(replay(start, moves.take(i + 1)) == s2);
        if s2 == s {
            lemma_table_refutes(v, start, target, moves, i + 1, s, e);
        } else {
            crate::board::lemma_valid_directions_exact(s, m.colour, m.direction);
            assert(s.with_robot(m.colour, s.robot(m.colour)) == s);
            assert(s.valid_direction(m.colour, m.direction));
            if e == 0 && s == start {
                assert(v.contains_key(s2.fingerprint()) && v[s2.fingerprint()] <= 1);
            } else {
                assert(v[s.fingerprint()] <= e <= moves.len() - 1 <= 30);
                assert(successors_recorded(v, s));
                assert(v.contains_key(s2.fingerprint()) && v[s2.fingerprint()] <= v[s.fingerprint()]
                    + 1);
            }
            lemma_table_refutes(v, start, target, moves, i + 1, s2, e + 1);
        }
    }
}

/// Best-first search for a short move sequence that brings the robot of the
/// target colour onto the goal. Expansion priority is moves taken plus the
/// flood-fill bound at the robot that just moved, with a cached remaining
/// distance taking the bound's place when the state has been solved before.
/// A returned solution carries a packed move history of its length, every
/// move of it offered by `get_valid_directions` where it is played, that
/// replays from the start board to a solved board; and `None` comes back
/// only when no move sequence that the packing can carry, thirty-one moves
/// and below, solves the board at all. The first solution popped is not
/// proven shortest: the priority reads the flood-fill bound at the moved
/// robot, and for a robot other than the target that value does not bound
/// the moves still needed, so the search can pass over a cheaper line whose
/// supporting move parks a robot far from the goal.
#[verifier::rlimit(100)]
pub fn solve<'a>(
    board: Board<'a>,
    target_colour: Colour,
    known_solutions: &DistanceCache,
    flooded_map: &HeuristicTable,
) -> (r: Option<Solution<'a>>)
    requires
        board.wf(),
        flooded_map.wf(),
        cache_ok(*known_solutions),
    ensures
        r matches Some(sol) ==> {
            &&& sol.length == sol.path.distance
            &&& 0 <= sol.length <= 31
            &&& sol.path.directions % 4 == 0
            &&& sol.path.colours % 4 == 0
            &&& moves_enabled(
                board,
                path_moves(
                    sol.path.directions as int,
                    sol.path.colours as int,
                    sol.length as nat,
                ),
            )
            &&& sol.path.board == replay(
                board,
                path_moves(
                    sol.path.directions as int,
                    sol.path.colours as int,
                    sol.length as nat,
                ),
            )
            &&& sol.path.board.wf()
            &&& sol.path.board.map == board.map
            &&& sol.path.board.goal == board.goal
            &&& sol.path.board.robot(target_colour) == board.goal
        },
        board.robot(target_colour) == board.goal ==> (r matches Some(sol) && sol.length == 0
            && sol.path.board == board),
        r is None ==> forall|moves: Seq<Move>|
            moves.len() <= 31 ==> !solves(board, moves, target_colour),
{
    let first = PathOption {
        priority: 0,
        distance: 0,
        board,
        directions: 0,
        colours: 0,
    };
    proof {
        assert(pow4(0) == 1);
        assert(pow4(1) == 4);
        assert(path_moves(0, 0, 0) =~= Seq::<Move>::empty());
        assert(replay(board, Seq::<Move>::empty()) == board);
        assert(moves_enabled(board, Seq::<Move>::empty()));
        assert(opt_wf(first, board));
    }
    if board.is_solved(target_colour) {
        return Some(Solution { length: 0, path: first });
    }
    let mut heap = PriorityQueue::new();
    let ghost empty_heap = heap;
    heap.push(first);
    let mut visited_board_states = DistanceCache::new();
    let ghost mut hist: Seq<(u64, i16)> = Seq::empty();
    proof {
        assert(heap.has(first));
        assert forall|o: PathOption<'a>| #[trigger] heap.has(o) implies o == first by {
            assert(!empty_heap.has(o));
        }
        assert(search_covered(
            heap,
            fingerprint_entries(visited_board_states),
            board,
            target_colour,
        ));
    }

    while 0 < heap.len()
        invariant
            board.wf(),
            flooded_map.wf(),
            cache_ok(*known_solutions),
            heap.inv(),
            heap_ok(heap, board),
            heap.size() <= 1 + hist.len(),
            hist.len() <= ENQUEUE_LIMIT,
            forall|j: int|
                0 <= j < hist.len() ==> (#[trigger] hist[j]).0 < 0x1_0000_0000 && 1 <= hist[j].1
                    <= 31,
            forall|j: int|
                0 <= j < hist.len() ==> fingerprint_entries(visited_board_states).contains_key(
                    (#[trigger] hist[j]).0,
                ) && fingerprint_entries(visited_board_states)[hist[j].0] <= hist[j].1,
            forall|j1: int, j2: int|
                #![trigger hist[j1], hist[j2]]
                0 <= j1 < j2 < hist.len() ==> hist[j1] != hist[j2],
            forall|k: u64|
                #[trigger] fingerprint_entries(visited_board_states).contains_key(k) ==> 1
                    <= fingerprint_entries(visited_board_states)[k] <= 31,
            search_covered(heap, fingerprint_entries(visited_board_states), board, target_colour),
            board.robot(target_colour) != board.goal,
        decreases ENQUEUE_LIMIT - hist.len(), heap.size(),
    {
        let ghost heap_before = heap;
        let option = heap.pop_min().unwrap();
        let ghost hist0 = hist;
        let ghost size0 = heap.size();
        if option.board.is_solved(target_colour) {
            proof {
                lemma_replay_wf(
                    board,
                    path_moves(
                        option.directions as int,
                        option.colours as int,
                        option.distance as nat,
                    ),
                );
            }
            return Some(Solution { length: option.distance, path: option });
        }
        if option.distance >= 31 {
            // a thirty-second move would not fit the packed history; the
            // state stays covered by the depth exemption
            proof {
                let v = fingerprint_entries(visited_board_states);
                if !(exists|o: PathOption<'a>|
                    #[trigger] heap.has(o) && o.board == board && o.distance == 0)
                    && !start_recorded(v, board) {
                    let o0 = choose|o: PathOption<'a>|
                        #[trigger] heap_before.has(o) && o.board == board && o.distance == 0;
                    assert(o0 != option);
                    assert(heap.has(o0));
                }
                assert forall|b: Board<'a>|
                    b.wf() && b.map == board.map && b.goal == board.goal && #[trigger] v.contains_key(
                        b.fingerprint(),
                    ) implies state_covered(heap, v, b, target_colour) by {
                    if !state_covered(heap, v, b, target_colour) {
                        assert(state_covered(heap_before, v, b, target_colour) || (b == board
                            && v[b.fingerprint()] >= -1 && pending_expansion(
                            v,
                            b,
                            -1,
                            Seq::empty(),
                            Colour::RED,
                            Seq::empty(),
                        )));
                        if state_covered(heap_before, v, b, target_colour) {
                            let o1 = choose|o: PathOption<'a>|
                                #[trigger] heap_before.has(o) && o.board == b && o.distance
                                    <= v[b.fingerprint()];
                            if o1 != option {
                                assert(heap.has(o1));
                            } else {
                                assert(b == option.board);
                                assert(v.contains_key(option.board.fingerprint())
                                    && v[option.board.fingerprint()] <= option.distance);
                                assert(v[b.fingerprint()] >= 31);
                                assert(b.robot(target_colour) != b.goal);
                            }
                        } else {
                            assert forall|c: Colour, d: Direction|
                                #[trigger] b.valid_direction(c, d) implies false by {
                                assert(v[apply_move(
                                    b,
                                    Move { direction: d, colour: c },
                                ).fingerprint()] <= 0);
                            }
                            assert(successors_recorded(v, b));
                            assert(b.robot(target_colour) != b.goal);
                        }
                    }
                }
                assert(search_covered(heap, v, board, target_colour));
            }
            continue ;
        }
        proof {
            lemma_replay_wf(
                board,
                path_moves(option.directions as int, option.colours as int, option.distance as nat),
            );
        }
        let colours_in_order = vec![Colour::RED, Colour::BLUE, Colour::YELLOW, Colour::GREEN];
        let nc = colours_in_order.len();
        proof {
            let v = fingerprint_entries(visited_board_states);
            let ghost depth = option.distance as int;
            assert(colours_in_order@.skip(0) =~= colours_in_order@);
            assert forall|c: Colour| #[trigger] colours_in_order@.contains(c) by {
                match c {
                    Colour::RED => {
                        assert(colours_in_order@[0] == c);
                    },
                    Colour::BLUE => {
                        assert(colours_in_order@[1] == c);
                    },
                    Colour::YELLOW => {
                        assert(colours_in_order@[2] == c);
                    },
                    Colour::GREEN => {
                        assert(colours_in_order@[3] == c);
                    },
                }
            }
            assert(pending_expansion(
                v,
                option.board,
                depth,
                colours_in_order@,
                Colour::RED,
                Seq::empty(),
            ));
            assert(pending_expansion(v, board, 0, colours_in_order@, Colour::RED, Seq::empty()));
            if !(exists|o: PathOption<'a>|
                #[trigger] heap.has(o) && o.board == board && o.distance == 0) && !start_recorded(
                v,
                board,
            ) {
                let o0 = choose|o: PathOption<'a>|
                    #[trigger] heap_before.has(o) && o.board == board && o.distance == 0;
                if o0 != option {
                    assert(heap.has(o0));
                } else {
                    assert(option.board == board && option.distance == 0);
                }
            }
            assert forall|b: Board<'a>|
                b.wf() && b.map == board.map && b.goal == board.goal && #[trigger] v.contains_key(
                    b.fingerprint(),
                ) implies state_covered(heap, v, b, target_colour) || (b == option.board
                && v[b.fingerprint()] >= depth && pending_expansion(
                v,
                b,
                depth,
                colours_in_order@,
                Colour::RED,
                Seq::empty(),
            )) by {
                if !state_covered(heap, v, b, target_colour) {
                    if state_covered(heap_before, v, b, target_colour) {
                        let o1 = choose|o: PathOption<'a>|
                            #[trigger] heap_before.has(o) && o.board == b && o.distance
                                <= v[b.fingerprint()];
                        if o1 != option {
                            assert(heap.has(o1));
                        } else {
                            assert(b == option.board && v[b.fingerprint()] >= depth);
                        }
                    } else {
                        assert(b == board && pending_expansion(
                            v,
                            b,
                            -1,
                            Seq::empty(),
                            Colour::RED,
                            Seq::empty(),
                        ));
                        assert forall|c: Colour, d: Direction|
                            #[trigger] b.valid_direction(c, d) implies false by {
                            assert(v[apply_move(
                                b,
                                Move { direction: d, colour: c },
                            ).fingerprint()] <= 0);
                        }
                        assert(successors_recorded(v, b));
                        assert(b.robot(target_colour) != b.goal);
                    }
                }
            }
            assert(covered_with_pending(
                heap,
                v,
                board,
                target_colour,
                option.board,
                depth,
                colours_in_order@.skip(0),
                Colour::RED,
                Seq::empty(),
            ));
        }
        for ci in 0..nc
            invariant
                nc == colours_in_order@.len(),
                colours_in_order@ == seq![Colour::RED, Colour::BLUE, Colour::YELLOW, Colour::GREEN],
                board.wf(),
                flooded_map.wf(),
                cache_ok(*known_solutions),
                heap.inv(),
                heap_ok(heap, board),
                opt_wf(option, board),
                option.board.wf(),
                option.board.map == board.map,
                option.board.goal == board.goal,
                option.board.robot(target_colour) != option.board.goal,
                option.distance < 31,
                heap.size() <= 1 + hist.len(),
                hist.len() <= ENQUEUE_LIMIT,
                hist0.len() <= hist.len(),
                hist.len() > hist0.len() || heap.size() == size0,
                forall|j: int|
                    0 <= j < hist.len() ==> (#[trigger] hist[j]).0 < 0x1_0000_0000 && 1
                        <= hist[j].1 <= 31,
                forall|j: int|
                    0 <= j < hist.len() ==> fingerprint_entries(visited_board_states).contains_key(
                        (#[trigger] hist[j]).0,
                    ) && fingerprint_entries(visited_board_states)[hist[j].0] <= hist[j].1,
                forall|j1: int, j2: int|
                    #![trigger hist[j1], hist[j2]]
                    0 <= j1 < j2 < hist.len() ==> hist[j1] != hist[j2],
                forall|k: u64|
                    #[trigger] fingerprint_entries(visited_board_states).contains_key(k) ==> 1
                        <= fingerprint_entries(visited_board_states)[k] <= 31,
                covered_with_pending(
                    heap,
                    fingerprint_entries(visited_board_states),
                    board,
                    target_colour,
                    option.board,
                    option.distance as int,
                    colours_in_order@.skip(ci as int),
                    Colour::RED,
                    Seq::empty(),
                ),
                board.robot(target_colour) != board.goal,
        {
            let colour = colours_in_order[ci];
            let dirs = option.board.get_valid_directions(colour);
            let ndir = thin_vec_len(&dirs);
            proof {
                let v = fingerprint_entries(visited_board_states);
                let ghost depth = option.distance as int;
                let vseq = crate::board::thin_vec_directions(dirs);
                assert(vseq.skip(0) =~= vseq);
                if pending_expansion(
                    v,
                    option.board,
                    depth,
                    colours_in_order@.skip(ci as int),
                    Colour::RED,
                    Seq::empty(),
                ) {
                    assert forall|c: Colour, d: Direction|
                        #[trigger] option.board.valid_direction(c, d) implies {
                        let bn = apply_move(option.board, Move { direction: d, colour: c });
                        ||| (v.contains_key(bn.fingerprint()) && v[bn.fingerprint()] <= depth + 1)
                        ||| colours_in_order@.skip(ci as int + 1).contains(c)
                        ||| (c == colour && vseq.skip(0).contains(d))
                    } by {
                        let bn = apply_move(option.board, Move { direction: d, colour: c });
                        if !(v.contains_key(bn.fingerprint()) && v[bn.fingerprint()] <= depth + 1) {
                            assert(colours_in_order@.skip(ci as int).contains(c));
                            let j = choose|j: int|
                                0 <= j < colours_in_order@.skip(ci as int).len()
                                    && colours_in_order@.skip(ci as int)[j] == c;
                            if j == 0 {
                                assert(c == colour);
                                crate::board::lemma_valid_directions_exact(option.board, colour, d);
                                assert(vseq.contains(d));
                            } else {
                                assert(colours_in_order@.skip(ci as int + 1)[j - 1] == c);
                                assert(colours_in_order@.skip(ci as int + 1).contains(c));
                            }
                        }
                    }
                    assert(pending_expansion(
                        v,
                        option.board,
                        depth,
                        colours_in_order@.skip(ci as int + 1),
                        colour,
                        vseq.skip(0),
                    ));
                }
                assert(covered_with_pending(
                    heap,
                    v,
                    board,
                    target_colour,
                    option.board,
                    depth,
                    colours_in_order@.skip(ci as int + 1),
                    colour,
                    vseq.skip(0),
                ));
            }
            for di in 0..ndir
                invariant
                    ndir == crate::board::thin_vec_directions(dirs).len(),
                    crate::board::thin_vec_directions(dirs) == option.board.valid_directions_seq(
                        colour,
                    ),
                    ci < nc,
                    nc == colours_in_order@.len(),
                    colours_in_order@ == seq![
                        Colour::RED,
                        Colour::BLUE,
                        Colour::YELLOW,
                        Colour::GREEN,
                    ],
                    colour == colours_in_order@[ci as int],
                    board.wf(),
                    flooded_map.wf(),
                    cache_ok(*known_solutions),
                    heap.inv(),
                    heap_ok(heap, board),
                    opt_wf(option, board),
                    option.board.wf(),
                    option.board.map == board.map,
                    option.board.goal == board.goal,
                    option.board.robot(target_colour) != option.board.goal,
                    option.distance < 31,
                    heap.size() <= 1 + hist.len(),
                    hist.len() <= ENQUEUE_LIMIT,
                    hist0.len() <= hist.len(),
                    hist.len() > hist0.len() || heap.size() == size0,
                    forall|j: int|
                        0 <= j < hist.len() ==> (#[trigger] hist[j]).0 < 0x1_0000_0000 && 1
                            <= hist[j].1 <= 31,
                    forall|j: int|
                        0 <= j < hist.len() ==> fingerprint_entries(
                            visited_board_states,
                        ).contains_key((#[trigger] hist[j]).0) && fingerprint_entries(
                            visited_board_states,
                        )[hist[j].0] <= hist[j].1,
                    forall|j1: int, j2: int|
                        #![trigger hist[j1], hist[j2]]
                        0 <= j1 < j2 < hist.len() ==> hist[j1] != hist[j2],
                    forall|k: u64|
                        #[trigger] fingerprint_entries(visited_board_states).contains_key(k) ==> 1
                            <= fingerprint_entries(visited_board_states)[k] <= 31,
                    covered_with_pending(
                        heap,
                        fingerprint_entries(visited_board_states),
                        board,
                        target_colour,
                        option.board,
                        option.distance as int,
                        colours_in_order@.skip(ci as int + 1),
                        colour,
                        crate::board::thin_vec_directions(dirs).skip(di as int),
                    ),
                    board.robot(target_colour) != board.goal,
            {
                let direction = thin_vec_get(&dirs, di);
                let mut neighbour_board = option.board;
                let new_position = neighbour_board.move_robot(colour, direction);
                let ghost m = Move { direction, colour };
                proof {
                    let vs = option.board.valid_directions_seq(colour);
                    assert(vs[di as int] == direction);
                    assert(vs.contains(direction));
                    crate::board::lemma_valid_directions_exact(option.board, colour, direction);
                    assert(option.board.valid_direction(colour, direction));
                    assert(neighbour_board == apply_move(option.board, m));
                }
                let mut heuristic: i16 = flooded_map.get(new_position) as i16;

                match known_solutions.get(neighbour_board.hash()) {
                    Some(distance) => {
                        heuristic = distance;
                    },
                    None => {},
                }

                let hashed_board = neighbour_board.hash();
                let mut push_state = false;
                match visited_board_states.get(hashed_board) {
                    Some(distance) => {
                        if distance > option.distance + 1 {
                            push_state = true;
                        }
                    },
                    None => {
                        push_state = true;
                    },
                }
                if push_state {
                    let ghost prev_entries = fingerprint_entries(visited_board_states);
                    visited_board_states.insert(hashed_board, option.distance + 1);
                    proof {
                        lemma_budget_admits_insert(
                            hist,
                            hashed_board,
                            (option.distance + 1) as i16,
                            prev_entries,
                        );
                        hist = hist.push((hashed_board, (option.distance + 1) as i16));
                    }
                    let weight = four_pow(option.distance as u64 + 1);
                    proof {
                        lemma_pow4_31();
                        crate::packing::lemma_pow4_le_max((option.distance + 1) as nat);
                    }
                    let ghost old_moves = path_moves(
                        option.directions as int,
                        option.colours as int,
                        option.distance as nat,
                    );
                    let dir_code = to_int(direction);
                    let col_code = colour_to_int(colour);
                    proof {
                        assert(dir_code * weight <= 3 * weight) by (nonlinear_arith)
                            requires
                                dir_code <= 3,
                                weight >= 0,
                        ;
                        assert(col_code * weight <= 3 * weight) by (nonlinear_arith)
                            requires
                                col_code <= 3,
                                weight >= 0,
                        ;
                        assert(pow4((option.distance + 2) as nat) == 4 * pow4(
                            (option.distance + 1) as nat,
                        ));
                    }
                    let new_directions = option.directions + dir_code * weight;
                    let new_colours = option.colours + col_code * weight;
                    proof {
                        lemma_path_moves_append(
                            option.directions as int,
                            option.colours as int,
                            option.distance as nat,
                            m,
                        );
                        lemma_replay_push(board, old_moves, m);
                        lemma_moves_enabled_push(board, old_moves, m);
                        assert(weight == 4 * pow4(option.distance as nat));
                        assert(dir_code * weight == 4 * (dir_code * pow4(option.distance as nat)))
                            by (nonlinear_arith)
                            requires
                                weight == 4 * pow4(option.distance as nat),
                        ;
                        assert(col_code * weight == 4 * (col_code * pow4(option.distance as nat)))
                            by (nonlinear_arith)
                            requires
                                weight == 4 * pow4(option.distance as nat),
                        ;
                        lemma_mod_multiples_vanish(
                            dir_code * pow4(option.distance as nat),
                            option.directions as int,
                            4,
                        );
                        lemma_mod_multiples_vanish(
                            col_code * pow4(option.distance as nat),
                            option.colours as int,
                            4,
                        );
                    }
                    let neighbour = PathOption {
                        priority: option.distance + heuristic + 1,
                        distance: option.distance + 1,
                        board: neighbour_board,
                        directions: new_directions,
                        colours: new_colours,
                    };
                    proof {
                        assert(opt_wf(neighbour, board));
                    }
                    let ghost heap_mid = heap;
                    heap.push(neighbour);
                    proof {
                        let v = fingerprint_entries(visited_board_states);
                        let ghost depth = option.distance as int;
                        let vseq = crate::board::thin_vec_directions(dirs);
                        assert(v == prev_entries.insert(hashed_board, (option.distance + 1) as i16));
                        assert(hashed_board == neighbour_board.fingerprint());
                        assert(heap.has(neighbour));
                        lemma_advance_after_record(
                            heap_mid,
                            heap,
                            prev_entries,
                            v,
                            board,
                            target_colour,
                            option.board,
                            depth,
                            colours_in_order@.skip(ci as int + 1),
                            colour,
                            vseq,
                            di as int,
                            direction,
                            neighbour_board,
                            Some(neighbour),
                        );
                    }
                } else {
                    proof {
                        let v = fingerprint_entries(visited_board_states);
                        let ghost depth = option.distance as int;
                        let vseq = crate::board::thin_vec_directions(dirs);
                        assert(hashed_board == neighbour_board.fingerprint());
                        assert(v.contains_key(hashed_board) && v[hashed_board] <= option.distance
                            + 1);
                        lemma_advance_after_record(
                            heap,
                            heap,
                            v,
                            v,
                            board,
                            target_colour,
                            option.board,
                            depth,
                            colours_in_order@.skip(ci as int + 1),
                            colour,
                            vseq,
                            di as int,
                            direction,
                            neighbour_board,
                            None,
                        );
                    }
                }
            }
            proof {
                let v = fingerprint_entries(visited_board_states);
                let ghost depth = option.distance as int;
                let vseq = crate::board::thin_vec_directions(dirs);
                assert(vseq.skip(ndir as int).len() == 0);
                if pending_expansion(
                    v,
                    option.board,
                    depth,
                    colours_in_order@.skip(ci as int + 1),
                    colour,
                    vseq.skip(ndir as int),
                ) {
                    assert forall|c: Colour, d: Direction|
                        #[trigger] option.board.valid_direction(c, d) implies {
                        let bn = apply_move(option.board, Move { direction: d, colour: c });
                        ||| (v.contains_key(bn.fingerprint()) && v[bn.fingerprint()] <= depth + 1)
                        ||| colours_in_order@.skip(ci as int + 1).contains(c)
                        ||| (c == Colour::RED && Seq::<Direction>::empty().contains(d))
                    } by {
                        if c == colour && vseq.skip(ndir as int).contains(d) {
                            assert(false);
                        }
                    }
                    assert(pending_expansion(
                        v,
                        option.board,
                        depth,
                        colours_in_order@.skip(ci as int + 1),
                        Colour::RED,
                        Seq::empty(),
                    ));
                }
                assert(covered_with_pending(
                    heap,
                    v,
                    board,
                    target_colour,
                    option.board,
                    depth,
                    colours_in_order@.skip(ci as int + 1),
                    Colour::RED,
                    Seq::empty(),
                ));
            }
        }
        proof {
            let v = fingerprint_entries(visited_board_states);
            let ghost depth = option.distance as int;
            assert(colours_in_order@.skip(nc as int).len() == 0);
            if !(exists|o: PathOption<'a>|
                #[trigger] heap.has(o) && o.board == board && o.distance == 0) && !start_recorded(
                v,
                board,
            ) {
                assert(option.board == board && depth == 0 && pending_expansion(
                    v,
                    board,
                    0,
                    colours_in_order@.skip(nc as int),
                    Colour::RED,
                    Seq::empty(),
                ));
                assert forall|c: Colour, d: Direction|
                    #[trigger] board.valid_direction(c, d) implies {
                    let bn = apply_move(board, Move { direction: d, colour: c });
                    v.contains_key(bn.fingerprint()) && v[bn.fingerprint()] <= 1
                } by {
                    assert(!colours_in_order@.skip(nc as int).contains(c));
                }
                assert(start_recorded(v, board));
            }
            assert forall|b: Board<'a>|
                b.wf() && b.map == board.map && b.goal == board.goal && #[trigger] v.contains_key(
                    b.fingerprint(),
                ) implies state_covered(heap, v, b, target_colour) by {
                if !state_covered(heap, v, b, target_colour) {
                    assert(b == option.board && v[b.fingerprint()] >= depth && pending_expansion(
                        v,
                        b,
                        depth,
                        colours_in_order@.skip(nc as int),
                        Colour::RED,
                        Seq::empty(),
                    ));
                    assert forall|c: Colour, d: Direction|
                        #[trigger] b.valid_direction(c, d) implies {
                        let bn = apply_move(b, Move { direction: d, colour: c });
                        v.contains_key(bn.fingerprint()) && v[bn.fingerprint()]
                            <= v[b.fingerprint()] + 1
                    } by {
                        assert(!colours_in_order@.skip(nc as int).contains(c));
                    }
                    assert(successors_recorded(v, b));
                    assert(b.robot(target_colour) != b.goal);
                }
            }
            assert(search_covered(heap, v, board, target_colour));
        }
    }
    proof {
        let v = fingerprint_entries(visited_board_states);
        assert forall|o: PathOption<'a>| !(#[trigger] heap.has(o)) by {
            if heap.has(o) {
                let (b, i) = choose|b: int, i: int|
                    0 <= b < 160 && 0 <= i < heap.buckets@[b]@.len() && (
                    #[trigger] heap.buckets@[b]@[i]) == o;
                lemma_total_len_lower(heap.buckets@, b, 160);
            }
        }
        assert(start_recorded(v, board));
        assert forall|b: Board<'a>|
            b.wf() && b.map == board.map && b.goal == board.goal && #[trigger] v.contains_key(
                b.fingerprint(),
            ) implies b.robot(target_colour) != b.goal && (v[b.fingerprint()] >= 31
            || successors_recorded(v, b)) by {
            assert(state_covered(heap, v, b, target_colour) || (b == board && v[b.fingerprint()]
                >= -1 && pending_expansion(v, b, -1, Seq::empty(), Colour::RED, Seq::empty())));
            if state_covered(heap, v, b, target_colour) {
            } else {
                assert forall|c: Colour, d: Direction|
                    #[trigger] b.valid_direction(c, d) implies false by {
                    assert(v[apply_move(b, Move { direction: d, colour: c }).fingerprint()] <= 0);
                }
                assert(successors_recorded(v, b));
                assert(b.robot(target_colour) != b.goal);
            }
        }
        assert forall|moves: Seq<Move>| moves.len() <= 31 implies !solves(
            board,
            moves,
            target_colour,
        ) by {
            if solves(board, moves, target_colour) {
                assert(moves.take(0) =~= Seq::<Move>::empty());
                assert(replay(board, moves.take(0)) == board);
                lemma_table_refutes(v, board, target_colour, moves, 0, board, 0);
            }
        }
    }
    None
}

/// Recording one successor of the state under expansion advances its pending
/// direction suffix by one: the coverage invariant holds again with the next
/// suffix, whether the successor was freshly pushed or already known.
#[verifier::rlimit(100)]
proof fn lemma_advance_after_record<'a>(
    q0: PriorityQueue<'a>,
    q1: PriorityQueue<'a>,
    v0: Map<u64, i16>,
    v1: Map<u64, i16>,
    start: Board<'a>,
    target: Colour,
    ob: Board<'a>,
    depth: int,
    cs: Seq<Colour>,
    dcol: Colour,
    vseq: Seq<Direction>,
    di: int,
    direction: Direction,
    nb: Board<'a>,
    pushed: Option<PathOption<'a>>,
)
    requires
        covered_with_pending(q0, v0, start, target, ob, depth, cs, dcol, vseq.skip(di)),
        0 <= di < vseq.len(),
        vseq == ob.valid_directions_seq(dcol),
        vseq[di] == direction,
        ob.wf(),
        ob.map == start.map,
        ob.goal == start.goal,
        start.wf(),
        nb == apply_move(ob, Move { direction, colour: dcol }),
        v1.contains_key(nb.fingerprint()),
        v1[nb.fingerprint()] <= depth + 1,
        0 <= depth,
        forall|k: u64| #[trigger] v0.contains_key(k) ==> v1.contains_key(k),
        forall|k: u64| #[trigger] v0.contains_key(k) ==> v1[k] <= v0[k],
        forall|k: u64|
            #[trigger] v1.contains_key(k) && k != nb.fingerprint() ==> v0.contains_key(k) && v1[k]
                == v0[k],
        forall|k: u64| #[trigger] v1.contains_key(k) ==> 1 <= v1[k],
        match pushed {
            None => q1 == q0 && v1 == v0,
            Some(o) => {
                &&& o.board == nb
                &&& o.distance == depth + 1
                &&& v1[nb.fingerprint()] == depth + 1
                &&& q1.has(o)
                &&& forall|x: PathOption<'a>| #[trigger] q1.has(x) <==> q0.has(x) || x == o
            },
        },
    ensures
        covered_with_pending(q1, v1, start, target, ob, depth, cs, dcol, vseq.skip(di + 1)),
{
    crate::board::lemma_valid_directions_exact(ob, dcol, direction);
    assert(vseq.skip(di)[0] == direction);
    assert(vseq.contains(direction));
    assert(ob.valid_direction(dcol, direction));
    crate::board::lemma_move_destination_wf(ob, dcol, direction);
    assert(nb.wf() && nb.map == start.map && nb.goal == start.goal);
    if pending_expansion(v0, ob, depth, cs, dcol, vseq.skip(di)) {
        assert forall|c: Colour, d: Direction| #[trigger] ob.valid_direction(c, d) implies {
            let bn = apply_move(ob, Move { direction: d, colour: c });
            ||| (v1.contains_key(bn.fingerprint()) && v1[bn.fingerprint()] <= depth + 1)
            ||| cs.contains(c)
            ||| (c == dcol && vseq.skip(di + 1).contains(d))
        } by {
            let bn = apply_move(ob, Move { direction: d, colour: c });
            if v0.contains_key(bn.fingerprint()) && v0[bn.fingerprint()] <= depth + 1 {
                assert(v1.contains_key(bn.fingerprint()) && v1[bn.fingerprint()] <= depth + 1);
            } else if !cs.contains(c) {
                assert(c == dcol && vseq.skip(di).contains(d));
                let j = choose|j: int|
                    0 <= j < vseq.skip(di).len() && vseq.skip(di)[j] == d;
                if j == 0 {
                    assert(d == direction);
                    assert(bn == nb);
                    assert(v1.contains_key(bn.fingerprint()) && v1[bn.fingerprint()] <= depth + 1);
                } else {
                    assert(vseq.skip(di + 1)[j - 1] == d);
                    assert(vseq.skip(di + 1).contains(d));
                }
            }
        }
        assert(pending_expansion(v1, ob, depth, cs, dcol, vseq.skip(di + 1)));
    }
    assert forall|b: Board<'a>|
        b.wf() && b.map == start.map && b.goal == start.goal && #[trigger] v1.contains_key(
            b.fingerprint(),
        ) implies state_covered(q1, v1, b, target) || (b == ob && v1[b.fingerprint()] >= depth
        && pending_expansion(v1, b, depth, cs, dcol, vseq.skip(di + 1))) by {
        if b.fingerprint() == nb.fingerprint() && pushed is Some {
            lemma_board_fingerprint_injective(b, nb);
            let o = pushed.unwrap();
            assert(q1.has(o) && o.board == b && o.distance <= v1[b.fingerprint()]);
        } else {
            assert(v0.contains_key(b.fingerprint()) && v1[b.fingerprint()] == v0[b.fingerprint()])
                by {
                if b.fingerprint() != nb.fingerprint() {
                } else {
                    assert(q1 == q0 && v1 == v0);
                }
            }
            assert(state_covered(q0, v0, b, target) || (b == ob && v0[b.fingerprint()] >= depth
                && pending_expansion(v0, b, depth, cs, dcol, vseq.skip(di))));
            if state_covered(q0, v0, b, target) {
                if b.robot(target) != b.goal && (v0[b.fingerprint()] >= 31 || successors_recorded(
                    v0,
                    b,
                )) {
                    if v0[b.fingerprint()] < 31 {
                        assert forall|c: Colour, d: Direction|
                            #[trigger] b.valid_direction(c, d) implies {
                            let bn = apply_move(b, Move { direction: d, colour: c });
                            v1.contains_key(bn.fingerprint()) && v1[bn.fingerprint()]
                                <= v1[b.fingerprint()] + 1
                        } by {
                            let bn = apply_move(b, Move { direction: d, colour: c });
                            assert(v0.contains_key(bn.fingerprint()) && v0[bn.fingerprint()]
                                <= v0[b.fingerprint()] + 1);
                        }
                        assert(successors_recorded(v1, b));
                    }
                    assert(state_covered(q1, v1, b, target));
                } else {
                    let o1 = choose|o: PathOption<'a>|
                        #[trigger] q0.has(o) && o.board == b && o.distance <= v0[b.fingerprint()];
                    assert(q1.has(o1));
                    assert(state_covered(q1, v1, b, target));
                }
            }
        }
    }
    if !(exists|o: PathOption<'a>| #[trigger] q1.has(o) && o.board == start && o.distance == 0)
        && !start_recorded(v1, start) {
        if exists|o: PathOption<'a>| #[trigger] q0.has(o) && o.board == start && o.distance == 0 {
            let o0 = choose|o: PathOption<'a>|
                #[trigger] q0.has(o) && o.board == start && o.distance == 0;
            assert(q1.has(o0));
        } else if start_recorded(v0, start) {
            assert forall|c: Colour, d: Direction|
                #[trigger] start.valid_direction(c, d) implies {
                let bn = apply_move(start, Move { direction: d, colour: c });
                v1.contains_key(bn.fingerprint()) && v1[bn.fingerprint()] <= 1
            } by {
                let bn = apply_move(start, Move { direction: d, colour: c });
                assert(v0.contains_key(bn.fingerprint()) && v0[bn.fingerprint()] <= 1);
            }
            assert(start_recorded(v1, start));
        } else {
            assert(ob == start && depth == 0);
        }
    }
    assert forall|o: PathOption<'a>| #[trigger] q1.has(o) implies (o.board == start && o.distance
        == 0) || (v1.contains_key(o.board.fingerprint()) && v1[o.board.fingerprint()]
        <= o.distance) by {
        match pushed {
            None => {},
            Some(p) => {
                if o == p {
                    assert(v1.contains_key(nb.fingerprint()) && v1[nb.fingerprint()] <= depth + 1);
                } else {
                    assert(q0.has(o));
                }
            },
        }
    }
}

/// The best-known-distance table admits a fresh pair: a fingerprint about to
/// be recorded with a depth the table does not yet undercut differs from
/// every pair recorded before, and the code space bounds how many such pairs
/// a search can ever record.
proof fn lemma_budget_admits_insert(
    hist: Seq<(u64, i16)>,
    key: u64,
    value: i16,
    entries: Map<u64, i16>,
)
    requires
        hist.len() <= ENQUEUE_LIMIT,
        forall|j: int|
            0 <= j < hist.len() ==> (#[trigger] hist[j]).0 < 0x1_0000_0000 && 1 <= hist[j].1 <= 31,
        forall|j: int|
            0 <= j < hist.len() ==> entries.contains_key((#[trigger] hist[j]).0)
                && entries[hist[j].0] <= hist[j].1,
        forall|j1: int, j2: int|
            #![trigger hist[j1], hist[j2]]
            0 <= j1 < j2 < hist.len() ==> hist[j1] != hist[j2],
        key < 0x1_0000_0000,
        1 <= value <= 31,
        !entries.contains_key(key) || entries[key] > value,
    ensures
        hist.len() < ENQUEUE_LIMIT,
        forall|j: int| 0 <= j < hist.len() ==> #[trigger] hist[j] != (key, value),
{
    assert forall|j: int| 0 <= j < hist.len() implies #[trigger] hist[j] != (key, value) by {
        if hist[j].0 == key {
            assert(entries.contains_key(key));
            assert(hist[j].1 >= entries[key]);
        }
    }
    let h2 = hist.push((key, value));
    let cs = Seq::new(h2.len(), |j: int| h2[j].0 * 32 + h2[j].1);
    assert forall|j1: int, j2: int| 0 <= j1 < j2 < cs.len() implies cs[j1] != cs[j2] by {
        assert(h2[j1] != h2[j2]);
        assert(h2[j1].0 * 32 + h2[j1].1 != h2[j2].0 * 32 + h2[j2].1);
    }
    assert(cs.no_duplicates());
    cs.unique_seq_to_set();
    assert forall|x: int| cs.to_set().contains(x) implies vstd::set_lib::set_int_range(
        0,
        ENQUEUE_LIMIT as int,
    ).contains(x) by {
        let j = choose|j: int| 0 <= j < cs.len() && cs[j] == x;
        assert(h2[j].0 < 0x1_0000_0000 && 1 <= h2[j].1 <= 31);
        assert(0 <= h2[j].0 * 32 + h2[j].1 < ENQUEUE_LIMIT);
    }
    assert(cs.to_set().subset_of(vstd::set_lib::set_int_range(0, ENQUEUE_LIMIT as int)));
    vstd::set_lib::lemma_int_range(0, ENQUEUE_LIMIT as int);
    vstd::set_lib::lemma_len_subset(
        cs.to_set(),
        vstd::set_lib::set_int_range(0, ENQUEUE_LIMIT as int),
    );
    assert(h2.len() <= ENQUEUE_LIMIT);
}

/// A map with a value written under every hash of a sequence in turn.
pub open spec fn insert_hashes(m: Map<u64, i16>, hs: Seq<u64>, v: i16) -> Map<u64, i16>
    decreases hs.len(),
{
    if hs.len() == 0 {
        m
    } else {
        insert_hashes(m.insert(hs[0], v), hs.drop_first(), v)
    }
}

/// The solution cache contents after walking a solved path: each state met
/// along the moves gets its six permuted fingerprints mapped to the number
/// of moves still ahead of it.
pub open spec fn cache_after<'a>(m: Map<u64, i16>, b: Board<'a>, moves: Seq<Move>) -> Map<u64, i16>
    decreases moves.len(),
{
    if moves.len() == 0 {
        m
    } else {
        let b1 = apply_move(b, moves[0]);
        cache_after(
            insert_hashes(m, b1.permuted_fingerprints(), (moves.len() - 1) as i16),
            b1,
            moves.drop_first(),
        )
    }
}

/// Recording a solved path never invalidates a cache entry: every key
/// present before an insertion walk is still present after it.
pub proof fn lemma_insert_hashes_monotone(m: Map<u64, i16>, hs: Seq<u64>, v: i16, k: u64)
    requires
        m.contains_key(k),
    ensures
        insert_hashes(m, hs, v).contains_key(k),
    decreases hs.len(),
{
    if hs.len() > 0 {
        lemma_insert_hashes_monotone(m.insert(hs[0], v), hs.drop_first(), v, k);
    }
}

/// The solution cache grows monotonically: walking a solved path only adds
/// entries, so a fingerprint once recorded stays recorded.
pub proof fn lemma_cache_after_monotone<'a>(
    m: Map<u64, i16>,
    b: Board<'a>,
    moves: Seq<Move>,
    k: u64,
)
    requires
        m.contains_key(k),
    ensures
        cache_after(m, b, moves).contains_key(k),
    decreases moves.len(),
{
    if moves.len() > 0 {
        let b1 = apply_move(b, moves[0]);
        lemma_insert_hashes_monotone(m, b1.permuted_fingerprints(), (moves.len() - 1) as i16, k);
        lemma_cache_after_monotone(
            insert_hashes(m, b1.permuted_fingerprints(), (moves.len() - 1) as i16),
            b1,
            moves.drop_first(),
            k,
        );
    }
}

/// Writing one value under finitely many keys keeps every entry in range
/// when the value is, and adds no key beyond those.
proof fn lemma_insert_hashes_ok(m: Map<u64, i16>, hs: Seq<u64>, v: i16)
    requires
        entries_ok(m),
        0 <= v <= 31,
    ensures
        entries_ok(insert_hashes(m, hs, v)),
    decreases hs.len(),
{
    if hs.len() > 0 {
        lemma_insert_hashes_ok(m.insert(hs[0], v), hs.drop_first(), v);
    }
}

/// Write a value into the cache under each of the six permuted fingerprints.
fn insert_all(cache: &mut DistanceCache, hashes: &[u64; 6], value: i16)
    ensures
        fingerprint_entries(*final(cache)) == insert_hashes(
            fingerprint_entries(*old(cache)),
            hashes@,
            value,
        ),
{
    let ghost entries0 = fingerprint_entries(*cache);
    proof {
        assert(hashes@.skip(0) =~= hashes@);
    }
    for j in 0..6usize
        invariant
            insert_hashes(entries0, hashes@, value) == insert_hashes(
                fingerprint_entries(*cache),
                hashes@.skip(j as int),
                value,
            ),
    {
        let ghost now = fingerprint_entries(*cache);
        cache.insert(hashes[j], value);
        proof {
            assert(hashes@.skip(j as int)[0] == hashes@[j as int]);
            assert(hashes@.skip(j as int).drop_first() =~= hashes@.skip(j as int + 1));
            assert(insert_hashes(now, hashes@.skip(j as int), value) == insert_hashes(
                now.insert(hashes@[j as int], value),
                hashes@.skip(j as int + 1),
                value,
            ));
        }
    }
    proof {
        assert(insert_hashes(fingerprint_entries(*cache), hashes@.skip(6), value)
            == fingerprint_entries(*cache));
    }
}

/// Walk a found solution forward from its start board and record, for every
/// state met along the way, the number of moves still needed, under all six
/// symmetry-permuted fingerprints of the state. This is how the driver
/// shares one solve's work with every later solve whose path crosses it.
#[verifier::rlimit(60)]
pub fn populate_known_solutions<'a>(
    board: &Board<'a>,
    solution: &Solution<'a>,
    known_solutions: &mut DistanceCache,
)
    requires
        board.wf(),
        0 <= solution.length <= 31,
        cache_ok(*old(known_solutions)),
    ensures
        cache_ok(*final(known_solutions)),
        fingerprint_entries(*final(known_solutions)) == cache_after(
            insert_hashes(
                fingerprint_entries(*old(known_solutions)),
                board.permuted_fingerprints(),
                solution.length,
            ),
            *board,
            path_moves(
                solution.path.directions as int,
                solution.path.colours as int,
                solution.length as nat,
            ),
        ),
{
    let moves = decode_path(solution.path.directions, solution.path.colours, solution.length);
    let mut b = *board;
    let hashes = b.permuted_hashes();
    proof {
        assert(hashes@ == b.permuted_fingerprints());
        lemma_insert_hashes_ok(
            fingerprint_entries(*known_solutions),
            b.permuted_fingerprints(),
            solution.length,
        );
    }
    insert_all(known_solutions, &hashes, solution.length);
    let n = moves.len();
    let ghost target = cache_after(fingerprint_entries(*known_solutions), b, moves@);
    proof {
        assert(moves@.skip(0) =~= moves@);
    }
    for i in 0..n
        invariant
            n == moves@.len(),
            n <= 31,
            b.wf(),
            cache_ok(*known_solutions),
            target == cache_after(fingerprint_entries(*known_solutions), b, moves@.skip(i as int)),
    {
        let ghost prev_b = b;
        let ghost prev_entries = fingerprint_entries(*known_solutions);
        let m = moves[i];
        b.move_robot(m.colour, m.direction);
        let value = (n - 1 - i) as i16;
        let step_hashes = b.permuted_hashes();
        proof {
            assert(b == apply_move(prev_b, m));
            assert(moves@.skip(i as int)[0] == m);
            assert(moves@.skip(i as int).drop_first() =~= moves@.skip(i as int + 1));
            assert(moves@.skip(i as int).len() - 1 == value);
            lemma_insert_hashes_ok(prev_entries, b.permuted_fingerprints(), value);
        }
        insert_all(known_solutions, &step_hashes, value);
        proof {
            assert(target == cache_after(
                insert_hashes(prev_entries, b.permuted_fingerprints(), value),
                b,
                moves@.skip(i as int + 1),
            ));
        }
    }
    proof {
        assert(moves@.skip(n as int) =~= Seq::<Move>::empty());
    }
}

} // verus!
