//! The depths of a breadth-first walk: the depth at which a node is visited
//! is the number of edges of a shortest path from the start to the node.

use crate::graph::GraphModel;
use crate::graph_algo::{
    lemma_discover, lemma_discover_behind, lemma_discover_fresh, lemma_discover_keeps,
    lemma_discover_seen, lemma_discover_tidy, lemma_step, lemma_unseen_empty, lemma_unseen_insert,
    lemma_walk, lemma_walk_once, visits, walk, WalkState,
};
use vstd::prelude::*;

verus! {

impl GraphModel {
    /// Whether a path of `k` edges leads from `a` to `b`.
    pub open spec fn reaches_in(self, a: int, b: int, k: int) -> bool {
        exists|p: Seq<int>| #[trigger] self.is_path(p) && p.len() == k + 1 && p[0] == a && p.last() == b
    }

    /// Whether a path of at most `d` edges leads from `a` to `b`.
    pub open spec fn within(self, a: int, b: int, d: int) -> bool {
        exists|k: int| 0 <= k <= d && #[trigger] self.reaches_in(a, b, k)
    }

    /// Whether the shortest path from `a` to `b` has `d` edges.
    pub open spec fn distance_is(self, a: int, b: int, d: int) -> bool {
        self.reaches_in(a, b, d) && !self.within(a, b, d - 1)
    }

    /// A path with an edge more.
    pub proof fn lemma_reaches_in_extend(self, a: int, b: int, c: int, k: int)
        requires
            self.reaches_in(a, b, k),
            self.has_edge(b, c),
        ensures
            self.reaches_in(a, c, k + 1),
    {
        let p = choose|p: Seq<int>| #[trigger]
            self.is_path(p) && p.len() == k + 1 && p[0] == a && p.last() == b;
        let q = p.push(c);
        assert(self.is_path(q) && q.len() == k + 2 && q[0] == a && q.last() == c);
    }

    /// The last edge of a path, and the path before it. A path without an
    /// edge ends where it starts.
    pub proof fn lemma_reaches_in_last(self, a: int, b: int, k: int)
        requires
            self.reaches_in(a, b, k),
        ensures
            k >= 0,
            k == 0 ==> a == b,
            k > 0 ==> exists|y: int| #[trigger] self.reaches_in(a, y, k - 1) && self.has_edge(y, b),
    {
        let p = choose|p: Seq<int>| #[trigger]
            self.is_path(p) && p.len() == k + 1 && p[0] == a && p.last() == b;
        if k > 0 {
            let q = p.drop_last();
            assert(self.is_path(q) && q.len() == k && q[0] == a && q.last() == p[k - 1]);
            assert(self.reaches_in(a, p[k - 1], k - 1));
        }
    }
}

impl GraphModel {
    /// Whether a path that does not touch the node `c` leads from `a` to
    /// `b`.
    pub open spec fn reaches_past(self, a: int, b: int, c: int) -> bool {
        exists|p: Seq<int>| #[trigger]
            self.is_path(p) && p[0] == a && p.last() == b && forall|i: int|
                0 <= i < p.len() ==> p[i] != c
    }
}

impl WalkState {
    /// Whether the state is one of a walk from `a` that passes the node `c`
    /// by: `c` counts as discovered and waits in no queue, and every other
    /// discovered node is reached from `a` without touching `c`.
    pub open spec fn passing(self, m: GraphModel, a: int, c: int) -> bool {
        &&& self.seen.contains(c)
        &&& forall|i: int|
            0 <= i < self.cur.len() ==> #[trigger] self.cur[i] != c && self.seen.contains(self.cur[i])
        &&& forall|i: int|
            0 <= i < self.next.len() ==> #[trigger] self.next[i] != c && self.seen.contains(
                self.next[i],
            )
        &&& forall|x: int| #[trigger] self.seen.contains(x) && x != c ==> m.reaches_past(a, x, c)
    }
}

/// A walk from `a` that passes `c` by visits nodes other than `c` that are
/// reached from `a` without touching `c`.
pub proof fn lemma_walk_past(s: WalkState, m: GraphModel, a: int, c: int, steps: nat)
    requires
        m.well_formed(),
        s.fits(m.nodes()),
        s.passing(m, a, c),
    ensures
        forall|i: int|
            0 <= i < walk(s, m, steps).len() ==> (#[trigger] walk(s, m, steps)[i]).0 != c
                && m.reaches_past(a, walk(s, m, steps)[i].0, c),
    decreases steps,
{
    if steps > 0 && s.step(m) is Some {
        let (visit, after) = s.step(m).unwrap();
        let t = s.settled();
        let node = t.cur[0];
        let succs = m.neighbors(node);
        lemma_step(s, m);
        lemma_discover(t.next, t.seen, succs, m.nodes());
        lemma_discover_seen(t.next, t.seen, succs, c);
        assert forall|x: int| #[trigger] after.seen.contains(x) && x != c implies m.reaches_past(
            a,
            x,
            c,
        ) by {
            if !t.seen.contains(x) {
                let p = choose|p: Seq<int>| #[trigger]
                    m.is_path(p) && p[0] == a && p.last() == node && forall|i: int|
                        0 <= i < p.len() ==> p[i] != c;
                let q = p.push(x);
                assert(m.is_path(q) && q[0] == a && q.last() == x && forall|i: int|
                    0 <= i < q.len() ==> q[i] != c);
            }
        }
        assert forall|i: int| 0 <= i < after.next.len() implies #[trigger] after.next[i] != c
            && after.seen.contains(after.next[i]) by {
            if i < t.next.len() {
                assert(after.next.take(t.next.len() as int)[i] == t.next[i]);
            } else {
                lemma_discover_fresh(t.next, t.seen, succs, i);
            }
        }
        lemma_walk_past(after, m, a, c, (steps - 1) as nat);
        let rest = walk(after, m, (steps - 1) as nat);
    }
}

impl WalkState {
    /// Whether the state is one of a walk from `a` over `m` that has kept to
    /// the levels: the nodes still to visit in the current level lie at the
    /// distance `depth` from `a`, those of the next level one edge further;
    /// and the discovered nodes are those up to the distance `depth`, the
    /// nodes of the next level, and no others.
    pub open spec fn levelled(self, m: GraphModel, a: int) -> bool {
        &&& self.tidy()
        &&& self.depth >= 0
        &&& forall|i: int|
            0 <= i < self.cur.len() ==> m.distance_is(a, #[trigger] self.cur[i], self.depth)
        &&& forall|i: int|
            0 <= i < self.next.len() ==> m.distance_is(a, #[trigger] self.next[i], self.depth + 1)
        &&& forall|x: int| #[trigger] self.seen.contains(x) ==> m.within(a, x, self.depth + 1)
        &&& forall|x: int| #[trigger] m.within(a, x, self.depth) ==> self.seen.contains(x)
        &&& forall|x: int|
            self.seen.contains(x) && !m.within(a, x, self.depth) ==> #[trigger] self.next.contains(
                x,
            )
        &&& forall|x: int, y: int|
            m.distance_is(a, x, self.depth) && !self.cur.contains(x) && #[trigger] m.has_edge(x, y)
                ==> self.seen.contains(y)
    }
}

/// A walk from `a` starts on the levels.
pub proof fn lemma_levelled_start(m: GraphModel, a: int)
    ensures
        WalkState::start(a).levelled(m, a),
{
    m.lemma_reaches_self(a);
    assert(m.is_path(seq![a]) && seq![a].len() == 1 && seq![a][0] == a && seq![a].last() == a);
    assert(m.reaches_in(a, a, 0));
}

/// The step to the next level keeps the walk on the levels.
pub proof fn lemma_levelled_settled(s: WalkState, m: GraphModel, a: int)
    requires
        s.levelled(m, a),
    ensures
        s.settled().levelled(m, a),
{
    let t = s.settled();
    if s.cur.len() == 0 && s.next.len() > 0 {
        let d = s.depth;
        assert forall|x: int| #[trigger] m.within(a, x, t.depth) implies t.seen.contains(x) by {
            if !m.within(a, x, d) {
                let k = choose|k: int| 0 <= k <= d + 1 && #[trigger] m.reaches_in(a, x, k);
                m.lemma_reaches_in_last(a, x, k);
                let y = choose|y: int| #[trigger] m.reaches_in(a, y, k - 1) && m.has_edge(y, x);
                if m.within(a, y, d - 1) {
                    let j = choose|j: int| 0 <= j <= d - 1 && #[trigger] m.reaches_in(a, y, j);
                    m.lemma_reaches_in_extend(a, y, x, j);
                }
            }
        }
        assert forall|x: int, y: int|
            m.distance_is(a, x, t.depth) && !t.cur.contains(x) && #[trigger] m.has_edge(
                x,
                y,
            ) implies t.seen.contains(y) by {
            assert(m.within(a, x, t.depth));
        }
    }
}

/// A step of the walk keeps it on the levels, and the node that it visits
/// lies at the distance of its depth from the start.
pub proof fn lemma_levelled_step(s: WalkState, m: GraphModel, a: int)
    requires
        m.well_formed(),
        s.fits(m.nodes()),
        s.levelled(m, a),
        s.step(m) is Some,
    ensures
        ({
            let (visit, after) = s.step(m).unwrap();
            &&& after.levelled(m, a)
            &&& m.distance_is(a, visit.0, visit.1)
        }),
{
    let t = s.settled();
    lemma_levelled_settled(s, m, a);
    lemma_step(s, m);
    let (visit, after) = s.step(m).unwrap();
    let node = t.cur[0];
    let d = t.depth;
    let succs = m.neighbors(node);
    let waiting = t.cur.drop_first() + t.next;
    // The queues.
    assert(waiting.no_duplicates() && forall|i: int|
        0 <= i < waiting.len() ==> t.seen.contains(#[trigger] waiting[i])) by {
        assert forall|i: int| 0 <= i < waiting.len() implies waiting[i] == (t.cur + t.next)[i
            + 1] by {}
    }
    lemma_discover_tidy(waiting, t.seen, succs);
    lemma_discover_behind(t.cur.drop_first(), t.next, t.seen, succs);
    lemma_discover_keeps(t.next, t.seen, succs);
    lemma_discover(t.next, t.seen, succs, m.nodes());
    assert forall|i: int| 0 <= i < after.next.len() implies m.distance_is(
        a,
        #[trigger] after.next[i],
        after.depth + 1,
    ) by {
        if i < t.next.len() {
            assert(after.next.take(t.next.len() as int)[i] == t.next[i]);
        } else {
            let y = after.next[i];
            lemma_discover_fresh(t.next, t.seen, succs, i);
            m.lemma_reaches_in_extend(a, node, y, d);
        }
    }
    assert forall|x: int|
        after.seen.contains(x) && !m.within(a, x, after.depth) implies #[trigger] after.next.contains(
        x,
    ) by {
        if t.seen.contains(x) {
            assert(t.next.contains(x));
        }
    }
    assert forall|x: int, y: int|
        m.distance_is(a, x, after.depth) && !after.cur.contains(x) && #[trigger] m.has_edge(
            x,
            y,
        ) implies after.seen.contains(y) by {
        if t.cur.contains(x) {
            let i = choose|i: int| 0 <= i < t.cur.len() && t.cur[i] == x;
            if i > 0 {
                assert(after.cur[i - 1] == x);
            }
            let e = choose|e: int| 0 <= e < m.edges.len() && m.source(e) == x && m.target(e) == y;
            let k = choose|k: int| 0 <= k < m.out[node].len() && m.out[node][k] == e;
            assert(succs[k] == y);
        } else {
            lemma_discover_seen(t.next, t.seen, succs, y);
        }
    }
}

/// The depth at which a walk from `a` visits a node is the number of edges
/// of a shortest path from `a` to the node.
pub proof fn lemma_walk_depths(s: WalkState, m: GraphModel, a: int, steps: nat)
    requires
        m.well_formed(),
        s.fits(m.nodes()),
        s.levelled(m, a),
    ensures
        forall|i: int|
            0 <= i < walk(s, m, steps).len() ==> m.distance_is(
                a,
                (#[trigger] walk(s, m, steps)[i]).0,
                walk(s, m, steps)[i].1,
            ),
    decreases steps,
{
    if steps > 0 && s.step(m) is Some {
        let (visit, after) = s.step(m).unwrap();
        lemma_step(s, m);
        lemma_levelled_step(s, m, a);
        lemma_walk_depths(after, m, a, (steps - 1) as nat);
        let rest = walk(after, m, (steps - 1) as nat);
    }
}

/// The walk from `a` is breadth-first: it visits no node twice, the depths
/// of its visits never descend, and the depth of each visit is the number of
/// edges of a shortest path from `a` to the visited node.
pub proof fn lemma_breadth_first(m: GraphModel, a: int)
    requires
        m.well_formed(),
        0 <= a < m.nodes(),
    ensures
        forall|i: int, j: int|
            0 <= i < j < visits(WalkState::start(a), m).len() ==> {
                &&& (#[trigger] visits(WalkState::start(a), m)[i]).0 != (#[trigger] visits(
                    WalkState::start(a),
                    m,
                )[j]).0
                &&& visits(WalkState::start(a), m)[i].1 <= visits(WalkState::start(a), m)[j].1
            },
        forall|i: int|
            0 <= i < visits(WalkState::start(a), m).len() ==> m.distance_is(
                a,
                (#[trigger] visits(WalkState::start(a), m)[i]).0,
                visits(WalkState::start(a), m)[i].1,
            ),
{
    let s = WalkState::start(a);
    let n = m.nodes();
    assert(s.fits(n)) by {
        lemma_unseen_empty(n);
        lemma_unseen_insert(Set::empty(), n, a);
    }
    lemma_levelled_start(m, a);
    lemma_walk(s, m, s.remaining(n));
    lemma_walk_once(s, m, s.remaining(n));
    lemma_walk_depths(s, m, a, s.remaining(n));
}

} // verus!
