//! Breadth-first walks over a dependency graph: `petgraph`'s walk, and a walk
//! that also tells the depth of each node it visits.
//!
//! Both walks visit the neighbours of a node in the order of its outgoing
//! list, which is the reverse of the order in which the edges were added,
//! and both mark the nodes they have discovered in the graph's bit set.

use crate::graph::{graph_neighbors, graph_node_count, graph_out, model, GraphModel};
use fixedbitset::FixedBitSet;
use petgraph::graph::{node_index, NodeIndex};
use petgraph::visit::{Bfs, VisitMap, Visitable};
use petgraph::{Directed, Graph};
use std::collections::VecDeque;
use vstd::prelude::*;

verus! {

/// `petgraph::visit::Bfs`, the state of a breadth-first walk.
#[verifier::external_type_specification]
#[verifier::external_body]
#[verifier::reject_recursive_types(N)]
#[verifier::reject_recursive_types(VM)]
pub struct ExBfs<N, VM>(Bfs<N, VM>);

/// `petgraph::graph::NodeIndex`, the index of a node.
#[verifier::external_type_specification]
#[verifier::external_body]
#[verifier::reject_recursive_types(Ix)]
pub struct ExNodeIndex<Ix>(NodeIndex<Ix>);

/// `fixedbitset::FixedBitSet`, in which a walk marks the nodes it has
/// discovered.
#[verifier::external_type_specification]
#[verifier::external_body]
pub struct ExFixedBitSet(FixedBitSet);

/// The queue of a walk: the nodes that were discovered and not yet visited,
/// the next one to visit first.
pub uninterp spec fn bfs_queue(walk: Bfs<NodeIndex, FixedBitSet>) -> Seq<int>;

/// The nodes that a walk has discovered.
pub uninterp spec fn bfs_seen(walk: Bfs<NodeIndex, FixedBitSet>) -> Set<int>;

/// The number of nodes of the graph for which a walk was made: the indices
/// that it can mark lie below it.
pub uninterp spec fn bfs_bound(walk: Bfs<NodeIndex, FixedBitSet>) -> nat;

/// The indices of the bits that are set in a bit set.
pub uninterp spec fn bits_set(bits: FixedBitSet) -> Set<int>;

/// The number of bits of a bit set: the indices that can be set lie below
/// it.
pub uninterp spec fn bits_len(bits: FixedBitSet) -> usize;

/// The queue and the discovered set of a walk after the nodes `succs` have
/// been offered in turn: each one that was not discovered yet is marked and
/// joins the end of the queue.
pub open spec fn discover(queue: Seq<int>, seen: Set<int>, succs: Seq<int>) -> (Seq<int>, Set<int>)
    decreases succs.len(),
{
    if succs.len() == 0 {
        (queue, seen)
    } else if seen.contains(succs[0]) {
        discover(queue, seen, succs.drop_first())
    } else {
        discover(queue.push(succs[0]), seen.insert(succs[0]), succs.drop_first())
    }
}

/// The number of nodes below `n` that are not in `seen`.
pub open spec fn unseen(seen: Set<int>, n: int) -> nat
    decreases n,
{
    if n <= 0 {
        0
    } else if seen.contains(n - 1) {
        unseen(seen, n - 1)
    } else {
        1 + unseen(seen, n - 1)
    }
}

/// Marking a node that was not marked leaves one unseen node less.
pub proof fn lemma_unseen_insert(seen: Set<int>, n: int, x: int)
    requires
        !seen.contains(x),
    ensures
        0 <= x < n ==> unseen(seen.insert(x), n) + 1 == unseen(seen, n),
        !(0 <= x < n) ==> unseen(seen.insert(x), n) == unseen(seen, n),
        unseen(seen, n) <= n || n < 0,
    decreases n,
{
    if n > 0 {
        lemma_unseen_insert(seen, n - 1, x);
    }
}

/// What offering nodes to a walk does: the queue grows at its end by nodes
/// that are now marked, every offered node is marked afterwards, nothing is
/// unmarked, nothing else is marked, and each node that joined the queue was
/// unseen before.
pub proof fn lemma_discover(queue: Seq<int>, seen: Set<int>, succs: Seq<int>, n: int)
    requires
        forall|i: int| 0 <= i < succs.len() ==> 0 <= #[trigger] succs[i] < n,
    ensures
        ({
            let (q, s) = discover(queue, seen, succs);
            &&& q.len() >= queue.len()
            &&& q.take(queue.len() as int) == queue
            &&& forall|i: int| queue.len() <= i < q.len() ==> s.contains(#[trigger] q[i]) && 0 <= q[i] < n
            &&& forall|x: int| seen.contains(x) ==> s.contains(x)
            &&& forall|i: int| 0 <= i < succs.len() ==> s.contains(#[trigger] succs[i])
            &&& forall|x: int| #[trigger] s.contains(x) ==> seen.contains(x) || succs.contains(x)
            &&& forall|x: int| #[trigger] s.contains(x) && !seen.contains(x) ==> q.contains(x)
            &&& unseen(s, n) + q.len() == unseen(seen, n) + queue.len()
        }),
    decreases succs.len(),
{
    let (q, s) = discover(queue, seen, succs);
    if succs.len() > 0 {
        let rest = succs.drop_first();
        if seen.contains(succs[0]) {
            lemma_discover(queue, seen, rest, n);
            assert forall|i: int| 0 <= i < succs.len() implies s.contains(#[trigger] succs[i]) by {
                if i > 0 {
                    assert(succs[i] == rest[i - 1]);
                }
            }
            assert forall|x: int| #[trigger] s.contains(x) implies seen.contains(x)
                || succs.contains(x) by {
            }
        } else {
            let q1 = queue.push(succs[0]);
            let s1 = seen.insert(succs[0]);
            lemma_discover(q1, s1, rest, n);
            lemma_unseen_insert(seen, n, succs[0]);
            assert forall|i: int| queue.len() <= i < q.len() implies s.contains(#[trigger] q[i])
                && 0 <= q[i] < n by {
                if i == queue.len() {
                    assert(q.take(q1.len() as int)[i] == q1[i]);
                }
            }
            assert forall|i: int| 0 <= i < succs.len() implies s.contains(#[trigger] succs[i]) by {
                if i > 0 {
                    assert(succs[i] == rest[i - 1]);
                }
            }
            assert forall|x: int| #[trigger] s.contains(x) && !seen.contains(x) implies q.contains(
                x,
            ) by {
                if x == succs[0] {
                    assert(q.take(q1.len() as int)[queue.len() as int] == q1[queue.len() as int]);
                }
            }
        }
    }
}

impl GraphModel {
    /// Whether each node of `p` is joined to the next by an edge.
    pub open spec fn is_path(self, p: Seq<int>) -> bool {
        &&& p.len() > 0
        &&& forall|i: int| 0 <= i < p.len() - 1 ==> #[trigger] self.has_edge(p[i], p[i + 1])
    }

    /// Whether `b` can be reached from `a` along edges. Every node reaches
    /// itself.
    pub open spec fn reaches(self, a: int, b: int) -> bool {
        exists|p: Seq<int>| #[trigger] self.is_path(p) && p[0] == a && p.last() == b
    }

    /// Every node reaches itself.
    pub proof fn lemma_reaches_self(self, a: int)
        ensures
            self.reaches(a, a),
    {
        assert(self.is_path(seq![a]) && seq![a][0] == a && seq![a].last() == a);
    }

    /// One more edge at the end of a path.
    pub proof fn lemma_reaches_extend(self, a: int, b: int, c: int)
        requires
            self.reaches(a, b),
            self.has_edge(b, c),
        ensures
            self.reaches(a, c),
    {
        let p = choose|p: Seq<int>| #[trigger] self.is_path(p) && p[0] == a && p.last() == b;
        let q = p.push(c);
        assert(self.is_path(q) && q[0] == a && q.last() == c);
    }

    /// A set of nodes that holds with every node the ends of its edges holds
    /// with every node all that the node reaches.
    pub proof fn lemma_closed(self, nodes: Set<int>, a: int, b: int)
        requires
            nodes.contains(a),
            forall|x: int, y: int| nodes.contains(x) && #[trigger] self.has_edge(x, y) ==> nodes.contains(y),
            self.reaches(a, b),
        ensures
            nodes.contains(b),
    {
        let p = choose|p: Seq<int>| #[trigger] self.is_path(p) && p[0] == a && p.last() == b;
        self.lemma_closed_along(nodes, p, p.len() - 1);
    }

    /// The nodes of a path that starts in a closed set lie in the set.
    pub proof fn lemma_closed_along(self, nodes: Set<int>, p: Seq<int>, k: int)
        requires
            self.is_path(p),
            0 <= k < p.len(),
            nodes.contains(p[0]),
            forall|x: int, y: int| nodes.contains(x) && #[trigger] self.has_edge(x, y) ==> nodes.contains(y),
        ensures
            nodes.contains(p[k]),
        decreases k,
    {
        if k > 0 {
            self.lemma_closed_along(nodes, p, k - 1);
            assert(self.has_edge(p[k - 1], p[k - 1 + 1]));
        }
    }
}

/// `Visitable::visit_map` of a graph: a bit set with a bit for every node of
/// `g`, none of them set.
#[verifier::external_body]
pub(crate) fn graph_visit_map(g: &Graph<(), String, Directed>) -> (bits: FixedBitSet)
    ensures
        bits_set(bits) == Set::<int>::empty(),
        bits_len(bits) == graph_out(*g).len(),
{
    g.visit_map()
}

/// `VisitMap::visit` of a bit set: the bit `x` is set, and the result tells
/// whether it was not set before.
#[verifier::external_body]
pub(crate) fn bits_visit(bits: &mut FixedBitSet, x: usize) -> (first: bool)
    requires
        x < bits_len(*old(bits)),
    ensures
        first == !bits_set(*old(bits)).contains(x as int),
        bits_set(*final(bits)) == bits_set(*old(bits)).insert(x as int),
        bits_len(*final(bits)) == bits_len(*old(bits)),
{
    VisitMap::<usize>::visit(bits, x)
}

/// `Bfs::new`: a walk over `g` that has discovered `start` and holds it in
/// its queue.
#[verifier::external_body]
pub(crate) fn bfs_new(g: &Graph<(), String, Directed>, start: usize) -> (walk: Bfs<
    NodeIndex,
    FixedBitSet,
>)
    requires
        start < graph_out(*g).len(),
    ensures
        bfs_queue(walk) == seq![start as int],
        bfs_seen(walk) == set![start as int],
        bfs_bound(walk) == graph_out(*g).len(),
{
    Bfs::new(g, node_index(start))
}

/// `Bfs::next`: the walk visits the first node of its queue and offers it the
/// neighbours of that node in `g`; with an empty queue it returns `None` and
/// stays as it is.
#[verifier::external_body]
pub(crate) fn bfs_next(walk: &mut Bfs<NodeIndex, FixedBitSet>, g: &Graph<(), String, Directed>) -> (node:
    Option<usize>)
    requires
        model(g).well_formed(),
        model(g).nodes() <= bfs_bound(*old(walk)),
        forall|i: int|
            0 <= i < bfs_queue(*old(walk)).len() ==> 0 <= #[trigger] bfs_queue(*old(walk))[i]
                < model(g).nodes(),
    ensures
        bfs_bound(*final(walk)) == bfs_bound(*old(walk)),
        match node {
            Some(v) => {
                &&& bfs_queue(*old(walk)).len() > 0
                &&& v == bfs_queue(*old(walk))[0]
                &&& (bfs_queue(*final(walk)), bfs_seen(*final(walk))) == discover(
                    bfs_queue(*old(walk)).drop_first(),
                    bfs_seen(*old(walk)),
                    model(g).neighbors(v as int),
                )
            },
            None => {
                &&& bfs_queue(*old(walk)).len() == 0
                &&& bfs_queue(*final(walk)) == bfs_queue(*old(walk))
                &&& bfs_seen(*final(walk)) == bfs_seen(*old(walk))
            },
        },
{
    walk.next(g).map(|v| v.index())
}

/// The state of a walk that keeps the nodes of the level it is visiting apart
/// from those of the level below.
pub struct WalkState {
    /// The nodes of the current level that are still to visit.
    pub cur: Seq<int>,
    /// The nodes of the next level that were discovered so far.
    pub next: Seq<int>,
    /// The nodes that were discovered.
    pub seen: Set<int>,
    /// The depth of the current level.
    pub depth: int,
}

impl WalkState {
    /// A walk that is about to visit `node` at depth 0.
    pub open spec fn start(node: int) -> WalkState {
        WalkState { cur: seq![node], next: Seq::empty(), seen: set![node], depth: 0 }
    }

    /// The state with the step to the next level taken, where the current
    /// level is exhausted and the next one is not empty.
    pub open spec fn settled(self) -> WalkState {
        if self.cur.len() == 0 && self.next.len() > 0 {
            WalkState { cur: self.next, next: Seq::empty(), seen: self.seen, depth: self.depth + 1 }
        } else {
            self
        }
    }

    /// One step of the walk over the graph `m`: the node that is visited with
    /// its depth, and the state afterwards; `None` where nothing is left.
    pub open spec fn step(self, m: GraphModel) -> Option<((int, int), WalkState)> {
        let s = self.settled();
        if s.cur.len() == 0 {
            None
        } else {
            let node = s.cur[0];
            let found = discover(s.next, s.seen, m.neighbors(node));
            Some(
                (
                    (node, s.depth),
                    WalkState { cur: s.cur.drop_first(), next: found.0, seen: found.1, depth: s.depth },
                ),
            )
        }
    }

    /// Whether the queued nodes are nodes of a graph with `n` nodes.
    pub open spec fn fits(self, n: int) -> bool {
        &&& forall|i: int| 0 <= i < self.cur.len() ==> 0 <= #[trigger] self.cur[i] < n
        &&& forall|i: int| 0 <= i < self.next.len() ==> 0 <= #[trigger] self.next[i] < n
        &&& self.depth >= 0
        &&& self.depth + self.next.len() + 1 + unseen(self.seen, n) <= n
    }

    /// Whether the queued nodes are discovered, and none is queued twice.
    pub open spec fn tidy(self) -> bool {
        &&& (self.cur + self.next).no_duplicates()
        &&& forall|i: int|
            0 <= i < (self.cur + self.next).len() ==> self.seen.contains(
                #[trigger] (self.cur + self.next)[i],
            )
    }

    /// A bound on the steps that are left in a graph with `n` nodes.
    pub open spec fn remaining(self, n: int) -> nat {
        2 * unseen(self.seen, n) + self.cur.len() + self.next.len()
    }
}

/// A step keeps the state within the graph and brings the end nearer.
pub proof fn lemma_step(s: WalkState, m: GraphModel)
    requires
        m.well_formed(),
        s.fits(m.nodes()),
        s.step(m) is Some,
    ensures
        ({
            let (visit, after) = s.step(m).unwrap();
            let (node, depth) = visit;
            &&& after.fits(m.nodes())
            &&& after.remaining(m.nodes()) < s.remaining(m.nodes())
            &&& 0 <= node < m.nodes()
            &&& s.depth <= depth == after.depth
        }),
{
    let t = s.settled();
    let node = t.cur[0];
    let succs = m.neighbors(node);
    lemma_discover(t.next, t.seen, succs, m.nodes());
    let found = discover(t.next, t.seen, succs);
    let (visit, u) = s.step(m).unwrap();
    assert forall|i: int| 0 <= i < u.next.len() implies 0 <= #[trigger] u.next[i] < m.nodes() by {
        if i < t.next.len() {
            assert(found.0.take(t.next.len() as int)[i] == t.next[i]);
        }
    }
}

/// The visits of the first `steps` steps of a walk over `m` from the state
/// `s`: the nodes with their depths, in the order of the walk.
pub open spec fn walk(s: WalkState, m: GraphModel, steps: nat) -> Seq<(int, int)>
    decreases steps,
{
    if steps == 0 {
        Seq::empty()
    } else {
        match s.step(m) {
            None => Seq::empty(),
            Some((visit, after)) => seq![visit] + walk(after, m, (steps - 1) as nat),
        }
    }
}

/// The visits of the whole walk over `m` from the state `s`. The walk ends
/// within `remaining` steps.
pub open spec fn visits(s: WalkState, m: GraphModel) -> Seq<(int, int)> {
    walk(s, m, s.remaining(m.nodes()))
}

/// The nodes that `start` reaches in `m`, in breadth-first order: by
/// ascending depth, and within one depth in the order of discovery.
pub open spec fn bfs_order(m: GraphModel, start: int) -> Seq<int> {
    visits(WalkState::start(start), m).map_values(|v: (int, int)| v.0)
}

/// The depths of the visits of a walk never descend, and a visited node is
/// one that waited in the queues at the start or one that was not
/// discovered then.
pub proof fn lemma_walk(s: WalkState, m: GraphModel, steps: nat)
    requires
        m.well_formed(),
        s.fits(m.nodes()),
    ensures
        forall|i: int, j: int|
            0 <= i <= j < walk(s, m, steps).len() ==> s.depth <= (#[trigger] walk(s, m, steps)[i]).1
                <= (#[trigger] walk(s, m, steps)[j]).1,
        forall|i: int|
            0 <= i < walk(s, m, steps).len() ==> {
                let node = (#[trigger] walk(s, m, steps)[i]).0;
                &&& 0 <= node < m.nodes()
                &&& s.cur.contains(node) || s.next.contains(node) || !s.seen.contains(node)
            },
    decreases steps,
{
    if steps > 0 && s.step(m) is Some {
        let (visit, after) = s.step(m).unwrap();
        lemma_step(s, m);
        lemma_walk(after, m, (steps - 1) as nat);
        let rest = walk(after, m, (steps - 1) as nat);
        let all = walk(s, m, steps);
        let t = s.settled();
        let succs = m.neighbors(visit.0);
        lemma_discover(t.next, t.seen, succs, m.nodes());
        assert forall|i: int| 0 <= i < all.len() implies {
            let node = (#[trigger] all[i]).0;
            &&& 0 <= node < m.nodes()
            &&& s.cur.contains(node) || s.next.contains(node) || !s.seen.contains(node)
        } by {
            if i > 0 {
                let node = all[i].0;
                if after.cur.contains(node) {
                } else if after.next.contains(node) {
                    let k = choose|k: int| 0 <= k < after.next.len() && after.next[k] == node;
                    if k < t.next.len() {
                        assert(after.next.take(t.next.len() as int)[k] == t.next[k]);
                    } else if t.seen.contains(node) {
                        // A node that joins the queue was not seen before.
                        lemma_discover_fresh(t.next, t.seen, succs, k);
                    }
                }
            }
        }
    }
}

/// An offer keeps the queue as the beginning of the new queue.
pub proof fn lemma_discover_keeps(queue: Seq<int>, seen: Set<int>, succs: Seq<int>)
    ensures
        discover(queue, seen, succs).0.len() >= queue.len(),
        discover(queue, seen, succs).0.take(queue.len() as int) == queue,
    decreases succs.len(),
{
    if succs.len() == 0 {
    } else if seen.contains(succs[0]) {
        lemma_discover_keeps(queue, seen, succs.drop_first());
    } else {
        let q1 = queue.push(succs[0]);
        lemma_discover_keeps(q1, seen.insert(succs[0]), succs.drop_first());
    }
}

/// A node that an offer adds to the queue was not discovered before.
pub proof fn lemma_discover_fresh(queue: Seq<int>, seen: Set<int>, succs: Seq<int>, k: int)
    requires
        queue.len() <= k < discover(queue, seen, succs).0.len(),
    ensures
        !seen.contains(discover(queue, seen, succs).0[k]),
    decreases succs.len(),
{
    if succs.len() > 0 {
        let rest = succs.drop_first();
        if seen.contains(succs[0]) {
            lemma_discover_fresh(queue, seen, rest, k);
        } else {
            let q = queue.push(succs[0]);
            let grown = seen.insert(succs[0]);
            lemma_discover_keeps(q, grown, rest);
            let r = discover(q, grown, rest).0;
            if k == queue.len() {
                assert(r.take(q.len() as int)[k] == q[k]);
            } else {
                lemma_discover_fresh(q, grown, rest, k);
            }
        }
    }
}

/// An offer to a queue of discovered nodes, none of them twice in it, leaves
/// such a queue.
pub proof fn lemma_discover_tidy(queue: Seq<int>, seen: Set<int>, succs: Seq<int>)
    requires
        queue.no_duplicates(),
        forall|i: int| 0 <= i < queue.len() ==> seen.contains(#[trigger] queue[i]),
    ensures
        discover(queue, seen, succs).0.no_duplicates(),
        forall|i: int|
            0 <= i < discover(queue, seen, succs).0.len() ==> discover(queue, seen, succs).1.contains(
                #[trigger] discover(queue, seen, succs).0[i],
            ),
    decreases succs.len(),
{
    if succs.len() > 0 {
        if seen.contains(succs[0]) {
            lemma_discover_tidy(queue, seen, succs.drop_first());
        } else {
            lemma_discover_tidy(queue.push(succs[0]), seen.insert(succs[0]), succs.drop_first());
        }
    }
}

/// A walk visits no node twice.
pub proof fn lemma_walk_once(s: WalkState, m: GraphModel, steps: nat)
    requires
        m.well_formed(),
        s.fits(m.nodes()),
        s.tidy(),
    ensures
        forall|i: int, j: int|
            0 <= i < j < walk(s, m, steps).len() ==> (#[trigger] walk(s, m, steps)[i]).0 != (
            #[trigger] walk(s, m, steps)[j]).0,
    decreases steps,
{
    if steps > 0 && s.step(m) is Some {
        let (visit, after) = s.step(m).unwrap();
        let t = s.settled();
        let succs = m.neighbors(visit.0);
        let waiting = t.cur.drop_first() + t.next;
        lemma_step(s, m);
        assert(waiting =~= (t.cur + t.next).drop_first());
        assert(waiting.no_duplicates() && forall|i: int|
            0 <= i < waiting.len() ==> t.seen.contains(#[trigger] waiting[i])) by {
            assert forall|i: int| 0 <= i < waiting.len() implies waiting[i] == (t.cur + t.next)[i
                + 1] by {}
        }
        lemma_discover_tidy(waiting, t.seen, succs);
        lemma_discover_behind(t.cur.drop_first(), t.next, t.seen, succs);
        lemma_discover_keeps(waiting, t.seen, succs);
        let queued = after.cur + after.next;
        assert(queued =~= discover(waiting, t.seen, succs).0);
        // The visited node is discovered and waits no longer.
        assert(t.seen.contains(visit.0)) by {
            assert((t.cur + t.next)[0] == visit.0);
        }
        assert(after.seen.contains(visit.0)) by {
            lemma_discover_seen(t.next, t.seen, succs, visit.0);
        }
        assert forall|k: int| 0 <= k < queued.len() implies queued[k] != visit.0 by {
            if k < waiting.len() {
                assert(queued.take(waiting.len() as int)[k] == waiting[k]);
            } else {
                lemma_discover_fresh(waiting, t.seen, succs, k);
            }
        }
        lemma_walk(after, m, (steps - 1) as nat);
        lemma_walk_once(after, m, (steps - 1) as nat);
        let rest = walk(after, m, (steps - 1) as nat);
        let all = walk(s, m, steps);
        assert forall|i: int, j: int| 0 <= i < j < all.len() implies (#[trigger] all[i]).0 != (
        #[trigger] all[j]).0 by {
            if i == 0 {
                let node = rest[j - 1].0;
                if after.cur.contains(node) {
                    let k = choose|k: int| 0 <= k < after.cur.len() && after.cur[k] == node;
                    assert(queued[k] == node);
                } else if after.next.contains(node) {
                    let k = choose|k: int| 0 <= k < after.next.len() && after.next[k] == node;
                    assert(queued[after.cur.len() + k] == node);
                }
            }
        }
    }
}

/// An offer forgets no discovered node.
pub proof fn lemma_discover_seen(queue: Seq<int>, seen: Set<int>, succs: Seq<int>, x: int)
    requires
        seen.contains(x),
    ensures
        discover(queue, seen, succs).1.contains(x),
    decreases succs.len(),
{
    if succs.len() > 0 {
        if seen.contains(succs[0]) {
            lemma_discover_seen(queue, seen, succs.drop_first(), x);
        } else {
            lemma_discover_seen(queue.push(succs[0]), seen.insert(succs[0]), succs.drop_first(), x);
        }
    }
}

/// Nodes that wait in the queue before the offer stay in front.
pub proof fn lemma_discover_behind(front: Seq<int>, queue: Seq<int>, seen: Set<int>, succs: Seq<int>)
    ensures
        discover(front + queue, seen, succs) == (
            front + discover(queue, seen, succs).0,
            discover(queue, seen, succs).1,
        ),
    decreases succs.len(),
{
    if succs.len() == 0 {
    } else if seen.contains(succs[0]) {
        lemma_discover_behind(front, queue, seen, succs.drop_first());
    } else {
        assert((front + queue).push(succs[0]) == front + queue.push(succs[0]));
        lemma_discover_behind(front, queue.push(succs[0]), seen.insert(succs[0]), succs.drop_first());
    }
}

/// The number of marks in `marks`, as the set of the marked indices.
pub open spec fn marked(marks: Seq<bool>) -> Set<int> {
    Set::new(|x: int| 0 <= x < marks.len() && marks[x])
}

/// Node indices as integers.
pub open spec fn as_ints(v: Seq<usize>) -> Seq<int> {
    v.map_values(|x: usize| x as int)
}

/// No node below `n` is seen in the empty set.
pub proof fn lemma_unseen_empty(n: int)
    requires
        n >= 0,
    ensures
        unseen(Set::empty(), n) == n,
    decreases n,
{
    if n > 0 {
        lemma_unseen_empty(n - 1);
    }
}

/// A breadth-first walk that tells the depth of each node it visits. All
/// nodes of one depth are visited before any node of the next.
pub struct BfsWithDepth {
    cur_stack: VecDeque<usize>,
    next_stack: VecDeque<usize>,
    discovered: FixedBitSet,
    depth: usize,
}

impl View for BfsWithDepth {
    type V = WalkState;

    closed spec fn view(&self) -> WalkState {
        WalkState {
            cur: as_ints(self.cur_stack@),
            next: as_ints(self.next_stack@),
            seen: bits_set(self.discovered),
            depth: self.depth as int,
        }
    }
}

impl BfsWithDepth {
    /// The number of nodes of the graph for which the walk was made.
    pub closed spec fn bound(&self) -> int {
        bits_len(self.discovered) as int
    }

    /// Whether the walk is in a state that it can have reached.
    pub open spec fn well_formed(&self) -> bool {
        self@.fits(self.bound())
    }

    /// A walk over `graph` that starts at `start`, at depth 0.
    pub fn new(graph: &Graph<(), String, Directed>, start: usize) -> (walk: BfsWithDepth)
        requires
            start < model(graph).nodes(),
        ensures
            walk@ == WalkState::start(start as int),
            walk.bound() == model(graph).nodes(),
            walk.well_formed(),
    {
        let mut discovered = graph_visit_map(graph);
        bits_visit(&mut discovered, start);
        assert(bits_set(discovered) =~= set![start as int]);
        let mut cur_stack: VecDeque<usize> = VecDeque::new();
        cur_stack.push_back(start);
        let walk = BfsWithDepth { cur_stack, next_stack: VecDeque::new(), discovered, depth: 0 };
        proof {
            assert(walk@.cur =~= seq![start as int]);
            assert(walk@.next =~= Seq::<int>::empty());
            lemma_unseen_empty(walk.bound());
            lemma_unseen_insert(Set::empty(), walk.bound(), start as int);
        }
        walk
    }

    /// Marks `node` as discovered, so that the walk passes it by: it is not
    /// visited, and nothing is reached through it.
    pub fn exclude(&mut self, node: usize)
        requires
            old(self).well_formed(),
            node < old(self).bound(),
        ensures
            final(self)@ == (WalkState { seen: old(self)@.seen.insert(node as int), ..old(self)@ }),
            final(self).bound() == old(self).bound(),
            final(self).well_formed(),
    {
        let ghost before = bits_set(self.discovered);
        let first = bits_visit(&mut self.discovered, node);
        proof {
            if first {
                lemma_unseen_insert(before, self.bound(), node as int);
            } else {
                assert(before.insert(node as int) =~= before);
            }
        }
    }

    /// The next node of the walk over `graph` and its depth, or `None` where
    /// the walk has come to its end.
    pub fn next(&mut self, graph: &Graph<(), String, Directed>) -> (visit: Option<(usize, usize)>)
        requires
            old(self).well_formed(),
            model(graph).well_formed(),
            model(graph).nodes() == old(self).bound(),
        ensures
            final(self).well_formed(),
            final(self).bound() == old(self).bound(),
            match visit {
                Some((node, depth)) => old(self)@.step(model(graph)) == Some(
                    ((node as int, depth as int), final(self)@),
                ),
                None => old(self)@.step(model(graph)) is None && final(self)@ == old(self)@,
            },
            visit is Some ==> final(self)@.remaining(final(self).bound()) < old(self)@.remaining(
                old(self).bound(),
            ),
    {
        let ghost m = model(graph);
        let ghost before = self@;
        if self.cur_stack.len() == 0 && self.next_stack.len() != 0 {
            core::mem::swap(&mut self.cur_stack, &mut self.next_stack);
            self.depth += 1;
        }
        let ghost settled = self@;
        assert(settled == before.settled()) by {
            assert(settled.cur =~= before.settled().cur);
            assert(settled.next =~= before.settled().next);
        }
        match self.cur_stack.pop_front() {
            Some(node) => {
                assert(self@.cur =~= settled.cur.drop_first());
                proof {
                    lemma_step(before, m);
                }
                let succs = graph_neighbors(graph, node);
                assert forall|i: int| 0 <= i < succs.len() implies succs[i] < bits_len(
                    self.discovered,
                ) by {
                    let e = m.out[node as int][i];
                    assert(0 <= e < m.edges.len());
                    assert(0 <= m.source(e) < m.nodes());
                    assert(as_ints(succs@)[i] == m.target(e));
                }
                offer(&mut self.next_stack, &mut self.discovered, &succs);
                Some((node, self.depth))
            },
            None => {
                None
            },
        }
    }
}

/// Offers the nodes `succs` to a walk: each one whose bit is not set in
/// `discovered` is marked there and joins the end of `queue`.
pub fn offer(queue: &mut VecDeque<usize>, discovered: &mut FixedBitSet, succs: &Vec<usize>)
    requires
        forall|i: int| 0 <= i < succs.len() ==> succs[i] < bits_len(*old(discovered)),
    ensures
        bits_len(*final(discovered)) == bits_len(*old(discovered)),
        (as_ints(final(queue)@), bits_set(*final(discovered))) == discover(
            as_ints(old(queue)@),
            bits_set(*old(discovered)),
            as_ints(succs@),
        ),
{
    let ghost offered = as_ints(succs@);
    let ghost goal = discover(as_ints(queue@), bits_set(*discovered), offered);
    let mut i: usize = 0;
    assert(offered.skip(0) == offered);
    while i < succs.len()
        invariant
            i <= succs.len(),
            offered == as_ints(succs@),
            bits_len(*discovered) == bits_len(*old(discovered)),
            forall|j: int| 0 <= j < succs.len() ==> succs[j] < bits_len(*discovered),
            goal == discover(as_ints(queue@), bits_set(*discovered), offered.skip(i as int)),
        decreases succs.len() - i,
    {
        let succ = succs[i];
        let ghost rest = offered.skip(i as int);
        assert(rest[0] == succ as int);
        assert(rest.drop_first() == offered.skip(i + 1));
        let ghost q = as_ints(queue@);
        let ghost seen = bits_set(*discovered);
        if bits_visit(discovered, succ) {
            queue.push_back(succ);
            assert(as_ints(queue@) =~= q.push(succ as int));
        } else {
            assert(seen.insert(succ as int) =~= seen);
        }
        i += 1;
    }
}

/// The nodes that `start` reaches in `graph`: entry `j` tells whether node `j`
/// is one of them.
pub fn reachable_from(graph: &Graph<(), String, Directed>, start: usize) -> (reached: Vec<bool>)
    requires
        model(graph).well_formed(),
        start < model(graph).nodes(),
    ensures
        reached.len() == model(graph).nodes(),
        forall|j: int| 0 <= j < reached.len() ==> reached[j] == model(graph).reaches(start as int, j),
{
    let ghost m = model(graph);
    let n = graph_node_count(graph);
    let mut reached: Vec<bool> = Vec::new();
    while reached.len() < n
        invariant
            reached.len() <= n,
            forall|i: int| 0 <= i < reached.len() ==> !reached[i],
        decreases n - reached.len(),
    {
        reached.push(false);
    }
    let mut walk = bfs_new(graph, start);
    let ghost mut visited: Set<int> = Set::empty();
    proof {
        m.lemma_reaches_self(start as int);
        assert(seq![start as int].contains(start as int)) by {
            assert(seq![start as int][0] == start as int);
        }
    }
    loop
        invariant
            m == model(graph),
            m.well_formed(),
            n == m.nodes(),
            start < n,
            reached.len() == n,
            bfs_bound(walk) == n,
            forall|i: int| 0 <= i < bfs_queue(walk).len() ==> 0 <= #[trigger] bfs_queue(walk)[i] < n,
            forall|x: int|
                bfs_seen(walk).contains(x) <==> visited.contains(x) || bfs_queue(walk).contains(x),
            forall|x: int| bfs_seen(walk).contains(x) ==> m.reaches(start as int, x),
            forall|x: int, y: int|
                visited.contains(x) && #[trigger] m.has_edge(x, y) ==> bfs_seen(walk).contains(y),
            bfs_seen(walk).contains(start as int),
            forall|j: int| 0 <= j < n ==> reached[j] == visited.contains(j),
            forall|x: int| visited.contains(x) ==> 0 <= x < n,
        ensures
            reached.len() == n,
            forall|j: int| 0 <= j < n ==> reached[j] == m.reaches(start as int, j),
        decreases 2 * unseen(bfs_seen(walk), n as int) + bfs_queue(walk).len(),
    {
        let ghost queue = bfs_queue(walk);
        let ghost seen = bfs_seen(walk);
        match bfs_next(&mut walk, graph) {
            None => {
                proof {
                    assert forall|j: int| 0 <= j < n implies reached[j] == m.reaches(
                        start as int,
                        j,
                    ) by {
                        if m.reaches(start as int, j) {
                            m.lemma_closed(visited, start as int, j);
                        }
                        if reached[j] {
                            assert(visited.contains(j));
                        }
                    }
                }
                break ;
            },
            Some(v) => {
                let ghost succs = m.neighbors(v as int);
                proof {
                    assert forall|i: int| 0 <= i < succs.len() implies 0 <= #[trigger] succs[i] < n
                        && m.has_edge(v as int, succs[i]) by {
                    }
                    lemma_discover(queue.drop_first(), seen, succs, n as int);
                    let after = bfs_queue(walk);
                    let rest = queue.drop_first();
                    assert forall|i: int| 0 <= i < after.len() implies 0 <= #[trigger] after[i]
                        < n by {
                        if i < rest.len() {
                            assert(rest[i] == queue[i + 1]);
                        }
                    }
                    assert forall|x: int|
                        bfs_seen(walk).contains(x) <==> visited.insert(v as int).contains(x)
                            || after.contains(x) by {
                        if bfs_seen(walk).contains(x) {
                            if seen.contains(x) {
                                if !visited.contains(x) && x != v {
                                    let i = choose|i: int| 0 <= i < queue.len() && queue[i] == x;
                                    assert(after.take(rest.len() as int)[i - 1] == x);
                                }
                            }
                        }
                        if visited.contains(x) || x == v {
                            assert(seen.contains(x));
                        }
                        if after.contains(x) {
                            let i = choose|i: int| 0 <= i < after.len() && after[i] == x;
                            if i < rest.len() {
                                assert(rest[i] == queue[i + 1]);
                                assert(queue.contains(x));
                                assert(seen.contains(x));
                            }
                        }
                    }
                    assert forall|x: int| bfs_seen(walk).contains(x) implies m.reaches(
                        start as int,
                        x,
                    ) by {
                        if !seen.contains(x) {
                            m.lemma_reaches_extend(start as int, v as int, x);
                        }
                    }
                    assert forall|x: int, y: int|
                        visited.insert(v as int).contains(x) && #[trigger] m.has_edge(
                            x,
                            y,
                        ) implies bfs_seen(walk).contains(y) by {
                        if x == v {
                            let e = choose|e: int|
                                0 <= e < m.edges.len() && m.source(e) == x && m.target(e) == y;
                            let i = choose|i: int|
                                0 <= i < m.out[v as int].len() && m.out[v as int][i] == e;
                            assert(succs[i] == y);
                        }
                    }
                    visited = visited.insert(v as int);
                }
                reached.set(v, true);
            },
        }
    }
    reached
}

/// The nodes that `start` reaches in `graph`, in breadth-first order.
pub fn bfs_nodes(graph: &Graph<(), String, Directed>, start: usize) -> (order: Vec<usize>)
    requires
        model(graph).well_formed(),
        start < model(graph).nodes(),
    ensures
        as_ints(order@) == bfs_order(model(graph), start as int),
        forall|i: int| 0 <= i < order.len() ==> order[i] < model(graph).nodes(),
{
    let ghost m = model(graph);
    let ghost n = m.nodes();
    let mut order: Vec<usize> = Vec::new();
    let mut walk_state = bfs_new(graph, start);
    let ghost mut w = WalkState::start(start as int);
    let ghost mut fuel: nat = w.remaining(n);
    let ghost goal = bfs_order(m, start as int);
    proof {
        lemma_unseen_empty(n);
        lemma_unseen_insert(Set::empty(), n, start as int);
    }
    loop
        invariant
            m == model(graph),
            m.well_formed(),
            n == m.nodes(),
            bfs_bound(walk_state) == n,
            w.fits(n),
            bfs_queue(walk_state) == w.cur + w.next,
            bfs_seen(walk_state) == w.seen,
            fuel >= w.remaining(n),
            as_ints(order@) + walk(w, m, fuel).map_values(|v: (int, int)| v.0) == goal,
            forall|i: int| 0 <= i < order.len() ==> order[i] < n,
        ensures
            as_ints(order@) == goal,
            forall|i: int| 0 <= i < order.len() ==> order[i] < n,
        decreases fuel,
    {
        let ghost queue = bfs_queue(walk_state);
        match bfs_next(&mut walk_state, graph) {
            None => {
                break ;
            },
            Some(v) => {
                order.push(v);
                proof {
                    let t = w.settled();
                    lemma_step(w, m);
                    let (visit, after) = w.step(m).unwrap();
                    let succs = m.neighbors(v as int);
                    assert(queue.drop_first() =~= t.cur.drop_first() + t.next);
                    lemma_discover_behind(t.cur.drop_first(), t.next, t.seen, succs);
                    w = after;
                    fuel = (fuel - 1) as nat;
                }
            },
        }
    }
    order
}

} // verus!
