//! Dependency trees as graphs: every node but the root has one incoming
//! edge, and a ranking of the nodes rises along every edge.

use crate::graph::{renamed, unrenamed, GraphModel};
use vstd::prelude::*;

verus! {

/// The sum of the ranks of the sources of the edges of `edges`.
pub open spec fn rank_sum(edges: Seq<(int, int, Seq<char>)>, rank: Seq<int>) -> int
    decreases edges.len(),
{
    if edges.len() == 0 {
        0
    } else {
        rank_sum(edges.drop_last(), rank) + rank[edges.last().0]
    }
}

/// Another edge in one place of the table changes the sum by the ranks of
/// the two sources.
pub proof fn lemma_rank_sum_update(
    edges: Seq<(int, int, Seq<char>)>,
    rank: Seq<int>,
    e: int,
    edge: (int, int, Seq<char>),
)
    requires
        0 <= e < edges.len(),
    ensures
        rank_sum(edges.update(e, edge), rank) == rank_sum(edges, rank) - rank[edges[e].0]
            + rank[edge.0],
    decreases edges.len(),
{
    let changed = edges.update(e, edge);
    if e == edges.len() - 1 {
        assert(changed.drop_last() == edges.drop_last());
    } else {
        assert(changed.drop_last() == edges.drop_last().update(e, edge));
        lemma_rank_sum_update(edges.drop_last(), rank, e, edge);
    }
}

/// The sum of ranks that are not negative is not negative.
pub proof fn lemma_rank_sum_positive(edges: Seq<(int, int, Seq<char>)>, rank: Seq<int>)
    requires
        forall|e: int| 0 <= e < edges.len() ==> 0 <= rank[(#[trigger] edges[e]).0],
    ensures
        0 <= rank_sum(edges, rank),
    decreases edges.len(),
{
    if edges.len() > 0 {
        lemma_rank_sum_positive(edges.drop_last(), rank);
    }
}

impl GraphModel {
    /// Whether no edge ends in the root, and no two edges end in one node.
    pub open spec fn single_headed(self) -> bool {
        &&& forall|e: int| 0 <= e < self.edges.len() ==> 1 <= #[trigger] self.target(e)
        &&& forall|e: int, f: int|
            0 <= e < self.edges.len() && 0 <= f < self.edges.len() && #[trigger] self.target(e)
                == #[trigger] self.target(f) ==> e == f
    }

    /// Whether an edge ends in node `c`.
    pub open spec fn has_head(self, c: int) -> bool {
        exists|e: int| 0 <= e < self.edges.len() && #[trigger] self.target(e) == c
    }

    /// Whether an edge ends in every node but the root.
    pub open spec fn all_headed(self) -> bool {
        forall|c: int| 1 <= c < self.nodes() ==> #[trigger] self.has_head(c)
    }

    /// An edge that ends in node `c`.
    pub open spec fn head_edge(self, c: int) -> int {
        choose|e: int| 0 <= e < self.edges.len() && #[trigger] self.target(e) == c
    }

    /// Whether `rank` gives every node a rank, none below zero, that rises
    /// along every edge.
    pub open spec fn ranked(self, rank: Seq<int>) -> bool {
        &&& rank.len() == self.nodes()
        &&& forall|e: int|
            0 <= e < self.edges.len() ==> 0 <= rank[#[trigger] self.source(e)] < rank[self.target(
                e,
            )]
    }

    /// Whether the graph is a tree with the root 0, as `rank` shows: it is
    /// well-formed, every node but the root has one incoming edge, and the
    /// ranks rise along the edges.
    pub open spec fn tree_by(self, rank: Seq<int>) -> bool {
        &&& self.well_formed()
        &&& self.single_headed()
        &&& self.all_headed()
        &&& self.ranked(rank)
    }

    /// In a tree the root reaches every node.
    pub proof fn lemma_root_reaches(self, rank: Seq<int>, c: int)
        requires
            self.tree_by(rank),
            0 <= c < self.nodes(),
        ensures
            self.reaches(0, c),
        decreases rank[c],
    {
        if c == 0 {
            self.lemma_reaches_self(0);
        } else {
            assert(self.has_head(c));
            let e = self.head_edge(c);
            let p = self.source(e);
            self.lemma_root_reaches(rank, p);
            self.lemma_reaches_extend(0, p, c);
        }
    }

    /// The graph in which edge `e` leaves its source and hangs, with the label
    /// `label`, from node `a` instead.
    pub open spec fn move_edge(self, e: int, a: int, label: Seq<char>) -> GraphModel {
        self.remove_edge(e).add_edge(a, self.target(e), label)
    }

    /// Moving an edge to another source keeps the graph well-formed, keeps
    /// the nodes and the number of edges, and keeps the targets: a node has a
    /// head afterwards just where it had one, and no node has two.
    pub proof fn lemma_move_edge(self, e: int, a: int, label: Seq<char>)
        requires
            self.well_formed(),
            self.single_headed(),
            0 <= e < self.edges.len(),
            0 <= a < self.nodes(),
        ensures
            self.move_edge(e, a, label).well_formed(),
            self.move_edge(e, a, label).single_headed(),
            self.move_edge(e, a, label).nodes() == self.nodes(),
            self.move_edge(e, a, label).edges.len() == self.edges.len(),
            forall|c: int| self.has_head(c) <==> #[trigger] self.move_edge(e, a, label).has_head(c),
            forall|x: int|
                0 <= x < self.edges.len() ==> 1 <= #[trigger] self.move_edge(e, a, label).target(x)
                    < self.nodes(),
            forall|x: int|
                0 <= x < self.edges.len() - 1 ==> #[trigger] self.move_edge(e, a, label).edges[x]
                    == self.edges[unrenamed(x, e, self.edges.len() - 1)],
            self.move_edge(e, a, label).edges[self.edges.len() - 1] == (a, self.target(e), label),
    {
        let last = self.edges.len() - 1;
        let cut = self.remove_edge(e);
        let r = self.move_edge(e, a, label);
        assert(0 <= self.source(e) < self.nodes());
        self.lemma_remove_edge(e);
        cut.lemma_add_edge(a, self.target(e), label);
        assert forall|x: int| 0 <= x < r.edges.len() implies 1 <= #[trigger] r.target(x)
            < self.nodes() by {
            if x < last {
                let o = unrenamed(x, e, last);
                assert(0 <= self.source(o) < self.nodes());
            }
        }
        assert forall|x: int, y: int|
            0 <= x < r.edges.len() && 0 <= y < r.edges.len() && #[trigger] r.target(x)
                == #[trigger] r.target(y) implies x == y by {
            let ox = if x < last {
                unrenamed(x, e, last)
            } else {
                e
            };
            let oy = if y < last {
                unrenamed(y, e, last)
            } else {
                e
            };
            assert(self.target(ox) == r.target(x));
            assert(self.target(oy) == r.target(y));
        }
        assert forall|c: int| self.has_head(c) <==> #[trigger] r.has_head(c) by {
            if self.has_head(c) {
                let x = self.head_edge(c);
                if x == e {
                    assert(r.target(last) == c);
                } else {
                    assert(r.target(renamed(x, e, last)) == c);
                }
            }
            if r.has_head(c) {
                let x = r.head_edge(c);
                if x < last {
                    assert(self.target(unrenamed(x, e, last)) == c);
                }
            }
        }
    }

    /// The graph after edge `e` has been lifted, and the set of lifted nodes
    /// after it. The edge leaves its source and hangs from the head of its
    /// source instead. At the first lift of its target, the label of the
    /// edge into the former source is added to its label behind a vertical
    /// bar.
    pub open spec fn lift(self, lifted: Set<int>, e: int) -> (GraphModel, Set<int>) {
        let child = self.target(e);
        let up = self.head_edge(self.source(e));
        let label = if lifted.contains(child) {
            self.label(e)
        } else {
            self.label(e) + seq!['|'] + self.label(up)
        };
        (self.remove_edge(e).add_edge(self.source(up), child, label), lifted.insert(child))
    }

    /// A lift of an edge whose source has a head keeps a tree a tree under
    /// the same ranks, and lowers the sum of the ranks of the sources.
    pub proof fn lemma_lift(self, lifted: Set<int>, e: int, rank: Seq<int>)
        requires
            self.tree_by(rank),
            0 <= e < self.edges.len(),
            self.has_head(self.source(e)),
        ensures
            self.lift(lifted, e).0.tree_by(rank),
            self.lift(lifted, e).0.nodes() == self.nodes(),
            self.lift(lifted, e).0.edges.len() == self.edges.len(),
            0 <= rank_sum(self.lift(lifted, e).0.edges, rank) < rank_sum(self.edges, rank),
    {
        let last = self.edges.len() - 1;
        let parent = self.source(e);
        let up = self.head_edge(parent);
        let grand = self.source(up);
        let cut = self.remove_edge(e);
        let r = self.lift(lifted, e).0;
        self.lemma_move_edge(e, grand, r.edges.last().2);
        assert forall|x: int| 0 <= x < r.edges.len() implies 0 <= rank[#[trigger] r.source(x)]
            < rank[r.target(x)] by {
            if x < last {
                let o = unrenamed(x, e, last);
                assert(0 <= rank[self.source(o)] < rank[self.target(o)]);
            }
        }
        assert(r.edges.drop_last() == cut.edges);
        // The sum of the ranks.
        lemma_rank_sum_update(self.edges, rank, e, self.edges[last]);
        assert forall|x: int| 0 <= x < r.edges.len() implies 0 <= rank[(#[trigger] r.edges[x]).0] by {
            assert(0 <= rank[r.source(x)]);
        }
        lemma_rank_sum_positive(r.edges, rank);
    }
}

} // verus!
