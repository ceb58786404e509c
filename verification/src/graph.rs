//! The dependency graph: `petgraph`'s adjacency-list graph, its contents as
//! mathematical values, and the operations that the transformations use.
//!
//! A graph is described by two values. The *edge table* lists the edges by
//! their index; the *outgoing lists* give, for every node, the indices of the
//! edges that leave it, in the order in which the graph walks them (the edge
//! added last comes first). Nodes and edges are numbered from zero without
//! gaps. Removing an edge moves the last edge of the table into the freed
//! place, so that edge changes its index.

use petgraph::graph::{edge_index, node_index};
use petgraph::visit::EdgeRef;
use petgraph::{Directed, Direction, Graph};
use vstd::prelude::*;

verus! {

/// `petgraph::Graph`, taken as it is: nothing of its fields is known here.
#[verifier::external_type_specification]
#[verifier::external_body]
#[verifier::reject_recursive_types(N)]
#[verifier::reject_recursive_types(E)]
#[verifier::reject_recursive_types(Ty)]
#[verifier::reject_recursive_types(Ix)]
pub struct ExGraph<N, E, Ty, Ix>(Graph<N, E, Ty, Ix>);

/// `petgraph::Directed`, the marker of graphs with directed edges.
#[verifier::external_type_specification]
#[verifier::external_body]
pub struct ExDirected(Directed);

/// The edge table of a graph: entry `e` is the edge with index `e`, as its
/// source, its target and its label.
pub uninterp spec fn graph_edges(g: Graph<(), String, Directed>) -> Seq<(int, int, Seq<char>)>;

/// The outgoing lists of a graph: entry `a` lists the indices of the edges
/// that leave node `a`, in the order in which the graph walks them. The graph
/// has as many nodes as there are lists.
pub uninterp spec fn graph_out(g: Graph<(), String, Directed>) -> Seq<Seq<int>>;

/// What a graph holds.
pub struct GraphModel {
    /// The edges by index: source, target, label.
    pub edges: Seq<(int, int, Seq<char>)>,
    /// For each node the indices of its outgoing edges, in walking order.
    pub out: Seq<Seq<int>>,
}

/// The contents of `g`.
pub open spec fn model(g: &Graph<(), String, Directed>) -> GraphModel {
    GraphModel { edges: graph_edges(*g), out: graph_out(*g) }
}

/// An edge list as it is handed to the graph, taken as an edge table.
pub open spec fn table_of(edges: Seq<(usize, usize, String)>) -> Seq<(int, int, Seq<char>)> {
    Seq::new(edges.len(), |i: int| (edges[i].0 as int, edges[i].1 as int, edges[i].2@))
}

/// The new index of edge `x` when edge `e` leaves a table whose last index
/// is `last`: the last edge takes the freed index.
pub open spec fn renamed(x: int, e: int, last: int) -> int {
    if x == last {
        e
    } else {
        x
    }
}

/// The index that edge `x` had before edge `e` left a table whose last index
/// was `last`.
pub open spec fn unrenamed(x: int, e: int, last: int) -> int {
    if x == e {
        last
    } else {
        x
    }
}

/// The test that an index is not `e`.
pub open spec fn other_than(e: int) -> spec_fn(int) -> bool {
    |x: int| x != e
}

/// The renaming of the indices when edge `e` leaves.
pub open spec fn renaming(e: int, last: int) -> spec_fn(int) -> int {
    |x: int| renamed(x, e, last)
}

/// The list `list` after edge `e` has left the graph and the edge `last` has
/// taken its index: `e` is taken out, and the others keep their order.
pub open spec fn unlink(list: Seq<int>, e: int, last: int) -> Seq<int> {
    list.filter(other_than(e)).map_values(renaming(e, last))
}

impl GraphModel {
    /// The graph without nodes and edges.
    pub open spec fn empty() -> GraphModel {
        GraphModel { edges: Seq::empty(), out: Seq::empty() }
    }

    /// The number of nodes.
    pub open spec fn nodes(self) -> int {
        self.out.len() as int
    }

    /// The node that edge `e` leaves.
    pub open spec fn source(self, e: int) -> int {
        self.edges[e].0
    }

    /// The node that edge `e` ends in.
    pub open spec fn target(self, e: int) -> int {
        self.edges[e].1
    }

    /// The label of edge `e`.
    pub open spec fn label(self, e: int) -> Seq<char> {
        self.edges[e].2
    }

    /// The graph with nodes added, none of them with an edge, until it has at
    /// least `n`.
    pub open spec fn grow(self, n: int) -> GraphModel {
        if n <= self.nodes() {
            self
        } else {
            GraphModel {
                edges: self.edges,
                out: self.out + Seq::new((n - self.nodes()) as nat, |i: int| Seq::<int>::empty()),
            }
        }
    }

    /// The graph with one more edge, from `a` to `b`. It gets the next free
    /// index and becomes the first outgoing edge of `a`.
    pub open spec fn add_edge(self, a: int, b: int, label: Seq<char>) -> GraphModel {
        GraphModel {
            edges: self.edges.push((a, b, label)),
            out: self.out.update(a, seq![self.edges.len() as int] + self.out[a]),
        }
    }

    /// The graph without edge `e`. The last edge of the table takes the index
    /// `e`; the other edges keep theirs, and every list keeps its order.
    pub open spec fn remove_edge(self, e: int) -> GraphModel {
        let last = self.edges.len() - 1;
        GraphModel {
            edges: self.edges.update(e, self.edges[last]).drop_last(),
            out: Seq::new(self.out.len(), |a: int| unlink(self.out[a], e, last)),
        }
    }

    /// The graph that results from adding the edges of `table` in turn to the
    /// empty graph, each time with as many new nodes as the edge needs.
    pub open spec fn build(table: Seq<(int, int, Seq<char>)>) -> GraphModel
        decreases table.len(),
    {
        if table.len() == 0 {
            GraphModel::empty()
        } else {
            let edge = table.last();
            let most = if edge.0 >= edge.1 {
                edge.0
            } else {
                edge.1
            };
            GraphModel::build(table.drop_last()).grow(most + 1).add_edge(edge.0, edge.1, edge.2)
        }
    }

    /// The same graph with the labels `labels`, by edge index.
    pub open spec fn relabel(self, labels: Seq<Seq<char>>) -> GraphModel {
        GraphModel {
            edges: Seq::new(
                self.edges.len(),
                |e: int| (self.edges[e].0, self.edges[e].1, labels[e]),
            ),
            out: self.out,
        }
    }

    /// The nodes at the end of the outgoing edges of `a`, in walking order.
    pub open spec fn neighbors(self, a: int) -> Seq<int> {
        Seq::new(self.out[a].len(), |i: int| self.target(self.out[a][i]))
    }

    /// Whether an edge leads from `a` to `b`.
    pub open spec fn has_edge(self, a: int, b: int) -> bool {
        exists|e: int| 0 <= e < self.edges.len() && self.source(e) == a && self.target(e) == b
    }

    /// The graph with one more node, which has no edge.
    pub open spec fn add_node(self) -> GraphModel {
        GraphModel { edges: self.edges, out: self.out.push(Seq::empty()) }
    }

    /// Whether the table and the lists fit together: every edge joins two
    /// nodes of the graph and stands once in the list of its source, and
    /// every list holds edges that leave its node.
    pub open spec fn well_formed(self) -> bool {
        &&& forall|a: int| 0 <= a < self.nodes() ==> (#[trigger] self.out[a]).no_duplicates()
        &&& forall|e: int|
            0 <= e < self.edges.len() ==> {
                &&& 0 <= #[trigger] self.source(e) < self.nodes()
                &&& 0 <= self.target(e) < self.nodes()
                &&& self.out[self.source(e)].contains(e)
            }
        &&& forall|a: int, i: int|
            0 <= a < self.nodes() && 0 <= i < self.out[a].len() ==> {
                &&& 0 <= #[trigger] self.out[a][i] < self.edges.len()
                &&& self.source(self.out[a][i]) == a
            }
    }
}

/// What is left of a list without duplicates holds no duplicates.
pub proof fn lemma_filter_no_duplicates(list: Seq<int>, keep: spec_fn(int) -> bool)
    requires
        list.no_duplicates(),
    ensures
        list.filter(keep).no_duplicates(),
    decreases list.len(),
{
    if list.len() > 0 {
        let front = list.drop_last();
        lemma_filter_no_duplicates(front, keep);
        front.lemma_filter_push(list.last(), keep);
        assert(front.push(list.last()) == list);
        if front.filter(keep).contains(list.last()) {
            front.lemma_filter_contains_rev(keep, list.last());
            let i = choose|i: int| 0 <= i < front.len() && front[i] == list.last();
            assert(list[i] == list[list.len() - 1]);
        }
    } else {
        assert(list.filter(keep).len() <= 0) by {
            list.lemma_filter_len(keep);
        }
    }
}

/// A list without duplicates holds none after an edge has left.
pub proof fn lemma_unlink_no_duplicates(list: Seq<int>, e: int, last: int)
    requires
        list.no_duplicates(),
    ensures
        unlink(list, e, last).no_duplicates(),
{
    let kept = list.filter(other_than(e));
    lemma_filter_no_duplicates(list, other_than(e));
    let r = unlink(list, e, last);
    assert forall|i: int, j: int| 0 <= i < r.len() && 0 <= j < r.len() && i != j implies r[i]
        != r[j] by {
        list.lemma_filter_pred(other_than(e), i);
        list.lemma_filter_pred(other_than(e), j);
        assert(kept[i] != kept[j]);
        assert(r[i] == renamed(kept[i], e, last));
        assert(r[j] == renamed(kept[j], e, last));
    }
}

/// What `unlink` keeps: the indices other than `e`, under their new names.
pub proof fn lemma_unlink(list: Seq<int>, e: int, last: int)
    ensures
        forall|x: int| #[trigger]
            list.contains(x) && x != e ==> unlink(list, e, last).contains(renamed(x, e, last)),
        forall|i: int|
            0 <= i < unlink(list, e, last).len() ==> {
                &&& list.contains(unrenamed(#[trigger] unlink(list, e, last)[i], e, last))
                &&& unrenamed(unlink(list, e, last)[i], e, last) != e
            },
{
    let keep = other_than(e);
    let kept = list.filter(keep);
    assert forall|x: int| #[trigger] list.contains(x) && x != e implies unlink(
        list,
        e,
        last,
    ).contains(renamed(x, e, last)) by {
        let i = choose|i: int| 0 <= i < list.len() && list[i] == x;
        list.lemma_filter_contains(keep, i);
        let j = choose|j: int| 0 <= j < kept.len() && kept[j] == x;
        assert(unlink(list, e, last)[j] == renamed(x, e, last));
    }
    assert forall|i: int| 0 <= i < unlink(list, e, last).len() implies {
        &&& list.contains(unrenamed(#[trigger] unlink(list, e, last)[i], e, last))
        &&& unrenamed(unlink(list, e, last)[i], e, last) != e
    } by {
        let x = kept[i];
        list.lemma_filter_pred(keep, i);
        list.lemma_filter_contains_rev(keep, x);
    }
}

impl GraphModel {
    /// Removing an edge of a well-formed graph leaves a well-formed graph
    /// with the same nodes; the edges keep their ends and labels.
    pub proof fn lemma_remove_edge(self, e: int)
        requires
            self.well_formed(),
            0 <= e < self.edges.len(),
        ensures
            self.remove_edge(e).well_formed(),
            self.remove_edge(e).nodes() == self.nodes(),
            self.remove_edge(e).edges.len() == self.edges.len() - 1,
            forall|x: int|
                0 <= x < self.edges.len() - 1 ==> #[trigger] self.remove_edge(e).edges[x]
                    == self.edges[unrenamed(x, e, self.edges.len() - 1)],
            forall|x: int|
                0 <= x < self.edges.len() && x != e ==> self.remove_edge(e).edges[renamed(
                    x,
                    e,
                    self.edges.len() - 1,
                )] == #[trigger] self.edges[x],
    {
        let last = self.edges.len() - 1;
        let r = self.remove_edge(e);
        assert forall|a: int| 0 <= a < r.nodes() implies (#[trigger] r.out[a]).no_duplicates() by {
            assert(self.out[a].no_duplicates());
            lemma_unlink_no_duplicates(self.out[a], e, last);
        }
        assert forall|x: int| 0 <= x < r.edges.len() implies {
            &&& 0 <= #[trigger] r.source(x) < r.nodes()
            &&& 0 <= r.target(x) < r.nodes()
            &&& r.out[r.source(x)].contains(x)
        } by {
            let y = if x == e {
                last
            } else {
                x
            };
            lemma_unlink(self.out[self.source(y)], e, last);
        }
        assert forall|a: int, i: int| 0 <= a < r.nodes() && 0 <= i < r.out[a].len() implies {
            &&& 0 <= #[trigger] r.out[a][i] < r.edges.len()
            &&& r.source(r.out[a][i]) == a
        } by {
            lemma_unlink(self.out[a], e, last);
        }
    }

    /// Adding an edge between two nodes of a well-formed graph leaves a
    /// well-formed graph with the same nodes.
    pub proof fn lemma_add_edge(self, a: int, b: int, label: Seq<char>)
        requires
            self.well_formed(),
            0 <= a < self.nodes(),
            0 <= b < self.nodes(),
        ensures
            self.add_edge(a, b, label).well_formed(),
            self.add_edge(a, b, label).nodes() == self.nodes(),
    {
        let r = self.add_edge(a, b, label);
        let n = self.edges.len() as int;
        assert forall|c: int| 0 <= c < r.nodes() implies (#[trigger] r.out[c]).no_duplicates() by {
            assert(self.out[c].no_duplicates());
            if c == a {
                assert forall|i: int, j: int|
                    0 <= i < r.out[a].len() && 0 <= j < r.out[a].len() && i != j implies r.out[a][i]
                    != r.out[a][j] by {
                    if i > 0 {
                        assert(r.out[a][i] == self.out[a][i - 1]);
                        assert(0 <= self.out[a][i - 1] < n);
                    }
                    if j > 0 {
                        assert(r.out[a][j] == self.out[a][j - 1]);
                        assert(0 <= self.out[a][j - 1] < n);
                    }
                }
            }
        }
        assert forall|x: int| 0 <= x < r.edges.len() implies {
            &&& 0 <= #[trigger] r.source(x) < r.nodes()
            &&& 0 <= r.target(x) < r.nodes()
            &&& r.out[r.source(x)].contains(x)
        } by {
            if x == n {
                assert(r.out[a][0] == n);
            } else {
                let c = self.source(x);
                let j = choose|j: int| 0 <= j < self.out[c].len() && self.out[c][j] == x;
                if c == a {
                    assert(r.out[a][j + 1] == x);
                }
            }
        }
        assert forall|c: int, i: int| 0 <= c < r.nodes() && 0 <= i < r.out[c].len() implies {
            &&& 0 <= #[trigger] r.out[c][i] < r.edges.len()
            &&& r.source(r.out[c][i]) == c
        } by {
        }
    }

    /// New nodes without edges leave a well-formed graph well-formed.
    pub proof fn lemma_grow(self, n: int)
        requires
            self.well_formed(),
        ensures
            self.grow(n).well_formed(),
            self.grow(n).edges == self.edges,
            self.grow(n).nodes() == if n <= self.nodes() {
                self.nodes()
            } else {
                n
            },
    {
        let r = self.grow(n);
        if n > self.nodes() {
            assert forall|a: int| 0 <= a < r.nodes() implies (#[trigger] r.out[a]).no_duplicates() by {
                if a < self.nodes() {
                    assert(r.out[a] == self.out[a]);
                }
            }
            assert forall|x: int| 0 <= x < r.edges.len() implies {
                &&& 0 <= #[trigger] r.source(x) < r.nodes()
                &&& 0 <= r.target(x) < r.nodes()
                &&& r.out[r.source(x)].contains(x)
            } by {
                assert(r.out[r.source(x)] == self.out[self.source(x)]);
            }
        }
    }

    /// One more node without an edge makes the graph that has grown by one.
    pub proof fn lemma_add_node(self)
        ensures
            self.add_node() == self.grow(self.nodes() + 1),
    {
        assert(self.out.push(Seq::<int>::empty()) =~= self.out + Seq::new(
            1,
            |i: int| Seq::<int>::empty(),
        ));
    }

    /// Growing in two steps is growing at once.
    pub proof fn lemma_grow_twice(self, k: int, n: int)
        requires
            k <= n,
        ensures
            self.grow(k).grow(n) == self.grow(n),
    {
        assert(self.grow(k).grow(n).out =~= self.grow(n).out);
    }

    /// The graph built from a table holds that table.
    pub proof fn lemma_build_edges(table: Seq<(int, int, Seq<char>)>)
        ensures
            GraphModel::build(table).edges == table,
        decreases table.len(),
    {
        if table.len() > 0 {
            GraphModel::lemma_build_edges(table.drop_last());
            assert(table.drop_last().push(table.last()) == table);
        }
    }

    /// The graph built from a table holds that table, is well-formed, and
    /// has just the nodes that the edges name.
    pub proof fn lemma_build(table: Seq<(int, int, Seq<char>)>, bound: int)
        requires
            forall|i: int|
                0 <= i < table.len() ==> 0 <= (#[trigger] table[i]).0 < bound && 0 <= table[i].1
                    < bound,
        ensures
            GraphModel::build(table).edges == table,
            GraphModel::build(table).well_formed(),
            GraphModel::build(table).nodes() <= bound || table.len() == 0,
            table.len() == 0 ==> GraphModel::build(table).nodes() == 0,
        decreases table.len(),
    {
        if table.len() > 0 {
            let rest = table.drop_last();
            let edge = table.last();
            let most = if edge.0 >= edge.1 {
                edge.0
            } else {
                edge.1
            };
            GraphModel::lemma_build(rest, bound);
            let built = GraphModel::build(rest);
            built.lemma_grow(most + 1);
            built.grow(most + 1).lemma_add_edge(edge.0, edge.1, edge.2);
        }
    }

    /// Other labels leave a well-formed graph well-formed.
    pub proof fn lemma_relabel(self, labels: Seq<Seq<char>>)
        requires
            self.well_formed(),
        ensures
            self.relabel(labels).well_formed(),
    {
        let r = self.relabel(labels);
        assert forall|a: int| 0 <= a < r.nodes() implies (#[trigger] r.out[a]).no_duplicates() by {
            assert(self.out[a].no_duplicates());
        }
        assert forall|x: int| 0 <= x < r.edges.len() implies {
            &&& 0 <= #[trigger] r.source(x) < r.nodes()
            &&& 0 <= r.target(x) < r.nodes()
            &&& r.out[r.source(x)].contains(x)
        } by {
            assert(0 <= self.source(x) < self.nodes());
        }
    }
}

/// `Graph::from_edges` on edges given as source, target and label. The graph
/// is the one that grows from the empty graph when the edges are added in
/// turn, with nodes created up to the largest index named so far.
#[verifier::external_body]
pub(crate) fn graph_from_edges(edges: Vec<(usize, usize, String)>) -> (g: Graph<
    (),
    String,
    Directed,
>)
    requires
        edges.len() <= u32::MAX,
        forall|i: int| 0 <= i < edges.len() ==> edges[i].0 < u32::MAX && edges[i].1 < u32::MAX,
    ensures
        model(&g) == GraphModel::build(table_of(edges@)),
{
    Graph::from_edges(edges.into_iter().map(|(a, b, label)| (node_index(a), node_index(b), label)))
}

/// `Graph::add_node`: a new node without an edge, whose index is returned.
#[verifier::external_body]
pub(crate) fn graph_add_node(g: &mut Graph<(), String, Directed>) -> (a: usize)
    requires
        graph_out(*old(g)).len() < u32::MAX,
    ensures
        a == graph_out(*old(g)).len(),
        model(final(g)) == model(old(g)).add_node(),
{
    g.add_node(()).index()
}

/// Adds nodes without edges to `g` until it has at least `n`.
pub fn graph_grow(g: &mut Graph<(), String, Directed>, n: usize)
    requires
        n <= u32::MAX,
    ensures
        model(final(g)) == model(old(g)).grow(n as int),
{
    let ghost start = model(g);
    proof {
        start.lemma_grow_twice(start.nodes(), start.nodes());
    }
    while graph_node_count(g) < n
        invariant
            n <= u32::MAX,
            model(g) == start.grow(model(g).nodes()),
            start.nodes() <= model(g).nodes(),
            model(g).nodes() == start.nodes() || model(g).nodes() <= n,
        decreases n - model(g).nodes(),
    {
        let ghost before = model(g);
        graph_add_node(g);
        proof {
            before.lemma_add_node();
            start.lemma_grow_twice(before.nodes(), before.nodes() + 1);
        }
    }
}

/// `Graph::node_count`.
#[verifier::external_body]
pub(crate) fn graph_node_count(g: &Graph<(), String, Directed>) -> (n: usize)
    ensures
        n == graph_out(*g).len(),
{
    g.node_count()
}

/// `Graph::edge_references`, each edge handed out as source, target and
/// label: the edge table in index order.
#[verifier::external_body]
pub(crate) fn graph_edge_list(g: &Graph<(), String, Directed>) -> (edges: Vec<
    (usize, usize, String),
>)
    ensures
        table_of(edges@) == graph_edges(*g),
{
    g.edge_references().map(|e| (e.source().index(), e.target().index(), e.weight().clone())).collect()
}

/// `Graph::edges`, each edge handed out as its index: the outgoing list of
/// node `a`.
#[verifier::external_body]
pub(crate) fn graph_out_edges(g: &Graph<(), String, Directed>, a: usize) -> (list: Vec<usize>)
    requires
        a < graph_out(*g).len(),
    ensures
        list@.map_values(|e: usize| e as int) == graph_out(*g)[a as int],
{
    g.edges(node_index(a)).map(|e| e.id().index()).collect()
}

/// `Graph::neighbors`, each node handed out as its index: the targets of the
/// outgoing edges of node `a`, in the order of its outgoing list.
#[verifier::external_body]
pub(crate) fn graph_neighbors(g: &Graph<(), String, Directed>, a: usize) -> (list: Vec<usize>)
    requires
        a < graph_out(*g).len(),
    ensures
        list@.map_values(|b: usize| b as int) == model(g).neighbors(a as int),
{
    g.neighbors(node_index(a)).map(|b| b.index()).collect()
}

/// `Graph::first_edge` in the incoming direction: an edge that ends in node
/// `a`, or `None` where no edge does.
#[verifier::external_body]
pub(crate) fn graph_first_incoming(g: &Graph<(), String, Directed>, a: usize) -> (edge: Option<
    usize,
>)
    requires
        a < graph_out(*g).len(),
    ensures
        match edge {
            Some(e) => e < graph_edges(*g).len() && graph_edges(*g)[e as int].1 == a,
            None => forall|e: int| 0 <= e < graph_edges(*g).len() ==> graph_edges(*g)[e].1 != a,
        },
{
    g.first_edge(node_index(a), Direction::Incoming).map(|e| e.index())
}

/// `Graph::edge_endpoints`: the source and the target of edge `e`.
#[verifier::external_body]
pub(crate) fn graph_edge_endpoints(g: &Graph<(), String, Directed>, e: usize) -> (ends: Option<
    (usize, usize),
>)
    requires
        e < graph_edges(*g).len(),
    ensures
        match ends {
            Some((a, b)) => a == graph_edges(*g)[e as int].0 && b == graph_edges(*g)[e as int].1,
            None => false,
        },
{
    g.edge_endpoints(edge_index(e)).map(|(a, b)| (a.index(), b.index()))
}

/// Indexing a graph by an edge: the label of edge `e`.
#[verifier::external_body]
pub(crate) fn graph_edge_label(g: &Graph<(), String, Directed>, e: usize) -> (label: &String)
    requires
        e < graph_edges(*g).len(),
    ensures
        label@ == graph_edges(*g)[e as int].2,
{
    &g[edge_index(e)]
}

/// `Graph::remove_edge`: edge `e` leaves the graph and its label is returned.
#[verifier::external_body]
pub(crate) fn graph_remove_edge(g: &mut Graph<(), String, Directed>, e: usize) -> (label: Option<
    String,
>)
    requires
        e < graph_edges(*old(g)).len(),
    ensures
        match label {
            Some(l) => l@ == graph_edges(*old(g))[e as int].2,
            None => false,
        },
        model(final(g)) == model(old(g)).remove_edge(e as int),
{
    g.remove_edge(edge_index(e))
}

/// `Graph::add_edge`: a new edge from `a` to `b`, whose index is returned.
#[verifier::external_body]
pub(crate) fn graph_add_edge(
    g: &mut Graph<(), String, Directed>,
    a: usize,
    b: usize,
    label: String,
) -> (e: usize)
    requires
        a < graph_out(*old(g)).len(),
        b < graph_out(*old(g)).len(),
        graph_edges(*old(g)).len() < u32::MAX,
    ensures
        e == graph_edges(*old(g)).len(),
        model(final(g)) == model(old(g)).add_edge(a as int, b as int, label@),
{
    g.add_edge(node_index(a), node_index(b), label).index()
}

/// `Graph::map` with the new label of each edge taken from `labels` by the
/// edge's index: the same nodes, edges and lists, with those labels.
#[verifier::external_body]
pub(crate) fn graph_with_labels(g: &Graph<(), String, Directed>, labels: &Vec<String>) -> (r: Graph<
    (),
    String,
    Directed,
>)
    requires
        labels.len() == graph_edges(*g).len(),
    ensures
        model(&r) == model(g).relabel(labels@.map_values(|l: String| l@)),
{
    g.map(|_, _| (), |e, _| labels[e.index()].clone())
}

} // verus!
