//! The pseudo-projective transformation of dependency trees, with the head
//! of the lifted token's former parent marked in the label (Nivre and
//! Nilsson, 2005), and its inverse.

use crate::error::GraphError;
use crate::graph::{
    graph_add_edge, graph_edge_endpoints, graph_edge_label, graph_edge_list, graph_first_incoming,
    graph_from_edges, graph_grow, graph_node_count, graph_out_edges, graph_remove_edge, model,
    table_of, GraphModel,
};
use crate::graph_algo::{as_ints, marked, reachable_from};
use crate::sentence_tree::{
    lemma_ancestor, lemma_copied_edges, lemma_ranks_descend, lemma_sentence_graph,
    lemma_sentence_tree, lemma_tree_targets, lemma_unlabelled_prefix, lemma_write_back_own,
    lemma_written_tree,
};
use crate::text::{decimal, format_number};
use crate::tree::rank_sum;
use crate::token::{sentence_view, Sentence, Token, TokenView};
use petgraph::{Directed, Graph};
use vstd::prelude::*;

verus! {

/// The first token of `s` that names a head without a label, by its index.
pub open spec fn unlabelled(s: Seq<TokenView>) -> Option<int>
    decreases s.len(),
{
    if s.len() == 0 {
        None
    } else {
        match unlabelled(s.drop_last()) {
            Some(i) => Some(i),
            None => if s.last().head is Some && s.last().head_rel is None {
                Some(s.len() - 1)
            } else {
                None
            },
        }
    }
}

/// The edges of a sentence: for each token with a head and a label, in the
/// order of the tokens, the edge from the head to the token's position.
pub open spec fn sentence_edges(s: Seq<TokenView>) -> Seq<(int, int, Seq<char>)>
    decreases s.len(),
{
    if s.len() == 0 {
        Seq::empty()
    } else {
        let rest = sentence_edges(s.drop_last());
        match (s.last().head, s.last().head_rel) {
            (Some(head), Some(label)) => rest.push((head as int, s.len() as int, label)),
            _ => rest,
        }
    }
}

/// The graph of a sentence: the root and a node for every token, joined by
/// the edges of the sentence. A head beyond the sentence brings the nodes up
/// to it with it.
pub open spec fn sentence_graph(s: Seq<TokenView>) -> GraphModel {
    GraphModel::build(sentence_edges(s)).grow(s.len() as int + 1)
}

/// Whether every head is the root or a token of the sentence.
pub open spec fn heads_in_sentence(s: Seq<TokenView>) -> bool {
    forall|i: int| 0 <= i < s.len() ==> ((#[trigger] s[i]).head matches Some(h) ==> h <= s.len())
}

/// The text of the error for an edge without a label.
pub open spec fn missing_label(head: nat, dependent: nat) -> Seq<char> {
    "edge from "@ + decimal(head) + " to "@ + decimal(dependent) + " does not have a label"@
}

/// The tokens `tokens` with the head and the label of each edge of `edges`
/// written, in the order of the edges, into the token at the edge's target.
pub open spec fn write_back(tokens: Seq<TokenView>, edges: Seq<(int, int, Seq<char>)>) -> Seq<
    TokenView,
>
    decreases edges.len(),
{
    if edges.len() == 0 {
        tokens
    } else {
        let edge = edges.last();
        let before = write_back(tokens, edges.drop_last());
        before.update(
            edge.1 - 1,
            TokenView { head: Some(edge.0 as usize), head_rel: Some(edge.2), ..before[edge.1 - 1] },
        )
    }
}

/// The tokens of `s` as copies hold them.
pub open spec fn copied(s: Seq<TokenView>) -> Seq<TokenView> {
    s.map_values(|t: TokenView| t.copied())
}

impl GraphModel {
    /// The distance between the ends of edge `e`.
    pub open spec fn span(self, e: int) -> int {
        if self.source(e) <= self.target(e) {
            self.target(e) - self.source(e)
        } else {
            self.source(e) - self.target(e)
        }
    }

    /// Whether node `j` lies strictly between the ends of edge `e`.
    pub open spec fn between(self, e: int, j: int) -> bool {
        ||| self.source(e) < j < self.target(e)
        ||| self.target(e) < j < self.source(e)
    }

    /// Whether edge `e` is non-projective: some node strictly between its
    /// ends is not reached from its source.
    pub open spec fn crossing(self, e: int) -> bool {
        exists|j: int| #[trigger] self.between(e, j) && !self.reaches(self.source(e), j)
    }

    /// The test `crossing`.
    pub open spec fn is_crossing(self) -> spec_fn(int) -> bool {
        |e: int| self.crossing(e)
    }

    /// The non-projective edges that leave the nodes below `n`, node by node
    /// and for each node in the order of its outgoing list.
    pub open spec fn crossing_edges(self, n: int) -> Seq<int>
        decreases n,
    {
        if n <= 0 {
            Seq::empty()
        } else {
            self.crossing_edges(n - 1) + self.out[n - 1].filter(self.is_crossing())
        }
    }

    /// The list `sorted` with edge `e` put behind the last edge whose span
    /// is not larger.
    pub open spec fn insert_by_span(self, sorted: Seq<int>, e: int) -> Seq<int>
        decreases sorted.len(),
    {
        if sorted.len() == 0 {
            seq![e]
        } else if self.span(sorted.last()) <= self.span(e) {
            sorted.push(e)
        } else {
            self.insert_by_span(sorted.drop_last(), e).push(sorted.last())
        }
    }

    /// The edges of `list` by ascending span; edges of equal span keep the
    /// order that they have in `list`.
    pub open spec fn sort_by_span(self, list: Seq<int>) -> Seq<int>
        decreases list.len(),
    {
        if list.len() == 0 {
            Seq::empty()
        } else {
            self.insert_by_span(self.sort_by_span(list.drop_last()), list.last())
        }
    }

    /// The non-projective edges of the graph by ascending span; among edges
    /// of equal span, the one that the walk over the nodes and their
    /// outgoing lists meets first comes first.
    pub open spec fn non_projective(self) -> Seq<int> {
        self.sort_by_span(self.crossing_edges(self.nodes()))
    }

    /// Whether the spans of the edges of `list` never descend.
    pub open spec fn ascending_spans(self, list: Seq<int>) -> bool {
        forall|i: int, j: int| 0 <= i <= j < list.len() ==> self.span(list[i]) <= self.span(list[j])
    }

    /// Inserting by span keeps an ascending list ascending, and keeps its
    /// edges.
    pub proof fn lemma_insert_by_span(self, sorted: Seq<int>, e: int)
        requires
            self.ascending_spans(sorted),
        ensures
            self.ascending_spans(self.insert_by_span(sorted, e)),
            self.insert_by_span(sorted, e).len() == sorted.len() + 1,
            self.insert_by_span(sorted, e).contains(e),
            forall|x: int| #[trigger]
                self.insert_by_span(sorted, e).contains(x) ==> x == e || sorted.contains(x),
            forall|x: int| #[trigger]
                sorted.contains(x) ==> self.insert_by_span(sorted, e).contains(x),
        decreases sorted.len(),
    {
        let r = self.insert_by_span(sorted, e);
        if sorted.len() == 0 {
            assert(r[0] == e);
            assert forall|x: int| #[trigger] r.contains(x) implies x == e || sorted.contains(x) by {
            }
            assert forall|x: int| #[trigger] sorted.contains(x) implies r.contains(x) by {
            }
        } else if self.span(sorted.last()) <= self.span(e) {
            assert forall|i: int, j: int| 0 <= i <= j < r.len() implies self.span(r[i])
                <= self.span(r[j]) by {
                if j == sorted.len() && i < sorted.len() {
                    assert(self.span(sorted[i]) <= self.span(sorted[sorted.len() - 1]));
                }
            }
            assert(r[sorted.len() as int] == e);
            assert forall|x: int| #[trigger] r.contains(x) implies x == e || sorted.contains(x) by {
                let i = choose|i: int| 0 <= i < r.len() && r[i] == x;
                if i < sorted.len() {
                    assert(sorted[i] == x);
                }
            }
            assert forall|x: int| #[trigger] sorted.contains(x) implies r.contains(x) by {
                let i = choose|i: int| 0 <= i < sorted.len() && sorted[i] == x;
                assert(r[i] == x);
            }
        } else {
            let front = sorted.drop_last();
            assert forall|i: int, j: int| 0 <= i <= j < front.len() implies self.span(front[i])
                <= self.span(front[j]) by {
                assert(front[i] == sorted[i] && front[j] == sorted[j]);
            }
            self.lemma_insert_by_span(front, e);
            let inner = self.insert_by_span(front, e);
            assert forall|i: int, j: int| 0 <= i <= j < r.len() implies self.span(r[i])
                <= self.span(r[j]) by {
                if j == inner.len() && i < inner.len() {
                    assert(r[i] == inner[i]);
                    assert(inner.contains(inner[i]));
                    if inner[i] != e {
                        assert(front.contains(inner[i]));
                        let k = choose|k: int| 0 <= k < front.len() && front[k] == inner[i];
                        assert(self.span(sorted[k]) <= self.span(sorted[sorted.len() - 1]));
                    }
                } else if j < inner.len() {
                    assert(r[i] == inner[i] && r[j] == inner[j]);
                }
            }
            assert(r.contains(e)) by {
                let k = choose|k: int| 0 <= k < inner.len() && inner[k] == e;
                assert(r[k] == e);
            }
            assert forall|x: int| #[trigger] r.contains(x) implies x == e || sorted.contains(x) by {
                let i = choose|i: int| 0 <= i < r.len() && r[i] == x;
                if i < inner.len() {
                    assert(inner[i] == x);
                    assert(inner.contains(x));
                    if x != e {
                        assert(front.contains(x));
                        let k = choose|k: int| 0 <= k < front.len() && front[k] == x;
                        assert(sorted[k] == x);
                    }
                } else {
                    assert(sorted[sorted.len() - 1] == x);
                }
            }
            assert forall|x: int| #[trigger] sorted.contains(x) implies r.contains(x) by {
                let i = choose|i: int| 0 <= i < sorted.len() && sorted[i] == x;
                if i < front.len() {
                    assert(front[i] == x);
                    assert(front.contains(x));
                    assert(inner.contains(x));
                    let k = choose|k: int| 0 <= k < inner.len() && inner[k] == x;
                    assert(r[k] == x);
                } else {
                    assert(r[inner.len() as int] == x);
                }
            }
        }
    }

    /// Sorting by span gives an ascending list of the same edges.
    pub proof fn lemma_sort_by_span(self, list: Seq<int>)
        ensures
            self.ascending_spans(self.sort_by_span(list)),
            self.sort_by_span(list).len() == list.len(),
            forall|x: int| #[trigger] self.sort_by_span(list).contains(x) ==> list.contains(x),
            forall|x: int| #[trigger] list.contains(x) ==> self.sort_by_span(list).contains(x),
        decreases list.len(),
    {
        if list.len() > 0 {
            let front = list.drop_last();
            self.lemma_sort_by_span(front);
            self.lemma_insert_by_span(self.sort_by_span(front), list.last());
            let r = self.sort_by_span(list);
            assert forall|x: int| #[trigger] list.contains(x) implies r.contains(x) by {
                let i = choose|i: int| 0 <= i < list.len() && list[i] == x;
                if i < front.len() {
                    assert(front[i] == x);
                    assert(front.contains(x));
                }
            }
        }
    }
}

impl GraphModel {
    /// The list of the non-projective edges is empty just where no edge is
    /// non-projective.
    pub proof fn lemma_projective(self)
        requires
            self.well_formed(),
        ensures
            self.non_projective().len() == 0 <==> forall|e: int|
                0 <= e < self.edges.len() ==> !#[trigger] self.crossing(e),
    {
        let all = self.crossing_edges(self.nodes());
        self.lemma_sort_by_span(all);
        self.lemma_crossing_edges(self.nodes());
        if all.len() > 0 {
            assert(all.contains(all[0]));
        }
    }

    /// The walk over the nodes below `n` finds the non-projective edges that
    /// leave them, and no other edge.
    pub proof fn lemma_crossing_edges(self, n: int)
        requires
            self.well_formed(),
            n <= self.nodes(),
        ensures
            forall|e: int|
                0 <= e < self.edges.len() && self.source(e) < n && #[trigger] self.crossing(e)
                    ==> self.crossing_edges(n).contains(e),
            forall|x: int| #[trigger]
                self.crossing_edges(n).contains(x) ==> 0 <= x < self.edges.len() && self.crossing(
                    x,
                ) && self.source(x) < n,
        decreases n,
    {
        let all = self.crossing_edges(n);
        if n > 0 {
            self.lemma_crossing_edges(n - 1);
            let before = self.crossing_edges(n - 1);
            let list = self.out[n - 1];
            let here = list.filter(self.is_crossing());
            assert forall|e: int|
                0 <= e < self.edges.len() && self.source(e) < n && #[trigger] self.crossing(
                    e,
                ) implies all.contains(e) by {
                if self.source(e) < n - 1 {
                    let i = choose|i: int| 0 <= i < before.len() && before[i] == e;
                    assert(all[i] == e);
                } else {
                    let i = choose|i: int| 0 <= i < list.len() && list[i] == e;
                    list.lemma_filter_contains(self.is_crossing(), i);
                    let j = choose|j: int| 0 <= j < here.len() && here[j] == e;
                    assert(all[before.len() + j] == e);
                }
            }
            assert forall|x: int| #[trigger] all.contains(x) implies 0 <= x < self.edges.len()
                && self.crossing(x) && self.source(x) < n by {
                let i = choose|i: int| 0 <= i < all.len() && all[i] == x;
                if i < before.len() {
                    assert(before.contains(x));
                } else {
                    let j = i - before.len();
                    list.lemma_filter_pred(self.is_crossing(), j);
                    list.lemma_filter_contains_rev(self.is_crossing(), x);
                }
            }
        }
    }

    /// The walk over the nodes below `n` finds no edge twice.
    pub proof fn lemma_crossing_once(self, n: int)
        requires
            self.well_formed(),
            n <= self.nodes(),
        ensures
            self.crossing_edges(n).no_duplicates(),
        decreases n,
    {
        if n > 0 {
            self.lemma_crossing_once(n - 1);
            self.lemma_crossing_edges(n - 1);
            let before = self.crossing_edges(n - 1);
            let list = self.out[n - 1];
            let here = list.filter(self.is_crossing());
            assert(list.no_duplicates());
            crate::graph::lemma_filter_no_duplicates(list, self.is_crossing());
            assert forall|i: int, j: int| 0 <= i < before.len() && 0 <= j < here.len() implies before[i]
                != here[j] by {
                assert(before.contains(before[i]));
                assert(here.contains(here[j]));
                list.lemma_filter_contains_rev(self.is_crossing(), here[j]);
                let k = choose|k: int| 0 <= k < list.len() && list[k] == here[j];
                assert(self.source(list[k]) == n - 1);
            }
            vstd::seq_lib::lemma_no_dup_in_concat(before, here);
        }
    }

    /// An edge that is put into a list without duplicates that does not hold
    /// it leaves a list without duplicates, of the same edges and the new
    /// one.
    pub proof fn lemma_insert_once(self, sorted: Seq<int>, e: int)
        requires
            sorted.no_duplicates(),
            !sorted.contains(e),
        ensures
            self.insert_by_span(sorted, e).no_duplicates(),
            forall|x: int| #[trigger]
                self.insert_by_span(sorted, e).contains(x) ==> x == e || sorted.contains(x),
        decreases sorted.len(),
    {
        let r = self.insert_by_span(sorted, e);
        if sorted.len() == 0 {
            assert forall|x: int| #[trigger] r.contains(x) implies x == e || sorted.contains(x) by {
                let i = choose|i: int| 0 <= i < r.len() && r[i] == x;
            }
        } else if self.span(sorted.last()) <= self.span(e) {
            assert forall|i: int, j: int| 0 <= i < r.len() && 0 <= j < r.len() && i != j implies r[i]
                != r[j] by {
                if i < sorted.len() {
                    assert(sorted.contains(sorted[i]));
                }
                if j < sorted.len() {
                    assert(sorted.contains(sorted[j]));
                }
            }
            assert forall|x: int| #[trigger] r.contains(x) implies x == e || sorted.contains(x) by {
                let i = choose|i: int| 0 <= i < r.len() && r[i] == x;
                if i < sorted.len() {
                    assert(sorted[i] == x);
                }
            }
        } else {
            let front = sorted.drop_last();
            let last = sorted.last();
            assert forall|i: int, j: int|
                0 <= i < front.len() && 0 <= j < front.len() && i != j implies front[i]
                != front[j] by {
                assert(front[i] == sorted[i] && front[j] == sorted[j]);
            }
            if front.contains(e) {
                let i = choose|i: int| 0 <= i < front.len() && front[i] == e;
                assert(sorted[i] == e);
            }
            self.lemma_insert_once(front, e);
            let inner = self.insert_by_span(front, e);
            assert(r == inner.push(last));
            assert(!inner.contains(last)) by {
                if inner.contains(last) {
                    assert(sorted[sorted.len() - 1] == last);
                    if last != e {
                        let k = choose|k: int| 0 <= k < front.len() && front[k] == last;
                        assert(sorted[k] == sorted[sorted.len() - 1]);
                    }
                }
            }
            assert forall|i: int, j: int| 0 <= i < r.len() && 0 <= j < r.len() && i != j implies r[i]
                != r[j] by {
                if i < inner.len() {
                    assert(inner.contains(inner[i]));
                }
                if j < inner.len() {
                    assert(inner.contains(inner[j]));
                }
            }
            assert forall|x: int| #[trigger] r.contains(x) implies x == e || sorted.contains(x) by {
                let i = choose|i: int| 0 <= i < r.len() && r[i] == x;
                if i < inner.len() {
                    assert(inner.contains(x));
                    if x != e {
                        let k = choose|k: int| 0 <= k < front.len() && front[k] == x;
                        assert(sorted[k] == x);
                    }
                } else {
                    assert(sorted[sorted.len() - 1] == x);
                }
            }
        }
    }

    /// Sorting a list without duplicates gives a list without duplicates.
    pub proof fn lemma_sort_once(self, list: Seq<int>)
        requires
            list.no_duplicates(),
        ensures
            self.sort_by_span(list).no_duplicates(),
        decreases list.len(),
    {
        if list.len() > 0 {
            let front = list.drop_last();
            assert forall|i: int, j: int|
                0 <= i < front.len() && 0 <= j < front.len() && i != j implies front[i]
                != front[j] by {
                assert(front[i] == list[i] && front[j] == list[j]);
            }
            self.lemma_sort_once(front);
            self.lemma_sort_by_span(front);
            let sorted = self.sort_by_span(front);
            if sorted.contains(list.last()) {
                assert(front.contains(list.last()));
                let k = choose|k: int| 0 <= k < front.len() && front[k] == list.last();
                assert(list[k] == list[list.len() - 1]);
            }
            self.lemma_insert_once(sorted, list.last());
        }
    }

    /// In a tree a non-projective edge does not leave the root: its source
    /// has a head.
    pub proof fn lemma_crossing_has_head(self, rank: Seq<int>, e: int)
        requires
            self.tree_by(rank),
            0 <= e < self.edges.len(),
            self.crossing(e),
        ensures
            self.has_head(self.source(e)),
    {
        if self.source(e) == 0 {
            let j = choose|j: int| #[trigger] self.between(e, j) && !self.reaches(self.source(e), j);
            self.lemma_root_reaches(rank, j);
        }
    }
}

/// The text of the error for the edge from `head` to `dependent`, which has
/// no label.
fn missing_label_message(head: usize, dependent: usize) -> (s: String)
    ensures
        s@ == missing_label(head as nat, dependent as nat),
{
    let mut s = String::from_str("edge from ");
    s.append(format_number(head).as_str());
    s.append(" to ");
    s.append(format_number(dependent).as_str());
    s.append(" does not have a label");
    s
}

/// The dependency graph of a sentence. Node 0 is the root, node `i` the
/// token at position `i`: the graph has these nodes whether or not an edge
/// joins them. Every token with a head gives the edge from its head to
/// itself, labelled with the head relation. A token with a head and no label
/// is an error. That the edges form a tree is not tested.
pub fn sentence_to_graph(sentence: &Sentence) -> (r: Result<Graph<(), String, Directed>, GraphError>)
    requires
        sentence.len() < u32::MAX,
        forall|i: int|
            0 <= i < sentence.len() ==> (#[trigger] sentence[i]@.head matches Some(h) ==> h
                < u32::MAX),
    ensures
        match r {
            Ok(g) => {
                &&& unlabelled(sentence_view(sentence@)) is None
                &&& model(&g) == sentence_graph(sentence_view(sentence@))
                &&& model(&g).edges == sentence_edges(sentence_view(sentence@))
                &&& model(&g).nodes() >= sentence.len() + 1
                &&& heads_in_sentence(sentence_view(sentence@)) ==> model(&g).nodes()
                    == sentence.len() + 1
                &&& model(&g).well_formed()
                &&& model(&g).single_headed()
            },
            Err(e) => {
                &&& unlabelled(sentence_view(sentence@)) matches Some(i)
                &&& e.message() == missing_label(
                    sentence[i]@.head.unwrap() as nat,
                    (i + 1) as nat,
                )
            },
        },
{
    let ghost s = sentence_view(sentence@);
    let mut edges: Vec<(usize, usize, String)> = Vec::new();
    let mut idx: usize = 0;
    while idx < sentence.len()
        invariant
            idx <= sentence.len(),
            sentence.len() < u32::MAX,
            s == sentence_view(sentence@),
            forall|i: int|
                0 <= i < sentence.len() ==> (#[trigger] sentence[i]@.head matches Some(h) ==> h
                    < u32::MAX),
            unlabelled(s.take(idx as int)) is None,
            table_of(edges@) == sentence_edges(s.take(idx as int)),
            edges.len() <= idx,
            forall|i: int| 0 <= i < edges.len() ==> edges[i].0 < u32::MAX && edges[i].1 < u32::MAX,
        decreases sentence.len() - idx,
    {
        let token = &sentence[idx];
        let ghost now = s.take(idx + 1);
        assert(now.drop_last() == s.take(idx as int));
        match token.head() {
            Some(head) => {
                match token.head_rel() {
                    Some(head_rel) => {
                        edges.push((head, idx + 1, head_rel.to_owned()));
                    },
                    None => {
                        proof {
                            lemma_unlabelled_prefix(s, idx + 1);
                        }
                        return Err(
                            GraphError::IncompleteGraph {
                                value: missing_label_message(head, idx + 1),
                            },
                        );
                    },
                }
            },
            None => {},
        }
        idx += 1;
    }
    assert(s.take(s.len() as int) == s);
    proof {
        lemma_sentence_graph(s);
    }
    let mut graph = graph_from_edges(edges);
    graph_grow(&mut graph, sentence.len() + 1);
    Ok(graph)
}

/// Whether edge `e`, which leaves `source`, is non-projective, given the
/// nodes that `source` reaches.
fn is_non_projective(
    graph: &Graph<(), String, Directed>,
    reached: &Vec<bool>,
    source: usize,
    e: usize,
) -> (r: bool)
    requires
        model(graph).well_formed(),
        0 <= e < model(graph).edges.len(),
        model(graph).source(e as int) == source,
        reached.len() == model(graph).nodes(),
        forall|j: int|
            0 <= j < reached.len() ==> reached[j] == model(graph).reaches(source as int, j),
    ensures
        r == model(graph).crossing(e as int),
{
    let ghost m = model(graph);
    let target = match graph_edge_endpoints(graph, e) {
        Some((_, target)) => target,
        None => source,
    };
    let (low, high) = if source <= target {
        (source, target)
    } else {
        (target, source)
    };
    proof {
        m.lemma_reaches_self(source as int);
        m.lemma_reaches_extend(source as int, source as int, target as int);
    }
    let mut j: usize = low;
    while j < high
        invariant
            low <= j <= high < reached.len(),
            m == model(graph),
            m.source(e as int) == source,
            m.target(e as int) == target,
            low == if source <= target { source } else { target },
            high == if source <= target { target } else { source },
            m.reaches(source as int, low as int),
            forall|k: int| 0 <= k < reached.len() ==> reached[k] == m.reaches(source as int, k),
            forall|k: int| low <= k < j ==> m.reaches(source as int, k),
        decreases high - j,
    {
        if !reached[j] {
            assert(m.between(e as int, j as int));
            return true;
        }
        j += 1;
    }
    false
}

/// The edge indices in `list` by ascending span in `graph`; edges of equal
/// span keep their order.
pub fn sort_edges_by_span(graph: &Graph<(), String, Directed>, list: Vec<usize>) -> (sorted: Vec<
    usize,
>)
    requires
        forall|i: int| 0 <= i < list.len() ==> list[i] < model(graph).edges.len(),
    ensures
        as_ints(sorted@) == model(graph).sort_by_span(as_ints(list@)),
{
    let ghost m = model(graph);
    let mut sorted: Vec<usize> = Vec::new();
    let mut i: usize = 0;
    while i < list.len()
        invariant
            i <= list.len(),
            m == model(graph),
            forall|k: int| 0 <= k < list.len() ==> list[k] < m.edges.len(),
            forall|k: int| 0 <= k < sorted.len() ==> sorted[k] < m.edges.len(),
            as_ints(sorted@) == m.sort_by_span(as_ints(list@).take(i as int)),
        decreases list.len() - i,
    {
        let e = list[i];
        let span = edge_span(graph, e);
        let ghost before = as_ints(sorted@);
        assert(as_ints(list@).take(i + 1).drop_last() == as_ints(list@).take(i as int));
        // The place of `e`: behind the last edge whose span is not larger.
        let mut at: usize = sorted.len();
        assert(before.take(at as int) == before);
        while at > 0 && edge_span(graph, sorted[at - 1]) > span
            invariant
                at <= sorted.len(),
                m == model(graph),
                e < m.edges.len(),
                span == m.span(e as int),
                before == as_ints(sorted@),
                forall|k: int| 0 <= k < sorted.len() ==> sorted[k] < m.edges.len(),
                m.insert_by_span(before, e as int) == m.insert_by_span(
                    before.take(at as int),
                    e as int,
                ) + before.skip(at as int),
            decreases at,
        {
            let ghost front = before.take(at as int);
            assert(front.drop_last() == before.take(at - 1));
            at -= 1;
        }
        sorted.insert(at, e);
        i += 1;
    }
    assert(as_ints(list@).take(list.len() as int) == as_ints(list@));
    sorted
}

/// The distance between the ends of edge `e`.
fn edge_span(graph: &Graph<(), String, Directed>, e: usize) -> (span: usize)
    requires
        e < model(graph).edges.len(),
    ensures
        span == model(graph).span(e as int),
{
    match graph_edge_endpoints(graph, e) {
        Some((source, target)) => if source <= target {
            target - source
        } else {
            source - target
        },
        None => 0,
    }
}

/// The non-projective edges of `graph`, by their indices, ordered by span:
/// shortest first, and among edges of equal span in the order in which the
/// walk over the nodes and their outgoing lists meets them.
pub fn non_projective_edges(graph: &Graph<(), String, Directed>) -> (edges: Vec<usize>)
    requires
        model(graph).well_formed(),
    ensures
        as_ints(edges@) == model(graph).non_projective(),
        as_ints(edges@).no_duplicates(),
        model(graph).ascending_spans(as_ints(edges@)),
        forall|i: int|
            0 <= i < edges.len() ==> edges[i] < model(graph).edges.len() && model(graph).crossing(
                edges[i] as int,
            ),
{
    let ghost m = model(graph);
    let n = graph_node_count(graph);
    let mut found: Vec<usize> = Vec::new();
    let mut i: usize = 0;
    while i < n
        invariant
            i <= n,
            n == m.nodes(),
            m == model(graph),
            m.well_formed(),
            as_ints(found@) == m.crossing_edges(i as int),
            forall|k: int|
                0 <= k < found.len() ==> found[k] < m.edges.len() && m.crossing(found[k] as int),
        decreases n - i,
    {
        let reached = reachable_from(graph, i);
        let out = graph_out_edges(graph, i);
        let ghost list = m.out[i as int];
        let ghost before = as_ints(found@);
        let mut k: usize = 0;
        while k < out.len()
            invariant
                k <= out.len(),
                i < n,
                n == m.nodes(),
                m == model(graph),
                m.well_formed(),
                list == m.out[i as int],
                as_ints(out@) == list,
                reached.len() == n,
                forall|j: int| 0 <= j < reached.len() ==> reached[j] == m.reaches(i as int, j),
                as_ints(found@) == before + list.take(k as int).filter(m.is_crossing()),
                forall|x: int|
                    0 <= x < found.len() ==> found[x] < m.edges.len() && m.crossing(
                        found[x] as int,
                    ),
            decreases out.len() - k,
        {
            let e = out[k];
            assert(0 <= list[k as int] < m.edges.len() && m.source(list[k as int]) == i);
            let ghost sofar = list.take(k as int);
            proof {
                sofar.lemma_filter_push(e as int, m.is_crossing());
                assert(list.take(k + 1) == sofar.push(e as int));
            }
            if is_non_projective(graph, &reached, i, e) {
                let ghost held = as_ints(found@);
                found.push(e);
                assert(as_ints(found@) =~= held.push(e as int));
            }
            k += 1;
        }
        assert(list.take(list.len() as int) == list);
        i += 1;
    }
    let sorted = sort_edges_by_span(graph, found);
    proof {
        m.lemma_crossing_once(n as int);
        m.lemma_sort_once(as_ints(found@));
        m.lemma_sort_by_span(as_ints(found@));
        assert forall|x: int| 0 <= x < sorted.len() implies sorted[x] < m.edges.len() && m.crossing(
            sorted[x] as int,
        ) by {
            assert(as_ints(sorted@)[x] == sorted[x]);
            assert(as_ints(sorted@).contains(sorted[x] as int));
        }
    }
    sorted
}

/// A copy of `sentence`.
pub fn copy_sentence(sentence: &Sentence) -> (copy: Sentence)
    ensures
        sentence_view(copy@) == copied(sentence_view(sentence@)),
        copy.len() == sentence.len(),
{
    let mut copy: Vec<Token> = Vec::new();
    let mut i: usize = 0;
    while i < sentence.len()
        invariant
            i <= sentence.len(),
            copy.len() == i,
            sentence_view(copy@) == copied(sentence_view(sentence@)).take(i as int),
        decreases sentence.len() - i,
    {
        copy.push(sentence[i].clone());
        i += 1;
    }
    copy
}

/// A copy of `sentence` with the dependency relations of `graph`: the head
/// and the label of each edge are written into the token at its target, in
/// the order of the edges. A token that no edge ends in keeps its head.
pub fn update_sentence(graph: &Graph<(), String, Directed>, sentence: &Sentence) -> (updated:
    Sentence)
    requires
        forall|e: int|
            0 <= e < model(graph).edges.len() ==> 1 <= #[trigger] model(graph).target(e)
                <= sentence.len() && 0 <= model(graph).source(e) <= usize::MAX,
    ensures
        sentence_view(updated@) == write_back(
            copied(sentence_view(sentence@)),
            model(graph).edges,
        ),
        updated.len() == sentence.len(),
{
    let ghost m = model(graph);
    let mut updated = copy_sentence(sentence);
    let edges = graph_edge_list(graph);
    let ghost start = sentence_view(updated@);
    let mut k: usize = 0;
    while k < edges.len()
        invariant
            k <= edges.len(),
            m == model(graph),
            table_of(edges@) == m.edges,
            updated.len() == sentence.len(),
            start.len() == sentence.len(),
            forall|e: int|
                0 <= e < m.edges.len() ==> 1 <= #[trigger] m.target(e) <= sentence.len() && 0
                    <= m.source(e) <= usize::MAX,
            sentence_view(updated@) == write_back(start, m.edges.take(k as int)),
        decreases edges.len() - k,
    {
        let source = edges[k].0;
        let target = edges[k].1;
        assert(1 <= m.target(k as int) <= sentence.len());
        let ghost now = m.edges.take(k + 1);
        assert(now.drop_last() == m.edges.take(k as int));
        assert(now.last() == m.edges[k as int]);
        updated[target - 1].set_head(Some(source));
        updated[target - 1].set_head_rel(Some(edges[k].2.as_str()));
        k += 1;
    }
    assert(m.edges.take(m.edges.len() as int) == m.edges);
    updated
}

/// Whether `rank` shows the sentence to be a tree: every token has a head
/// within the sentence, and ranks above it. No rank is larger than the
/// number of tokens.
pub open spec fn heads_ranked(s: Seq<TokenView>, rank: Seq<int>) -> bool {
    &&& rank.len() == s.len() + 1
    &&& forall|i: int|
        0 <= i < s.len() ==> {
            &&& (#[trigger] s[i]).head is Some
            &&& s[i].head.unwrap() <= s.len()
            &&& 0 <= rank[s[i].head.unwrap() as int] < rank[i + 1] <= s.len()
        }
}

/// The node that `k` steps from a node to its head lead to from node `c`.
/// The steps end at the root.
pub open spec fn ancestor(s: Seq<TokenView>, c: int, k: nat) -> int
    decreases k,
{
    if k == 0 {
        c
    } else {
        let a = ancestor(s, c, (k - 1) as nat);
        if a == 0 {
            0
        } else {
            s[a - 1].head.unwrap() as int
        }
    }
}

/// Whether every token has a head that is the root or a token of the
/// sentence.
pub open spec fn heads_within(s: Seq<TokenView>) -> bool {
    forall|i: int| 0 <= i < s.len() ==> (#[trigger] s[i]).head is Some && s[i].head.unwrap() <= s.len()
}

/// Whether the sentence is a dependency tree: every token has a head, which
/// is the root or a token of the sentence, and the heads form no cycle (the
/// positions can be ranked so that every token ranks above its head).
pub open spec fn is_dependency_tree(s: Seq<TokenView>) -> bool {
    exists|rank: Seq<int>| heads_ranked(s, rank)
}

/// Whether the sentence is a dependency tree.
pub fn is_tree(sentence: &Sentence) -> (r: bool)
    ensures
        r == is_dependency_tree(sentence_view(sentence@)),
{
    let ghost s = sentence_view(sentence@);
    let n = sentence.len();
    let mut i: usize = 0;
    while i < n
        invariant
            i <= n,
            n == sentence.len(),
            s == sentence_view(sentence@),
            forall|k: int| 0 <= k < i ==> (#[trigger] s[k]).head is Some && s[k].head.unwrap() <= n,
        decreases n - i,
    {
        assert(s[i as int] == sentence[i as int]@);
        match sentence[i].head() {
            Some(head) => {
                if head > n {
                    return false;
                }
            },
            None => {
                return false;
            },
        }
        i += 1;
    }
    // The number of steps from each node to the root.
    let ghost mut rank: Seq<int> = seq![0int];
    let mut done: usize = 0;
    while done < n
        invariant
            done <= n,
            n == sentence.len(),
            s == sentence_view(sentence@),
            heads_within(s),
            rank.len() == done + 1,
            forall|x: int|
                0 <= x <= done ==> 0 <= #[trigger] rank[x] <= n && ancestor(s, x, rank[x] as nat)
                    == 0 && forall|j: nat| j < rank[x] ==> ancestor(s, x, j) != 0,
        decreases n - done,
    {
        let c: usize = done + 1;
        let mut at: usize = c;
        let mut steps: usize = 0;
        while at != 0
            invariant
                1 <= c <= n,
                n == sentence.len(),
                s == sentence_view(sentence@),
                heads_within(s),
                steps <= n,
                at <= n,
                at == ancestor(s, c as int, steps as nat),
                forall|j: nat| j < steps ==> ancestor(s, c as int, j) != 0,
            decreases n - steps,
        {
            if steps == n {
                proof {
                    assert forall|rank: Seq<int>| !heads_ranked(s, rank) by {
                        if heads_ranked(s, rank) {
                            lemma_ranks_descend(s, rank, c as int, steps as nat);
                            assert(s[c - 1].head is Some);
                        }
                    }
                }
                return false;
            }
            assert(s[at - 1] == sentence[at - 1]@);
            at = match sentence[at - 1].head() {
                Some(head) => head,
                None => vstd::pervasive::unreached(),
            };
            steps += 1;
        }
        proof {
            rank = rank.push(steps as int);
        }
        done += 1;
    }
    proof {
        assert forall|k: int| 0 <= k < s.len() implies {
            &&& (#[trigger] s[k]).head is Some
            &&& s[k].head.unwrap() <= s.len()
            &&& 0 <= rank[s[k].head.unwrap() as int] < rank[k + 1] <= s.len()
        } by {
            let token = k + 1;
            let head = s[k].head.unwrap() as int;
            lemma_ancestor(s, token, 0);
            // The steps of the token but the first are the steps of its head.
            let less = (rank[token] - 1) as nat;
            lemma_ancestor(s, token, less);
        }
        assert(heads_ranked(s, rank));
    }
    true
}

/// Whether no edge of the sentence is non-projective.
pub open spec fn is_projective(s: Seq<TokenView>) -> bool {
    sentence_graph(s).non_projective().len() == 0
}

/// One round of projectivizing: the shortest non-projective edge is lifted.
/// Where there is none, nothing changes.
pub open spec fn lift_shortest(state: (GraphModel, Set<int>)) -> (GraphModel, Set<int>) {
    let edges = state.0.non_projective();
    if edges.len() == 0 {
        state
    } else {
        state.0.lift(state.1, edges[0])
    }
}

/// The graph `m` and the set of lifted nodes after `rounds` rounds of
/// projectivizing.
pub open spec fn lifted_by(m: GraphModel, rounds: nat) -> (GraphModel, Set<int>)
    decreases rounds,
{
    if rounds == 0 {
        (m, Set::empty())
    } else {
        lift_shortest(lifted_by(m, (rounds - 1) as nat))
    }
}

/// Whether `result` is the graph that projectivizing `m` ends in: it comes
/// from `m` by lifting the shortest non-projective edge round after round,
/// and has no non-projective edge.
pub open spec fn projectivized(m: GraphModel, result: GraphModel) -> bool {
    exists|rounds: nat| (#[trigger] lifted_by(m, rounds)).0 == result && result.non_projective().len() == 0
}

/// A transformation that makes dependency trees projective.
pub trait Projectivize {
    /// The sentence with a projective tree in place of its tree. A token with
    /// a head and no label is an error, which names the first such token.
    fn projectivize(&self, sentence: &Sentence) -> (r: Result<Sentence, GraphError>)
        requires
            sentence.len() < u32::MAX,
            is_dependency_tree(sentence_view(sentence@)),
        ensures
            match r {
                Ok(projective) => {
                    &&& unlabelled(sentence_view(sentence@)) is None
                    &&& projective.len() == sentence.len()
                    &&& is_dependency_tree(sentence_view(projective@))
                    &&& is_projective(sentence_view(projective@))
                },
                Err(e) => {
                    &&& unlabelled(sentence_view(sentence@)) matches Some(i)
                    &&& e.message() == missing_label(
                        sentence[i]@.head.unwrap() as nat,
                        (i + 1) as nat,
                    )
                },
            },
    ;
}

/// A projectivizer using the 'head' marking strategy: the label of a lifted
/// edge is followed by the label of the edge into the token's former head.
pub struct HeadProjectivizer;

impl HeadProjectivizer {
    /// A projectivizer.
    pub fn new() -> (p: HeadProjectivizer) {
        HeadProjectivizer {  }
    }

    /// Lifts the edge `edge_idx`: it is removed, and its target is attached
    /// to the head of its former source. At the first lift of the target the
    /// label of the edge into the former source is added to the label.
    fn lift(&self, graph: &mut Graph<(), String, Directed>, lifted: &mut Vec<bool>, edge_idx: usize)
        requires
            model(old(graph)).well_formed(),
            model(old(graph)).single_headed(),
            edge_idx < model(old(graph)).edges.len(),
            model(old(graph)).edges.len() <= u32::MAX,
            model(old(graph)).has_head(model(old(graph)).source(edge_idx as int)),
            old(lifted).len() == model(old(graph)).nodes(),
        ensures
            (model(final(graph)), marked(final(lifted)@)) == model(old(graph)).lift(
                marked(old(lifted)@),
                edge_idx as int,
            ),
            final(lifted).len() == old(lifted).len(),
    {
        let ghost m = model(graph);
        let (source, target) = match graph_edge_endpoints(graph, edge_idx) {
            Some(ends) => ends,
            None => vstd::pervasive::unreached(),
        };
        let parent_edge = match graph_first_incoming(graph, source) {
            Some(e) => e,
            None => {
                vstd::pervasive::unreached()
            },
        };
        let parent_rel = graph_edge_label(graph, parent_edge).clone();
        let parent = match graph_edge_endpoints(graph, parent_edge) {
            Some((parent, _)) => parent,
            None => vstd::pervasive::unreached(),
        };
        assert(0 <= m.source(parent_edge as int) < m.nodes());
        let rel = match graph_remove_edge(graph, edge_idx) {
            Some(rel) => rel,
            None => vstd::pervasive::unreached(),
        };
        proof {
            m.lemma_remove_edge(edge_idx as int);
        }
        if lifted[target] {
            graph_add_edge(graph, parent, target, rel);
        } else {
            let mut label = rel;
            proof {
                reveal_strlit("|");
            }
            assert("|"@ == seq!['|']);
            label.append("|");
            label.append(parent_rel.as_str());
            graph_add_edge(graph, parent, target, label);
            lifted.set(target, true);
        }
    }
}

impl Projectivize for HeadProjectivizer {
    /// The sentence made projective: as long as an edge is non-projective,
    /// the shortest such edge is lifted. The result is a copy of the sentence
    /// with the heads and the labels of the graph that this ends in. A
    /// sentence that is projective comes back as a copy of itself.
    fn projectivize(&self, sentence: &Sentence) -> (r: Result<Sentence, GraphError>)
        ensures
            r matches Ok(projective) ==> {
                &&& exists|result: GraphModel|
                    {
                        &&& #[trigger] projectivized(
                            sentence_graph(sentence_view(sentence@)),
                            result,
                        )
                        &&& sentence_view(projective@) == write_back(
                            copied(sentence_view(sentence@)),
                            result.edges,
                        )
                    }
                &&& is_projective(sentence_view(sentence@)) ==> sentence_view(projective@)
                    == copied(sentence_view(sentence@))
            },
    {
        let ghost s = sentence_view(sentence@);
        let ghost sentence_rank = choose|rank: Seq<int>| heads_ranked(s, rank);
        assert forall|i: int| 0 <= i < sentence.len() implies (#[trigger] sentence[i]@.head matches Some(
            h,
        ) ==> h < u32::MAX) by {
            assert(s[i] == sentence[i]@);
        }
        let mut graph = match sentence_to_graph(sentence) {
            Ok(graph) => graph,
            Err(e) => {
                return Err(e);
            },
        };
        let ghost start = model(&graph);
        let ghost rank = sentence_rank;
        proof {
            lemma_sentence_tree(s, sentence_rank);
        }
        let n = graph_node_count(&graph);
        let mut lifted: Vec<bool> = Vec::new();
        while lifted.len() < n
            invariant
                lifted.len() <= n,
                forall|i: int| 0 <= i < lifted.len() ==> !lifted[i],
            decreases n - lifted.len(),
        {
            lifted.push(false);
        }
        let ghost mut rounds: nat = 0;
        loop
            invariant
                lifted.len() == n,
                n == start.nodes(),
                model(&graph).tree_by(rank),
                model(&graph).nodes() == n,
                model(&graph).edges.len() == start.edges.len(),
                start.edges.len() < u32::MAX,
                (model(&graph), marked(lifted@)) == lifted_by(start, rounds),
                0 <= rank_sum(model(&graph).edges, rank),
                start.non_projective().len() == 0 ==> rounds == 0,
            ensures
                model(&graph).tree_by(rank),
                model(&graph).nodes() == n,
                model(&graph).edges.len() == start.edges.len(),
                projectivized(start, model(&graph)),
                model(&graph).non_projective().len() == 0,
                start.non_projective().len() == 0 ==> model(&graph) == start,
            decreases rank_sum(model(&graph).edges, rank),
        {
            let np_edges = non_projective_edges(&graph);
            if np_edges.len() == 0 {
                break ;
            }
            let ghost m = model(&graph);
            proof {
                m.lemma_crossing_has_head(rank, np_edges[0] as int);
                m.lemma_lift(marked(lifted@), np_edges[0] as int, rank);
            }
            self.lift(&mut graph, &mut lifted, np_edges[0]);
            proof {
                rounds = rounds + 1;
            }
        }
        proof {
            lemma_tree_targets(model(&graph), rank, sentence.len() as int);
            assert forall|c: int| 1 <= c <= s.len() implies #[trigger] sentence_rank[c]
                <= s.len() by {
                assert(s[c - 1].head is Some);
            }
            lemma_written_tree(copied(s), model(&graph), rank, sentence_rank);
            if start.non_projective().len() == 0 {
                lemma_copied_edges(s);
                lemma_write_back_own(copied(s));
            }
        }
        Ok(update_sentence(&graph, sentence))
    }
}
} // verus!
