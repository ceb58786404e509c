//! The inverse of the pseudo-projective transformation: the marks are taken
//! from the labels, and each marked token is attached again below its head.

use crate::error::GraphError;
use crate::features::optional_view;
use crate::graph::{
    graph_add_edge, graph_edge_endpoints, graph_edge_label, graph_edge_list, graph_first_incoming,
    graph_node_count, graph_remove_edge, graph_with_labels, model, table_of, GraphModel,
};
use crate::graph_algo::{as_ints, bfs_nodes, bfs_order, visits, walk, BfsWithDepth, WalkState};
use crate::proj::{
    copied, copy_sentence, is_projective, missing_label, projectivized, sentence_edges,
    sentence_graph, sentence_to_graph, unlabelled, update_sentence, write_back, HeadProjectivizer,
};
use crate::sentence_tree::{
    lemma_copied_edges, lemma_projective_kept, lemma_sentence_edges, lemma_sentence_graph,
};
use crate::text::{copy_range, find_from, first_index, from_chars, to_chars};
use crate::token::{sentence_view, Sentence, TokenView};
use petgraph::{Directed, Graph};
use vstd::prelude::*;

verus! {

/// The label without its mark: what stands before the first vertical bar.
pub open spec fn plain_label(label: Seq<char>) -> Seq<char> {
    let i = first_index(label, '|');
    if 0 <= i < label.len() {
        label.take(i)
    } else {
        label
    }
}

/// The mark of a label: what follows the first vertical bar. It names the
/// label by which the head of the token is attached.
pub open spec fn head_label(label: Seq<char>) -> Option<Seq<char>> {
    let i = first_index(label, '|');
    if 0 <= i < label.len() {
        Some(label.skip(i + 1))
    } else {
        None
    }
}

/// Optional labels as values.
pub open spec fn labels_view(labels: Seq<Option<String>>) -> Seq<Option<Seq<char>>> {
    labels.map_values(|l: Option<String>| optional_view(l))
}

/// The distance between two positions.
pub open spec fn distance(a: int, b: int) -> int {
    if a <= b {
        b - a
    } else {
        a - b
    }
}

/// The better of the best candidate so far and a new one. The first
/// candidate fixes the depth; a later one of that depth wins where it is
/// strictly closer to `head`.
pub open spec fn closer(best: Option<(int, int)>, visit: (int, int), head: int) -> Option<(int, int)> {
    match best {
        None => Some(visit),
        Some(b) => if visit.1 == b.1 && distance(visit.0, head) < distance(b.0, head) {
            Some(visit)
        } else {
            best
        },
    }
}

impl GraphModel {
    /// The labels of the edges without their marks.
    pub open spec fn plain_labels(self) -> Seq<Seq<char>> {
        Seq::new(self.edges.len(), |e: int| plain_label(self.label(e)))
    }

    /// The graph with the marks taken from its labels.
    pub open spec fn plain(self) -> GraphModel {
        self.relabel(self.plain_labels())
    }

    /// For each node the mark carried by an edge into it, taken from the
    /// first `k` edges; `None` where no such edge has a mark.
    pub open spec fn marks(self, k: int) -> Seq<Option<Seq<char>>>
        decreases k,
    {
        if k <= 0 {
            Seq::new(self.nodes() as nat, |c: int| None)
        } else {
            let before = self.marks(k - 1);
            match head_label(self.label(k - 1)) {
                Some(mark) => before.update(self.target(k - 1), Some(mark)),
                None => before,
            }
        }
    }

    /// Whether node `node` is attached to its head with the label `label`.
    pub open spec fn is_candidate(self, node: int, label: Seq<char>) -> bool {
        self.has_head(node) && self.label(self.head_edge(node)) == label
    }

    /// The best candidate among `visits`, with its depth. The first visit,
    /// which is the start of the walk, is no candidate.
    pub open spec fn best_visit(self, visits: Seq<(int, int)>, head: int, label: Seq<char>) -> Option<
        (int, int),
    >
        decreases visits.len(),
    {
        if visits.len() <= 1 {
            None
        } else {
            let before = self.best_visit(visits.drop_last(), head, label);
            if self.is_candidate(visits.last().0, label) {
                closer(before, visits.last(), head)
            } else {
                before
            }
        }
    }

    /// The state of the walk that looks for an attachment point below
    /// `head`: it starts at `head` and passes `lifted` by.
    pub open spec fn search_start(head: int, lifted: int) -> WalkState {
        WalkState { seen: set![head].insert(lifted), ..WalkState::start(head) }
    }

    /// The node below `head` to which the token `lifted` is attached again:
    /// a node other than `head`, reached from `head` without passing
    /// `lifted`, that is attached to its own head with the label `label`.
    /// Among these the first of the breadth-first walk fixes the depth, and
    /// of that depth the one nearest to `head` in the sentence is taken; of
    /// two equally near the one that the walk visits first.
    pub open spec fn attachment_point(self, head: int, lifted: int, label: Seq<char>) -> Option<int> {
        match self.best_visit(visits(GraphModel::search_start(head, lifted), self), head, label) {
            Some(v) => Some(v.0),
            None => None,
        }
    }

    /// The graph with the token `node` attached to `head`, under its label.
    pub open spec fn reattach(self, node: int, head: int) -> GraphModel {
        self.move_edge(self.head_edge(node), head, self.label(self.head_edge(node)))
    }

    /// The first token of `list`, from the index `from` on, for which there
    /// is an attachment point, by its index, and the graph with that token
    /// attached there.
    pub open spec fn reattach_from(
        self,
        list: Seq<int>,
        marks: Seq<Option<Seq<char>>>,
        from: int,
    ) -> Option<(int, GraphModel)>
        decreases list.len() - from,
    {
        if from < 0 || from >= list.len() {
            None
        } else {
            let node = list[from];
            match self.attachment_point(
                self.source(self.head_edge(node)),
                node,
                marks[node].unwrap(),
            ) {
                Some(head) => Some((from, self.reattach(node, head))),
                None => self.reattach_from(list, marks, from + 1),
            }
        }
    }

    /// The graph after at most `rounds` rounds of reattaching: in each round
    /// the first token of the list that finds an attachment point is
    /// attached there and leaves the list.
    pub open spec fn reattach_all(
        self,
        list: Seq<int>,
        marks: Seq<Option<Seq<char>>>,
        rounds: nat,
    ) -> GraphModel
        decreases rounds,
    {
        if rounds == 0 {
            self
        } else {
            match self.reattach_from(list, marks, 0) {
                Some((i, next)) => next.reattach_all(list.remove(i), marks, (rounds - 1) as nat),
                None => self,
            }
        }
    }

    /// The test that a node carries a mark.
    pub open spec fn is_marked(marks: Seq<Option<Seq<char>>>) -> spec_fn(int) -> bool {
        |c: int| marks[c] is Some
    }

    /// The tokens to attach again: the nodes with a mark, in the
    /// breadth-first order from the root of the graph without marks.
    pub open spec fn marked_nodes(self) -> Seq<int> {
        bfs_order(self.plain(), 0).filter(GraphModel::is_marked(self.marks(self.edges.len() as int)))
    }

    /// The graph that deprojectivizing ends in: the marks are taken from the
    /// labels, and the marked tokens are attached again, one per round, until
    /// a round finds no attachment point.
    pub open spec fn deprojectivized(self) -> GraphModel {
        self.plain().reattach_all(
            self.marked_nodes(),
            self.marks(self.edges.len() as int),
            self.marked_nodes().len(),
        )
    }

    /// Whether a label of the graph carries a mark.
    pub open spec fn has_marks(self) -> bool {
        exists|e: int| 0 <= e < self.edges.len() && head_label(#[trigger] self.label(e)) is Some
    }
}

/// Whether the tokens of `list` are nodes of `m` that have a head and a mark.
pub open spec fn attachable(m: GraphModel, list: Seq<int>, marks: Seq<Option<Seq<char>>>) -> bool {
    forall|i: int|
        0 <= i < list.len() ==> {
            &&& 0 <= #[trigger] list[i] < m.nodes()
            &&& m.has_head(list[i])
            &&& marks[list[i]] is Some
        }
}

impl HeadProjectivizer {
    /// Prepares for deprojectivizing: a copy of the graph with the marks
    /// taken from the labels, and for each node the mark that an edge into
    /// it carried.
    pub(crate) fn prepare_deproj(&self, graph: &Graph<(), String, Directed>) -> (r: (
        Graph<(), String, Directed>,
        Vec<Option<String>>,
    ))
        requires
            model(graph).well_formed(),
        ensures
            model(&r.0) == model(graph).plain(),
            labels_view(r.1@) == model(graph).marks(model(graph).edges.len() as int),
            r.1.len() == model(graph).nodes(),
    {
        let ghost m = model(graph);
        let n = graph_node_count(graph);
        let mut pref_head_labels: Vec<Option<String>> = Vec::new();
        while pref_head_labels.len() < n
            invariant
                pref_head_labels.len() <= n,
                forall|i: int| 0 <= i < pref_head_labels.len() ==> pref_head_labels[i] is None,
            decreases n - pref_head_labels.len(),
        {
            pref_head_labels.push(None);
        }
        let edges = graph_edge_list(graph);
        let mut labels: Vec<String> = Vec::new();
        let mut k: usize = 0;
        while k < edges.len()
            invariant
                k <= edges.len(),
                m == model(graph),
                m.well_formed(),
                n == m.nodes(),
                table_of(edges@) == m.edges,
                pref_head_labels.len() == n,
                labels.len() == k,
                labels_view(pref_head_labels@) == m.marks(k as int),
                forall|e: int| 0 <= e < k ==> (#[trigger] labels[e])@ == plain_label(m.label(e)),
            decreases edges.len() - k,
        {
            assert(0 <= m.source(k as int) < m.nodes());
            let target = edges[k].1;
            let chars = to_chars(edges[k].2.as_str());
            assert(chars@.skip(0) == chars@);
            let sep_idx = find_from(&chars, '|', 0);
            if sep_idx < chars.len() {
                let mark = from_chars(&copy_range(&chars, sep_idx + 1, chars.len()));
                pref_head_labels.set(target, Some(mark));
                labels.push(from_chars(&copy_range(&chars, 0, sep_idx)));
            } else {
                labels.push(edges[k].2.clone());
            }
            k += 1;
        }
        assert(labels@.map_values(|l: String| l@) =~= m.plain_labels());
        (graph_with_labels(graph, &labels), pref_head_labels)
    }

    /// Finds the attachment point for the lifted token: a node below
    /// `cur_head` that is attached with the label `pref_head_rel`, is neither
    /// the token nor below it, lies as near to `cur_head` in the tree as any
    /// such node does, and of those is the nearest to `cur_head` in the
    /// sentence.
    pub(crate) fn search_attachment_point(
        &self,
        graph: &Graph<(), String, Directed>,
        cur_head: usize,
        lifted_node: usize,
        pref_head_rel: &String,
    ) -> (r: Option<usize>)
        requires
            model(graph).well_formed(),
            model(graph).single_headed(),
            cur_head < model(graph).nodes(),
            lifted_node < model(graph).nodes(),
        ensures
            match r {
                Some(node) => model(graph).attachment_point(
                    cur_head as int,
                    lifted_node as int,
                    pref_head_rel@,
                ) == Some(node as int) && node < model(graph).nodes(),
                None => model(graph).attachment_point(
                    cur_head as int,
                    lifted_node as int,
                    pref_head_rel@,
                ) is None,
            },
    {
        let ghost m = model(graph);
        let ghost n = m.nodes();
        let mut walker = BfsWithDepth::new(graph, cur_head);
        walker.exclude(lifted_node);
        let ghost start = walker@;
        let ghost all = visits(start, m);
        let ghost mut fuel: nat = start.remaining(n);
        let ghost mut seen: Seq<(int, int)> = Seq::empty();
        let mut best: Option<(usize, usize)> = None;
        let mut first = true;
        loop
            invariant
                m == model(graph),
                m.well_formed(),
                m.single_headed(),
                n == m.nodes(),
                cur_head < n,
                walker.well_formed(),
                walker.bound() == n,
                fuel >= walker@.remaining(n),
                seen + walk(walker@, m, fuel) == all,
                first == (seen.len() == 0),
                match best {
                    Some((node, depth)) => m.best_visit(seen, cur_head as int, pref_head_rel@)
                        == Some((node as int, depth as int)) && node < n,
                    None => m.best_visit(seen, cur_head as int, pref_head_rel@) is None,
                },
            ensures
                match best {
                    Some((node, depth)) => m.best_visit(all, cur_head as int, pref_head_rel@)
                        == Some((node as int, depth as int)) && node < n,
                    None => m.best_visit(all, cur_head as int, pref_head_rel@) is None,
                },
            decreases fuel,
        {
            let ghost state = walker@;
            match walker.next(graph) {
                None => {
                    break ;
                },
                Some((node, depth)) => {
                    proof {
                        crate::graph_algo::lemma_step(state, m);
                        assert(seen.push((node as int, depth as int)).drop_last() == seen);
                        seen = seen.push((node as int, depth as int));
                        fuel = (fuel - 1) as nat;
                    }
                    if first {
                        first = false;
                    } else if self.is_attached_with(graph, node, pref_head_rel) {
                        best = match best {
                            None => Some((node, depth)),
                            Some((b, d)) => if depth == d && span(node, cur_head) < span(
                                b,
                                cur_head,
                            ) {
                                Some((node, depth))
                            } else {
                                Some((b, d))
                            },
                        };
                    }
                },
            }
        }
        match best {
            Some((node, _)) => Some(node),
            None => None,
        }
    }

    /// Whether `node` is attached to its head with the label `label`.
    fn is_attached_with(&self, graph: &Graph<(), String, Directed>, node: usize, label: &String) -> (r:
        bool)
        requires
            model(graph).single_headed(),
            node < model(graph).nodes(),
        ensures
            r == model(graph).is_candidate(node as int, label@),
    {
        let ghost m = model(graph);
        match graph_first_incoming(graph, node) {
            Some(edge) => {
                assert(m.target(edge as int) == node);
                *graph_edge_label(graph, edge) == *label
            },
            None => {
                false
            },
        }
    }

    /// Attaches the first token of `lifted_sorted` for which there is an
    /// attachment point, and returns its index in the list.
    pub(crate) fn deprojectivize_next(
        &self,
        graph: &mut Graph<(), String, Directed>,
        lifted_sorted: &Vec<usize>,
        head_labels: &Vec<Option<String>>,
    ) -> (r: Option<usize>)
        requires
            model(old(graph)).well_formed(),
            model(old(graph)).single_headed(),
            model(old(graph)).edges.len() <= u32::MAX,
            head_labels.len() == model(old(graph)).nodes(),
            attachable(model(old(graph)), as_ints(lifted_sorted@), labels_view(head_labels@)),
        ensures
            match r {
                Some(idx) => model(old(graph)).reattach_from(
                    as_ints(lifted_sorted@),
                    labels_view(head_labels@),
                    0,
                ) == Some((idx as int, model(final(graph)))) && idx < lifted_sorted.len()
                    && model(final(graph)).well_formed() && model(final(graph)).single_headed()
                    && model(final(graph)).nodes() == model(old(graph)).nodes() && model(
                    final(graph),
                ).edges.len() == model(old(graph)).edges.len() && forall|c: int|
                    model(old(graph)).has_head(c) <==> #[trigger] model(final(graph)).has_head(c),
                None => model(old(graph)).reattach_from(
                    as_ints(lifted_sorted@),
                    labels_view(head_labels@),
                    0,
                ) is None && model(final(graph)) == model(old(graph)),
            },
    {
        let ghost m = model(graph);
        let ghost list = as_ints(lifted_sorted@);
        let ghost marks = labels_view(head_labels@);
        let mut idx: usize = 0;
        while idx < lifted_sorted.len()
            invariant
                idx <= lifted_sorted.len(),
                m == model(graph),
                m == model(old(graph)),
                m.well_formed(),
                m.single_headed(),
                m.edges.len() <= u32::MAX,
                head_labels.len() == m.nodes(),
                list == as_ints(lifted_sorted@),
                marks == labels_view(head_labels@),
                attachable(m, list, marks),
                m.reattach_from(list, marks, 0) == m.reattach_from(list, marks, idx as int),
            decreases lifted_sorted.len() - idx,
        {
            let lifted_node = lifted_sorted[idx];
            let pref_head_rel = match &head_labels[lifted_node] {
                Some(label) => label,
                None => vstd::pervasive::unreached(),
            };
            let head_edge = match graph_first_incoming(graph, lifted_node) {
                Some(edge) => edge,
                None => {
                    vstd::pervasive::unreached()
                },
            };
            let cur_head = match graph_edge_endpoints(graph, head_edge) {
                Some((cur_head, _)) => cur_head,
                None => vstd::pervasive::unreached(),
            };
            assert(0 <= m.source(head_edge as int) < m.nodes());
            match self.search_attachment_point(graph, cur_head, lifted_node, pref_head_rel) {
                Some(new_head) => {
                    let head_rel = match graph_remove_edge(graph, head_edge) {
                        Some(rel) => rel,
                        None => vstd::pervasive::unreached(),
                    };
                    proof {
                        m.lemma_remove_edge(head_edge as int);
                        m.lemma_move_edge(head_edge as int, new_head as int, head_rel@);
                    }
                    graph_add_edge(graph, new_head, lifted_node, head_rel);
                    return Some(idx);
                },
                None => {},
            }
            idx += 1;
        }
        None
    }
}

impl GraphModel {
    /// Taking the marks from the labels changes nothing but the labels.
    pub proof fn lemma_plain(self)
        requires
            self.well_formed(),
        ensures
            self.plain().well_formed(),
            self.plain().nodes() == self.nodes(),
            self.plain().edges.len() == self.edges.len(),
            self.single_headed() ==> self.plain().single_headed(),
            forall|e: int|
                0 <= e < self.edges.len() ==> #[trigger] self.plain().target(e) == self.target(e)
                    && self.plain().source(e) == self.source(e),
            forall|c: int| self.has_head(c) ==> #[trigger] self.plain().has_head(c),
    {
        self.lemma_relabel(self.plain_labels());
        let p = self.plain();
        assert forall|c: int| self.has_head(c) implies #[trigger] p.has_head(c) by {
            let e = self.head_edge(c);
            assert(p.target(e) == c);
        }
        if self.single_headed() {
            assert forall|e: int| 0 <= e < p.edges.len() implies 1 <= #[trigger] p.target(e) by {
                assert(1 <= self.target(e));
            }
            assert forall|e: int, f: int|
                0 <= e < p.edges.len() && 0 <= f < p.edges.len() && #[trigger] p.target(e)
                    == #[trigger] p.target(f) implies e == f by {
                assert(self.target(e) == self.target(f));
            }
        }
    }

    /// A node has a mark just where an edge into it carries one.
    pub proof fn lemma_marks(self, k: int)
        requires
            self.well_formed(),
            0 <= k <= self.edges.len(),
        ensures
            self.marks(k).len() == self.nodes(),
            forall|c: int|
                0 <= c < self.nodes() && (#[trigger] self.marks(k)[c]) is Some ==> self.has_head(c),
            forall|e: int|
                0 <= e < k && head_label(#[trigger] self.label(e)) is Some ==> self.marks(
                    k,
                )[self.target(e)] is Some,
            (forall|e: int| 0 <= e < k ==> head_label(#[trigger] self.label(e)) is None)
                ==> forall|c: int| 0 <= c < self.nodes() ==> (#[trigger] self.marks(k)[c]) is None,
        decreases k,
    {
        if k > 0 {
            self.lemma_marks(k - 1);
            assert(0 <= self.source(k - 1) < self.nodes());
            let now = self.marks(k);
            assert forall|e: int|
                0 <= e < k && head_label(#[trigger] self.label(e)) is Some implies now[self.target(
                e,
            )] is Some by {
                assert(0 <= self.source(e) < self.nodes());
            }
        }
    }
}

impl GraphModel {
    /// What the best candidate is, among visits whose depths never descend:
    /// a candidate behind the first visit, of the least depth that a
    /// candidate has, and as near to `head` as any candidate of that depth.
    /// There is none just where no visit behind the first is a candidate.
    pub proof fn lemma_best_visit(self, visits: Seq<(int, int)>, head: int, label: Seq<char>)
        requires
            forall|i: int, j: int|
                0 <= i <= j < visits.len() ==> (#[trigger] visits[i]).1 <= (#[trigger] visits[j]).1,
        ensures
            match self.best_visit(visits, head, label) {
                Some(best) => {
                    &&& exists|i: int| 1 <= i < visits.len() && #[trigger] visits[i] == best
                    &&& self.is_candidate(best.0, label)
                    &&& forall|j: int|
                        1 <= j < visits.len() && self.is_candidate((#[trigger] visits[j]).0, label)
                            ==> best.1 <= visits[j].1 && (visits[j].1 == best.1 ==> distance(
                            best.0,
                            head,
                        ) <= distance(visits[j].0, head))
                },
                None => forall|j: int|
                    1 <= j < visits.len() ==> !self.is_candidate((#[trigger] visits[j]).0, label),
            },
        decreases visits.len(),
    {
        if visits.len() > 1 {
            let front = visits.drop_last();
            let last = visits.len() - 1;
            self.lemma_best_visit(front, head, label);
            let before = self.best_visit(front, head, label);
            let now = self.best_visit(visits, head, label);
            assert forall|j: int| 1 <= j < last implies front[j] == visits[j] by {}
            match now {
                Some(best) => {
                    if before is Some && now == before {
                        assert forall|j: int|
                            1 <= j < visits.len() && self.is_candidate(
                                (#[trigger] visits[j]).0,
                                label,
                            ) implies best.1 <= visits[j].1 && (visits[j].1 == best.1 ==> distance(
                            best.0,
                            head,
                        ) <= distance(visits[j].0, head)) by {
                        }
                    }
                },
                None => {
                },
            }
        }
    }

    /// What the attachment point is: a node other than `head` and the lifted
    /// token, reached from `head` by a path that does not touch the token.
    /// It is attached with the label `label`, no candidate that the walk
    /// visits lies less deep below `head`, and none of its depth is nearer
    /// to `head` in the sentence. There is none just where the walk visits
    /// no candidate.
    pub proof fn lemma_attachment_point(self, head: int, lifted: int, label: Seq<char>)
        requires
            self.well_formed(),
            0 <= head < self.nodes(),
            0 <= lifted < self.nodes(),
            head != lifted,
        ensures
            ({
                let walked = visits(GraphModel::search_start(head, lifted), self);
                match self.attachment_point(head, lifted, label) {
                    Some(node) => {
                        &&& node != lifted
                        &&& node != head
                        &&& self.reaches_past(head, node, lifted)
                        &&& 0 <= node < self.nodes()
                        &&& self.is_candidate(node, label)
                        &&& exists|i: int|
                            1 <= i < walked.len() && (#[trigger] walked[i]).0 == node && forall|
                                j: int,
                            |
                                1 <= j < walked.len() && self.is_candidate(
                                    (#[trigger] walked[j]).0,
                                    label,
                                ) ==> walked[i].1 <= walked[j].1 && (walked[j].1 == walked[i].1
                                    ==> distance(node, head) <= distance(walked[j].0, head))
                    },
                    None => forall|j: int|
                        1 <= j < walked.len() ==> !self.is_candidate(
                            (#[trigger] walked[j]).0,
                            label,
                        ),
                }
            }),
    {
        let start = GraphModel::search_start(head, lifted);
        let n = self.nodes();
        assert(start.fits(n)) by {
            crate::graph_algo::lemma_unseen_empty(n);
            crate::graph_algo::lemma_unseen_insert(Set::empty(), n, head);
            crate::graph_algo::lemma_unseen_insert(set![head], n, lifted);
        }
        let walked = visits(start, self);
        crate::graph_algo::lemma_walk(start, self, start.remaining(n));
        crate::graph_algo::lemma_walk_once(start, self, start.remaining(n));
        assert(start.passing(self, head, lifted)) by {
            self.lemma_reaches_self(head);
            assert(self.is_path(seq![head]) && seq![head][0] == head && seq![head].last() == head
                && forall|i: int| 0 <= i < seq![head].len() ==> seq![head][i] != lifted);
        }
        crate::levels::lemma_walk_past(start, self, head, lifted, start.remaining(n));
        self.lemma_best_visit(walked, head, label);
        if let Some(best) = self.best_visit(walked, head, label) {
            assert(walked[0].0 == head) by {}
        }
    }
}

/// A sentence without a vertical bar in its labels carries no mark.
pub proof fn lemma_unmarked(s: Seq<TokenView>)
    requires
        unlabelled(s) is None,
        forall|i: int|
            0 <= i < s.len() ==> ((#[trigger] s[i]).head_rel matches Some(label) ==> head_label(
                label,
            ) is None),
    ensures
        !sentence_graph(s).has_marks(),
{
    GraphModel::lemma_build_edges(sentence_edges(s));
    lemma_sentence_edges(s);
    let m = sentence_graph(s);
    if m.has_marks() {
        let e = choose|e: int| 0 <= e < m.edges.len() && head_label(#[trigger] m.label(e)) is Some;
        let edge = sentence_edges(s)[e];
        assert(s[edge.1 - 1].head_rel == Some(edge.2));
    }
}

/// The round trip keeps a projective sentence without marks: projectivizing
/// it gives a copy of it, the copy carries no mark, and so deprojectivizing
/// the copy gives a copy again, which is the same copy.
pub proof fn lemma_round_trip_projective(s: Seq<TokenView>)
    requires
        is_projective(s),
        unlabelled(s) is None,
        forall|i: int|
            0 <= i < s.len() ==> ((#[trigger] s[i]).head_rel matches Some(label) ==> head_label(
                label,
            ) is None),
    ensures
        projectivized(sentence_graph(s), sentence_graph(s)),
        write_back(copied(s), sentence_graph(s).edges) == copied(s),
        unlabelled(copied(s)) is None,
        !sentence_graph(copied(s)).has_marks(),
        copied(copied(s)) == copied(s),
{
    lemma_projective_kept(s);
    lemma_copied_edges(s);
    assert forall|i: int| 0 <= i < copied(s).len() implies ((#[trigger] copied(s)[i]).head_rel matches Some(
        label,
    ) ==> head_label(label) is None) by {
        assert(copied(s)[i].head_rel == s[i].head_rel);
    }
    lemma_unmarked(copied(s));
    assert(copied(copied(s)) =~= copied(s));
}

/// Whether a node carries a mark.
fn any_mark(labels: &Vec<Option<String>>) -> (r: bool)
    ensures
        r == exists|c: int| 0 <= c < labels.len() && (#[trigger] labels[c]) is Some,
{
    let mut i: usize = 0;
    while i < labels.len()
        invariant
            i <= labels.len(),
            forall|c: int| 0 <= c < i ==> (#[trigger] labels[c]) is None,
        decreases labels.len() - i,
    {
        if labels[i].is_some() {
            return true;
        }
        i += 1;
    }
    false
}

/// A transformation that undoes what a projectivizer did.
pub trait Deprojectivize {
    /// The sentence with the marks of the projectivizer taken from its
    /// labels and the marked tokens attached again. A token with a head and
    /// no label is an error, which names the first such token.
    fn deprojectivize(&self, sentence: &Sentence) -> (r: Result<Sentence, GraphError>)
        requires
            sentence.len() < u32::MAX,
            forall|i: int|
                0 <= i < sentence.len() ==> (#[trigger] sentence[i]@.head matches Some(h) ==> h
                    < u32::MAX),
        ensures
            match r {
                Ok(restored) => {
                    &&& unlabelled(sentence_view(sentence@)) is None
                    &&& restored.len() == sentence.len()
                },
                Err(e) => {
                    &&& unlabelled(sentence_view(sentence@)) matches Some(i)
                    &&& e.message() == missing_label(
                        sentence[i]@.head.unwrap() as nat,
                        (i + 1) as nat,
                    )
                },
            },
    ;
}

impl Deprojectivize for HeadProjectivizer {
    /// The sentence deprojectivized. Where no label carries a mark, the
    /// result is a copy of the sentence. Otherwise the marks are taken from
    /// the labels, the marked tokens are listed in breadth-first order from
    /// the root, and round after round the first token of the list that
    /// finds an attachment point below its head is attached there and leaves
    /// the list. A token that finds none keeps its head, with its label
    /// without the mark.
    fn deprojectivize(&self, sentence: &Sentence) -> (r: Result<Sentence, GraphError>)
        ensures
            r matches Ok(restored) ==> sentence_view(restored@) == if sentence_graph(
                sentence_view(sentence@),
            ).has_marks() {
                write_back(
                    copied(sentence_view(sentence@)),
                    sentence_graph(sentence_view(sentence@)).deprojectivized().edges,
                )
            } else {
                copied(sentence_view(sentence@))
            },
    {
        let ghost s = sentence_view(sentence@);
        let ghost start = sentence_graph(s);
        let graph = match sentence_to_graph(sentence) {
            Ok(graph) => graph,
            Err(e) => {
                return Err(e);
            },
        };
        proof {
            lemma_sentence_graph(s);
            start.lemma_plain();
            start.lemma_marks(start.edges.len() as int);
        }
        // The marks leave the labels; each marked node keeps its mark.
        let (mut graph, head_labels) = self.prepare_deproj(&graph);
        let ghost marks = labels_view(head_labels@);
        let ghost n = start.nodes();
        if !any_mark(&head_labels) {
            proof {
                if start.has_marks() {
                    let e = choose|e: int|
                        0 <= e < start.edges.len() && head_label(#[trigger] start.label(e)) is Some;
                    assert(0 <= start.source(e) < start.nodes());
                }
            }
            return Ok(copy_sentence(sentence));
        }
        proof {
            let c = choose|c: int| 0 <= c < head_labels.len() && (#[trigger] head_labels[c]) is Some;
            assert(marks[c] == optional_view(head_labels[c]));
        }
        // The marked tokens, the shallowest first.
        let order = bfs_nodes(&graph, 0);
        let mut lifted_sorted: Vec<usize> = Vec::new();
        let ghost all = as_ints(order@);
        let mut i: usize = 0;
        while i < order.len()
            invariant
                i <= order.len(),
                all == as_ints(order@),
                marks == labels_view(head_labels@),
                head_labels.len() == n,
                n == start.nodes(),
                start.well_formed(),
                marks == start.marks(start.edges.len() as int),
                forall|k: int| 0 <= k < order.len() ==> order[k] < n,
                forall|c: int| 0 <= c < n && (#[trigger] marks[c]) is Some ==> start.has_head(c),
                as_ints(lifted_sorted@) == all.take(i as int).filter(GraphModel::is_marked(marks)),
                forall|k: int|
                    0 <= k < lifted_sorted.len() ==> lifted_sorted[k] < n && start.has_head(
                        lifted_sorted[k] as int,
                    ) && marks[lifted_sorted[k] as int] is Some,
            decreases order.len() - i,
        {
            let node = order[i];
            proof {
                all.take(i as int).lemma_filter_push(node as int, GraphModel::is_marked(marks));
                assert(all.take(i + 1) == all.take(i as int).push(node as int));
            }
            if head_labels[node].is_some() {
                lifted_sorted.push(node);
            }
            i += 1;
        }
        assert(all.take(order.len() as int) == all);
        let ghost goal = start.deprojectivized();
        // One token is attached again in each round, until a round finds
        // no place for any of those that are left.
        loop
            invariant
                marks == labels_view(head_labels@),
                head_labels.len() == n,
                model(&graph).well_formed(),
                model(&graph).single_headed(),
                model(&graph).nodes() == n,
                model(&graph).edges.len() <= sentence.len(),
                sentence.len() < u32::MAX,
                attachable(model(&graph), as_ints(lifted_sorted@), marks),
                forall|c: int| #[trigger] model(&graph).has_head(c) ==> 1 <= c <= sentence.len(),
                model(&graph).reattach_all(
                    as_ints(lifted_sorted@),
                    marks,
                    lifted_sorted.len() as nat,
                ) == goal,
            ensures
                model(&graph) == goal,
                model(&graph).well_formed(),
                forall|c: int| #[trigger] model(&graph).has_head(c) ==> 1 <= c <= sentence.len(),
            decreases lifted_sorted.len(),
        {
            let ghost list = as_ints(lifted_sorted@);
            match self.deprojectivize_next(&mut graph, &lifted_sorted, &head_labels) {
                Some(idx) => {
                    proof {
                        assert(as_ints(lifted_sorted@.remove(idx as int)) =~= list.remove(
                            idx as int,
                        ));
                    }
                    lifted_sorted.remove(idx);
                },
                None => {
                    break ;
                },
            }
        }
        proof {
            let m = model(&graph);
            assert forall|e: int| 0 <= e < m.edges.len() implies 1 <= #[trigger] m.target(e)
                <= sentence.len() && 0 <= m.source(e) <= usize::MAX by {
                assert(m.has_head(m.target(e)));
            }
        }
        Ok(update_sentence(&graph, sentence))
    }
}

/// The distance between two positions.
fn span(a: usize, b: usize) -> (d: usize)
    ensures
        d == distance(a as int, b as int),
{
    if a <= b {
        b - a
    } else {
        a - b
    }
}

} // verus!
