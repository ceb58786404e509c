//! Sentences and their graphs: what the edges of a sentence are, when the
//! graph of a sentence is a tree, and what writing a graph back into a
//! sentence gives.

use crate::graph::GraphModel;
use crate::proj::{
    ancestor, copied, heads_in_sentence, heads_ranked, heads_within, is_dependency_tree, is_projective, lifted_by,
    projectivized, sentence_edges, sentence_graph, unlabelled, write_back,
};
use crate::token::TokenView;
use crate::tree::{lemma_rank_sum_positive, rank_sum};
use vstd::prelude::*;

verus! {

/// The graph of a sentence whose edges join nodes below `bound` holds the
/// edges of the sentence and is well-formed. It has the root and a node for
/// every token; it has no other node where `bound` allows none.
pub proof fn lemma_graph_of(s: Seq<TokenView>, bound: int)
    requires
        forall|i: int|
            0 <= i < sentence_edges(s).len() ==> 0 <= (#[trigger] sentence_edges(s)[i]).0 < bound
                && 0 <= sentence_edges(s)[i].1 < bound,
    ensures
        sentence_graph(s).edges == sentence_edges(s),
        sentence_graph(s).well_formed(),
        sentence_graph(s).nodes() >= s.len() + 1,
        bound <= s.len() + 1 ==> sentence_graph(s).nodes() == s.len() + 1,
{
    GraphModel::lemma_build(sentence_edges(s), bound);
    GraphModel::build(sentence_edges(s)).lemma_grow(s.len() as int + 1);
}

/// The graph of a sentence in which every head has a label is well-formed,
/// no two of its edges end in one node, and its edges end in tokens. Its
/// nodes are the root and the tokens, where every head is one of these;
/// otherwise there are nodes up to the largest head.
pub proof fn lemma_sentence_graph(s: Seq<TokenView>)
    requires
        unlabelled(s) is None,
        s.len() < u32::MAX,
        forall|i: int| 0 <= i < s.len() ==> ((#[trigger] s[i]).head matches Some(h) ==> h < u32::MAX),
    ensures
        sentence_graph(s).well_formed(),
        sentence_graph(s).single_headed(),
        sentence_graph(s).edges == sentence_edges(s),
        sentence_graph(s).edges.len() <= s.len(),
        forall|e: int|
            0 <= e < sentence_graph(s).edges.len() ==> 1 <= #[trigger] sentence_graph(s).target(e)
                <= s.len(),
        s.len() + 1 <= sentence_graph(s).nodes() <= u32::MAX,
        heads_in_sentence(s) ==> sentence_graph(s).nodes() == s.len() + 1,
{
    let table = sentence_edges(s);
    lemma_sentence_edges(s);
    lemma_graph_of(s, u32::MAX as int);
    GraphModel::lemma_build(table, u32::MAX as int);
    GraphModel::build(table).lemma_grow(s.len() as int + 1);
    if heads_in_sentence(s) {
        assert forall|i: int| 0 <= i < table.len() implies 0 <= (#[trigger] table[i]).0 < s.len()
            + 1 && 0 <= table[i].1 < s.len() + 1 by {
            assert(s[table[i].1 - 1].head == Some(table[i].0 as usize));
        }
        lemma_graph_of(s, s.len() as int + 1);
    }
}

/// The first unlabelled token of a sentence is the first one of every
/// beginning of the sentence that has one.
pub proof fn lemma_unlabelled_prefix(s: Seq<TokenView>, k: int)
    requires
        0 <= k <= s.len(),
        unlabelled(s.take(k)) is Some,
    ensures
        unlabelled(s) == unlabelled(s.take(k)),
    decreases s.len() - k,
{
    if k < s.len() {
        assert(s.take(k + 1).drop_last() == s.take(k));
        lemma_unlabelled_prefix(s, k + 1);
    } else {
        assert(s.take(k) == s);
    }
}

/// The steps from a token equal one step less from its head, and stay
/// within the sentence.
pub proof fn lemma_ancestor(s: Seq<TokenView>, c: int, k: nat)
    requires
        heads_within(s),
        0 <= c <= s.len(),
    ensures
        0 <= ancestor(s, c, k) <= s.len(),
        c >= 1 ==> ancestor(s, c, k + 1) == ancestor(s, s[c - 1].head.unwrap() as int, k),
        c == 0 ==> ancestor(s, c, k) == 0,
    decreases k,
{
    if k > 0 {
        lemma_ancestor(s, c, (k - 1) as nat);
    }
}

/// Under a ranking, each step towards the root lowers the rank.
pub proof fn lemma_ranks_descend(s: Seq<TokenView>, rank: Seq<int>, c: int, k: nat)
    requires
        heads_ranked(s, rank),
        1 <= c <= s.len(),
        forall|j: nat| j <= k ==> ancestor(s, c, j) != 0,
    ensures
        1 <= ancestor(s, c, k) <= s.len(),
        rank[ancestor(s, c, k)] + k <= rank[c],
    decreases k,
{
    if k > 0 {
        lemma_ranks_descend(s, rank, c, (k - 1) as nat);
    }
}

/// A sentence whose tokens all hang from the root, each with a label, is a
/// projective dependency tree.
pub proof fn lemma_flat_sentence(s: Seq<TokenView>)
    requires
        forall|i: int| 0 <= i < s.len() ==> (#[trigger] s[i]).head == Some(0usize) && s[i].head_rel is Some,
    ensures
        is_dependency_tree(s),
        is_projective(s),
{
    let n = s.len() as int;
    let rank = Seq::new((n + 1) as nat, |c: int| if c == 0 { 0int } else { 1int });
    assert(heads_ranked(s, rank));
    lemma_labelled(s);
    lemma_sentence_edges(s);
    let table = sentence_edges(s);
    assert forall|c: int| 1 <= c <= n implies #[trigger] targeted(table, c) by {
        assert(s[c - 1].head is Some);
    }
    lemma_count_targets(table, n);
    lemma_graph_of(s, n + 1);
    let m = sentence_graph(s);
    m.lemma_projective();
    assert forall|e: int| 0 <= e < m.edges.len() implies !#[trigger] m.crossing(e) by {
        if m.crossing(e) {
            let j = choose|j: int| #[trigger] m.between(e, j) && !m.reaches(m.source(e), j);
            let f = j - 1;
            assert(m.source(f) == 0 && m.target(f) == j);
            m.lemma_reaches_self(0);
            m.lemma_reaches_extend(0, 0, j);
        }
    }
}

/// A dependency tree of one token, with a label, is projective: the token
/// hangs from the root.
pub proof fn lemma_single_token(s: Seq<TokenView>)
    requires
        s.len() == 1,
        is_dependency_tree(s),
        s[0].head_rel is Some,
    ensures
        s[0].head == Some(0usize),
        is_projective(s),
{
    lemma_flat_sentence(s);
}

/// Once no edge is non-projective, further rounds change nothing.
pub proof fn lemma_lifted_stays(m: GraphModel, rounds: nat, later: nat)
    requires
        lifted_by(m, rounds).0.non_projective().len() == 0,
        rounds <= later,
    ensures
        lifted_by(m, later) == lifted_by(m, rounds),
    decreases later,
{
    if rounds < later {
        lemma_lifted_stays(m, rounds, (later - 1) as nat);
    }
}

/// Whether one of the first `rounds` rounds of projectivizing `m` leaves no
/// non-projective edge.
pub open spec fn settled_within(m: GraphModel, rounds: nat) -> bool {
    exists|j: nat| j <= rounds && (#[trigger] lifted_by(m, j)).0.non_projective().len() == 0
}

/// Rounds of projectivizing keep a tree a tree under the same ranks, with
/// the same nodes. Until a round finds no non-projective edge, every round
/// lowers the sum of the ranks of the sources.
pub proof fn lemma_rounds(m: GraphModel, rank: Seq<int>, rounds: nat)
    requires
        m.tree_by(rank),
    ensures
        lifted_by(m, rounds).0.tree_by(rank),
        lifted_by(m, rounds).0.nodes() == m.nodes(),
        0 <= rank_sum(lifted_by(m, rounds).0.edges, rank),
        settled_within(m, rounds) || rank_sum(lifted_by(m, rounds).0.edges, rank) + rounds
            <= rank_sum(m.edges, rank),
    decreases rounds,
{
    if rounds == 0 {
        assert forall|e: int| 0 <= e < m.edges.len() implies 0 <= rank[(#[trigger] m.edges[e]).0] by {
            assert(0 <= rank[m.source(e)]);
        }
        lemma_rank_sum_positive(m.edges, rank);
    } else {
        let before = (rounds - 1) as nat;
        lemma_rounds(m, rank, before);
        let (g, lifted) = lifted_by(m, before);
        let found = g.non_projective();
        if found.len() == 0 {
            assert(settled_within(m, rounds));
        } else {
            let all = g.crossing_edges(g.nodes());
            g.lemma_sort_by_span(all);
            g.lemma_crossing_edges(g.nodes());
            assert(found.contains(found[0]));
            assert(all.contains(found[0]));
            g.lemma_crossing_has_head(rank, found[0]);
            g.lemma_lift(lifted, found[0], rank);
            if settled_within(m, before) {
                let j = choose|j: nat|
                    j <= before && (#[trigger] lifted_by(m, j)).0.non_projective().len() == 0;
                assert(j <= rounds);
            }
        }
    }
}

/// Projectivizing a tree comes to an end: after some rounds no edge is
/// non-projective. The graph it ends in is a tree under the same ranks, with
/// the same nodes.
pub proof fn lemma_projectivizing_ends(m: GraphModel, rank: Seq<int>)
    requires
        m.tree_by(rank),
    ensures
        exists|g: GraphModel| #[trigger] projectivized(m, g) && g.tree_by(rank) && g.nodes() == m.nodes(),
{
    lemma_rounds(m, rank, 0);
    let rounds = (rank_sum(m.edges, rank) + 1) as nat;
    lemma_rounds(m, rank, rounds);
    assert(settled_within(m, rounds));
    let j = choose|j: nat| j <= rounds && (#[trigger] lifted_by(m, j)).0.non_projective().len() == 0;
    lemma_rounds(m, rank, j);
    let g = lifted_by(m, j).0;
    assert(projectivized(m, g));
}

/// Projectivizing a dependency tree in which every head has a label ends,
/// and what it ends in, written back into a copy of the sentence, is a
/// projective dependency tree of the same length.
pub proof fn lemma_projectivization(s: Seq<TokenView>)
    requires
        is_dependency_tree(s),
        unlabelled(s) is None,
        s.len() <= usize::MAX,
    ensures
        exists|g: GraphModel| #[trigger] projectivized(sentence_graph(s), g),
        forall|g: GraphModel| #[trigger]
            projectivized(sentence_graph(s), g) ==> {
                &&& write_back(copied(s), g.edges).len() == s.len()
                &&& is_dependency_tree(write_back(copied(s), g.edges))
                &&& is_projective(write_back(copied(s), g.edges))
            },
{
    let rank = choose|rank: Seq<int>| heads_ranked(s, rank);
    let m = sentence_graph(s);
    lemma_sentence_tree(s, rank);
    lemma_projectivizing_ends(m, rank);
    let end = choose|g: GraphModel| #[trigger] projectivized(m, g) && g.tree_by(rank) && g.nodes() == m.nodes();
    assert forall|c: int| 1 <= c <= s.len() implies #[trigger] rank[c] <= s.len() by {
        assert(s[c - 1].head is Some);
    }
    assert forall|g: GraphModel| #[trigger] projectivized(m, g) implies {
        &&& write_back(copied(s), g.edges).len() == s.len()
        &&& is_dependency_tree(write_back(copied(s), g.edges))
        &&& is_projective(write_back(copied(s), g.edges))
    } by {
        lemma_projectivized_once(m, g, end);
        lemma_written_tree(copied(s), g, rank, rank);
    }
}

/// A projective sentence in which every head has a label is what
/// projectivizing it gives: its graph has no edge to lift, and its edges,
/// written back into a copy of it, leave the copy as it is.
pub proof fn lemma_projective_kept(s: Seq<TokenView>)
    requires
        is_projective(s),
        unlabelled(s) is None,
    ensures
        projectivized(sentence_graph(s), sentence_graph(s)),
        write_back(copied(s), sentence_graph(s).edges) == copied(s),
{
    let m = sentence_graph(s);
    assert(lifted_by(m, 0).0 == m);
    GraphModel::lemma_build_edges(sentence_edges(s));
    lemma_copied_edges(s);
    lemma_write_back_own(copied(s));
}

/// Projectivizing a graph ends in one graph only.
pub proof fn lemma_projectivized_once(m: GraphModel, first: GraphModel, second: GraphModel)
    requires
        projectivized(m, first),
        projectivized(m, second),
    ensures
        first == second,
{
    let j = choose|rounds: nat| (#[trigger] lifted_by(m, rounds)).0 == first;
    let k = choose|rounds: nat| (#[trigger] lifted_by(m, rounds)).0 == second;
    if j <= k {
        lemma_lifted_stays(m, j, k);
    } else {
        lemma_lifted_stays(m, k, j);
    }
}

/// The edges of a sentence in which every token that has a head has a label:
/// there is one for each token with a head, and it ends in that token.
pub proof fn lemma_sentence_edges(s: Seq<TokenView>)
    requires
        unlabelled(s) is None,
    ensures
        sentence_edges(s).len() <= s.len(),
        forall|e: int|
            0 <= e < sentence_edges(s).len() ==> {
                let edge = #[trigger] sentence_edges(s)[e];
                &&& 1 <= edge.1 <= s.len()
                &&& s[edge.1 - 1].head == Some(edge.0 as usize)
                &&& s[edge.1 - 1].head_rel == Some(edge.2)
                &&& 0 <= edge.0 <= usize::MAX
            },
        forall|e: int, f: int|
            0 <= e < f < sentence_edges(s).len() ==> (#[trigger] sentence_edges(s)[e]).1 < (
            #[trigger] sentence_edges(s)[f]).1,
        forall|i: int|
            0 <= i < s.len() && (#[trigger] s[i]).head is Some ==> exists|e: int|
                0 <= e < sentence_edges(s).len() && (#[trigger] sentence_edges(s)[e]).1 == i + 1,
    decreases s.len(),
{
    if s.len() > 0 {
        let front = s.drop_last();
        lemma_sentence_edges(front);
        let rest = sentence_edges(front);
        let all = sentence_edges(s);
        assert forall|e: int, f: int| 0 <= e < f < all.len() implies (#[trigger] all[e]).1 < (
        #[trigger] all[f]).1 by {}
        assert forall|i: int| 0 <= i < s.len() && (#[trigger] s[i]).head is Some implies exists|
            e: int,
        |
            0 <= e < all.len() && (#[trigger] all[e]).1 == i + 1 by {
            if i < front.len() {
                assert(front[i] == s[i]);
                let e = choose|e: int| 0 <= e < rest.len() && (#[trigger] rest[e]).1 == i + 1;
                assert(all[e] == rest[e]);
            } else {
                assert(all[all.len() - 1].1 == i + 1);
            }
        }
    }
}

/// The graph of a sentence that is a tree, with a label for every head, is a
/// tree under the same ranks, with one node more than the sentence has
/// tokens.
pub proof fn lemma_sentence_tree(s: Seq<TokenView>, rank: Seq<int>)
    requires
        heads_ranked(s, rank),
        unlabelled(s) is None,
    ensures
        sentence_graph(s).tree_by(rank),
        sentence_graph(s).nodes() == s.len() + 1,
        sentence_graph(s).edges == sentence_edges(s),
        sentence_graph(s).edges.len() == s.len(),
        0 <= rank_sum(sentence_graph(s).edges, rank),
{
    let table = sentence_edges(s);
    let m = sentence_graph(s);
    lemma_sentence_edges(s);
    assert forall|i: int| 0 <= i < table.len() implies 0 <= (#[trigger] table[i]).0 < s.len() + 1
        && 0 <= table[i].1 < s.len() + 1 by {
        assert(s[table[i].1 - 1].head == Some(table[i].0 as usize));
    }
    lemma_graph_of(s, s.len() as int + 1);
    assert forall|c: int| 1 <= c <= s.len() implies #[trigger] targeted(table, c) by {
        assert(s[c - 1].head is Some);
    }
    lemma_count_targets(table, s.len() as int);
    assert forall|c: int| 1 <= c < m.nodes() implies #[trigger] m.has_head(c) by {
        assert(targeted(table, c));
        let e = choose|e: int| 0 <= e < table.len() && (#[trigger] table[e]).1 == c;
        assert(m.target(e) == c);
    }
    assert forall|e: int| 0 <= e < m.edges.len() implies 0 <= rank[#[trigger] m.source(e)]
        < rank[m.target(e)] by {
        assert(s[table[e].1 - 1].head == Some(table[e].0 as usize));
    }
    assert forall|e: int| 0 <= e < m.edges.len() implies 0 <= rank[(#[trigger] m.edges[e]).0] by {
        assert(0 <= rank[m.source(e)]);
    }
    lemma_rank_sum_positive(m.edges, rank);
}

/// Whether an edge of `table` ends in node `c`.
pub open spec fn targeted(table: Seq<(int, int, Seq<char>)>, c: int) -> bool {
    exists|e: int| 0 <= e < table.len() && (#[trigger] table[e]).1 == c
}

/// A table with strictly ascending targets between 1 and `n`, in which
/// every one of these numbers is a target, has `n` edges, and edge `e` ends
/// in `e + 1`.
pub proof fn lemma_count_targets(table: Seq<(int, int, Seq<char>)>, n: int)
    requires
        0 <= n,
        forall|e: int| 0 <= e < table.len() ==> 1 <= (#[trigger] table[e]).1 <= n,
        forall|e: int, f: int|
            0 <= e < f < table.len() ==> (#[trigger] table[e]).1 < (#[trigger] table[f]).1,
        forall|c: int| 1 <= c <= n ==> #[trigger] targeted(table, c),
    ensures
        table.len() == n,
        forall|e: int| 0 <= e < table.len() ==> (#[trigger] table[e]).1 == e + 1,
    decreases n,
{
    if n == 0 {
        if table.len() > 0 {
            assert(1 <= table[0].1 <= 0);
        }
    } else {
        assert(targeted(table, n));
        let last = choose|e: int| 0 <= e < table.len() && (#[trigger] table[e]).1 == n;
        if last < table.len() - 1 {
            assert(table[last].1 < table[table.len() - 1].1);
        }
        let front = table.drop_last();
        assert forall|c: int| 1 <= c <= n - 1 implies #[trigger] targeted(front, c) by {
            assert(targeted(table, c));
            let e = choose|e: int| 0 <= e < table.len() && (#[trigger] table[e]).1 == c;
            assert(front[e] == table[e]);
        }
        lemma_count_targets(front, n - 1);
        assert forall|e: int| 0 <= e < table.len() implies (#[trigger] table[e]).1 == e + 1 by {
            if e < front.len() {
                assert(front[e] == table[e]);
            }
        }
    }
}

/// What writing back does where no two edges end in one token: the token at
/// the target of an edge gets the source and the label of that edge, and
/// every other token stays as it is.
pub proof fn lemma_write_back(tokens: Seq<TokenView>, edges: Seq<(int, int, Seq<char>)>)
    requires
        forall|e: int| 0 <= e < edges.len() ==> 1 <= (#[trigger] edges[e]).1 <= tokens.len(),
        forall|e: int, f: int|
            0 <= e < edges.len() && 0 <= f < edges.len() && (#[trigger] edges[e]).1 == (
            #[trigger] edges[f]).1 ==> e == f,
    ensures
        write_back(tokens, edges).len() == tokens.len(),
        forall|e: int|
            0 <= e < edges.len() ==> write_back(tokens, edges)[(#[trigger] edges[e]).1 - 1] == (
            TokenView {
                head: Some(edges[e].0 as usize),
                head_rel: Some(edges[e].2),
                ..tokens[edges[e].1 - 1]
            }),
        forall|i: int|
            0 <= i < tokens.len() && !targeted(edges, i + 1) ==> #[trigger] write_back(
                tokens,
                edges,
            )[i] == tokens[i],
    decreases edges.len(),
{
    let r = write_back(tokens, edges);
    if edges.len() > 0 {
        let front = edges.drop_last();
        let last = edges.len() - 1;
        lemma_write_back(tokens, front);
        assert forall|e: int| 0 <= e < edges.len() implies r[(#[trigger] edges[e]).1 - 1] == (
        TokenView {
            head: Some(edges[e].0 as usize),
            head_rel: Some(edges[e].2),
            ..tokens[edges[e].1 - 1]
        }) by {
            if e < last {
                assert(front[e] == edges[e]);
            }
        }
    }
}

/// Writing the edges of a sentence back into the sentence changes nothing.
pub proof fn lemma_write_back_own(s: Seq<TokenView>)
    requires
        unlabelled(s) is None,
    ensures
        write_back(s, sentence_edges(s)) == s,
{
    let edges = sentence_edges(s);
    lemma_sentence_edges(s);
    lemma_write_back(s, edges);
}

/// A copy of a sentence has the edges of the sentence, and lacks a label
/// where the sentence does.
pub proof fn lemma_copied_edges(s: Seq<TokenView>)
    ensures
        sentence_edges(copied(s)) == sentence_edges(s),
        unlabelled(copied(s)) == unlabelled(s),
    decreases s.len(),
{
    if s.len() > 0 {
        lemma_copied_edges(s.drop_last());
        assert(copied(s).drop_last() == copied(s.drop_last()));
    }
}

/// A path of one graph is a path of every graph that has its edges.
pub proof fn lemma_reaches_transfer(m: GraphModel, other: GraphModel, a: int, b: int)
    requires
        forall|x: int, y: int| #[trigger] m.has_edge(x, y) ==> other.has_edge(x, y),
        m.reaches(a, b),
    ensures
        other.reaches(a, b),
{
    let p = choose|p: Seq<int>| #[trigger] m.is_path(p) && p[0] == a && p.last() == b;
    assert forall|i: int| 0 <= i < p.len() - 1 implies #[trigger] other.has_edge(p[i], p[i + 1]) by {
        assert(m.has_edge(p[i], p[i + 1]));
    }
    assert(other.is_path(p));
}

/// The sentence into which the edges of a projective tree were written is a
/// projective tree: its graph joins the same nodes as the tree.
pub proof fn lemma_written_tree(
    tokens: Seq<TokenView>,
    m: GraphModel,
    rank: Seq<int>,
    sentence_rank: Seq<int>,
)
    requires
        m.tree_by(rank),
        m.nodes() == tokens.len() + 1,
        rank == sentence_rank,
        forall|c: int| 1 <= c <= tokens.len() ==> #[trigger] sentence_rank[c] <= tokens.len(),
        tokens.len() <= usize::MAX,
        m.non_projective().len() == 0,
    ensures
        write_back(tokens, m.edges).len() == tokens.len(),
        heads_ranked(write_back(tokens, m.edges), sentence_rank),
        is_dependency_tree(write_back(tokens, m.edges)),
        is_projective(write_back(tokens, m.edges)),
{
    let n = tokens.len() as int;
    let r = write_back(tokens, m.edges);
    assert forall|e: int| 0 <= e < m.edges.len() implies 1 <= (#[trigger] m.edges[e]).1 <= n by {
        assert(0 <= m.source(e) < m.nodes());
    }
    assert forall|e: int, f: int|
        0 <= e < m.edges.len() && 0 <= f < m.edges.len() && (#[trigger] m.edges[e]).1 == (
        #[trigger] m.edges[f]).1 implies e == f by {
        assert(m.target(e) == m.target(f));
    }
    lemma_write_back(tokens, m.edges);
    // Every token has the head and the label of its edge.
    assert forall|i: int| 0 <= i < n implies {
        &&& (#[trigger] r[i]).head == Some(m.source(m.head_edge(i + 1)) as usize)
        &&& r[i].head_rel == Some(m.label(m.head_edge(i + 1)))
        &&& 0 <= m.head_edge(i + 1) < m.edges.len()
        &&& m.target(m.head_edge(i + 1)) == i + 1
        &&& 0 <= m.source(m.head_edge(i + 1)) <= n
    } by {
        assert(m.has_head(i + 1));
    }
    assert(heads_ranked(r, sentence_rank));
    // The graph of the sentence joins the same nodes.
    lemma_labelled(r);
    lemma_sentence_edges(r);
    let table = sentence_edges(r);
    assert forall|c: int| 1 <= c <= n implies #[trigger] targeted(table, c) by {
        assert(r[c - 1].head is Some);
    }
    lemma_count_targets(table, n);
    assert forall|i: int| 0 <= i < table.len() implies 0 <= (#[trigger] table[i]).0 < n + 1 && 0
        <= table[i].1 < n + 1 by {
        assert(r[table[i].1 - 1].head == Some(table[i].0 as usize));
    }
    lemma_graph_of(r, n + 1);
    let g = sentence_graph(r);
    assert forall|x: int, y: int| #[trigger] m.has_edge(x, y) implies g.has_edge(x, y) by {
        let e = y - 1;
        assert(g.source(e) == x && g.target(e) == y);
    }
    m.lemma_projective();
    g.lemma_projective();
    assert forall|e: int| 0 <= e < g.edges.len() implies !#[trigger] g.crossing(e) by {
        if g.crossing(e) {
            let j = choose|j: int| #[trigger] g.between(e, j) && !g.reaches(g.source(e), j);
            let f = choose|f: int|
                0 <= f < m.edges.len() && m.source(f) == g.source(e) && m.target(f) == g.target(e);
            assert(m.between(f, j));
            if m.reaches(m.source(f), j) {
                lemma_reaches_transfer(m, g, m.source(f), j);
            }
            assert(m.crossing(f));
        }
    }
}

/// A sentence in which every token has a label lacks none.
pub proof fn lemma_labelled(s: Seq<TokenView>)
    requires
        forall|i: int| 0 <= i < s.len() ==> (#[trigger] s[i]).head_rel is Some,
    ensures
        unlabelled(s) is None,
    decreases s.len(),
{
    if s.len() > 0 {
        lemma_labelled(s.drop_last());
    }
}

/// The edges of a tree with one node more than `n` end in the positions 1
/// to `n`, and start in nodes whose number fits a machine word.
pub proof fn lemma_tree_targets(m: GraphModel, rank: Seq<int>, n: int)
    requires
        m.tree_by(rank),
        n < u32::MAX,
        m.nodes() == n + 1,
    ensures
        forall|e: int|
            0 <= e < m.edges.len() ==> 1 <= #[trigger] m.target(e) <= n && 0 <= m.source(e)
                <= usize::MAX,
{
    assert forall|e: int| 0 <= e < m.edges.len() implies 1 <= #[trigger] m.target(e) <= n && 0
        <= m.source(e) <= usize::MAX by {
        assert(0 <= m.source(e) < m.nodes());
    }
}

} // verus!
