//! The morphological features of a token: a text, and the mapping from keys
//! to optional values that the text stands for.
//!
//! The mapping is held as a list of entries in the strict lexicographic order
//! of their keys.

use crate::text::{
    chars_less, copy_range, find_from, first_index, from_chars, join, lemma_lex_strict,
    lemma_lex_total, lemma_lex_transitive, lex_less, same_chars, split, split_chars, to_chars,
};
use itertools::Itertools;
use vstd::prelude::*;

verus! {

/// A mapping as a value: the entries by ascending key.
pub type Entries = Seq<(Seq<char>, Option<Seq<char>>)>;

/// An optional string as a value.
pub open spec fn optional_view(o: Option<String>) -> Option<Seq<char>> {
    match o {
        Some(v) => Some(v@),
        None => None,
    }
}

/// An entry as a value.
pub open spec fn entry_view(e: (String, Option<String>)) -> (Seq<char>, Option<Seq<char>>) {
    (e.0@, optional_view(e.1))
}

/// A list of entries as a value.
pub open spec fn entries_view(v: Seq<(String, Option<String>)>) -> Entries {
    v.map_values(|e: (String, Option<String>)| entry_view(e))
}

/// The mapping `m` with `key` bound to `value`: an entry with that key is
/// replaced, otherwise the new entry takes its place in the order of keys.
pub open spec fn put(m: Entries, key: Seq<char>, value: Option<Seq<char>>) -> Entries
    decreases m.len(),
{
    if m.len() == 0 {
        seq![(key, value)]
    } else if m[0].0 == key {
        seq![(key, value)] + m.drop_first()
    } else if lex_less(key, m[0].0) {
        seq![(key, value)] + m
    } else {
        seq![m[0]] + put(m.drop_first(), key, value)
    }
}

/// The mapping that binds the pairs of `pairs` in turn. A later pair
/// replaces an earlier one with the same key.
pub open spec fn collect(pairs: Entries) -> Entries
    decreases pairs.len(),
{
    if pairs.len() == 0 {
        Seq::empty()
    } else {
        put(collect(pairs.drop_last()), pairs.last().0, pairs.last().1)
    }
}

/// The entry that one piece of a feature text stands for: key and value are
/// parted by the first colon; a piece without a colon is a key without value.
pub open spec fn parse_piece(piece: Seq<char>) -> (Seq<char>, Option<Seq<char>>) {
    let i = first_index(piece, ':');
    if 0 <= i < piece.len() {
        (piece.take(i), Some(piece.skip(i + 1)))
    } else {
        (piece, None)
    }
}

/// The mapping that a feature text stands for: the text is cut at every
/// vertical bar, and the pieces are bound in turn.
pub open spec fn parse_features(s: Seq<char>) -> Entries {
    collect(split(s, '|').map_values(|p: Seq<char>| parse_piece(p)))
}

/// The text of one entry: `key:value`, or the key alone.
pub open spec fn render_entry(e: (Seq<char>, Option<Seq<char>>)) -> Seq<char> {
    match e.1 {
        Some(v) => e.0 + seq![':'] + v,
        None => e.0,
    }
}

/// The text of a mapping: its entries in the order of their keys, with a
/// vertical bar between each two.
pub open spec fn render(m: Entries) -> Seq<char> {
    join(m.map_values(|e: (Seq<char>, Option<Seq<char>>)| render_entry(e)), seq!['|'])
}

/// Whether the keys of `m` ascend strictly.
pub open spec fn ascending(m: Entries) -> bool {
    forall|i: int, j: int| 0 <= i < j < m.len() ==> lex_less(#[trigger] m[i].0, #[trigger] m[j].0)
}

/// Binding a key in a mapping whose keys ascend gives one whose keys ascend,
/// with the keys of the mapping and the new key.
pub proof fn lemma_put(m: Entries, key: Seq<char>, value: Option<Seq<char>>)
    requires
        ascending(m),
    ensures
        ascending(put(m, key, value)),
        forall|i: int|
            0 <= i < put(m, key, value).len() ==> (#[trigger] put(m, key, value)[i]).0 == key
                || exists|j: int| 0 <= j < m.len() && (#[trigger] m[j]).0 == put(m, key, value)[i].0,
    decreases m.len(),
{
    let r = put(m, key, value);
    if m.len() == 0 {
    } else if m[0].0 == key {
        assert forall|i: int| 0 <= i < r.len() implies (#[trigger] r[i]).0 == key || exists|j: int|
            0 <= j < m.len() && (#[trigger] m[j]).0 == r[i].0 by {
        }
    } else if lex_less(key, m[0].0) {
        assert forall|i: int, j: int| 0 <= i < j < r.len() implies lex_less(
            #[trigger] r[i].0,
            #[trigger] r[j].0,
        ) by {
            if i > 0 {
            } else if j > 1 {
                lemma_lex_transitive(key, m[0].0, m[j - 1].0);
            }
        }
    } else {
        let rest = m.drop_first();
        lemma_put(rest, key, value);
        lemma_lex_total(key, m[0].0);
    }
}

/// The keys of a mapping that was bound pair by pair ascend.
pub proof fn lemma_collect_ascends(pairs: Entries)
    ensures
        ascending(collect(pairs)),
    decreases pairs.len(),
{
    if pairs.len() > 0 {
        lemma_collect_ascends(pairs.drop_last());
        lemma_put(collect(pairs.drop_last()), pairs.last().0, pairs.last().1);
    }
}

/// A key behind all keys of a mapping is bound at the end.
pub proof fn lemma_put_last(m: Entries, key: Seq<char>, value: Option<Seq<char>>)
    requires
        forall|i: int| 0 <= i < m.len() ==> lex_less((#[trigger] m[i]).0, key),
    ensures
        put(m, key, value) == m.push((key, value)),
    decreases m.len(),
{
    if m.len() > 0 {
        lemma_lex_strict(m[0].0, key);
        let rest = m.drop_first();
        lemma_put_last(rest, key, value);
    }
}

/// Binding the entries of a mapping, in the order of its keys, gives the
/// mapping.
pub proof fn lemma_collect_mapping(m: Entries)
    requires
        ascending(m),
    ensures
        collect(m) == m,
    decreases m.len(),
{
    if m.len() > 0 {
        let front = m.drop_last();
        lemma_collect_mapping(front);
        lemma_put_last(front, m.last().0, m.last().1);
    }
}

/// `Itertools::join` on strings: the texts of `parts` in one string, with
/// `sep` between each two.
#[verifier::external_body]
pub(crate) fn join_strings(parts: &Vec<String>, sep: &str) -> (r: String)
    ensures
        r@ == join(parts@.map_values(|p: String| p@), sep@),
{
    parts.iter().join(sep)
}

/// Binds `key` to `value` in the list `m`.
pub fn put_entry(m: &mut Vec<(String, Option<String>)>, key: String, value: Option<String>)
    ensures
        entries_view(final(m)@) == put(entries_view(old(m)@), key@, optional_view(value)),
{
    let key_chars = to_chars(key.as_str());
    let ghost before = entries_view(m@);
    let ghost new_entry = entry_view((key, value));
    let mut i: usize = 0;
    assert(before.take(0) + put(before.skip(0), key@, new_entry.1) =~= put(
        before,
        key@,
        new_entry.1,
    )) by {
        assert(before.skip(0) == before);
    }
    while i < m.len()
        invariant
            i <= m.len(),
            m@ == old(m)@,
            key_chars@ == key@,
            before == entries_view(m@),
            new_entry == entry_view((key, value)),
            put(before, key@, new_entry.1) == before.take(i as int) + put(
                before.skip(i as int),
                key@,
                new_entry.1,
            ),
        decreases m.len() - i,
    {
        let ghost rest = before.skip(i as int);
        assert(rest.drop_first() == before.skip(i + 1));
        let here = to_chars(m[i].0.as_str());
        if same_chars(&here, &key_chars) {
            m.set(i, (key, value));
            return ;
        }
        if chars_less(&key_chars, &here) {
            m.insert(i, (key, value));
            return ;
        }
        i += 1;
    }
    m.push((key, value));
}

/// Whether two optional strings hold the same text, or both none.
pub fn same_optional(a: &Option<String>, b: &Option<String>) -> (r: bool)
    ensures
        r == (optional_view(*a) == optional_view(*b)),
{
    match (a, b) {
        (Some(x), Some(y)) => *x == *y,
        (None, None) => true,
        _ => false,
    }
}

/// Whether two lists hold the same entries in the same order.
pub fn same_entries(a: &Vec<(String, Option<String>)>, b: &Vec<(String, Option<String>)>) -> (r:
    bool)
    ensures
        r == (entries_view(a@) == entries_view(b@)),
{
    if a.len() != b.len() {
        return false;
    }
    let mut i: usize = 0;
    while i < a.len()
        invariant
            i <= a.len(),
            a.len() == b.len(),
            forall|j: int| 0 <= j < i ==> entry_view(a@[j]) == entry_view(b@[j]),
        decreases a.len() - i,
    {
        if !(a[i].0 == b[i].0) || !same_optional(&a[i].1, &b[i].1) {
            assert(entries_view(a@)[i as int] != entries_view(b@)[i as int]);
            return false;
        }
        i += 1;
    }
    assert(entries_view(a@) =~= entries_view(b@));
    true
}

/// The mapping that the text `s` stands for.
pub fn parse_map(s: &str) -> (m: Vec<(String, Option<String>)>)
    ensures
        entries_view(m@) == parse_features(s@),
{
    let chars = to_chars(s);
    let pieces = split_chars(&chars, '|');
    let ghost parts = split(s@, '|');
    let ghost pairs = parts.map_values(|p: Seq<char>| parse_piece(p));
    let mut m: Vec<(String, Option<String>)> = Vec::new();
    let mut i: usize = 0;
    while i < pieces.len()
        invariant
            i <= pieces.len(),
            crate::text::deep(pieces@) == parts,
            pairs == parts.map_values(|p: Seq<char>| parse_piece(p)),
            entries_view(m@) == collect(pairs.take(i as int)),
        decreases pieces.len() - i,
    {
        let piece = &pieces[i];
        assert(piece@.skip(0) == piece@);
        let colon = find_from(piece, ':', 0);
        let key = from_chars(&copy_range(piece, 0, colon));
        let value = if colon < piece.len() {
            Some(from_chars(&copy_range(piece, colon + 1, piece.len())))
        } else {
            None
        };
        assert(pairs.take(i + 1).drop_last() == pairs.take(i as int));
        put_entry(&mut m, key, value);
        i += 1;
    }
    assert(pairs.take(pairs.len() as int) == pairs);
    m
}

/// The text of the mapping `m`.
pub fn map_to_string(m: &Vec<(String, Option<String>)>) -> (s: String)
    ensures
        s@ == render(entries_view(m@)),
{
    let mut parts: Vec<String> = Vec::new();
    let ghost texts = entries_view(m@).map_values(
        |e: (Seq<char>, Option<Seq<char>>)| render_entry(e),
    );
    let mut i: usize = 0;
    while i < m.len()
        invariant
            i <= m.len(),
            texts == entries_view(m@).map_values(
                |e: (Seq<char>, Option<Seq<char>>)| render_entry(e),
            ),
            parts@.map_values(|p: String| p@) == texts.take(i as int),
        decreases m.len() - i,
    {
        let mut part = m[i].0.clone();
        match &m[i].1 {
            Some(v) => {
                proof {
                    reveal_strlit(":");
                }
                part.append(":");
                part.append(v.as_str());
            },
            None => {},
        }
        assert(part@ == texts[i as int]) by {}
        parts.push(part);
        i += 1;
        assert(texts.take(i as int) =~= texts.take(i - 1).push(texts[i - 1]));
    }
    assert(texts.take(m.len() as int) == texts);
    proof {
        reveal_strlit("|");
    }
    assert("|"@ == seq!['|']);
    join_strings(&parts, "|")
}

/// Token features: a text and the mapping it stands for.
#[derive(Debug)]
pub struct Features {
    features: String,
    feature_map: Vec<(String, Option<String>)>,
}

impl Features {
    /// The feature text.
    pub closed spec fn text(&self) -> Seq<char> {
        self.features@
    }

    /// The mapping, as its entries by ascending key.
    pub closed spec fn map(&self) -> Entries {
        entries_view(self.feature_map@)
    }

    /// Features from their text. Pairs are parted by a vertical bar, key and
    /// value by the first colon; any text is accepted.
    pub fn from_string(s: &str) -> (r: Features)
        ensures
            r.text() == s@,
            r.map() == parse_features(s@),
            ascending(r.map()),
    {
        proof {
            lemma_collect_ascends(split(s@, '|').map_values(|p: Seq<char>| parse_piece(p)));
        }
        Features { features: s.to_owned(), feature_map: parse_map(s) }
    }

    /// Features from pairs of key and optional value. The mapping binds the
    /// pairs in turn, and the text is the rendering of the mapping.
    pub fn from_iter(pairs: Vec<(String, Option<String>)>) -> (r: Features)
        ensures
            r.map() == collect(entries_view(pairs@)),
            r.text() == render(r.map()),
            ascending(r.map()),
            ascending(entries_view(pairs@)) ==> r.map() == entries_view(pairs@),
    {
        proof {
            lemma_collect_ascends(entries_view(pairs@));
            if ascending(entries_view(pairs@)) {
                lemma_collect_mapping(entries_view(pairs@));
            }
        }
        let mut pairs = pairs;
        let ghost all = entries_view(pairs@);
        let mut rest: Vec<(String, Option<String>)> = Vec::new();
        // The pairs are taken from the end, so they are bound in reverse.
        while pairs.len() > 0
            invariant
                entries_view(pairs@) + entries_view(rest@).reverse() == all,
            decreases pairs.len(),
        {
            let pair = pairs.pop().unwrap();
            rest.push(pair);
        }
        let mut feature_map: Vec<(String, Option<String>)> = Vec::new();
        while rest.len() > 0
            invariant
                rest.len() <= all.len(),
                all.take(all.len() - rest.len()) + entries_view(rest@).reverse() == all,
                entries_view(feature_map@) == collect(all.take(all.len() - rest.len())),
            decreases rest.len(),
        {
            let ghost k = all.len() - rest.len();
            let (key, value) = rest.pop().unwrap();
            assert(all.take(k + 1).drop_last() == all.take(k));
            put_entry(&mut feature_map, key, value);
        }
        let features = map_to_string(&feature_map);
        Features { features, feature_map }
    }

    /// The mapping from keys to optional values, by ascending key.
    pub fn as_map(&self) -> (m: &Vec<(String, Option<String>)>)
        ensures
            entries_view(m@) == self.map(),
    {
        &self.feature_map
    }

    /// The feature text.
    pub fn as_str(&self) -> (s: &str)
        ensures
            s@ == self.text(),
    {
        self.features.as_str()
    }

    /// The text and the mapping.
    pub fn into_inner(self) -> (r: (String, Vec<(String, Option<String>)>))
        ensures
            r.0@ == self.text(),
            entries_view(r.1@) == self.map(),
    {
        (self.features, self.feature_map)
    }

    /// The mapping.
    pub fn into_inner_map(self) -> (m: Vec<(String, Option<String>)>)
        ensures
            entries_view(m@) == self.map(),
    {
        self.feature_map
    }

    /// The text.
    pub fn into_inner_string(self) -> (s: String)
        ensures
            s@ == self.text(),
    {
        self.features
    }
}

impl Clone for Features {
    /// A copy with the same text, whose mapping is read from the text anew.
    fn clone(&self) -> (r: Features)
        ensures
            r.text() == self.text(),
            r.map() == parse_features(self.text()),
            ascending(r.map()),
    {
        Features::from_string(self.features.as_str())
    }
}

impl PartialEq for Features {
    /// Features are equal where their mappings are.
    fn eq(&self, other: &Features) -> (r: bool) {
        same_entries(&self.feature_map, &other.feature_map)
    }
}

impl Eq for Features {

}

impl vstd::std_specs::cmp::PartialEqSpecImpl for Features {
    open spec fn obeys_eq_spec() -> bool {
        true
    }

    open spec fn eq_spec(&self, other: &Features) -> bool {
        self.map() == other.map()
    }
}

} // verus!
