//! Reading what was written: the text of a sentence, read again, gives a
//! copy of the sentence.

use crate::error::ReadFailure;
use crate::reader::{field, numeric_field, parse_line, read_from, string_field};
use crate::text::{
    decimal, digit_value, digits_value, is_space, join, lemma_first_index_is,
    lemma_leading_space_is, lemma_trailing_space_is, number, split, trim,
};
use crate::token::TokenView;
use crate::writer::{
    optional_number, optional_text, sentence_lines, sentence_text, token_fields, token_line,
};
use vstd::prelude::*;

verus! {

/// Whether the character `c` does not occur in `s`.
pub open spec fn free_of(s: Seq<char>, c: char) -> bool {
    forall|i: int| 0 <= i < s.len() ==> s[i] != c
}

/// Whether a field can hold the text `s`: it has no tab and no line feed.
pub open spec fn fits_field(s: Seq<char>) -> bool {
    free_of(s, '\t') && free_of(s, '\n')
}

/// Whether an optional field can hold `o`: a text that fits a field and is
/// not the underscore, which stands for an absent value.
pub open spec fn fits_optional(o: Option<Seq<char>>) -> bool {
    o matches Some(s) ==> fits_field(s) && s != seq!['_']
}

/// Whether the line of the token, read again, gives the token: the texts
/// fit their fields, and the line neither begins nor ends with white space.
pub open spec fn writable(t: TokenView) -> bool {
    &&& fits_field(t.form)
    &&& fits_optional(t.lemma)
    &&& fits_optional(t.cpos)
    &&& fits_optional(t.pos)
    &&& t.features matches Some(f) ==> fits_field(f.text) && f.text != seq!['_']
    &&& fits_optional(t.head_rel)
    &&& fits_optional(t.p_head_rel)
    &&& t.p_head_rel matches Some(s) ==> s.len() > 0 && !is_space(s.last())
}

/// A text without the separator is one piece.
pub proof fn lemma_split_one(s: Seq<char>, sep: char)
    requires
        free_of(s, sep),
    ensures
        split(s, sep) == seq![s],
{
    lemma_first_index_is(s, sep, s.len() as int);
}

/// A piece without the separator, the separator and a text split into the
/// piece and the pieces of the text.
pub proof fn lemma_split_first(a: Seq<char>, b: Seq<char>, sep: char)
    requires
        free_of(a, sep),
    ensures
        split(a + seq![sep] + b, sep) == seq![a] + split(b, sep),
{
    let s = a + seq![sep] + b;
    lemma_first_index_is(s, sep, a.len() as int);
    assert(s.take(a.len() as int) == a);
    assert(s.skip(a.len() as int + 1) == b);
}

/// Pieces joined are the first piece, the separator and the others joined.
pub proof fn lemma_join_first(parts: Seq<Seq<char>>, sep: Seq<char>)
    requires
        parts.len() >= 2,
    ensures
        join(parts, sep) == parts[0] + sep + join(parts.drop_first(), sep),
    decreases parts.len(),
{
    let front = parts.drop_last();
    let rest = parts.drop_first();
    if parts.len() == 2 {
        assert(join(front, sep) == parts[0]);
    } else {
        lemma_join_first(front, sep);
        assert(front.drop_first() == rest.drop_last());
    }
}

/// Pieces without the separator, joined by it and split at it, are the
/// pieces.
pub proof fn lemma_split_join(parts: Seq<Seq<char>>, sep: char)
    requires
        parts.len() >= 1,
        forall|i: int| 0 <= i < parts.len() ==> free_of(#[trigger] parts[i], sep),
    ensures
        split(join(parts, seq![sep]), sep) == parts,
    decreases parts.len(),
{
    if parts.len() == 1 {
        lemma_split_one(parts[0], sep);
    } else {
        let rest = parts.drop_first();
        lemma_split_join(rest, sep);
        lemma_join_first(parts, seq![sep]);
        lemma_split_first(parts[0], join(rest, seq![sep]), sep);
    }
}

/// Pieces without a character, joined by another, are without it; the text
/// begins as the first piece does and ends as the last piece does.
pub proof fn lemma_join_chars(parts: Seq<Seq<char>>, sep: char, c: char)
    requires
        parts.len() >= 1,
    ensures
        sep != c && (forall|i: int| 0 <= i < parts.len() ==> free_of(#[trigger] parts[i], c))
            ==> free_of(join(parts, seq![sep]), c),
        parts[0].len() > 0 ==> join(parts, seq![sep]).len() > 0 && join(parts, seq![sep])[0]
            == parts[0][0],
        parts.last().len() > 0 ==> join(parts, seq![sep]).len() > 0 && join(
            parts,
            seq![sep],
        ).last() == parts.last().last(),
    decreases parts.len(),
{
    if parts.len() > 1 {
        let front = parts.drop_last();
        lemma_join_chars(front, sep, c);
    }
}

/// The numeral of a number consists of digits, and stands for the number.
pub proof fn lemma_decimal(n: nat)
    ensures
        decimal(n).len() > 0,
        forall|i: int| 0 <= i < decimal(n).len() ==> digit_value(#[trigger] decimal(n)[i]) is Some,
        digits_value(decimal(n)) == Some(n),
        number(decimal(n)) == Some(n),
    decreases n,
{
    if n >= 10 {
        lemma_decimal(n / 10);
        let d = decimal(n);
        assert(d.drop_last() == decimal(n / 10));
    } else {
        let d = decimal(n);
        assert(digits_value(d.drop_last()) == Some(0nat));
    }
}

/// A numeral fits a field, is not the underscore, and has no white space.
pub proof fn lemma_decimal_field(n: nat)
    ensures
        fits_field(decimal(n)),
        decimal(n) != seq!['_'],
        decimal(n).len() > 0,
        !is_space(decimal(n)[0]),
        !is_space(decimal(n).last()),
{
    lemma_decimal(n);
}

/// The text of an optional field stands for the field.
pub proof fn lemma_optional_text(o: Option<Seq<char>>)
    requires
        fits_optional(o),
    ensures
        string_field(Some(optional_text(o))) == o,
        fits_field(optional_text(o)),
{
}

/// The text of an optional number stands for the number.
pub proof fn lemma_optional_number(o: Option<usize>)
    ensures
        numeric_field(Some(optional_number(o))) == Ok::<Option<usize>, ReadFailure>(o),
        fits_field(optional_number(o)),
{
    if let Some(n) = o {
        lemma_decimal(n as nat);
        lemma_decimal_field(n as nat);
    }
}

/// The line of a writable token, read again, gives a copy of the token. The
/// line has no line feed, and no white space at its ends.
pub proof fn lemma_line_round_trip(t: TokenView, id: nat)
    requires
        writable(t),
        id <= usize::MAX,
    ensures
        parse_line(token_line(t, id)) == Ok::<TokenView, ReadFailure>(t.copied()),
        trim(token_line(t, id)) == token_line(t, id),
        token_line(t, id).len() > 0,
        free_of(token_line(t, id), '\n'),
{
    let fields = token_fields(t, id);
    let line = token_line(t, id);
    lemma_decimal(id);
    lemma_decimal_field(id);
    lemma_optional_text(t.lemma);
    lemma_optional_text(t.cpos);
    lemma_optional_text(t.pos);
    lemma_optional_text(t.head_rel);
    lemma_optional_text(t.p_head_rel);
    lemma_optional_number(t.head);
    lemma_optional_number(t.p_head);
    lemma_split_join(fields, '\t');
    lemma_join_chars(fields, '\t', '\n');
    // The ends of the line.
    lemma_join_chars(fields, '\t', '\t');
    lemma_leading_space_is(line, 0);
    lemma_trailing_space_is(line, 0);
}

/// An absent field is written as an underscore, and an underscore is read
/// as an absent field. A line has ten fields, the first of them the
/// position of the token.
pub proof fn lemma_absent_fields(t: TokenView, id: nat)
    ensures
        token_fields(t, id).len() == 10,
        token_fields(t, id)[0] == decimal(id),
        token_fields(t, id)[1] == t.form,
        t.lemma is None ==> token_fields(t, id)[2] == seq!['_'],
        t.cpos is None ==> token_fields(t, id)[3] == seq!['_'],
        t.pos is None ==> token_fields(t, id)[4] == seq!['_'],
        t.features is None ==> token_fields(t, id)[5] == seq!['_'],
        t.head is None ==> token_fields(t, id)[6] == seq!['_'],
        t.head_rel is None ==> token_fields(t, id)[7] == seq!['_'],
        t.p_head is None ==> token_fields(t, id)[8] == seq!['_'],
        t.p_head_rel is None ==> token_fields(t, id)[9] == seq!['_'],
        string_field(Some(seq!['_'])) is None,
        numeric_field(Some(seq!['_'])) == Ok::<Option<usize>, ReadFailure>(None),
{
}

/// Whether every token of the sentence is writable.
pub open spec fn all_writable(s: Seq<TokenView>) -> bool {
    forall|i: int| 0 <= i < s.len() ==> writable(#[trigger] s[i])
}

/// Reading the lines of a sentence from the line `k` on, after the tokens
/// before it, gives a copy of the sentence.
pub proof fn lemma_read_lines(s: Seq<TokenView>, k: int)
    requires
        all_writable(s),
        0 < s.len() <= usize::MAX,
        0 <= k <= s.len(),
    ensures
        read_from(sentence_lines(s), k, s.map_values(|t: TokenView| t.copied()).take(k)) == (
            Ok::<Option<Seq<TokenView>>, ReadFailure>(
                Some(s.map_values(|t: TokenView| t.copied())),
            ),
            s.len() as int,
        ),
    decreases s.len() - k,
{
    let copies = s.map_values(|t: TokenView| t.copied());
    if k < s.len() {
        lemma_line_round_trip(s[k], (k + 1) as nat);
        assert(copies.take(k).push(s[k].copied()) == copies.take(k + 1));
        lemma_read_lines(s, k + 1);
    } else {
        assert(copies.take(k) == copies);
    }
}

/// Reading the text of a sentence gives a copy of the sentence: the tokens
/// with their fields, each with the mapping that the text of its features
/// stands for. This holds of a sentence that has a token, whose tokens are
/// all writable.
pub proof fn lemma_round_trip(s: Seq<TokenView>)
    requires
        all_writable(s),
        0 < s.len() <= usize::MAX,
    ensures
        read_from(split(sentence_text(s), '\n'), 0, Seq::empty()) == (
            Ok::<Option<Seq<TokenView>>, ReadFailure>(
                Some(s.map_values(|t: TokenView| t.copied())),
            ),
            s.len() as int,
        ),
{
    let lines = sentence_lines(s);
    assert forall|i: int| 0 <= i < lines.len() implies free_of(#[trigger] lines[i], '\n') by {
        lemma_line_round_trip(s[i], (i + 1) as nat);
    }
    lemma_split_join(lines, '\n');
    lemma_read_lines(s, 0);
    assert(s.map_values(|t: TokenView| t.copied()).take(0) == Seq::<TokenView>::empty());
}

} // verus!
