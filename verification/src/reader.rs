//! Reading sentences from their tabular text: one token per line, the fields
//! parted by tabs, a blank line after each sentence.

use crate::error::{ReadError, ReadFailure};
use crate::features::{optional_view, parse_features, Features};
use crate::text::{
    deep, number, parse_number, split, split_chars, to_chars, trim, trim_chars, from_chars,
};
use crate::token::{
    optional_str_view, sentence_view, FeaturesView, Sentence, Token, TokenView,
};
use vstd::prelude::*;

verus! {

/// The text of the error for a line without any field.
pub open spec fn missing_identifier() -> Seq<char> {
    "A token identifier should be present"@
}

/// The field `i` of a line, where the line has that many fields.
pub open spec fn field(fields: Seq<Seq<char>>, i: int) -> Option<Seq<char>> {
    if 0 <= i < fields.len() {
        Some(fields[i])
    } else {
        None
    }
}

/// What a text field stands for: an underscore and a missing field stand for
/// an absent value.
pub open spec fn string_field(f: Option<Seq<char>>) -> Option<Seq<char>> {
    match f {
        Some(s) => if s == seq!['_'] {
            None
        } else {
            Some(s)
        },
        None => None,
    }
}

/// The number that the text `s` stands for, or the error for a field that is
/// no number.
pub open spec fn integer(s: Seq<char>) -> Result<Option<usize>, ReadFailure> {
    match number(s) {
        Some(n) => if n <= usize::MAX {
            Ok(Some(n as usize))
        } else {
            Err(ReadFailure::ParseIntField { value: s })
        },
        None => Err(ReadFailure::ParseIntField { value: s }),
    }
}

/// What a head field stands for: an underscore and a missing field stand for
/// an absent head, any other text for its number.
pub open spec fn numeric_field(f: Option<Seq<char>>) -> Result<Option<usize>, ReadFailure> {
    match f {
        Some(s) => if s == seq!['_'] {
            Ok(None)
        } else {
            integer(s)
        },
        None => Ok(None),
    }
}

/// What an identifier field stands for. The identifier must be present, and
/// a number.
pub open spec fn identifier_field(f: Option<Seq<char>>) -> Result<Option<usize>, ReadFailure> {
    match f {
        Some(s) => if s == seq!['_'] {
            Err(ReadFailure::ParseIdentifierField { value: s })
        } else {
            integer(s)
        },
        None => Err(ReadFailure::ParseIdentifierField { value: missing_identifier() }),
    }
}

/// The features that a field stands for.
pub open spec fn features_field(f: Option<Seq<char>>) -> Option<FeaturesView> {
    match string_field(f) {
        Some(s) => Some(FeaturesView { text: s, map: parse_features(s) }),
        None => None,
    }
}

/// The token that a line stands for. The line has up to ten fields, parted
/// by tabs: identifier, form, lemma, coarse and fine part-of-speech tag,
/// features, head, head relation, projective head and its relation. The
/// first error in this order is reported: of the identifier, of a missing
/// form, of the head, of the projective head.
pub open spec fn parse_line(line: Seq<char>) -> Result<TokenView, ReadFailure> {
    let fields = split(line, '\t');
    match identifier_field(field(fields, 0)) {
        Err(e) => Err(e),
        Ok(_) => match field(fields, 1) {
            None => Err(ReadFailure::MissingFormField),
            Some(form) => match numeric_field(field(fields, 6)) {
                Err(e) => Err(e),
                Ok(head) => match numeric_field(field(fields, 8)) {
                    Err(e) => Err(e),
                    Ok(p_head) => Ok(
                        TokenView {
                            form,
                            lemma: string_field(field(fields, 2)),
                            cpos: string_field(field(fields, 3)),
                            pos: string_field(field(fields, 4)),
                            features: features_field(field(fields, 5)),
                            head,
                            head_rel: string_field(field(fields, 7)),
                            p_head,
                            p_head_rel: string_field(field(fields, 9)),
                        },
                    ),
                },
            },
        },
    }
}

/// What reading a sentence from the lines `lines`, from the line `next` on,
/// returns after the tokens `tokens`, and the line at which it stops. Blank
/// lines before a sentence are passed over; a blank line or the end of the
/// lines ends the sentence; at the end of the lines there is no sentence
/// left. White space at both ends of a line does not count.
pub open spec fn read_from(lines: Seq<Seq<char>>, next: int, tokens: Seq<TokenView>) -> (
    Result<Option<Seq<TokenView>>, ReadFailure>,
    int,
)
    decreases lines.len() - next,
{
    if next < 0 || next >= lines.len() {
        (
            if tokens.len() == 0 {
                Ok(None)
            } else {
                Ok(Some(tokens))
            },
            next,
        )
    } else {
        let line = trim(lines[next]);
        if line.len() == 0 {
            if tokens.len() == 0 {
                read_from(lines, next + 1, tokens)
            } else {
                (Ok(Some(tokens)), next + 1)
            }
        } else {
            match parse_line(line) {
                Ok(token) => read_from(lines, next + 1, tokens.push(token)),
                Err(e) => (Err(e), next + 1),
            }
        }
    }
}

/// What was read, as a value.
pub open spec fn outcome_view(r: Result<Option<Sentence>, ReadError>) -> Result<
    Option<Seq<TokenView>>,
    ReadFailure,
> {
    match r {
        Ok(Some(sentence)) => Ok(Some(sentence_view(sentence@))),
        Ok(None) => Ok(None),
        Err(e) => Err(e@),
    }
}

/// The form of a token from its field. The field must be present.
pub fn parse_form_field(field: Option<&str>) -> (r: Result<String, ReadError>)
    ensures
        match r {
            Ok(form) => optional_str_view(field) == Some(form@),
            Err(e) => field is None && e@ == ReadFailure::MissingFormField,
        },
{
    match field {
        Some(s) => Ok(s.to_owned()),
        None => Err(ReadError::MissingFormField),
    }
}

/// Whether `s` is the text that stands for an absent value.
fn is_empty_token(s: &str) -> (r: bool)
    ensures
        r == (s@ == seq!['_']),
{
    let chars = to_chars(s);
    let r = chars.len() == 1 && chars[0] == '_';
    assert(r ==> chars@ =~= seq!['_']);
    r
}

/// The value of a text field.
pub fn parse_string_field(field: Option<&str>) -> (r: Option<String>)
    ensures
        optional_view(r) == string_field(optional_str_view(field)),
{
    match field {
        Some(s) => if is_empty_token(s) {
            None
        } else {
            Some(s.to_owned())
        },
        None => None,
    }
}

/// The number that `s` stands for.
fn parse_integer(s: &str) -> (r: Result<Option<usize>, ReadError>)
    ensures
        match r {
            Ok(n) => integer(s@) == Ok::<Option<usize>, ReadFailure>(n),
            Err(e) => integer(s@) == Err::<Option<usize>, ReadFailure>(e@),
        },
{
    match parse_number(s) {
        Some(n) => Ok(Some(n)),
        None => Err(ReadError::ParseIntField { value: s.to_owned() }),
    }
}

/// The identifier of a token from its field.
pub fn parse_identifier_field(field: Option<&str>) -> (r: Result<Option<usize>, ReadError>)
    ensures
        match r {
            Ok(n) => identifier_field(optional_str_view(field)) == Ok::<
                Option<usize>,
                ReadFailure,
            >(n),
            Err(e) => identifier_field(optional_str_view(field)) == Err::<
                Option<usize>,
                ReadFailure,
            >(e@),
        },
{
    match field {
        None => Err(
            ReadError::ParseIdentifierField {
                value: String::from_str("A token identifier should be present"),
            },
        ),
        Some(s) => {
            if is_empty_token(s) {
                return Err(ReadError::ParseIdentifierField { value: s.to_owned() });
            }
            parse_integer(s)
        },
    }
}

/// The value of a head field.
pub fn parse_numeric_field(field: Option<&str>) -> (r: Result<Option<usize>, ReadError>)
    ensures
        match r {
            Ok(n) => numeric_field(optional_str_view(field)) == Ok::<Option<usize>, ReadFailure>(
                n,
            ),
            Err(e) => numeric_field(optional_str_view(field)) == Err::<
                Option<usize>,
                ReadFailure,
            >(e@),
        },
{
    match field {
        None => Ok(None),
        Some(s) => if is_empty_token(s) {
            Ok(None)
        } else {
            parse_integer(s)
        },
    }
}

/// The field `i` of `fields`, where there is one.
fn nth_field(fields: &Vec<String>, i: usize) -> (r: Option<&str>)
    ensures
        optional_str_view(r) == field(fields@.map_values(|f: String| f@), i as int),
{
    if i < fields.len() {
        Some(fields[i].as_str())
    } else {
        None
    }
}

/// Whether the line is blank: empty, or white space only. Such a line ends
/// a sentence.
pub fn is_blank(line: &str) -> (r: bool)
    ensures
        r == (trim(line@).len() == 0),
{
    let chars = to_chars(line);
    trim_chars(&chars).len() == 0
}

/// The token that the line `line` stands for.
pub fn parse_token(line: &Vec<char>) -> (r: Result<Token, ReadError>)
    ensures
        match r {
            Ok(token) => parse_line(line@) == Ok::<TokenView, ReadFailure>(token@),
            Err(e) => parse_line(line@) == Err::<TokenView, ReadFailure>(e@),
        },
{
    let pieces = split_chars(line, '\t');
    let mut fields: Vec<String> = Vec::new();
    let mut i: usize = 0;
    while i < pieces.len()
        invariant
            i <= pieces.len(),
            fields.len() == i,
            forall|k: int| 0 <= k < i ==> (#[trigger] fields[k])@ == pieces[k]@,
        decreases pieces.len() - i,
    {
        fields.push(from_chars(&pieces[i]));
        i += 1;
    }
    match parse_identifier_field(nth_field(&fields, 0)) {
        Ok(_) => {},
        Err(e) => {
            return Err(e);
        },
    }
    let form = match parse_form_field(nth_field(&fields, 1)) {
        Ok(form) => form,
        Err(e) => {
            return Err(e);
        },
    };
    let mut token = Token::new(form.as_str());
    let lemma = parse_string_field(nth_field(&fields, 2));
    token.set_lemma(borrow(&lemma));
    let cpos = parse_string_field(nth_field(&fields, 3));
    token.set_cpos(borrow(&cpos));
    let pos = parse_string_field(nth_field(&fields, 4));
    token.set_pos(borrow(&pos));
    let features = match parse_string_field(nth_field(&fields, 5)) {
        Some(text) => Some(Features::from_string(text.as_str())),
        None => None,
    };
    token.set_features(features);
    let head = match parse_numeric_field(nth_field(&fields, 6)) {
        Ok(head) => head,
        Err(e) => {
            return Err(e);
        },
    };
    token.set_head(head);
    let head_rel = parse_string_field(nth_field(&fields, 7));
    token.set_head_rel(borrow(&head_rel));
    let p_head = match parse_numeric_field(nth_field(&fields, 8)) {
        Ok(p_head) => p_head,
        Err(e) => {
            return Err(e);
        },
    };
    token.set_p_head(p_head);
    let p_head_rel = parse_string_field(nth_field(&fields, 9));
    token.set_p_head_rel(borrow(&p_head_rel));
    Ok(token)
}

/// An optional string as an optional borrowed text.
fn borrow(o: &Option<String>) -> (r: Option<&str>)
    ensures
        optional_str_view(r) == optional_view(*o),
{
    match o {
        Some(s) => Some(s.as_str()),
        None => None,
    }
}

/// A source of sentences.
pub trait ReadSentence: Sized {
    /// Whether a call of `read_sentence` on this reader can return
    /// `outcome` and leave the reader `after`.
    spec fn reads(
        &self,
        outcome: Result<Option<Seq<TokenView>>, ReadFailure>,
        after: &Self,
    ) -> bool;

    /// Reads a sentence. `None` tells that no sentence is left.
    fn read_sentence(&mut self) -> (r: Result<Option<Sentence>, ReadError>)
        ensures
            old(self).reads(outcome_view(r), final(self)),
    ;
}

/// A reader of sentences from a text.
pub struct Reader {
    lines: Vec<Vec<char>>,
    next: usize,
}

impl Reader {
    /// The lines of the text.
    pub closed spec fn lines(&self) -> Seq<Seq<char>> {
        deep(self.lines@)
    }

    /// The number of lines that were read.
    pub closed spec fn position(&self) -> int {
        self.next as int
    }

    /// A reader of the sentences of `text`.
    pub fn new(text: &str) -> (reader: Reader)
        ensures
            reader.lines() == split(text@, '\n'),
            reader.position() == 0,
    {
        let chars = to_chars(text);
        Reader { lines: split_chars(&chars, '\n'), next: 0 }
    }

    /// The sentences of this reader, one after the other.
    pub fn sentences(self) -> (s: Sentences<Reader>)
        ensures
            s.reader() == self,
    {
        Sentences::new(self)
    }
}

impl ReadSentence for Reader {
    open spec fn reads(
        &self,
        outcome: Result<Option<Seq<TokenView>>, ReadFailure>,
        after: &Self,
    ) -> bool {
        &&& after.lines() == self.lines()
        &&& (outcome, after.position()) == read_from(self.lines(), self.position(), Seq::empty())
    }

    /// Reads the next sentence of the text.
    fn read_sentence(&mut self) -> (r: Result<Option<Sentence>, ReadError>) {
        let mut tokens: Vec<Token> = Vec::new();
        let ghost lines = self.lines();
        let ghost goal = read_from(lines, self.position(), Seq::empty());
        assert(sentence_view(tokens@) =~= Seq::<TokenView>::empty());
        while self.next < self.lines.len()
            invariant
                self.lines() == lines,
                lines == old(self).lines(),
                lines.len() == self.lines.len(),
                read_from(lines, self.position(), sentence_view(tokens@)) == goal,
                goal == read_from(lines, old(self).position(), Seq::empty()),
            decreases self.lines.len() - self.next,
        {
            let line = trim_chars(&self.lines[self.next]);
            self.next += 1;
            if line.len() == 0 {
                if tokens.len() != 0 {
                    return Ok(Some(tokens));
                }
            } else {
                match parse_token(&line) {
                    Ok(token) => {
                        let ghost before = sentence_view(tokens@);
                        tokens.push(token);
                        assert(sentence_view(tokens@) =~= before.push(token@));
                    },
                    Err(e) => {
                        return Err(e);
                    },
                }
            }
        }
        if tokens.len() == 0 {
            Ok(None)
        } else {
            Ok(Some(tokens))
        }
    }
}

/// The sentences of a reader, one after the other.
pub struct Sentences<R: ReadSentence> {
    reader: R,
}

impl<R: ReadSentence> Sentences<R> {
    /// The reader that the sentences come from.
    pub closed spec fn reader(&self) -> R {
        self.reader
    }

    /// The sentences of `reader`.
    pub fn new(reader: R) -> (s: Sentences<R>)
        ensures
            s.reader() == reader,
    {
        Sentences { reader }
    }

    /// The next sentence, or the error that reading it met; `None` where
    /// the reader has no sentence left.
    pub fn next(&mut self) -> (r: Option<Result<Sentence, ReadError>>)
        ensures
            old(self).reader().reads(
                match r {
                    None => Ok(None),
                    Some(Ok(sentence)) => Ok(Some(sentence_view(sentence@))),
                    Some(Err(e)) => Err(e@),
                },
                &final(self).reader(),
            ),
    {
        match self.reader.read_sentence() {
            Ok(None) => None,
            Ok(Some(sent)) => Some(Ok(sent)),
            Err(e) => Some(Err(e)),
        }
    }
}

} // verus!
