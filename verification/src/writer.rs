//! Writing sentences as tabular text.

use crate::error::WriteError;
use crate::features::join_strings;
use crate::text::{decimal, format_number, join};
use crate::token::{optional_str_view, sentence_view, Sentence, Token, TokenView};
use vstd::prelude::*;

verus! {

/// The text of an optional field: an underscore stands for an absent value.
pub open spec fn optional_text(o: Option<Seq<char>>) -> Seq<char> {
    match o {
        Some(s) => s,
        None => seq!['_'],
    }
}

/// The text of an optional number.
pub open spec fn optional_number(o: Option<usize>) -> Seq<char> {
    match o {
        Some(n) => decimal(n as nat),
        None => seq!['_'],
    }
}

/// The ten fields of the line of a token at the position `id`.
pub open spec fn token_fields(t: TokenView, id: nat) -> Seq<Seq<char>> {
    seq![
        decimal(id),
        t.form,
        optional_text(t.lemma),
        optional_text(t.cpos),
        optional_text(t.pos),
        match t.features {
            Some(f) => f.text,
            None => seq!['_'],
        },
        optional_number(t.head),
        optional_text(t.head_rel),
        optional_number(t.p_head),
        optional_text(t.p_head_rel),
    ]
}

/// The line of a token at the position `id`: its fields with a tab between
/// each two.
pub open spec fn token_line(t: TokenView, id: nat) -> Seq<char> {
    join(token_fields(t, id), seq!['\t'])
}

/// The lines of a sentence.
pub open spec fn sentence_lines(s: Seq<TokenView>) -> Seq<Seq<char>> {
    Seq::new(s.len(), |i: int| token_line(s[i], (i + 1) as nat))
}

/// The text of a sentence: its lines with a line feed between each two.
pub open spec fn sentence_text(s: Seq<TokenView>) -> Seq<char> {
    join(sentence_lines(s), seq!['\n'])
}

/// The text of an optional field.
fn text_or_empty(o: Option<&str>) -> (s: String)
    ensures
        s@ == optional_text(optional_str_view(o)),
{
    match o {
        Some(v) => v.to_owned(),
        None => {
            proof {
                reveal_strlit("_");
            }
            String::from_str("_")
        },
    }
}

/// The text of an optional number.
fn number_or_empty(o: Option<usize>) -> (s: String)
    ensures
        s@ == optional_number(o),
{
    match o {
        Some(n) => format_number(n),
        None => text_or_empty(None),
    }
}

/// The line of `token` at the position `id`.
pub fn token_to_string(token: &Token, id: usize) -> (s: String)
    ensures
        s@ == token_line(token@, id as nat),
{
    let mut fields: Vec<String> = Vec::new();
    fields.push(format_number(id));
    fields.push(token.form().to_owned());
    fields.push(text_or_empty(token.lemma()));
    fields.push(text_or_empty(token.cpos()));
    fields.push(text_or_empty(token.pos()));
    fields.push(
        match token.features() {
            Some(f) => f.as_str().to_owned(),
            None => text_or_empty(None),
        },
    );
    fields.push(number_or_empty(token.head()));
    fields.push(text_or_empty(token.head_rel()));
    fields.push(number_or_empty(token.p_head()));
    fields.push(text_or_empty(token.p_head_rel()));
    assert(fields@.map_values(|f: String| f@) =~= token_fields(token@, id as nat));
    proof {
        reveal_strlit("\t");
    }
    assert("\t"@ =~= seq!['\t']);
    join_strings(&fields, "\t")
}

/// The text of `sentence`.
pub fn sentence_to_string(sentence: &Sentence) -> (s: String)
    ensures
        s@ == sentence_text(sentence_view(sentence@)),
{
    let mut lines: Vec<String> = Vec::new();
    let mut i: usize = 0;
    while i < sentence.len()
        invariant
            i <= sentence.len(),
            lines.len() == i,
            forall|k: int|
                0 <= k < i ==> (#[trigger] lines[k])@ == token_line(sentence[k]@, (k + 1) as nat),
        decreases sentence.len() - i,
    {
        lines.push(token_to_string(&sentence[i], i + 1));
        i += 1;
    }
    assert(lines@.map_values(|l: String| l@) =~= sentence_lines(sentence_view(sentence@)));
    proof {
        reveal_strlit("\n");
    }
    assert("\n"@ =~= seq!['\n']);
    join_strings(&lines, "\n")
}

/// What stands between a sentence and what was written before it: nothing
/// before the first sentence, an empty line before every other.
pub open spec fn separator_text(first: bool) -> Seq<char> {
    if first {
        Seq::empty()
    } else {
        seq!['\n', '\n']
    }
}

/// What is written before a sentence.
pub fn separator(first: bool) -> (s: &'static str)
    ensures
        s@ == separator_text(first),
{
    proof {
        reveal_strlit("");
        reveal_strlit("\n\n");
    }
    if first {
        assert(""@ =~= Seq::<char>::empty());
        ""
    } else {
        assert("\n\n"@ =~= seq!['\n', '\n']);
        "\n\n"
    }
}

/// A sink for sentences.
pub trait WriteSentence: Sized {
    /// Whether the sink can take a sentence.
    spec fn ready(&self) -> bool;

    /// Whether a call of `write_sentence` with `sentence` on this sink can
    /// leave the sink `after`, having succeeded or not.
    spec fn writes(&self, sentence: Seq<TokenView>, done: bool, after: &Self) -> bool;

    /// Writes a sentence into this sink.
    fn write_sentence(&mut self, sentence: &Sentence) -> (r: Result<(), WriteError>)
        requires
            old(self).ready(),
        ensures
            old(self).writes(sentence_view(sentence@), r is Ok, final(self)),
            final(self).ready(),
    ;
}

/// A writer of sentences into a text. There is an empty line between each
/// two sentences.
pub struct Writer {
    write: String,
    first: bool,
}

impl Writer {
    /// The text that was written.
    pub closed spec fn text(&self) -> Seq<char> {
        self.write@
    }

    /// Whether no sentence was written yet.
    pub closed spec fn is_first(&self) -> bool {
        self.first
    }

    /// A writer that adds to the text `write`.
    pub fn new(write: String) -> (writer: Writer)
        ensures
            writer.text() == write@,
            writer.is_first(),
    {
        Writer { write, first: true }
    }

    /// The text that was written.
    pub fn get_ref(&self) -> (write: &String)
        ensures
            write@ == self.text(),
    {
        &self.write
    }
}

impl WriteSentence for Writer {
    open spec fn ready(&self) -> bool {
        true
    }

    open spec fn writes(&self, sentence: Seq<TokenView>, done: bool, after: &Self) -> bool {
        &&& done
        &&& !after.is_first()
        &&& after.text() == self.text() + separator_text(self.is_first()) + sentence_text(
            sentence,
        )
    }

    fn write_sentence(&mut self, sentence: &Sentence) -> (r: Result<(), WriteError>) {
        let text = sentence_to_string(sentence);
        self.write.append(separator(self.first));
        self.first = false;
        self.write.append(text.as_str());
        Ok(())
    }
}

/// The index of the writer whose turn it is, after `fold` sentences since the
/// first of `writers` writers had its last turn: behind the last writer the
/// first comes again.
pub fn partition_turn(fold: usize, writers: usize) -> (turn: usize)
    ensures
        turn == if fold == writers {
            0
        } else {
            fold
        },
{
    if fold == writers {
        0
    } else {
        fold
    }
}

/// A writer that hands the sentences it gets to its writers in turn: the
/// first sentence to the first writer, the next to the second, and after the
/// last writer the first again.
pub struct PartitioningWriter<W: WriteSentence> {
    writers: Vec<W>,
    fold: usize,
}

impl<W: WriteSentence> PartitioningWriter<W> {
    /// The writers.
    pub closed spec fn writers(&self) -> Seq<W> {
        self.writers@
    }

    /// The number of sentences handed out since the first writer had its
    /// last turn.
    pub closed spec fn fold(&self) -> int {
        self.fold as int
    }

    /// The index of the writer that takes the next sentence.
    pub open spec fn turn(&self) -> int {
        if self.fold() == self.writers().len() {
            0
        } else {
            self.fold()
        }
    }

    /// A writer that hands its sentences to `writers` in turn, the first
    /// sentence to the first of them.
    pub fn new(writers: Vec<W>) -> (writer: PartitioningWriter<W>)
        ensures
            writer.writers() == writers@,
            writer.fold() == 0,
    {
        PartitioningWriter { writers, fold: 0 }
    }
}

impl<W: WriteSentence> WriteSentence for PartitioningWriter<W> {
    open spec fn ready(&self) -> bool {
        &&& self.writers().len() > 0
        &&& 0 <= self.fold() <= self.writers().len()
        &&& forall|i: int| 0 <= i < self.writers().len() ==> (#[trigger] self.writers()[i]).ready()
    }

    open spec fn writes(&self, sentence: Seq<TokenView>, done: bool, after: &Self) -> bool {
        &&& after.writers().len() == self.writers().len()
        &&& self.writers()[self.turn()].writes(sentence, done, &after.writers()[self.turn()])
        &&& forall|i: int|
            0 <= i < self.writers().len() && i != self.turn() ==> #[trigger] after.writers()[i]
                == self.writers()[i]
        &&& after.fold() == if done {
            self.turn() + 1
        } else {
            self.turn()
        }
    }

    fn write_sentence(&mut self, sentence: &Sentence) -> (r: Result<(), WriteError>) {
        self.fold = partition_turn(self.fold, self.writers.len());
        match self.writers[self.fold].write_sentence(sentence) {
            Ok(()) => {},
            Err(e) => {
                return Err(e);
            },
        }
        self.fold += 1;
        Ok(())
    }
}

} // verus!
