//! Tokens and sentences.

use crate::features::{optional_view, Entries, Features};
use vstd::prelude::*;

verus! {

/// The text that stands for an absent field.
pub const EMPTY_TOKEN: &'static str = "_";

/// A sentence: its tokens in their order. The token at index `i` has the
/// position `i + 1`; position 0 is the root, which is no token.
pub type Sentence = Vec<Token>;

/// Features as a value: the text, and the mapping by ascending key.
pub struct FeaturesView {
    pub text: Seq<char>,
    pub map: Entries,
}

/// A token as a value.
pub struct TokenView {
    pub form: Seq<char>,
    pub lemma: Option<Seq<char>>,
    pub cpos: Option<Seq<char>>,
    pub pos: Option<Seq<char>>,
    pub features: Option<FeaturesView>,
    pub head: Option<usize>,
    pub head_rel: Option<Seq<char>>,
    pub p_head: Option<usize>,
    pub p_head_rel: Option<Seq<char>>,
}

/// A borrowed optional text as a value.
pub open spec fn optional_str_view(o: Option<&str>) -> Option<Seq<char>> {
    match o {
        Some(v) => Some(v@),
        None => None,
    }
}

/// Optional features as a value.
pub open spec fn optional_features_view(o: Option<Features>) -> Option<FeaturesView> {
    match o {
        Some(f) => Some(FeaturesView { text: f.text(), map: f.map() }),
        None => None,
    }
}

/// The mapping of optional features.
pub open spec fn features_map(o: Option<FeaturesView>) -> Option<Entries> {
    match o {
        Some(f) => Some(f.map),
        None => None,
    }
}

impl TokenView {
    /// The token as a copy holds it: the mapping of the features is the one
    /// that their text stands for.
    pub open spec fn copied(self) -> TokenView {
        TokenView {
            features: match self.features {
                Some(f) => Some(
                    FeaturesView { text: f.text, map: crate::features::parse_features(f.text) },
                ),
                None => None,
            },
            ..self
        }
    }

    /// Whether two tokens are equal: field by field, the features by their
    /// mappings.
    pub open spec fn same(self, other: TokenView) -> bool {
        &&& self.form == other.form
        &&& self.lemma == other.lemma
        &&& self.cpos == other.cpos
        &&& self.pos == other.pos
        &&& features_map(self.features) == features_map(other.features)
        &&& self.head == other.head
        &&& self.head_rel == other.head_rel
        &&& self.p_head == other.p_head
        &&& self.p_head_rel == other.p_head_rel
    }
}

/// A copy of a token is equal to the token where the mapping of its
/// features is the one that their text stands for, as it is for features
/// made from their text.
pub proof fn lemma_copied_same(t: TokenView)
    requires
        t.features matches Some(f) ==> f.map == crate::features::parse_features(f.text),
    ensures
        t.copied() == t,
        t.copied().same(t),
{
}

/// The tokens of a sentence as values.
pub open spec fn sentence_view(s: Seq<Token>) -> Seq<TokenView> {
    s.map_values(|t: Token| t@)
}

/// Copies an optional string.
pub fn copy_optional(o: &Option<String>) -> (r: Option<String>)
    ensures
        optional_view(r) == optional_view(*o),
{
    match o {
        Some(v) => Some(v.clone()),
        None => None,
    }
}

/// An optional borrowed text as an optional string.
pub fn own_optional(o: Option<&str>) -> (r: Option<String>)
    ensures
        optional_view(r) == optional_str_view(o),
{
    match o {
        Some(v) => Some(v.to_owned()),
        None => None,
    }
}

/// A token of a sentence. Only the form is required; an absent field is
/// distinct from an empty one.
#[derive(Debug)]
pub struct Token {
    form: String,
    lemma: Option<String>,
    cpos: Option<String>,
    pos: Option<String>,
    features: Option<Features>,
    head: Option<usize>,
    head_rel: Option<String>,
    p_head: Option<usize>,
    p_head_rel: Option<String>,
}

impl View for Token {
    type V = TokenView;

    closed spec fn view(&self) -> TokenView {
        TokenView {
            form: self.form@,
            lemma: optional_view(self.lemma),
            cpos: optional_view(self.cpos),
            pos: optional_view(self.pos),
            features: optional_features_view(self.features),
            head: self.head,
            head_rel: optional_view(self.head_rel),
            p_head: self.p_head,
            p_head_rel: optional_view(self.p_head_rel),
        }
    }
}

impl Token {
    /// A token with the form `form`; all other fields are absent.
    pub fn new(form: &str) -> (t: Token)
        ensures
            t@ == (TokenView {
                form: form@,
                lemma: None,
                cpos: None,
                pos: None,
                features: None,
                head: None,
                head_rel: None,
                p_head: None,
                p_head_rel: None,
            }),
    {
        Token {
            form: form.to_owned(),
            lemma: None,
            cpos: None,
            pos: None,
            features: None,
            head: None,
            head_rel: None,
            p_head: None,
            p_head_rel: None,
        }
    }

    /// Get the word form or punctuation symbol.
    pub fn form(&self) -> (r: &str)
        ensures
            r@ == self@.form,
    {
        self.form.as_str()
    }

    /// Get the lemma or stem of the word form.
    pub fn lemma(&self) -> (r: Option<&str>)
        ensures
            optional_str_view(r) == self@.lemma,
    {
        match &self.lemma {
            Some(v) => Some(v.as_str()),
            None => None,
        }
    }

    /// Get the coarse-grained part-of-speech tag.
    pub fn cpos(&self) -> (r: Option<&str>)
        ensures
            optional_str_view(r) == self@.cpos,
    {
        match &self.cpos {
            Some(v) => Some(v.as_str()),
            None => None,
        }
    }

    /// Get the fine-grained part-of-speech tag.
    pub fn pos(&self) -> (r: Option<&str>)
        ensures
            optional_str_view(r) == self@.pos,
    {
        match &self.pos {
            Some(v) => Some(v.as_str()),
            None => None,
        }
    }

    /// Get the label of the dependency relation to the head.
    pub fn head_rel(&self) -> (r: Option<&str>)
        ensures
            optional_str_view(r) == self@.head_rel,
    {
        match &self.head_rel {
            Some(v) => Some(v.as_str()),
            None => None,
        }
    }

    /// Get the label of the dependency relation to the projective head.
    pub fn p_head_rel(&self) -> (r: Option<&str>)
        ensures
            optional_str_view(r) == self@.p_head_rel,
    {
        match &self.p_head_rel {
            Some(v) => Some(v.as_str()),
            None => None,
        }
    }

    /// Get the syntactic and/or morphological features of the token.
    pub fn features(&self) -> (r: Option<&Features>)
        ensures
            match r {
                Some(f) => self@.features == Some(FeaturesView { text: f.text(), map: f.map() }),
                None => self@.features is None,
            },
    {
        self.features.as_ref()
    }

    /// Get the head of the token: the position of another token of the sentence, or 0 for the root.
    pub fn head(&self) -> (r: Option<usize>)
        ensures
            r == self@.head,
    {
        self.head
    }

    /// Get the projective head of the token.
    pub fn p_head(&self) -> (r: Option<usize>)
        ensures
            r == self@.p_head,
    {
        self.p_head
    }

    /// Set the word form or punctuation symbol.
    ///
    /// Returns the form that is replaced.
    pub fn set_form(&mut self, form: &str) -> (r: String)
        ensures
            r@ == old(self)@.form,
            final(self)@ == (TokenView { form: form@, ..old(self)@ }),
    {
        let mut form = form.to_owned();
        core::mem::swap(&mut self.form, &mut form);
        form
    }

    /// Set the lemma or stem of the word form.
    ///
    /// Returns the value that is replaced.
    pub fn set_lemma(&mut self, lemma: Option<&str>) -> (r: Option<String>)
        ensures
            optional_view(r) == old(self)@.lemma,
            final(self)@ == (TokenView { lemma: optional_str_view(lemma), ..old(self)@ }),
    {
        let mut lemma = own_optional(lemma);
        core::mem::swap(&mut self.lemma, &mut lemma);
        lemma
    }

    /// Set the coarse-grained part-of-speech tag.
    ///
    /// Returns the value that is replaced.
    pub fn set_cpos(&mut self, cpos: Option<&str>) -> (r: Option<String>)
        ensures
            optional_view(r) == old(self)@.cpos,
            final(self)@ == (TokenView { cpos: optional_str_view(cpos), ..old(self)@ }),
    {
        let mut cpos = own_optional(cpos);
        core::mem::swap(&mut self.cpos, &mut cpos);
        cpos
    }

    /// Set the fine-grained part-of-speech tag.
    ///
    /// Returns the value that is replaced.
    pub fn set_pos(&mut self, pos: Option<&str>) -> (r: Option<String>)
        ensures
            optional_view(r) == old(self)@.pos,
            final(self)@ == (TokenView { pos: optional_str_view(pos), ..old(self)@ }),
    {
        let mut pos = own_optional(pos);
        core::mem::swap(&mut self.pos, &mut pos);
        pos
    }

    /// Set the label of the dependency relation to the head.
    ///
    /// Returns the value that is replaced.
    pub fn set_head_rel(&mut self, head_rel: Option<&str>) -> (r: Option<String>)
        ensures
            optional_view(r) == old(self)@.head_rel,
            final(self)@ == (TokenView { head_rel: optional_str_view(head_rel), ..old(self)@ }),
    {
        let mut head_rel = own_optional(head_rel);
        core::mem::swap(&mut self.head_rel, &mut head_rel);
        head_rel
    }

    /// Set the label of the dependency relation to the projective head.
    ///
    /// Returns the value that is replaced.
    pub fn set_p_head_rel(&mut self, p_head_rel: Option<&str>) -> (r: Option<String>)
        ensures
            optional_view(r) == old(self)@.p_head_rel,
            final(self)@ == (TokenView { p_head_rel: optional_str_view(p_head_rel), ..old(self)@ }),
    {
        let mut p_head_rel = own_optional(p_head_rel);
        core::mem::swap(&mut self.p_head_rel, &mut p_head_rel);
        p_head_rel
    }

    /// Set the syntactic and/or morphological features of the token.
    ///
    /// Returns the features that are replaced.
    pub fn set_features(&mut self, features: Option<Features>) -> (r: Option<Features>)
        ensures
            optional_features_view(r) == old(self)@.features,
            final(self)@ == (TokenView {
                features: optional_features_view(features),
                ..old(self)@
            }),
    {
        let mut features = features;
        core::mem::swap(&mut self.features, &mut features);
        features
    }

    /// Set the head of the token: the position of another token of the sentence, or 0 for the root.
    ///
    /// Returns the value that is replaced.
    pub fn set_head(&mut self, head: Option<usize>) -> (r: Option<usize>)
        ensures
            r == old(self)@.head,
            final(self)@ == (TokenView { head: head, ..old(self)@ }),
    {
        let mut head = head;
        core::mem::swap(&mut self.head, &mut head);
        head
    }

    /// Set the projective head of the token.
    ///
    /// Returns the value that is replaced.
    pub fn set_p_head(&mut self, p_head: Option<usize>) -> (r: Option<usize>)
        ensures
            r == old(self)@.p_head,
            final(self)@ == (TokenView { p_head: p_head, ..old(self)@ }),
    {
        let mut p_head = p_head;
        core::mem::swap(&mut self.p_head, &mut p_head);
        p_head
    }
}

impl Clone for Token {
    /// A copy of the token. The mapping of its features is read from their
    /// text anew.
    fn clone(&self) -> (r: Token)
        ensures
            r@ == self@.copied(),
    {
        Token {
            form: self.form.clone(),
            lemma: copy_optional(&self.lemma),
            cpos: copy_optional(&self.cpos),
            pos: copy_optional(&self.pos),
            features: match &self.features {
                Some(f) => Some(f.clone()),
                None => None,
            },
            head: self.head,
            head_rel: copy_optional(&self.head_rel),
            p_head: self.p_head,
            p_head_rel: copy_optional(&self.p_head_rel),
        }
    }
}

impl PartialEq for Token {
    /// Tokens are equal field by field; features are equal where their
    /// mappings are.
    fn eq(&self, other: &Token) -> (r: bool) {
        let features = match (&self.features, &other.features) {
            (Some(a), Some(b)) => *a == *b,
            (None, None) => true,
            _ => false,
        };
        self.form == other.form && crate::features::same_optional(&self.lemma, &other.lemma)
            && crate::features::same_optional(&self.cpos, &other.cpos)
            && crate::features::same_optional(&self.pos, &other.pos) && features && self.head
            == other.head && crate::features::same_optional(&self.head_rel, &other.head_rel)
            && self.p_head == other.p_head && crate::features::same_optional(
            &self.p_head_rel,
            &other.p_head_rel,
        )
    }
}

impl Eq for Token {

}

impl vstd::std_specs::cmp::PartialEqSpecImpl for Token {
    open spec fn obeys_eq_spec() -> bool {
        true
    }

    open spec fn eq_spec(&self, other: &Token) -> bool {
        self@.same(other@)
    }
}

/// A builder for `Token`s.
///
/// A token has many fields, most of them optional. The builder sets them one
/// call at a time.
pub struct TokenBuilder {
    token: Token,
}

impl View for TokenBuilder {
    type V = TokenView;

    closed spec fn view(&self) -> TokenView {
        self.token@
    }
}

impl TokenBuilder {
    /// A builder for a token with the form `form` and all other fields
    /// absent.
    pub fn new(form: &str) -> (b: TokenBuilder)
        ensures
            b@ == (TokenView {
                form: form@,
                lemma: None,
                cpos: None,
                pos: None,
                features: None,
                head: None,
                head_rel: None,
                p_head: None,
                p_head_rel: None,
            }),
    {
        TokenBuilder { token: Token::new(form) }
    }

    /// Set the word form or punctuation symbol.
    pub fn form(self, form: &str) -> (b: TokenBuilder)
        ensures
            b@ == (TokenView { form: form@, ..self@ }),
    {
        let mut b = self;
        b.token.set_form(form);
        b
    }

    /// Set the lemma or stem of the word form.
    pub fn lemma(self, lemma: &str) -> (b: TokenBuilder)
        ensures
            b@ == (TokenView { lemma: Some(lemma@), ..self@ }),
    {
        let mut b = self;
        b.token.set_lemma(Some(lemma));
        b
    }

    /// Set the coarse-grained part-of-speech tag.
    pub fn cpos(self, cpos: &str) -> (b: TokenBuilder)
        ensures
            b@ == (TokenView { cpos: Some(cpos@), ..self@ }),
    {
        let mut b = self;
        b.token.set_cpos(Some(cpos));
        b
    }

    /// Set the fine-grained part-of-speech tag.
    pub fn pos(self, pos: &str) -> (b: TokenBuilder)
        ensures
            b@ == (TokenView { pos: Some(pos@), ..self@ }),
    {
        let mut b = self;
        b.token.set_pos(Some(pos));
        b
    }

    /// Set the label of the dependency relation to the head.
    pub fn head_rel(self, head_rel: &str) -> (b: TokenBuilder)
        ensures
            b@ == (TokenView { head_rel: Some(head_rel@), ..self@ }),
    {
        let mut b = self;
        b.token.set_head_rel(Some(head_rel));
        b
    }

    /// Set the label of the dependency relation to the projective head.
    pub fn p_head_rel(self, p_head_rel: &str) -> (b: TokenBuilder)
        ensures
            b@ == (TokenView { p_head_rel: Some(p_head_rel@), ..self@ }),
    {
        let mut b = self;
        b.token.set_p_head_rel(Some(p_head_rel));
        b
    }

    /// Set the syntactic and/or morphological features of the token.
    pub fn features(self, features: Features) -> (b: TokenBuilder)
        ensures
            b@ == (TokenView {
                features: Some(FeaturesView { text: features.text(), map: features.map() }),
                ..self@
            }),
    {
        let mut b = self;
        b.token.set_features(Some(features));
        b
    }

    /// Set the head of the token: the position of another token of the sentence, or 0 for the root.
    pub fn head(self, head: usize) -> (b: TokenBuilder)
        ensures
            b@ == (TokenView { head: Some(head), ..self@ }),
    {
        let mut b = self;
        b.token.set_head(Some(head));
        b
    }

    /// Set the projective head of the token.
    pub fn p_head(self, p_head: usize) -> (b: TokenBuilder)
        ensures
            b@ == (TokenView { p_head: Some(p_head), ..self@ }),
    {
        let mut b = self;
        b.token.set_p_head(Some(p_head));
        b
    }

    /// The builder that holds `token`.
    pub closed spec fn holding(token: Token) -> TokenBuilder {
        TokenBuilder { token }
    }

    /// The token that the builder holds.
    pub closed spec fn built(self) -> Token {
        self.token
    }

    /// The token that was built.
    pub fn token(self) -> (t: Token)
        ensures
            t == self.built(),
            t@ == self@,
    {
        self.token
    }
}

impl From<Token> for TokenBuilder {
    fn from(token: Token) -> (b: TokenBuilder) {
        TokenBuilder { token }
    }
}

impl vstd::std_specs::convert::FromSpecImpl<Token> for TokenBuilder {
    open spec fn obeys_from_spec() -> bool {
        true
    }

    open spec fn from_spec(token: Token) -> TokenBuilder {
        TokenBuilder::holding(token)
    }
}

impl From<TokenBuilder> for Token {
    fn from(builder: TokenBuilder) -> (t: Token) {
        builder.token
    }
}

impl vstd::std_specs::convert::FromSpecImpl<TokenBuilder> for Token {
    open spec fn obeys_from_spec() -> bool {
        true
    }

    open spec fn from_spec(builder: TokenBuilder) -> Token {
        builder.built()
    }
}

} // verus!
