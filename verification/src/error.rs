//! The errors of the codec and of the graph construction.

use vstd::prelude::*;

verus! {

/// An error in the structure of a dependency graph.
#[derive(Debug)]
pub enum GraphError {
    /// A token names a head but carries no label for that relation. The
    /// value describes the edge.
    IncompleteGraph { value: String },
}

/// An error in the text of a sentence.
#[derive(Debug)]
pub enum ReadError {
    /// A head field is neither `_` nor a number, or an identifier is not a
    /// number. The value is the field as it was read.
    ParseIntField { value: String },
    /// The identifier of a token is `_`. The value is the field as it was
    /// read.
    ParseIdentifierField { value: String },
    /// A line ends after the identifier.
    MissingFormField,
}

/// An error of the sink that a sentence is written to.
#[derive(Debug)]
pub struct WriteError {
    /// What the sink reported.
    pub message: String,
}

/// An error in the text of a sentence, as a value.
pub enum ReadFailure {
    ParseIntField { value: Seq<char> },
    ParseIdentifierField { value: Seq<char> },
    MissingFormField,
}

impl View for ReadError {
    type V = ReadFailure;

    open spec fn view(&self) -> ReadFailure {
        match self {
            ReadError::ParseIntField { value } => ReadFailure::ParseIntField { value: value@ },
            ReadError::ParseIdentifierField { value } => ReadFailure::ParseIdentifierField {
                value: value@,
            },
            ReadError::MissingFormField => ReadFailure::MissingFormField,
        }
    }
}

impl GraphError {
    /// The text of the error.
    pub open spec fn message(self) -> Seq<char> {
        match self {
            GraphError::IncompleteGraph { value } => value@,
        }
    }
}

} // verus!
