//! Sentences in the CoNLL-X dependency format: a token model, a codec for the
//! tabular text, and the pseudo-projective transformation of dependency trees.
//!
//! A sentence is a list of tokens; each token may name its head, which is
//! another token of the sentence or the root, and the label of that
//! relation. [`proj`] turns a sentence into a graph, finds the edges that are
//! not projective, and lifts them until none is left; [`deproj`] undoes the
//! lifts. Both work on `petgraph`'s graph, whose contents [`graph`] describes;
//! [`graph_algo`] walks it breadth-first. [`reader`] and [`writer`] turn text
//! into sentences and back.
//!
//! The functions state what they compute over values of mathematics: a token
//! by its [`token::TokenView`], a graph by its [`graph::GraphModel`]. What is
//! true of them together is stated in [`sentence_tree`], [`tree`],
//! [`levels`] and [`roundtrip`].

pub mod deproj;
pub mod error;
pub mod features;
pub mod graph;
pub mod graph_algo;
pub mod levels;
pub mod proj;
pub mod reader;
pub mod roundtrip;
pub mod sentence_tree;
pub mod text;
pub mod token;
pub mod tree;
pub mod writer;

pub use deproj::Deprojectivize;
pub use error::{GraphError, ReadError, WriteError};
pub use features::Features;
pub use graph_algo::BfsWithDepth;
pub use proj::{non_projective_edges, sentence_to_graph, HeadProjectivizer, Projectivize};
pub use reader::{ReadSentence, Reader, Sentences};
pub use token::{Sentence, Token, TokenBuilder, EMPTY_TOKEN};
pub use writer::{PartitioningWriter, WriteSentence, Writer};
