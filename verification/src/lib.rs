//! Building blocks of a lexer generator: byte-pattern specifications, the
//! state graph that a set of them compiles to, and an interpreter that runs
//! such a graph over input bytes.
use vstd::prelude::*;

pub mod analysis;
pub mod byte_test;
pub mod generator;
pub mod graph;
pub mod interpreter;
pub mod lexer;
pub mod parser;
pub mod regex;
pub mod runtime;
pub mod specification;
pub mod trusted;
pub mod variant;
pub mod variant_match;

pub use lexer::{InvalidLexerError, Lexer};
pub use specification::{Any, Loop, Sequence, Specification};
pub use variant::Variant;
pub use variant_match::{SimpleVariantMatch, VariantMatch};

verus! {

} // verus!
