//! The set of specifications that a lexer recognises, each with its match.
use vstd::prelude::*;

use crate::specification::Specification;

verus! {

/// A lexer description: one or more specifications, each with the match it
/// produces.
pub struct Lexer<T> {
    pub variant_matches: Vec<(Specification, T)>,
}

/// Why a lexer description was refused.
#[derive(Debug, PartialEq, Eq, Structural)]
pub enum InvalidLexerError {
    NoVariants,
}

impl<T> Lexer<T> {
    /// Accepts any non-empty list of variant matches.
    pub fn new(variant_matches: Vec<(Specification, T)>) -> (r: Result<Self, InvalidLexerError>)
        ensures
            variant_matches@.len() == 0 ==> r == Err::<Self, _>(InvalidLexerError::NoVariants),
            variant_matches@.len() != 0 ==> (r matches Ok(l) && l.variant_matches
                == variant_matches),
    {
        if variant_matches.len() == 0 {
            return Err(InvalidLexerError::NoVariants);
        }
        Ok(Self { variant_matches })
    }

    pub fn variant_matches(&self) -> (r: &[(Specification, T)])
        ensures
            r@ == self.variant_matches@,
    {
        self.variant_matches.as_slice()
    }
}

} // verus!
