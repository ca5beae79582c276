//! What a lexer produces when a specification matches.
use vstd::prelude::*;

verus! {

/// A match result that the graph can tell apart by priority.
pub trait VariantMatch {
    spec fn spec_priority(&self) -> usize;

    /// The priority with which this match wins over overlapping ones.
    fn priority(&self) -> (p: usize)
        ensures
            p == self.spec_priority(),
    ;
}

/// A variant match known by its name.
#[derive(Debug, PartialEq)]
pub struct SimpleVariantMatch<'a> {
    pub name: &'a str,
    pub priority: usize,
}

impl<'a> VariantMatch for SimpleVariantMatch<'a> {
    open spec fn spec_priority(&self) -> usize {
        self.priority
    }

    fn priority(&self) -> (p: usize) {
        self.priority
    }
}

impl<'a> SimpleVariantMatch<'a> {
    pub fn new(name: &'a str, priority: usize) -> (r: Self)
        ensures
            r.name == name,
            r.priority == priority,
    {
        Self { name, priority }
    }

    pub fn name(&self) -> (r: &'a str)
        ensures
            r == self.name,
    {
        self.name
    }
}

} // verus!
