//! A variant match that carries the variant it stands for.
use vstd::prelude::*;

verus! {

/// The variant `variant_name`, matched with `priority`.
#[derive(Debug, PartialEq)]
pub struct VariantMatch<T: PartialEq> {
    pub variant_name: T,
    pub priority: usize,
}

impl<T: PartialEq> VariantMatch<T> {
    /// The variant.
    pub fn variant_name(&self) -> (r: &T)
        ensures
            *r == self.variant_name,
    {
        &self.variant_name
    }

    /// The priority of the match.
    pub fn priority(&self) -> (r: usize)
        ensures
            r == self.priority,
    {
        self.priority
    }
}

} // verus!
