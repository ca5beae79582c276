//! A named token variant with the specifications that produce it.
use vstd::prelude::*;

use crate::specification::{priority_fits, priority_of, Specification};

verus! {

/// A token variant: its name and each specification that yields it, with the
/// priority of that specification.
pub struct Variant<T> {
    pub name: T,
    pub specifications: Vec<(Specification, usize)>,
}

impl<T> Variant<T> {
    /// A variant with a single specification; without an explicit priority
    /// the specification's default priority is used.
    pub fn new(name: T, specification: Specification, priority: Option<usize>) -> (r: Self)
        requires
            priority is None ==> priority_fits(specification),
        ensures
            r.name == name,
            r.specifications@.len() == 1,
            r.specifications@[0].0 == specification,
            r.specifications@[0].1 == (match priority {
                Some(p) => p as nat,
                None => priority_of(specification),
            }),
    {
        let priority = match priority {
            Some(p) => p,
            None => specification.default_priority(),
        };
        let mut specifications: Vec<(Specification, usize)> = Vec::new();
        specifications.push((specification, priority));
        Self { name, specifications }
    }

    pub fn new_multi_specification(name: T, specifications: Vec<(Specification, usize)>) -> (r:
        Self)
        ensures
            r.name == name,
            r.specifications == specifications,
    {
        Self { name, specifications }
    }

    pub(crate) fn name(&self) -> (r: &T)
        ensures
            *r == self.name,
    {
        &self.name
    }

    pub(crate) fn specifications(&self) -> (r: &[(Specification, usize)])
        ensures
            r@ == self.specifications@,
    {
        self.specifications.as_slice()
    }
}

} // verus!
