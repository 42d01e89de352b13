//! A value that no transition changes.

use vstd::prelude::*;

verus! {

/// A value fixed when it is made.
#[derive(Debug, Clone)]
pub struct Constant<T> {
    pub value: T,
}

impl<T> Constant<T> {
    /// A constant holding `initial`.
    pub fn new(initial: T) -> (r: Constant<T>)
        ensures
            r.value == initial,
    {
        Constant { value: initial }
    }

    /// The value held.
    pub fn value(&self) -> (r: &T)
        ensures
            *r == self.value,
    {
        &self.value
    }
}

/// The transition type of a constant: none of its values may be applied.
#[derive(Debug, Clone, Copy, PartialEq, Eq, Structural)]
pub struct InvalidTransition;

} // verus!
