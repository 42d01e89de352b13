//! A value that changes only by being replaced whole, shared behind an `Rc`.

use crate::state_machine::{share, NeverConflict, StateMachine};
use std::rc::Rc;
use vstd::prelude::*;

verus! {

/// A state machine whose only transition replaces its value.
#[derive(Debug)]
pub struct AtomRc<T> {
    pub value: Rc<T>,
}

/// The transition that replaces an atom's value with the one it holds.
#[derive(Debug)]
pub struct ReplaceAtomRc<T>(pub Rc<T>);

impl<T> AtomRc<T> {
    /// An atom holding `initial`.
    pub fn new(initial: T) -> (r: AtomRc<T>)
        ensures
            *r.value == initial,
    {
        AtomRc { value: Rc::new(initial) }
    }

    /// The value held.
    pub fn value(&self) -> (r: &T)
        ensures
            *r == *self.value,
    {
        &*self.value
    }

    /// The transition that replaces the value with `replacement`.
    pub fn replace(&self, replacement: T) -> (r: ReplaceAtomRc<T>)
        ensures
            *r.0 == replacement,
    {
        ReplaceAtomRc(Rc::new(replacement))
    }
}

impl<T> View for AtomRc<T> {
    type V = T;

    open spec fn view(&self) -> T {
        *self.value
    }
}

impl<T> View for ReplaceAtomRc<T> {
    type V = T;

    open spec fn view(&self) -> T {
        *self.0
    }
}

impl<T> StateMachine for AtomRc<T> {
    type Transition = ReplaceAtomRc<T>;
    type Conflict = NeverConflict;

    open spec fn next(state: T, transition: T) -> Result<T, NeverConflict> {
        Ok(transition)
    }

    fn apply(&self, transition: &ReplaceAtomRc<T>) -> (r: Result<AtomRc<T>, NeverConflict>) {
        Ok(AtomRc { value: share(&transition.0) })
    }

    fn copy_transition(transition: &ReplaceAtomRc<T>) -> (r: ReplaceAtomRc<T>) {
        ReplaceAtomRc(share(&transition.0))
    }

    fn copy_state(&self) -> (r: AtomRc<T>) {
        AtomRc { value: share(&self.value) }
    }
}

/// Replacing always applies and gives exactly the replacement: the value
/// held before plays no part, and applying the same replacement again
/// changes nothing.
pub proof fn lemma_replace_gives_replacement<T>(state: T, other: T, replacement: T)
    ensures
        AtomRc::<T>::next(state, replacement) is Ok,
        AtomRc::<T>::next(state, replacement)->Ok_0 == replacement,
        AtomRc::<T>::next(state, replacement) == AtomRc::<T>::next(other, replacement),
        AtomRc::<T>::next(AtomRc::<T>::next(state, replacement)->Ok_0, replacement) == AtomRc::<T>::next(state, replacement),
{
}

impl<T: Default> Default for AtomRc<T> {
    fn default() -> (r: AtomRc<T>)
        ensures
            call_ensures(T::default, (), *r.value),
    {
        AtomRc::new(T::default())
    }
}

} // verus!
