//! State machines: values that change only by applying transitions, which
//! may be refused with a conflict.

use std::rc::Rc;
use vstd::prelude::*;

verus! {

/// A value that changes by transitions. Applying a transition gives the
/// next state, or a conflict when the transition cannot apply. States and
/// transitions are known by their views.
pub trait StateMachine: Sized + View {
    type Transition: View;
    type Conflict;

    /// The outcome of applying a transition to a state.
    spec fn next(state: Self::V, transition: <Self::Transition as View>::V) -> Result<Self::V, Self::Conflict>;

    /// Applies `transition`, leaving this state as it is.
    fn apply(&self, transition: &Self::Transition) -> (r: Result<Self, Self::Conflict>)
        ensures
            match r {
                Ok(s) => Self::next(self@, transition@) == Ok::<Self::V, Self::Conflict>(s@),
                Err(c) => Self::next(self@, transition@) == Err::<Self::V, Self::Conflict>(c),
            },
    ;

    /// A copy of a transition, kept while the transition itself is sent on.
    fn copy_transition(transition: &Self::Transition) -> (r: Self::Transition)
        ensures
            r@ == transition@,
    ;

    /// A copy of this state.
    fn copy_state(&self) -> (r: Self)
        ensures
            r@ == self@,
    ;
}

/// The view of a state machine's transitions.
pub type TransitionView<S> = <<S as StateMachine>::Transition as View>::V;

/// The conflict of a state machine whose transitions always apply; no
/// transition ever yields it.
#[derive(Debug, Clone, Copy, PartialEq, Eq, Structural)]
pub struct NeverConflict;

/// Another pointer to the same shared value (`Rc::clone`).
#[verifier::external_body]
pub(crate) fn share<T>(value: &Rc<T>) -> (r: Rc<T>)
    ensures
        r == *value,
{
    Rc::clone(value)
}

} // verus!
