//! A counter: an integer that transitions set, increment or decrement.

use crate::state_machine::{NeverConflict, StateMachine};
use vstd::prelude::*;

verus! {

/// An integer state; its arithmetic wraps around at the bounds of `i64`.
#[derive(Debug, PartialEq, Eq, Structural, Clone, Copy)]
pub struct Counter {
    pub value: i64,
}

/// A change to a counter.
#[derive(Debug, PartialEq, Eq, Structural, Clone, Copy)]
pub enum CounterTransition {
    SetValue(i64),
    Increment(i64),
    Decrement(i64),
}

/// The value a counter holding `value` holds after `t`.
pub open spec fn counter_after(value: i64, t: CounterTransition) -> i64 {
    match t {
        CounterTransition::SetValue(v) => v,
        CounterTransition::Increment(by) => value.wrapping_add(by),
        CounterTransition::Decrement(by) => value.wrapping_sub(by),
    }
}

impl Counter {
    pub fn new(value: i64) -> (r: Counter)
        ensures
            r.value == value,
    {
        Counter { value }
    }

    pub fn increment(by: i64) -> (r: CounterTransition)
        ensures
            r == CounterTransition::Increment(by),
    {
        CounterTransition::Increment(by)
    }

    pub fn decrement(by: i64) -> (r: CounterTransition)
        ensures
            r == CounterTransition::Decrement(by),
    {
        CounterTransition::Decrement(by)
    }

    pub fn set(to: i64) -> (r: CounterTransition)
        ensures
            r == CounterTransition::SetValue(to),
    {
        CounterTransition::SetValue(to)
    }

    pub fn value(&self) -> (r: i64)
        ensures
            r == self.value,
    {
        self.value
    }
}

impl Default for Counter {
    fn default() -> (r: Counter)
        ensures
            r.value == 0,
    {
        Counter { value: 0 }
    }
}

impl View for Counter {
    type V = i64;

    open spec fn view(&self) -> i64 {
        self.value
    }
}

impl View for CounterTransition {
    type V = CounterTransition;

    open spec fn view(&self) -> CounterTransition {
        *self
    }
}

impl StateMachine for Counter {
    type Transition = CounterTransition;
    type Conflict = NeverConflict;

    open spec fn next(state: i64, transition: CounterTransition) -> Result<i64, NeverConflict> {
        Ok(counter_after(state, transition))
    }

    fn apply(&self, transition: &CounterTransition) -> (r: Result<Counter, NeverConflict>) {
        match transition {
            CounterTransition::SetValue(v) => Ok(Counter { value: *v }),
            CounterTransition::Increment(by) => Ok(Counter { value: self.value.wrapping_add(*by) }),
            CounterTransition::Decrement(by) => Ok(Counter { value: self.value.wrapping_sub(*by) }),
        }
    }

    fn copy_transition(transition: &CounterTransition) -> (r: CounterTransition) {
        *transition
    }

    fn copy_state(&self) -> (r: Counter) {
        *self
    }
}

} // verus!
