//! The comparison operators on digits and on both kinds of list index.

use crate::opaque_index::{opaque_order, OpaqueIndex};
use crate::order::Order;
use crate::zeno_index::{fraction_value, zeno_less, FractionByte, ZenoIndex};
use core::cmp::Ordering;
use vstd::prelude::*;
use vstd::std_specs::cmp::PartialEqSpecImpl;
use vstd::std_specs::cmp::PartialOrdSpecImpl;

verus! {

/// The standard form of a three-way comparison.
pub open spec fn ordering_of(o: Order) -> Ordering {
    match o {
        Order::Less => Ordering::Less,
        Order::Equal => Ordering::Equal,
        Order::Greater => Ordering::Greater,
    }
}

fn to_ordering(o: Order) -> (r: Ordering)
    ensures
        r == ordering_of(o),
{
    match o {
        Order::Less => Ordering::Less,
        Order::Equal => Ordering::Equal,
        Order::Greater => Ordering::Greater,
    }
}

impl PartialOrd for FractionByte {
    fn partial_cmp(&self, other: &FractionByte) -> (r: Option<Ordering>) {
        Some(to_ordering(self.compare(other)))
    }
}

impl PartialOrdSpecImpl for FractionByte {
    open spec fn obeys_partial_cmp_spec() -> bool {
        true
    }

    open spec fn partial_cmp_spec(&self, other: &FractionByte) -> Option<Ordering> {
        if fraction_value(*self) < fraction_value(*other) {
            Some(Ordering::Less)
        } else if *self == *other {
            Some(Ordering::Equal)
        } else {
            Some(Ordering::Greater)
        }
    }
}

impl PartialEq for ZenoIndex {
    fn eq(&self, other: &ZenoIndex) -> (r: bool) {
        self.compare(other) == Order::Equal
    }
}

impl PartialEqSpecImpl for ZenoIndex {
    open spec fn obeys_eq_spec() -> bool {
        true
    }

    open spec fn eq_spec(&self, other: &ZenoIndex) -> bool {
        self.0@ == other.0@
    }
}

impl Eq for ZenoIndex {
}

impl PartialOrd for ZenoIndex {
    fn partial_cmp(&self, other: &ZenoIndex) -> (r: Option<Ordering>) {
        Some(to_ordering(self.compare(other)))
    }
}

impl PartialOrdSpecImpl for ZenoIndex {
    open spec fn obeys_partial_cmp_spec() -> bool {
        true
    }

    open spec fn partial_cmp_spec(&self, other: &ZenoIndex) -> Option<Ordering> {
        if zeno_less(self.0@, other.0@) {
            Some(Ordering::Less)
        } else if self.0@ == other.0@ {
            Some(Ordering::Equal)
        } else {
            Some(Ordering::Greater)
        }
    }
}

impl PartialEq for OpaqueIndex {
    fn eq(&self, other: &OpaqueIndex) -> (r: bool) {
        self.compare(other) == Order::Equal
    }
}

impl PartialEqSpecImpl for OpaqueIndex {
    open spec fn obeys_eq_spec() -> bool {
        true
    }

    open spec fn eq_spec(&self, other: &OpaqueIndex) -> bool {
        opaque_order(self.0@, other.0@) == Order::Equal
    }
}

impl PartialOrd for OpaqueIndex {
    fn partial_cmp(&self, other: &OpaqueIndex) -> (r: Option<Ordering>) {
        Some(to_ordering(self.compare(other)))
    }
}

impl PartialOrdSpecImpl for OpaqueIndex {
    open spec fn obeys_partial_cmp_spec() -> bool {
        true
    }

    open spec fn partial_cmp_spec(&self, other: &OpaqueIndex) -> Option<Ordering> {
        Some(ordering_of(opaque_order(self.0@, other.0@)))
    }
}

} // verus!
