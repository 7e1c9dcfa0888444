//! Equality and order of timestamps and assignments.
//!
//! Timestamps are equal when they denote the same instant, and are ordered
//! by their instants. Assignments are ordered by due instant, then by name.

use crate::assignment::{Assignment, AssignmentV1, AssignmentView, Timestamp};
use crate::names::{name_lt, name_precedes};
use std::cmp::Ordering;
use vstd::prelude::*;
use vstd::std_specs::cmp::{PartialEqSpecImpl, PartialOrdSpecImpl};

verus! {

/// How the instant of `a` stands to that of `b`.
pub open spec fn instant_order(a: Timestamp, b: Timestamp) -> Ordering {
    if a.seconds < b.seconds {
        Ordering::Less
    } else if a.seconds > b.seconds {
        Ordering::Greater
    } else if a.nanos < b.nanos {
        Ordering::Less
    } else if a.nanos > b.nanos {
        Ordering::Greater
    } else {
        Ordering::Equal
    }
}

/// How the name `a` stands to the name `b`.
pub open spec fn name_order(a: Seq<char>, b: Seq<char>) -> Ordering {
    if name_lt(a, b) {
        Ordering::Less
    } else if name_lt(b, a) {
        Ordering::Greater
    } else {
        Ordering::Equal
    }
}

/// How the task `a` stands to the task `b`: by due instant, and by name
/// where the instants are the same.
pub open spec fn assignment_order(a: AssignmentView, b: AssignmentView) -> Ordering {
    if a.due_date.same_instant(b.due_date) {
        name_order(a.name, b.name)
    } else {
        instant_order(a.due_date, b.due_date)
    }
}

/// Compares two instants.
pub fn order_instants(a: &Timestamp, b: &Timestamp) -> (r: Ordering)
    ensures
        r == instant_order(*a, *b),
{
    if a.seconds < b.seconds {
        Ordering::Less
    } else if a.seconds > b.seconds {
        Ordering::Greater
    } else if a.nanos < b.nanos {
        Ordering::Less
    } else if a.nanos > b.nanos {
        Ordering::Greater
    } else {
        Ordering::Equal
    }
}

/// Compares two names by the bytes of their encodings.
pub fn order_names(a: &str, b: &str) -> (r: Ordering)
    ensures
        r == name_order(a@, b@),
{
    if name_precedes(a, b) {
        Ordering::Less
    } else if name_precedes(b, a) {
        Ordering::Greater
    } else {
        Ordering::Equal
    }
}

impl PartialEq for Timestamp {
    fn eq(&self, other: &Self) -> (r: bool) {
        self.seconds == other.seconds && self.nanos == other.nanos
    }
}

impl PartialEqSpecImpl for Timestamp {
    open spec fn obeys_eq_spec() -> bool {
        true
    }

    open spec fn eq_spec(&self, other: &Self) -> bool {
        self.same_instant(*other)
    }
}

impl Eq for Timestamp {

}

impl PartialOrd for Timestamp {
    fn partial_cmp(&self, other: &Self) -> (r: Option<Ordering>) {
        Some(order_instants(self, other))
    }
}

impl PartialOrdSpecImpl for Timestamp {
    open spec fn obeys_partial_cmp_spec() -> bool {
        true
    }

    open spec fn partial_cmp_spec(&self, other: &Self) -> Option<Ordering> {
        Some(instant_order(*self, *other))
    }
}

impl PartialEq for Assignment {
    fn eq(&self, other: &Self) -> (r: bool) {
        self.due_date == other.due_date && self.name == other.name
    }
}

impl PartialEqSpecImpl for Assignment {
    open spec fn obeys_eq_spec() -> bool {
        true
    }

    open spec fn eq_spec(&self, other: &Self) -> bool {
        self@.same_task(other@)
    }
}

impl Eq for Assignment {

}

impl PartialOrd for Assignment {
    fn partial_cmp(&self, other: &Self) -> (r: Option<Ordering>) {
        if self.due_date == other.due_date {
            Some(order_names(self.name.as_str(), other.name.as_str()))
        } else {
            Some(order_instants(&self.due_date, &other.due_date))
        }
    }
}

impl PartialOrdSpecImpl for Assignment {
    open spec fn obeys_partial_cmp_spec() -> bool {
        true
    }

    open spec fn partial_cmp_spec(&self, other: &Self) -> Option<Ordering> {
        Some(assignment_order(self@, other@))
    }
}

impl PartialEq for AssignmentV1 {
    fn eq(&self, other: &Self) -> (r: bool) {
        self.due_date == other.due_date && self.name == other.name && self.completed
            == other.completed
    }
}

impl PartialEqSpecImpl for AssignmentV1 {
    open spec fn obeys_eq_spec() -> bool {
        true
    }

    open spec fn eq_spec(&self, other: &Self) -> bool {
        &&& self.due_date.same_instant(other.due_date)
        &&& self.name@ == other.name@
        &&& self.completed == other.completed
    }
}

impl Eq for AssignmentV1 {

}

impl PartialOrd for AssignmentV1 {
    fn partial_cmp(&self, other: &Self) -> (r: Option<Ordering>) {
        if self.due_date == other.due_date {
            Some(order_names(self.name.as_str(), other.name.as_str()))
        } else {
            Some(order_instants(&self.due_date, &other.due_date))
        }
    }
}

impl PartialOrdSpecImpl for AssignmentV1 {
    open spec fn obeys_partial_cmp_spec() -> bool {
        true
    }

    open spec fn partial_cmp_spec(&self, other: &Self) -> Option<Ordering> {
        Some(assignment_order(self@.record(), other@.record()))
    }
}

} // verus!
