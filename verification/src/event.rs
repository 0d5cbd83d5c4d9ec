//! A scheduled unit of work: a logical timestamp paired with an opaque payload.

use vstd::prelude::*;
use core::cmp::Ordering;

verus! {

/// A scheduled unit of work.
///
/// `start_time` is a non-negative logical timestamp whose unit is
/// caller-defined (ticks, milliseconds, simulation steps). `payload` is the
/// deferred work itself — typically a thunk binding a callback to its
/// arguments — which the queue never inspects.
pub struct Event<T> {
    pub start_time: usize,
    pub payload: T,
}

impl<T> Event<T> {
    /// Binds a timestamp and a payload into one movable unit.
    pub fn new(start_time: usize, payload: T) -> (e: Event<T>)
        ensures
            e.start_time == start_time,
            e.payload == payload,
    {
        Event { start_time, payload }
    }
}

/// Events compare only by `start_time`. This relation is intentionally weak:
/// two events with equal timestamps are indistinguishable by it, which is why
/// the queue disambiguates them with insertion sequence numbers and handles.
impl<T> PartialEq for Event<T> {
    fn eq(&self, other: &Self) -> (r: bool) {
        self.start_time == other.start_time
    }
}

impl<T> vstd::std_specs::cmp::PartialEqSpecImpl for Event<T> {
    open spec fn obeys_eq_spec() -> bool {
        true
    }

    open spec fn eq_spec(&self, other: &Self) -> bool {
        self.start_time == other.start_time
    }
}

impl<T> Eq for Event<T> {}

impl<T> PartialOrd for Event<T> {
    fn partial_cmp(&self, other: &Self) -> (r: Option<Ordering>) {
        if self.start_time < other.start_time {
            Some(Ordering::Less)
        } else if self.start_time == other.start_time {
            Some(Ordering::Equal)
        } else {
            Some(Ordering::Greater)
        }
    }
}

impl<T> vstd::std_specs::cmp::PartialOrdSpecImpl for Event<T> {
    open spec fn obeys_partial_cmp_spec() -> bool {
        true
    }

    open spec fn partial_cmp_spec(&self, other: &Self) -> Option<Ordering> {
        if self.start_time < other.start_time {
            Some(Ordering::Less)
        } else if self.start_time == other.start_time {
            Some(Ordering::Equal)
        } else {
            Some(Ordering::Greater)
        }
    }
}

} // verus!
