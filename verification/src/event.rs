//! Simulation events and the order in which they are handled.
use std::cmp::Ordering;
use vstd::prelude::*;
use vstd::std_specs::cmp::PartialEqSpecImpl;
use vstd::std_specs::cmp::PartialOrdSpecImpl;

verus! {

/// Event identifier.
pub type EventId = u64;

/// Identifier of a simulation component.
pub type Id = u32;

/// Representation of an event, without its payload.
///
/// The time of occurrence is kept as the bits of the `f64` time
/// (`f64::to_bits`); for the non-negative times of a simulation the bits
/// order as the times do.
#[derive(Clone, Copy, Debug)]
pub struct Event {
    /// Unique event identifier.
    ///
    /// Events are numbered sequentially starting from 0.
    pub id: EventId,
    /// Bits of the time of event occurrence.
    pub time_bits: u64,
    /// Identifier of event source.
    pub src: Id,
    /// Identifier of event destination.
    pub dest: Id,
}

/// Event `a` is handled before event `b`: it occurs earlier, or at the same
/// time with a smaller identifier.
pub open spec fn handled_before(a: Event, b: Event) -> bool {
    a.time_bits < b.time_bits || (a.time_bits == b.time_bits && a.id < b.id)
}

/// The order of events in the simulation queue, a max-heap: the event that is
/// handled first is the greatest.
pub open spec fn event_order(a: Event, b: Event) -> Ordering {
    if handled_before(a, b) {
        Ordering::Greater
    } else if handled_before(b, a) {
        Ordering::Less
    } else {
        Ordering::Equal
    }
}

impl Event {
    /// Compares by time, then by identifier, both reversed: the event that
    /// occurs first (and among simultaneous ones, the one created first) is
    /// the greatest.
    pub fn cmp(&self, other: &Self) -> (r: Ordering)
        ensures
            r == event_order(*self, *other),
    {
        if other.time_bits > self.time_bits {
            Ordering::Greater
        } else if other.time_bits < self.time_bits {
            Ordering::Less
        } else if other.id > self.id {
            Ordering::Greater
        } else if other.id < self.id {
            Ordering::Less
        } else {
            Ordering::Equal
        }
    }
}

impl PartialEq for Event {
    fn eq(&self, other: &Self) -> (r: bool) {
        self.id == other.id
    }
}

impl PartialEqSpecImpl for Event {
    open spec fn obeys_eq_spec() -> bool {
        true
    }

    open spec fn eq_spec(&self, other: &Event) -> bool {
        self.id == other.id
    }
}

impl Eq for Event {

}

impl PartialOrd for Event {
    fn partial_cmp(&self, other: &Self) -> (r: Option<Ordering>) {
        Some(self.cmp(other))
    }
}

impl PartialOrdSpecImpl for Event {
    open spec fn obeys_partial_cmp_spec() -> bool {
        true
    }

    open spec fn partial_cmp_spec(&self, other: &Event) -> Option<Ordering> {
        Some(event_order(*self, *other))
    }
}

/// Swapping the two events reverses their order.
pub proof fn lemma_event_order_antisymmetric(a: Event, b: Event)
    ensures
        event_order(a, b) == Ordering::Less <==> event_order(b, a) == Ordering::Greater,
        event_order(a, b) == Ordering::Equal <==> event_order(b, a) == Ordering::Equal,
{
}

/// The order of events is transitive.
pub proof fn lemma_event_order_transitive(a: Event, b: Event, c: Event)
    ensures
        event_order(a, b) == Ordering::Less && event_order(b, c) == Ordering::Less ==> event_order(a, c) == Ordering::Less,
        event_order(a, b) == Ordering::Greater && event_order(b, c) == Ordering::Greater ==> event_order(a, c) == Ordering::Greater,
{
}

/// Two events compare equal exactly when they have the same time and the same
/// identifier; then they are also equal under `==`, which compares
/// identifiers alone.
pub proof fn lemma_event_order_equal(a: Event, b: Event)
    ensures
        event_order(a, b) == Ordering::Equal <==> (a.time_bits == b.time_bits && a.id == b.id),
        event_order(a, b) == Ordering::Equal ==> a.id == b.id,
{
}

/// Of two events with distinct identifiers, exactly one is handled first, and
/// it is the greater one.
pub proof fn lemma_event_order_total(a: Event, b: Event)
    requires
        a.id != b.id,
    ensures
        handled_before(a, b) != handled_before(b, a),
        event_order(a, b) == Ordering::Greater <==> handled_before(a, b),
{
}

} // verus!
