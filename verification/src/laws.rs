//! The store's standing guarantees, stated on their own. Each follows
//! from the well-formedness every operation requires and re-establishes
//! and from the capacity clause every ordinary operation's contract
//! carries, so together with those contracts they hold of any sequence
//! of operations run from an empty store.

use vstd::prelude::*;

use crate::store::BookingStore;

verus! {

/// No overbooking: in any store reachable by ordinary operations — a
/// fresh store satisfies `capacity_ok` for every journey, and every
/// operation but the administrative seat override ensures it is
/// preserved — the seats booked on a journey never exceed the seats it
/// offers.
pub proof fn lemma_no_overbooking(s: BookingStore, journey_id: u128)
    requires
        s.wf(),
        s.capacity_ok(journey_id),
        s.has_journey(journey_id),
    ensures
        s.booked(journey_id) <= s.journey_by_id(journey_id).total_seats,
{
}

/// Duplicate prevention: a well-formed store never holds two bookings
/// for the same (journey, traveller) pair, so for a fixed pair at most
/// one booking ever exists however requests raced.
pub proof fn lemma_duplicate_prevention(s: BookingStore, journey_id: u128, traveller_id: u128)
    requires
        s.wf(),
    ensures
        forall|i: int, j: int|
            0 <= i < s.bookings@.len() && 0 <= j < s.bookings@.len() && i != j
                && (#[trigger] s.bookings@[i]).journey_id == journey_id && s.bookings@[
                i
            ].traveller_id == traveller_id ==> !((#[trigger] s.bookings@[j]).journey_id
                == journey_id && s.bookings@[j].traveller_id == traveller_id),
{
}

} // verus!
