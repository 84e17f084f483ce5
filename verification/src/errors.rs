//! The closed set of outcomes the booking core reports to its callers.

use vstd::prelude::*;

verus! {

/// Every failure a booking or catalog operation can report. Operations
/// return one of these synchronously; nothing in the core retries or
/// escalates.
#[derive(Clone, Copy, PartialEq, Eq, Structural, Debug)]
pub enum BookingError {
    /// The referenced journey or booking does not exist.
    NotFound,
    /// A malformed request: a non-positive seat count, an out-of-range
    /// coordinate, or a value past what the machine can represent.
    InvalidRequest,
    /// The requested seats, together with the seats already booked,
    /// would exceed the journey's total capacity.
    InsufficientCapacity,
    /// The pickup point lies outside the origin city's allowed radius.
    PickupOutOfRange,
    /// The traveller already holds a booking for this journey.
    DuplicateBooking,
    /// The journey's departure time is already in the past, so it cannot
    /// be booked.
    PastJourney,
    /// The booking's journey has already departed, so it cannot be
    /// cancelled by its traveller.
    JourneyAlreadyDeparted,
    /// The caller does not own the resource or lacks the role the
    /// operation demands.
    Forbidden,
}

} // verus!
