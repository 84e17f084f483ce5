//! The time collaborator: one trusted call that reads the wall clock.
//!
//! Every rule that depends on time takes the instant as an argument and
//! is verified for every value of it; only the entry points that serve
//! "now" draw the instant from here.

use vstd::prelude::*;

verus! {

/// Relies on chrono's `Utc::now`, reduced to milliseconds since the
/// Unix epoch by `DateTime::timestamp_millis`. Non-negative because
/// chrono refuses a system clock standing before the epoch. Nothing
/// else can be promised of a clock reading.
#[verifier::external_body]
pub(crate) fn current_time_ms() -> (r: i64)
    ensures
        r >= 0,
{
    chrono::Utc::now().timestamp_millis()
}

} // verus!
