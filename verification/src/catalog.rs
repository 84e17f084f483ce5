//! The records the booking core keeps: cities, journeys and bookings,
//! and the derived per-journey seat total that the capacity invariant
//! speaks about.

use vstd::prelude::*;

use crate::geo::GeoPoint;

verus! {

/// Reference data: a city with its pickup geofence.
#[derive(Clone, Debug)]
pub struct City {
    pub id: u32,
    pub name: String,
    pub center: GeoPoint,
    /// Radius of the allowed pickup zone around `center`, in metres.
    pub radius_m: u64,
}

/// A scheduled run between two cities with a finite seat capacity.
#[derive(Clone, Copy, Debug)]
pub struct Journey {
    pub id: u128,
    pub origin_city_id: u32,
    pub destination_city_id: u32,
    /// Departure instant, in milliseconds of the collaborating clock.
    pub departure_ms: i64,
    pub total_seats: u32,
    pub driver_id: Option<u128>,
    pub created_ms: i64,
}

/// A traveller's reservation of seats on one journey.
#[derive(Clone, Copy, PartialEq, Eq, Structural, Debug)]
pub struct Booking {
    pub id: u128,
    pub journey_id: u128,
    pub traveller_id: u128,
    pub seats: u32,
    pub pickup: GeoPoint,
    pub created_ms: i64,
}

/// A partial rewrite of a journey: each field given replaces the
/// journey's, each field absent leaves it as it stands.
#[derive(Clone, Copy, Debug)]
pub struct UpdateJourneyRequest {
    pub origin_city_id: Option<u32>,
    pub destination_city_id: Option<u32>,
    pub departure_ms: Option<i64>,
    pub total_seats: Option<u32>,
}

/// The journey as it stands after an update request is applied. The
/// identity, driver assignment and creation time never change this way.
pub open spec fn apply_update(j: Journey, u: UpdateJourneyRequest) -> Journey {
    Journey {
        origin_city_id: match u.origin_city_id {
            Some(c) => c,
            None => j.origin_city_id,
        },
        destination_city_id: match u.destination_city_id {
            Some(c) => c,
            None => j.destination_city_id,
        },
        departure_ms: match u.departure_ms {
            Some(t) => t,
            None => j.departure_ms,
        },
        total_seats: match u.total_seats {
            Some(s) => s,
            None => j.total_seats,
        },
        ..j
    }
}

/// The journey as it stands after a driver's deletion: if this driver
/// was assigned, the assignment is cleared; otherwise nothing changes.
pub open spec fn clear_driver(j: Journey, driver_id: u128) -> Journey {
    if j.driver_id == Some(driver_id) {
        Journey { driver_id: None, ..j }
    } else {
        j
    }
}

/// The bookings that belong to one journey.
pub open spec fn of_journey(jid: u128) -> spec_fn(Booking) -> bool {
    |b: Booking| b.journey_id == jid
}

/// The bookings that belong to one traveller.
pub open spec fn of_traveller(tid: u128) -> spec_fn(Booking) -> bool {
    |b: Booking| b.traveller_id == tid
}

/// The journeys assigned to one driver.
pub open spec fn driven_by(driver_id: u128) -> spec_fn(Journey) -> bool {
    |j: Journey| j.driver_id == Some(driver_id)
}

/// The journeys that have not yet departed at `now_ms`.
pub open spec fn departs_at_or_after(now_ms: i64) -> spec_fn(Journey) -> bool {
    |j: Journey| j.departure_ms >= now_ms
}

/// The seats booked on journey `jid`: the sum of the seat counts of the
/// bookings in `bs` that reference it. This derived total is the single
/// quantity the capacity invariant constrains.
pub open spec fn seats_sum(bs: Seq<Booking>, jid: u128) -> int
    decreases bs.len(),
{
    if bs.len() == 0 {
        0
    } else {
        seats_sum(bs.drop_last(), jid) + if bs.last().journey_id == jid {
            bs.last().seats as int
        } else {
            0
        }
    }
}

/// Seat counts are unsigned, so the booked total is never negative.
pub proof fn lemma_seats_sum_nonneg(bs: Seq<Booking>, jid: u128)
    ensures
        seats_sum(bs, jid) >= 0,
    decreases bs.len(),
{
    if bs.len() > 0 {
        lemma_seats_sum_nonneg(bs.drop_last(), jid);
    }
}

/// Appending one booking raises the booked total of exactly its journey,
/// by exactly its seat count.
pub proof fn lemma_seats_sum_push(bs: Seq<Booking>, b: Booking, jid: u128)
    ensures
        seats_sum(bs.push(b), jid) == seats_sum(bs, jid) + if b.journey_id == jid {
            b.seats as int
        } else {
            0
        },
{
    assert(bs.push(b).drop_last() =~= bs);
}

/// A prefix of the bookings never sums to more than the whole: the tail
/// only adds non-negative seat counts.
pub proof fn lemma_seats_sum_take_le(bs: Seq<Booking>, i: int, jid: u128)
    requires
        0 <= i <= bs.len(),
    ensures
        seats_sum(bs.take(i), jid) <= seats_sum(bs, jid),
    decreases bs.len() - i,
{
    if i == bs.len() {
        assert(bs.take(i) =~= bs);
    } else {
        assert(bs.take(i + 1).drop_last() =~= bs.take(i));
        lemma_seats_sum_take_le(bs, i + 1, jid);
    }
}

/// Removing the booking at index `i` lowers the booked total of exactly
/// its journey, by exactly its seat count.
pub proof fn lemma_seats_sum_remove(bs: Seq<Booking>, i: int, jid: u128)
    requires
        0 <= i < bs.len(),
    ensures
        seats_sum(bs.remove(i), jid) == seats_sum(bs, jid) - if bs[i].journey_id == jid {
            bs[i].seats as int
        } else {
            0
        },
    decreases bs.len(),
{
    if i == bs.len() - 1 {
        assert(bs.remove(i) =~= bs.drop_last());
    } else {
        assert(bs.remove(i).drop_last() =~= bs.drop_last().remove(i));
        lemma_seats_sum_remove(bs.drop_last(), i, jid);
    }
}

/// Replacing the booking at index `i` shifts each journey's booked total
/// by the difference the replacement makes to it.
pub proof fn lemma_seats_sum_update(bs: Seq<Booking>, i: int, b: Booking, jid: u128)
    requires
        0 <= i < bs.len(),
    ensures
        seats_sum(bs.update(i, b), jid) == seats_sum(bs, jid) - (if bs[i].journey_id == jid {
            bs[i].seats as int
        } else {
            0
        }) + (if b.journey_id == jid {
            b.seats as int
        } else {
            0
        }),
    decreases bs.len(),
{
    if i == bs.len() - 1 {
        assert(bs.update(i, b).drop_last() =~= bs.drop_last());
        assert(bs.update(i, b).last() == b);
    } else {
        assert(bs.update(i, b).drop_last() =~= bs.drop_last().update(i, b));
        assert(bs.update(i, b).last() == bs.last());
        lemma_seats_sum_update(bs.drop_last(), i, b, jid);
    }
}

/// A journey nothing references has zero seats booked.
pub proof fn lemma_seats_sum_absent(bs: Seq<Booking>, jid: u128)
    requires
        forall|i: int| 0 <= i < bs.len() ==> (#[trigger] bs[i]).journey_id != jid,
    ensures
        seats_sum(bs, jid) == 0,
    decreases bs.len(),
{
    if bs.len() > 0 {
        assert(forall|i: int|
            0 <= i < bs.drop_last().len() ==> (#[trigger] bs.drop_last()[i]).journey_id != jid);
        lemma_seats_sum_absent(bs.drop_last(), jid);
    }
}

/// The predicate that keeps every booking not referencing `removed`;
/// deleting a journey drops its bookings by filtering with this.
pub open spec fn not_of_journey(removed: u128) -> spec_fn(Booking) -> bool {
    |b: Booking| b.journey_id != removed
}

/// Dropping every booking of journey `removed` zeroes that journey's
/// booked total and leaves every other journey's total unchanged.
pub proof fn lemma_seats_sum_filter_out(bs: Seq<Booking>, removed: u128, jid: u128)
    ensures
        jid == removed ==> seats_sum(bs.filter(not_of_journey(removed)), jid) == 0,
        jid != removed ==> seats_sum(bs.filter(not_of_journey(removed)), jid) == seats_sum(
            bs,
            jid,
        ),
    decreases bs.len(),
{
    reveal(Seq::filter);
    if bs.len() > 0 {
        lemma_seats_sum_filter_out(bs.drop_last(), removed, jid);
        let sub = bs.drop_last().filter(not_of_journey(removed));
        if not_of_journey(removed)(bs.last()) {
            lemma_seats_sum_push(sub, bs.last(), jid);
        }
    }
}

/// Filtering the bookings keeps their pairwise distinctness: ids stay
/// unique, and no (journey, traveller) pair appears twice.
pub proof fn lemma_filter_keeps_distinct(bs: Seq<Booking>, pred: spec_fn(Booking) -> bool)
    requires
        forall|i: int, j: int|
            0 <= i < j < bs.len() ==> (#[trigger] bs[i]).id != (#[trigger] bs[j]).id,
        forall|i: int, j: int|
            0 <= i < j < bs.len() ==> !((#[trigger] bs[i]).journey_id == (#[trigger] bs[j]).journey_id
                && bs[i].traveller_id == bs[j].traveller_id),
    ensures
        forall|i: int, j: int|
            0 <= i < j < bs.filter(pred).len() ==> (#[trigger] bs.filter(pred)[i]).id != (#[trigger] bs.filter(pred)[j]).id,
        forall|i: int, j: int|
            0 <= i < j < bs.filter(pred).len() ==> !((#[trigger] bs.filter(pred)[i]).journey_id
                == (#[trigger] bs.filter(pred)[j]).journey_id
                && bs.filter(pred)[i].traveller_id == bs.filter(pred)[j].traveller_id),
    decreases bs.len(),
{
    reveal(Seq::filter);
    let f = bs.filter(pred);
    if bs.len() > 0 {
        let rest = bs.drop_last();
        assert(forall|k: int| 0 <= k < rest.len() ==> #[trigger] rest[k] == bs[k]);
        lemma_filter_keeps_distinct(rest, pred);
        let sub = rest.filter(pred);
        assert forall|i: int, j: int| 0 <= i < j < f.len() implies (#[trigger] f[i]).id
            != (#[trigger] f[j]).id && !(f[i].journey_id == f[j].journey_id
            && f[i].traveller_id == f[j].traveller_id) by {
            if pred(bs.last()) && j == f.len() - 1 {
                assert(f == sub.push(bs.last()));
                assert(f[j] == bs[bs.len() - 1]);
                assert(f[i] == sub[i]);
                assert(sub.contains(sub[i]));
                rest.lemma_filter_contains_rev(pred, sub[i]);
                let k = choose|k: int| 0 <= k < rest.len() && rest[k] == sub[i];
                assert(bs[k] == f[i]);
            } else {
                if pred(bs.last()) {
                    assert(f == sub.push(bs.last()));
                }
                assert(f[i] == sub[i]);
                assert(f[j] == sub[j]);
            }
        }
    }
}

} // verus!
