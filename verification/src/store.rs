//! The authoritative booking state and the single choke point through
//! which every seat reservation and release passes.
//!
//! `BookingStore` plays the part the storage collaborator plays in a
//! deployment: each `&mut self` operation is one atomic step of the
//! per-journey critical section the design demands, so two reservations
//! for one journey can never interleave their read-decide-commit.

use vstd::prelude::*;

use crate::catalog::lemma_filter_keeps_distinct;
use crate::catalog::lemma_seats_sum_absent;
use crate::catalog::lemma_seats_sum_filter_out;
use crate::catalog::lemma_seats_sum_nonneg;
use crate::catalog::lemma_seats_sum_push;
use crate::catalog::lemma_seats_sum_remove;
use crate::catalog::lemma_seats_sum_take_le;
use crate::catalog::lemma_seats_sum_update;
use crate::catalog::apply_update;
use crate::catalog::clear_driver;
use crate::catalog::departs_at_or_after;
use crate::catalog::driven_by;
use crate::catalog::not_of_journey;
use crate::catalog::of_journey;
use crate::catalog::of_traveller;
use crate::catalog::seats_sum;
use crate::catalog::Booking;
use crate::catalog::City;
use crate::catalog::Journey;
use crate::catalog::UpdateJourneyRequest;
use crate::errors::BookingError;
use crate::geo::GeoPoint;
use crate::roles::Role;

verus! {

/// What a listing shows of one journey: its route, its departure, and
/// the seat arithmetic derived from the same source the ledger uses.
#[derive(Clone, Copy, PartialEq, Eq, Structural, Debug)]
pub struct JourneyInfo {
    pub id: u128,
    pub origin_city_id: u32,
    pub destination_city_id: u32,
    pub departure_ms: i64,
    pub total_seats: u32,
    pub booked_seats: u32,
    /// `total_seats - booked_seats`; negative exactly when an
    /// administrative override has pushed the journey past capacity.
    pub available_seats: i64,
    pub has_driver: bool,
}

/// The booking ledger: cities, journeys, bookings, and the counters the
/// store draws fresh identifiers from.
pub struct BookingStore {
    pub cities: Vec<City>,
    pub journeys: Vec<Journey>,
    pub bookings: Vec<Booking>,
    pub next_city_id: u32,
    pub next_journey_id: u128,
    pub next_booking_id: u128,
}

impl BookingStore {
    /// A city with this id exists.
    pub open spec fn has_city(self, cid: u32) -> bool {
        exists|i: int| 0 <= i < self.cities@.len() && (#[trigger] self.cities@[i]).id == cid
    }

    /// Index of the city with this id (meaningful when `has_city`).
    pub open spec fn city_index(self, cid: u32) -> int {
        choose|i: int| 0 <= i < self.cities@.len() && (#[trigger] self.cities@[i]).id == cid
    }

    /// The city with this id (meaningful when `has_city`).
    pub open spec fn city_by_id(self, cid: u32) -> City {
        self.cities@[self.city_index(cid)]
    }

    /// A city with this name exists.
    pub open spec fn has_city_name(self, name: Seq<char>) -> bool {
        exists|i: int| 0 <= i < self.cities@.len() && (#[trigger] self.cities@[i]).name@ == name
    }

    /// A journey with this id exists.
    pub open spec fn has_journey(self, jid: u128) -> bool {
        exists|i: int| 0 <= i < self.journeys@.len() && (#[trigger] self.journeys@[i]).id == jid
    }

    /// Index of the journey with this id (meaningful when `has_journey`).
    pub open spec fn journey_index(self, jid: u128) -> int {
        choose|i: int| 0 <= i < self.journeys@.len() && (#[trigger] self.journeys@[i]).id == jid
    }

    /// The journey with this id (meaningful when `has_journey`).
    pub open spec fn journey_by_id(self, jid: u128) -> Journey {
        self.journeys@[self.journey_index(jid)]
    }

    /// A booking with this id exists.
    pub open spec fn has_booking(self, bid: u128) -> bool {
        exists|i: int| 0 <= i < self.bookings@.len() && (#[trigger] self.bookings@[i]).id == bid
    }

    /// Index of the booking with this id (meaningful when `has_booking`).
    pub open spec fn booking_index(self, bid: u128) -> int {
        choose|i: int| 0 <= i < self.bookings@.len() && (#[trigger] self.bookings@[i]).id == bid
    }

    /// The booking with this id (meaningful when `has_booking`).
    pub open spec fn booking_by_id(self, bid: u128) -> Booking {
        self.bookings@[self.booking_index(bid)]
    }

    /// This traveller already holds a booking on this journey.
    pub open spec fn has_booking_for(self, jid: u128, tid: u128) -> bool {
        exists|i: int|
            0 <= i < self.bookings@.len() && (#[trigger] self.bookings@[i]).journey_id == jid
                && self.bookings@[i].traveller_id == tid
    }

    /// The seats currently booked on a journey: the derived sum the
    /// capacity invariant constrains, recomputed from the bookings
    /// themselves, never cached.
    pub open spec fn booked(self, jid: u128) -> int {
        seats_sum(self.bookings@, jid)
    }

    /// The capacity invariant for one journey: its booked seats do not
    /// exceed its total seats. Every ordinary operation preserves this
    /// for every journey; only the administrative seat override may
    /// break it, deliberately.
    pub open spec fn capacity_ok(self, jid: u128) -> bool {
        self.has_journey(jid) ==> self.booked(jid) <= self.journey_by_id(jid).total_seats
    }

    /// Structural well-formedness of the store. Every operation requires
    /// and preserves it.
    pub open spec fn wf(self) -> bool {
        // city ids and names are unique, and ids come from the counter
        &&& forall|i: int, j: int|
            0 <= i < j < self.cities@.len() ==> (#[trigger] self.cities@[i]).id
                != (#[trigger] self.cities@[j]).id
        &&& forall|i: int, j: int|
            0 <= i < j < self.cities@.len() ==> (#[trigger] self.cities@[i]).name@
                != (#[trigger] self.cities@[j]).name@
        &&& forall|i: int|
            0 <= i < self.cities@.len() ==> (#[trigger] self.cities@[i]).id < self.next_city_id
        &&& forall|i: int|
            0 <= i < self.cities@.len() ==> (#[trigger] self.cities@[i]).center.spec_valid()
        // journey ids are unique and come from the counter
        &&& forall|i: int, j: int|
            0 <= i < j < self.journeys@.len() ==> (#[trigger] self.journeys@[i]).id
                != (#[trigger] self.journeys@[j]).id
        &&& forall|i: int|
            0 <= i < self.journeys@.len() ==> (#[trigger] self.journeys@[i]).id
                < self.next_journey_id
        // every journey offers at least one seat and joins two known cities
        &&& forall|i: int|
            0 <= i < self.journeys@.len() ==> (#[trigger] self.journeys@[i]).total_seats >= 1
        &&& forall|i: int|
            0 <= i < self.journeys@.len() ==> self.has_city(
                (#[trigger] self.journeys@[i]).origin_city_id,
            ) && self.has_city(self.journeys@[i].destination_city_id)
        // booking ids are unique and come from the counter
        &&& forall|i: int, j: int|
            0 <= i < j < self.bookings@.len() ==> (#[trigger] self.bookings@[i]).id
                != (#[trigger] self.bookings@[j]).id
        &&& forall|i: int|
            0 <= i < self.bookings@.len() ==> (#[trigger] self.bookings@[i]).id
                < self.next_booking_id
        // every booking reserves at least one seat on a journey that
        // exists, from a valid pickup point
        &&& forall|i: int|
            0 <= i < self.bookings@.len() ==> (#[trigger] self.bookings@[i]).seats >= 1
        &&& forall|i: int|
            0 <= i < self.bookings@.len() ==> self.has_journey(
                (#[trigger] self.bookings@[i]).journey_id,
            )
        &&& forall|i: int|
            0 <= i < self.bookings@.len() ==> (#[trigger] self.bookings@[i]).pickup.spec_valid()
        // one booking per (journey, traveller)
        &&& forall|i: int, j: int|
            0 <= i < j < self.bookings@.len() ==> !((#[trigger] self.bookings@[i]).journey_id
                == (#[trigger] self.bookings@[j]).journey_id && self.bookings@[i].traveller_id
                == self.bookings@[j].traveller_id)
        // each journey's booked total stays machine-representable
        &&& forall|jid: u128| #[trigger] seats_sum(self.bookings@, jid) <= u32::MAX
    }

    /// An empty store: no cities, journeys or bookings, and nothing
    /// booked on any journey.
    pub fn new() -> (s: Self)
        ensures
            s.wf(),
            s.cities@.len() == 0,
            s.journeys@.len() == 0,
            s.bookings@.len() == 0,
            s.next_city_id == 1,
            s.next_journey_id == 1,
            s.next_booking_id == 1,
            forall|jid: u128| #[trigger] s.booked(jid) == 0,
            forall|jid: u128| #[trigger] s.capacity_ok(jid),
    {
        BookingStore {
            cities: Vec::new(),
            journeys: Vec::new(),
            bookings: Vec::new(),
            next_city_id: 1,
            next_journey_id: 1,
            next_booking_id: 1,
        }
    }

    /// Linear scan for a city id.
    fn find_city(&self, cid: u32) -> (r: Option<usize>)
        requires
            self.wf(),
        ensures
            match r {
                Some(i) => self.has_city(cid) && i as int == self.city_index(cid) && i
                    < self.cities@.len() && self.cities@[i as int].id == cid,
                None => !self.has_city(cid),
            },
    {
        let n = self.cities.len();
        let mut i: usize = 0;
        while i < n
            invariant
                self.wf(),
                n == self.cities@.len(),
                i <= n,
                forall|k: int| 0 <= k < i ==> (#[trigger] self.cities@[k]).id != cid,
            decreases n - i,
        {
            if self.cities[i].id == cid {
                proof {
                    assert(self.has_city(cid));
                    let k = self.city_index(cid);
                    assert(self.cities@[k].id == cid);
                }
                return Some(i);
            }
            i += 1;
        }
        None
    }

    /// Linear scan for a journey id.
    fn find_journey(&self, jid: u128) -> (r: Option<usize>)
        requires
            self.wf(),
        ensures
            match r {
                Some(i) => self.has_journey(jid) && i as int == self.journey_index(jid) && i
                    < self.journeys@.len() && self.journeys@[i as int].id == jid,
                None => !self.has_journey(jid),
            },
    {
        let n = self.journeys.len();
        let mut i: usize = 0;
        while i < n
            invariant
                self.wf(),
                n == self.journeys@.len(),
                i <= n,
                forall|k: int| 0 <= k < i ==> (#[trigger] self.journeys@[k]).id != jid,
            decreases n - i,
        {
            if self.journeys[i].id == jid {
                proof {
                    assert(self.has_journey(jid));
                    let k = self.journey_index(jid);
                    assert(self.journeys@[k].id == jid);
                }
                return Some(i);
            }
            i += 1;
        }
        None
    }

    /// Linear scan for a booking id.
    fn find_booking(&self, bid: u128) -> (r: Option<usize>)
        requires
            self.wf(),
        ensures
            match r {
                Some(i) => self.has_booking(bid) && i as int == self.booking_index(bid) && i
                    < self.bookings@.len() && self.bookings@[i as int].id == bid,
                None => !self.has_booking(bid),
            },
    {
        let n = self.bookings.len();
        let mut i: usize = 0;
        while i < n
            invariant
                self.wf(),
                n == self.bookings@.len(),
                i <= n,
                forall|k: int| 0 <= k < i ==> (#[trigger] self.bookings@[k]).id != bid,
            decreases n - i,
        {
            if self.bookings[i].id == bid {
                proof {
                    assert(self.has_booking(bid));
                    let k = self.booking_index(bid);
                    assert(self.bookings@[k].id == bid);
                }
                return Some(i);
            }
            i += 1;
        }
        None
    }

    /// Linear scan for a (journey, traveller) pair.
    fn find_booking_for(&self, jid: u128, tid: u128) -> (r: Option<usize>)
        requires
            self.wf(),
        ensures
            match r {
                Some(i) => self.has_booking_for(jid, tid) && i < self.bookings@.len()
                    && self.bookings@[i as int].journey_id == jid && self.bookings@[
                    i as int
                ].traveller_id == tid,
                None => !self.has_booking_for(jid, tid),
            },
    {
        let n = self.bookings.len();
        let mut i: usize = 0;
        while i < n
            invariant
                self.wf(),
                n == self.bookings@.len(),
                i <= n,
                forall|k: int|
                    0 <= k < i ==> !((#[trigger] self.bookings@[k]).journey_id == jid
                        && self.bookings@[k].traveller_id == tid),
            decreases n - i,
        {
            if self.bookings[i].journey_id == jid && self.bookings[i].traveller_id == tid {
                return Some(i);
            }
            i += 1;
        }
        None
    }

    /// The seats currently booked on a journey, recomputed from the
    /// bookings themselves.
    pub fn booked_seats(&self, journey_id: u128) -> (r: u64)
        requires
            self.wf(),
        ensures
            r as int == self.booked(journey_id),
            r <= u32::MAX,
    {
        let n = self.bookings.len();
        let mut acc: u64 = 0;
        let mut i: usize = 0;
        while i < n
            invariant
                self.wf(),
                n == self.bookings@.len(),
                i <= n,
                acc as int == seats_sum(self.bookings@.take(i as int), journey_id),
                acc <= u32::MAX,
            decreases n - i,
        {
            proof {
                assert(self.bookings@.take(i + 1).drop_last() =~= self.bookings@.take(i as int));
                assert(self.bookings@.take(i + 1).last() == self.bookings@[i as int]);
                lemma_seats_sum_take_le(self.bookings@, i + 1, journey_id);
            }
            if self.bookings[i].journey_id == journey_id {
                acc = acc + self.bookings[i].seats as u64;
            }
            i += 1;
        }
        proof {
            assert(self.bookings@.take(n as int) =~= self.bookings@);
        }
        acc
    }

    /// The derived read used for listings: total seats minus booked
    /// seats. Negative exactly when an administrative override has
    /// pushed a journey past its capacity.
    pub fn available_seats(&self, journey_id: u128) -> (r: Result<i64, BookingError>)
        requires
            self.wf(),
        ensures
            match r {
                Ok(v) => self.has_journey(journey_id) && v == self.journey_by_id(
                    journey_id,
                ).total_seats - self.booked(journey_id),
                Err(e) => e == BookingError::NotFound && !self.has_journey(journey_id),
            },
    {
        let idx = match self.find_journey(journey_id) {
            None => {
                return Err(BookingError::NotFound);
            },
            Some(i) => i,
        };
        let total = self.journeys[idx].total_seats;
        let booked = self.booked_seats(journey_id);
        proof {
            lemma_seats_sum_nonneg(self.bookings@, journey_id);
        }
        Ok(total as i64 - booked as i64)
    }

    /// Register a city with its pickup geofence. Rejects an invalid
    /// center coordinate, a name already taken, and an exhausted id
    /// space; otherwise appends the city and hands back its fresh id.
    pub fn add_city(&mut self, name: String, center: GeoPoint, radius_m: u64) -> (r: Result<
        u32,
        BookingError,
    >)
        requires
            old(self).wf(),
        ensures
            final(self).wf(),
            match r {
                Ok(cid) => {
                    &&& center.spec_valid()
                    &&& !old(self).has_city_name(name@)
                    &&& old(self).next_city_id < u32::MAX
                    &&& cid == old(self).next_city_id
                    &&& final(self).cities@ == old(self).cities@.push(
                        City { id: cid, name, center, radius_m },
                    )
                    &&& final(self).journeys@ == old(self).journeys@
                    &&& final(self).bookings@ == old(self).bookings@
                    &&& final(self).next_city_id == old(self).next_city_id + 1
                    &&& final(self).next_journey_id == old(self).next_journey_id
                    &&& final(self).next_booking_id == old(self).next_booking_id
                },
                Err(e) => {
                    &&& e == BookingError::InvalidRequest
                    &&& !(center.spec_valid() && !old(self).has_city_name(name@) && old(
                        self,
                    ).next_city_id < u32::MAX)
                    &&& *final(self) == *old(self)
                },
            },
    {
        if !center.is_valid() {
            return Err(BookingError::InvalidRequest);
        }
        // reject a name already in use
        let n = self.cities.len();
        let mut i: usize = 0;
        while i < n
            invariant
                self.wf(),
                n == self.cities@.len(),
                i <= n,
                forall|k: int| 0 <= k < i ==> (#[trigger] self.cities@[k]).name@ != name@,
            decreases n - i,
        {
            if self.cities[i].name == name {
                return Err(BookingError::InvalidRequest);
            }
            i += 1;
        }
        if self.next_city_id == u32::MAX {
            return Err(BookingError::InvalidRequest);
        }
        let cid = self.next_city_id;
        let city = City { id: cid, name, center, radius_m };
        self.cities.push(city);
        self.next_city_id = cid + 1;
        proof {
            let new = self.cities@;
            let olds = old(self).cities@;
            assert(forall|k: int| 0 <= k < olds.len() ==> #[trigger] new[k] == olds[k]);
            assert forall|i2: int|
                0 <= i2 < self.journeys@.len() implies self.has_city(
                (#[trigger] self.journeys@[i2]).origin_city_id,
            ) && self.has_city(self.journeys@[i2].destination_city_id) by {
                assert(old(self).has_city(self.journeys@[i2].origin_city_id));
                let k1 = choose|k: int|
                    0 <= k < olds.len() && (#[trigger] olds[k]).id == self.journeys@[
                        i2
                    ].origin_city_id;
                assert(new[k1].id == self.journeys@[i2].origin_city_id);
                assert(old(self).has_city(self.journeys@[i2].destination_city_id));
                let k2 = choose|k: int|
                    0 <= k < olds.len() && (#[trigger] olds[k]).id == self.journeys@[
                        i2
                    ].destination_city_id;
                assert(new[k2].id == self.journeys@[i2].destination_city_id);
            }
        }
        Ok(cid)
    }

    /// Two stores with the same city list agree on every city lookup.
    proof fn lemma_same_cities(s1: Self, s2: Self)
        requires
            s1.cities@ == s2.cities@,
            forall|i: int, j: int|
                0 <= i < j < s1.cities@.len() ==> (#[trigger] s1.cities@[i]).id
                    != (#[trigger] s1.cities@[j]).id,
        ensures
            forall|cid: u32| #[trigger] s2.has_city(cid) <==> s1.has_city(cid),
            forall|cid: u32|
                s1.has_city(cid) ==> #[trigger] s2.city_index(cid) == s1.city_index(cid)
                    && s2.city_by_id(cid) == s1.city_by_id(cid),
    {
        assert forall|cid: u32| #[trigger] s2.has_city(cid) <==> s1.has_city(cid) by {
            if s1.has_city(cid) {
                let k = choose|i: int|
                    0 <= i < s1.cities@.len() && (#[trigger] s1.cities@[i]).id == cid;
                assert(s2.cities@[k].id == cid);
            }
            if s2.has_city(cid) {
                let k = choose|i: int|
                    0 <= i < s2.cities@.len() && (#[trigger] s2.cities@[i]).id == cid;
                assert(s1.cities@[k].id == cid);
            }
        }
        assert forall|cid: u32| s1.has_city(cid) implies #[trigger] s2.city_index(cid)
            == s1.city_index(cid) && s2.city_by_id(cid) == s1.city_by_id(cid) by {
            let k1 = s1.city_index(cid);
            assert(0 <= k1 < s1.cities@.len() && s1.cities@[k1].id == cid);
            let k2 = s2.city_index(cid);
            assert(0 <= k2 < s2.cities@.len() && s2.cities@[k2].id == cid);
            assert(s1.cities@[k2].id == cid);
        }
    }

    /// Two stores with the same journey list agree on every journey
    /// lookup.
    proof fn lemma_same_journeys(s1: Self, s2: Self)
        requires
            s1.journeys@ == s2.journeys@,
            forall|i: int, j: int|
                0 <= i < j < s1.journeys@.len() ==> (#[trigger] s1.journeys@[i]).id
                    != (#[trigger] s1.journeys@[j]).id,
        ensures
            forall|jid: u128| #[trigger] s2.has_journey(jid) <==> s1.has_journey(jid),
            forall|jid: u128|
                s1.has_journey(jid) ==> #[trigger] s2.journey_index(jid) == s1.journey_index(jid)
                    && s2.journey_by_id(jid) == s1.journey_by_id(jid),
    {
        assert forall|jid: u128| #[trigger] s2.has_journey(jid) <==> s1.has_journey(jid) by {
            if s1.has_journey(jid) {
                let k = choose|i: int|
                    0 <= i < s1.journeys@.len() && (#[trigger] s1.journeys@[i]).id == jid;
                assert(s2.journeys@[k].id == jid);
            }
            if s2.has_journey(jid) {
                let k = choose|i: int|
                    0 <= i < s2.journeys@.len() && (#[trigger] s2.journeys@[i]).id == jid;
                assert(s1.journeys@[k].id == jid);
            }
        }
        assert forall|jid: u128| s1.has_journey(jid) implies #[trigger] s2.journey_index(jid)
            == s1.journey_index(jid) && s2.journey_by_id(jid) == s1.journey_by_id(jid) by {
            let k1 = s1.journey_index(jid);
            assert(0 <= k1 < s1.journeys@.len() && s1.journeys@[k1].id == jid);
            let k2 = s2.journey_index(jid);
            assert(0 <= k2 < s2.journeys@.len() && s2.journeys@[k2].id == jid);
            assert(s1.journeys@[k2].id == jid);
        }
    }

    /// The reason `create_booking` rejects a request, in the order the
    /// checks run: unknown journey, departure already past, bad seat
    /// count, not enough remaining capacity, bad pickup coordinate,
    /// pickup outside the origin city's geofence, traveller already
    /// booked. `None` when the request is admissible.
    pub open spec fn create_booking_error(
        self,
        traveller_id: u128,
        journey_id: u128,
        seats: i64,
        pickup: GeoPoint,
        pickup_distance_m: u64,
        now_ms: i64,
    ) -> Option<BookingError> {
        if !self.has_journey(journey_id) {
            Some(BookingError::NotFound)
        } else if self.journey_by_id(journey_id).departure_ms < now_ms {
            Some(BookingError::PastJourney)
        } else if seats <= 0 {
            Some(BookingError::InvalidRequest)
        } else if self.booked(journey_id) + seats > self.journey_by_id(journey_id).total_seats {
            Some(BookingError::InsufficientCapacity)
        } else if !pickup.spec_valid() {
            Some(BookingError::InvalidRequest)
        } else if pickup_distance_m > self.city_by_id(
            self.journey_by_id(journey_id).origin_city_id,
        ).radius_m {
            Some(BookingError::PickupOutOfRange)
        } else if self.has_booking_for(journey_id, traveller_id) {
            Some(BookingError::DuplicateBooking)
        } else {
            None
        }
    }

    /// Reserve `seats` seats on a journey for a traveller, checking in
    /// order: the journey exists, has not departed by `now_ms`, the seat
    /// count is positive, the remaining capacity suffices, the pickup
    /// coordinate is valid and lies within the origin city's geofence
    /// (`pickup_distance_m` is the measured great-circle distance), and
    /// the traveller holds no booking on this journey yet. The check and
    /// the commit happen in one indivisible step of the store, so no two
    /// admitted reservations can both have seen the same stale total.
    ///
    /// On success the journey's booked total grows by exactly `seats`
    /// and stays within its capacity; no other journey's total moves.
    /// On failure the store is unchanged. The only failure beyond the
    /// listed checks is exhaustion of the id space, reported as
    /// `InvalidRequest`.
    pub fn create_booking(
        &mut self,
        traveller_id: u128,
        journey_id: u128,
        seats: i64,
        pickup: GeoPoint,
        pickup_distance_m: u64,
        now_ms: i64,
    ) -> (r: Result<u128, BookingError>)
        requires
            old(self).wf(),
        ensures
            final(self).wf(),
            forall|j2: u128|
                old(self).capacity_ok(j2) ==> #[trigger] final(self).capacity_ok(j2),
            match r {
                Ok(bid) => {
                    &&& old(self).create_booking_error(
                        traveller_id,
                        journey_id,
                        seats,
                        pickup,
                        pickup_distance_m,
                        now_ms,
                    ) is None
                    &&& old(self).next_booking_id < u128::MAX
                    &&& bid == old(self).next_booking_id
                    &&& final(self).bookings@ == old(self).bookings@.push(
                        Booking {
                            id: bid,
                            journey_id,
                            traveller_id,
                            seats: seats as u32,
                            pickup,
                            created_ms: now_ms,
                        },
                    )
                    &&& final(self).journeys@ == old(self).journeys@
                    &&& final(self).cities@ == old(self).cities@
                    &&& final(self).next_booking_id == old(self).next_booking_id + 1
                    &&& final(self).next_journey_id == old(self).next_journey_id
                    &&& final(self).next_city_id == old(self).next_city_id
                    &&& final(self).booked(journey_id) == old(self).booked(journey_id) + seats
                    &&& final(self).booked(journey_id) <= old(self).journey_by_id(
                        journey_id,
                    ).total_seats
                    &&& final(self).has_booking(bid)
                    &&& final(self).has_booking_for(journey_id, traveller_id)
                    &&& forall|j2: u128|
                        j2 != journey_id ==> #[trigger] final(self).booked(j2) == old(
                            self,
                        ).booked(j2)
                },
                Err(e) => {
                    &&& *final(self) == *old(self)
                    &&& match old(self).create_booking_error(
                        traveller_id,
                        journey_id,
                        seats,
                        pickup,
                        pickup_distance_m,
                        now_ms,
                    ) {
                        Some(e2) => e == e2,
                        None => e == BookingError::InvalidRequest && old(self).next_booking_id
                            == u128::MAX,
                    }
                },
            },
    {
        let jidx = match self.find_journey(journey_id) {
            None => {
                return Err(BookingError::NotFound);
            },
            Some(i) => i,
        };
        let journey = self.journeys[jidx];
        if journey.departure_ms < now_ms {
            return Err(BookingError::PastJourney);
        }
        if seats <= 0 {
            return Err(BookingError::InvalidRequest);
        }
        let booked = self.booked_seats(journey_id);
        proof {
            lemma_seats_sum_nonneg(self.bookings@, journey_id);
        }
        if booked as i128 + seats as i128 > journey.total_seats as i128 {
            return Err(BookingError::InsufficientCapacity);
        }
        if !pickup.is_valid() {
            return Err(BookingError::InvalidRequest);
        }
        let cidx = self.find_city(journey.origin_city_id).unwrap();
        if pickup_distance_m > self.cities[cidx].radius_m {
            return Err(BookingError::PickupOutOfRange);
        }
        if self.find_booking_for(journey_id, traveller_id).is_some() {
            return Err(BookingError::DuplicateBooking);
        }
        if self.next_booking_id == u128::MAX {
            return Err(BookingError::InvalidRequest);
        }
        let bid = self.next_booking_id;
        let b = Booking {
            id: bid,
            journey_id,
            traveller_id,
            seats: seats as u32,
            pickup,
            created_ms: now_ms,
        };
        self.bookings.push(b);
        self.next_booking_id = bid + 1;
        proof {
            let olds = old(self).bookings@;
            let news = self.bookings@;
            assert(news == olds.push(b));
            assert(forall|k: int| 0 <= k < olds.len() ==> #[trigger] news[k] == olds[k]);
            assert(news[olds.len() as int] == b);
            Self::lemma_same_journeys(*old(self), *self);
            Self::lemma_same_cities(*old(self), *self);
            // every journey's booked total moves only by the new booking
            assert forall|j2: u128| #[trigger]
                seats_sum(news, j2) == seats_sum(olds, j2) + if j2 == journey_id {
                    seats as int
                } else {
                    0
                } by {
                lemma_seats_sum_push(olds, b, j2);
            }
            // the new booking's journey exists; old bookings keep theirs
            assert forall|i: int| 0 <= i < news.len() implies self.has_journey(
                (#[trigger] news[i]).journey_id,
            ) by {
                if i < olds.len() {
                    assert(old(self).has_journey(olds[i].journey_id));
                }
            }
            assert(self.wf());
            assert forall|j2: u128|
                old(self).capacity_ok(j2) implies #[trigger] self.capacity_ok(j2) by {
            }
        }
        Ok(bid)
    }

    /// The checks `create_journey` runs, all reported as
    /// `InvalidRequest`: both cities must exist, differ, and the journey
    /// must offer at least one seat.
    pub open spec fn create_journey_allowed(
        self,
        origin_city_id: u32,
        destination_city_id: u32,
        total_seats: u32,
    ) -> bool {
        &&& self.has_city(origin_city_id)
        &&& self.has_city(destination_city_id)
        &&& origin_city_id != destination_city_id
        &&& total_seats >= 1
    }

    /// Schedule a journey between two known, distinct cities with a
    /// positive seat capacity. The fresh journey starts with no driver,
    /// no bookings, and therefore a zero booked total.
    pub fn create_journey(
        &mut self,
        origin_city_id: u32,
        destination_city_id: u32,
        departure_ms: i64,
        total_seats: u32,
        now_ms: i64,
    ) -> (r: Result<u128, BookingError>)
        requires
            old(self).wf(),
        ensures
            final(self).wf(),
            forall|j2: u128|
                old(self).capacity_ok(j2) ==> #[trigger] final(self).capacity_ok(j2),
            match r {
                Ok(jid) => {
                    &&& old(self).create_journey_allowed(
                        origin_city_id,
                        destination_city_id,
                        total_seats,
                    )
                    &&& old(self).next_journey_id < u128::MAX
                    &&& jid == old(self).next_journey_id
                    &&& final(self).journeys@ == old(self).journeys@.push(
                        Journey {
                            id: jid,
                            origin_city_id,
                            destination_city_id,
                            departure_ms,
                            total_seats,
                            driver_id: None,
                            created_ms: now_ms,
                        },
                    )
                    &&& final(self).cities@ == old(self).cities@
                    &&& final(self).bookings@ == old(self).bookings@
                    &&& final(self).next_journey_id == old(self).next_journey_id + 1
                    &&& final(self).next_city_id == old(self).next_city_id
                    &&& final(self).next_booking_id == old(self).next_booking_id
                    &&& final(self).has_journey(jid)
                    &&& final(self).booked(jid) == 0
                    &&& final(self).capacity_ok(jid)
                },
                Err(e) => {
                    &&& e == BookingError::InvalidRequest
                    &&& !(old(self).create_journey_allowed(
                        origin_city_id,
                        destination_city_id,
                        total_seats,
                    ) && old(self).next_journey_id < u128::MAX)
                    &&& *final(self) == *old(self)
                },
            },
    {
        if self.find_city(origin_city_id).is_none() {
            return Err(BookingError::InvalidRequest);
        }
        if self.find_city(destination_city_id).is_none() {
            return Err(BookingError::InvalidRequest);
        }
        if origin_city_id == destination_city_id {
            return Err(BookingError::InvalidRequest);
        }
        if total_seats == 0 {
            return Err(BookingError::InvalidRequest);
        }
        if self.next_journey_id == u128::MAX {
            return Err(BookingError::InvalidRequest);
        }
        let jid = self.next_journey_id;
        let j = Journey {
            id: jid,
            origin_city_id,
            destination_city_id,
            departure_ms,
            total_seats,
            driver_id: None,
            created_ms: now_ms,
        };
        self.journeys.push(j);
        self.next_journey_id = jid + 1;
        proof {
            let oldj = old(self).journeys@;
            let newj = self.journeys@;
            assert(newj == oldj.push(j));
            assert(forall|k: int| 0 <= k < oldj.len() ==> #[trigger] newj[k] == oldj[k]);
            Self::lemma_same_cities(*old(self), *self);
            // old journeys keep their cities; lookups by id are stable
            // for every id but the fresh one
            assert forall|jid2: u128|
                jid2 != jid implies (#[trigger] self.has_journey(jid2) <==> old(
                self,
            ).has_journey(jid2)) by {
                if old(self).has_journey(jid2) {
                    let k = choose|i: int|
                        0 <= i < oldj.len() && (#[trigger] oldj[i]).id == jid2;
                    assert(newj[k].id == jid2);
                }
                if self.has_journey(jid2) {
                    let k = choose|i: int|
                        0 <= i < newj.len() && (#[trigger] newj[i]).id == jid2;
                    assert(k < oldj.len());
                    assert(oldj[k].id == jid2);
                }
            }
            assert forall|jid2: u128|
                jid2 != jid && old(self).has_journey(jid2) implies #[trigger] self.journey_by_id(
                jid2,
            ) == old(self).journey_by_id(jid2) by {
                assert(self.has_journey(jid2));
                let k1 = old(self).journey_index(jid2);
                assert(0 <= k1 < oldj.len() && oldj[k1].id == jid2);
                let k2 = self.journey_index(jid2);
                assert(0 <= k2 < newj.len() && newj[k2].id == jid2);
                assert(k2 < oldj.len());
                assert(oldj[k2].id == jid2);
            }
            // no booking references the fresh id, so nothing is booked
            // on it
            assert forall|i: int|
                0 <= i < self.bookings@.len() implies (#[trigger] self.bookings@[i]).journey_id
                != jid by {
                assert(old(self).has_journey(self.bookings@[i].journey_id));
                let k = choose|k: int|
                    0 <= k < oldj.len() && (#[trigger] oldj[k]).id == self.bookings@[
                        i
                    ].journey_id;
                assert(oldj[k].id < jid);
            }
            lemma_seats_sum_absent(self.bookings@, jid);
            assert(self.has_journey(jid)) by {
                assert(newj[oldj.len() as int].id == jid);
            }
            assert(self.journey_by_id(jid) == j) by {
                let k = self.journey_index(jid);
                assert(0 <= k < newj.len() && newj[k].id == jid);
                if k < oldj.len() {
                    assert(oldj[k].id == jid);
                    assert(false);
                }
            }
            // old bookings still reference existing journeys
            assert forall|i: int| 0 <= i < self.bookings@.len() implies self.has_journey(
                (#[trigger] self.bookings@[i]).journey_id,
            ) by {
                assert(old(self).has_journey(self.bookings@[i].journey_id));
            }
            assert(self.wf());
            assert forall|j2: u128|
                old(self).capacity_ok(j2) implies #[trigger] self.capacity_ok(j2) by {
                if j2 == jid {
                    assert(self.booked(j2) == 0);
                }
            }
        }
        Ok(jid)
    }

    /// Re-establish well-formedness and the stability of every lookup
    /// after one booking was removed from position `idx`.
    proof fn lemma_after_booking_removed(pre: Self, post: Self, idx: int)
        requires
            pre.wf(),
            0 <= idx < pre.bookings@.len(),
            post.bookings@ == pre.bookings@.remove(idx),
            post.journeys@ == pre.journeys@,
            post.cities@ == pre.cities@,
            post.next_city_id == pre.next_city_id,
            post.next_journey_id == pre.next_journey_id,
            post.next_booking_id == pre.next_booking_id,
        ensures
            post.wf(),
            forall|j2: u128| #[trigger]
                post.booked(j2) == pre.booked(j2) - if pre.bookings@[idx].journey_id == j2 {
                    pre.bookings@[idx].seats as int
                } else {
                    0
                },
            forall|j2: u128| pre.capacity_ok(j2) ==> #[trigger] post.capacity_ok(j2),
            !post.has_booking(pre.bookings@[idx].id),
            forall|jid: u128| #[trigger] post.has_journey(jid) <==> pre.has_journey(jid),
            forall|jid: u128|
                pre.has_journey(jid) ==> #[trigger] post.journey_by_id(jid) == pre.journey_by_id(
                    jid,
                ),
    {
        let olds = pre.bookings@;
        let news = post.bookings@;
        olds.remove_ensures(idx);
        Self::lemma_same_journeys(pre, post);
        Self::lemma_same_cities(pre, post);
        assert forall|j2: u128| #[trigger]
            seats_sum(news, j2) == seats_sum(olds, j2) - if olds[idx].journey_id == j2 {
                olds[idx].seats as int
            } else {
                0
            } by {
            lemma_seats_sum_remove(olds, idx, j2);
        }
        assert forall|i: int| 0 <= i < news.len() implies (#[trigger] news[i]).seats >= 1
            && post.has_journey(news[i].journey_id) && news[i].pickup.spec_valid() && news[i].id
            != olds[idx].id by {
            if i < idx {
                assert(news[i] == olds[i]);
            } else {
                assert(news[i] == olds[i + 1]);
            }
            assert(pre.has_journey(news[i].journey_id));
        }
        assert forall|i: int, j: int| 0 <= i < j < news.len() implies (#[trigger] news[i]).id
            != (#[trigger] news[j]).id && !(news[i].journey_id == news[j].journey_id
            && news[i].traveller_id == news[j].traveller_id) by {
            let i2: int = if i < idx {
                i
            } else {
                i + 1
            };
            let j2: int = if j < idx {
                j
            } else {
                j + 1
            };
            assert(news[i] == olds[i2]);
            assert(news[j] == olds[j2]);
        }
        assert(post.wf());
        assert forall|j2: u128| pre.capacity_ok(j2) implies #[trigger] post.capacity_ok(j2) by {
        }
    }

    /// The reason `cancel_booking` rejects a request, in the order the
    /// checks run: unknown booking, a caller who does not own it, a
    /// journey that has already departed by `now_ms`.
    pub open spec fn cancel_booking_error(self, caller_id: u128, booking_id: u128, now_ms: i64) -> Option<
        BookingError,
    > {
        if !self.has_booking(booking_id) {
            Some(BookingError::NotFound)
        } else if self.booking_by_id(booking_id).traveller_id != caller_id {
            Some(BookingError::Forbidden)
        } else if self.journey_by_id(
            self.booking_by_id(booking_id).journey_id,
        ).departure_ms < now_ms {
            Some(BookingError::JourneyAlreadyDeparted)
        } else {
            None
        }
    }

    /// A traveller cancels their own booking before departure. On
    /// success the booking is deleted and its seats are released: the
    /// journey's booked total drops by exactly the cancelled seat
    /// count, and no other journey's total moves. On failure the store
    /// is unchanged.
    pub fn cancel_booking(&mut self, caller_id: u128, booking_id: u128, now_ms: i64) -> (r: Result<
        (),
        BookingError,
    >)
        requires
            old(self).wf(),
        ensures
            final(self).wf(),
            forall|j2: u128|
                old(self).capacity_ok(j2) ==> #[trigger] final(self).capacity_ok(j2),
            match r {
                Ok(()) => {
                    &&& old(self).cancel_booking_error(caller_id, booking_id, now_ms) is None
                    &&& final(self).bookings@ == old(self).bookings@.remove(
                        old(self).booking_index(booking_id),
                    )
                    &&& final(self).journeys@ == old(self).journeys@
                    &&& final(self).cities@ == old(self).cities@
                    &&& final(self).next_city_id == old(self).next_city_id
                    &&& final(self).next_journey_id == old(self).next_journey_id
                    &&& final(self).next_booking_id == old(self).next_booking_id
                    &&& !final(self).has_booking(booking_id)
                    &&& final(self).booked(old(self).booking_by_id(booking_id).journey_id) == old(
                        self,
                    ).booked(old(self).booking_by_id(booking_id).journey_id) - old(
                        self,
                    ).booking_by_id(booking_id).seats
                    &&& forall|j2: u128|
                        j2 != old(self).booking_by_id(booking_id).journey_id
                            ==> #[trigger] final(self).booked(j2) == old(self).booked(j2)
                },
                Err(e) => {
                    &&& *final(self) == *old(self)
                    &&& old(self).cancel_booking_error(caller_id, booking_id, now_ms) == Some(e)
                },
            },
    {
        let idx = match self.find_booking(booking_id) {
            None => {
                return Err(BookingError::NotFound);
            },
            Some(i) => i,
        };
        let b = self.bookings[idx];
        if b.traveller_id != caller_id {
            return Err(BookingError::Forbidden);
        }
        let jidx = self.find_journey(b.journey_id).unwrap();
        if self.journeys[jidx].departure_ms < now_ms {
            return Err(BookingError::JourneyAlreadyDeparted);
        }
        self.bookings.remove(idx);
        proof {
            Self::lemma_after_booking_removed(*old(self), *self, idx as int);
        }
        Ok(())
    }

    /// An administrator deletes a booking: no ownership check and no
    /// departure-time check. The released seats are accounted exactly
    /// as in `cancel_booking`.
    pub fn admin_cancel_booking(&mut self, booking_id: u128) -> (r: Result<(), BookingError>)
        requires
            old(self).wf(),
        ensures
            final(self).wf(),
            forall|j2: u128|
                old(self).capacity_ok(j2) ==> #[trigger] final(self).capacity_ok(j2),
            match r {
                Ok(()) => {
                    &&& old(self).has_booking(booking_id)
                    &&& final(self).bookings@ == old(self).bookings@.remove(
                        old(self).booking_index(booking_id),
                    )
                    &&& final(self).journeys@ == old(self).journeys@
                    &&& final(self).cities@ == old(self).cities@
                    &&& final(self).next_city_id == old(self).next_city_id
                    &&& final(self).next_journey_id == old(self).next_journey_id
                    &&& final(self).next_booking_id == old(self).next_booking_id
                    &&& !final(self).has_booking(booking_id)
                    &&& final(self).booked(old(self).booking_by_id(booking_id).journey_id) == old(
                        self,
                    ).booked(old(self).booking_by_id(booking_id).journey_id) - old(
                        self,
                    ).booking_by_id(booking_id).seats
                    &&& forall|j2: u128|
                        j2 != old(self).booking_by_id(booking_id).journey_id
                            ==> #[trigger] final(self).booked(j2) == old(self).booked(j2)
                },
                Err(e) => {
                    &&& *final(self) == *old(self)
                    &&& e == BookingError::NotFound
                    &&& !old(self).has_booking(booking_id)
                },
            },
    {
        let idx = match self.find_booking(booking_id) {
            None => {
                return Err(BookingError::NotFound);
            },
            Some(i) => i,
        };
        self.bookings.remove(idx);
        proof {
            Self::lemma_after_booking_removed(*old(self), *self, idx as int);
        }
        Ok(())
    }

    /// An administrator rewrites a booking's seat count, bypassing the
    /// capacity check entirely: the journey's booked total may
    /// deliberately exceed its capacity afterwards. Still rejected: an
    /// unknown booking, a non-positive seat count, and a rewrite that
    /// would push the journey's booked total past what the machine can
    /// represent.
    pub fn admin_override_seats(&mut self, booking_id: u128, new_seats: i64) -> (r: Result<
        (),
        BookingError,
    >)
        requires
            old(self).wf(),
        ensures
            final(self).wf(),
            match r {
                Ok(()) => {
                    &&& old(self).has_booking(booking_id)
                    &&& new_seats >= 1
                    &&& old(self).booked(old(self).booking_by_id(booking_id).journey_id) - old(
                        self,
                    ).booking_by_id(booking_id).seats + new_seats <= u32::MAX
                    &&& final(self).bookings@ == old(self).bookings@.update(
                        old(self).booking_index(booking_id),
                        Booking {
                            seats: new_seats as u32,
                            ..old(self).booking_by_id(booking_id)
                        },
                    )
                    &&& final(self).journeys@ == old(self).journeys@
                    &&& final(self).cities@ == old(self).cities@
                    &&& final(self).next_city_id == old(self).next_city_id
                    &&& final(self).next_journey_id == old(self).next_journey_id
                    &&& final(self).next_booking_id == old(self).next_booking_id
                    &&& final(self).booked(old(self).booking_by_id(booking_id).journey_id) == old(
                        self,
                    ).booked(old(self).booking_by_id(booking_id).journey_id) - old(
                        self,
                    ).booking_by_id(booking_id).seats + new_seats
                    &&& forall|j2: u128|
                        j2 != old(self).booking_by_id(booking_id).journey_id
                            ==> #[trigger] final(self).booked(j2) == old(self).booked(j2)
                    &&& forall|j2: u128|
                        j2 != old(self).booking_by_id(booking_id).journey_id && old(
                            self,
                        ).capacity_ok(j2) ==> #[trigger] final(self).capacity_ok(j2)
                },
                Err(e) => {
                    &&& *final(self) == *old(self)
                    &&& if !old(self).has_booking(booking_id) {
                        e == BookingError::NotFound
                    } else if new_seats <= 0 {
                        e == BookingError::InvalidRequest
                    } else {
                        e == BookingError::InvalidRequest && old(self).booked(
                            old(self).booking_by_id(booking_id).journey_id,
                        ) - old(self).booking_by_id(booking_id).seats + new_seats > u32::MAX
                    }
                },
            },
    {
        let idx = match self.find_booking(booking_id) {
            None => {
                return Err(BookingError::NotFound);
            },
            Some(i) => i,
        };
        if new_seats <= 0 {
            return Err(BookingError::InvalidRequest);
        }
        let b = self.bookings[idx];
        let booked = self.booked_seats(b.journey_id);
        proof {
            lemma_seats_sum_nonneg(self.bookings@, b.journey_id);
            lemma_seats_sum_remove(self.bookings@, idx as int, b.journey_id);
            lemma_seats_sum_nonneg(self.bookings@.remove(idx as int), b.journey_id);
        }
        if booked as i128 - b.seats as i128 + new_seats as i128 > u32::MAX as i128 {
            return Err(BookingError::InvalidRequest);
        }
        let b2 = Booking {
            id: b.id,
            journey_id: b.journey_id,
            traveller_id: b.traveller_id,
            seats: new_seats as u32,
            pickup: b.pickup,
            created_ms: b.created_ms,
        };
        self.bookings[idx] = b2;
        proof {
            let olds = old(self).bookings@;
            let news = self.bookings@;
            assert(news == olds.update(idx as int, b2));
            Self::lemma_same_journeys(*old(self), *self);
            Self::lemma_same_cities(*old(self), *self);
            assert forall|j2: u128| #[trigger]
                seats_sum(news, j2) == seats_sum(olds, j2) - (if olds[
                    idx as int
                ].journey_id == j2 {
                    olds[idx as int].seats as int
                } else {
                    0
                }) + (if b2.journey_id == j2 {
                    b2.seats as int
                } else {
                    0
                }) by {
                lemma_seats_sum_update(olds, idx as int, b2, j2);
            }
            assert forall|i: int| 0 <= i < news.len() implies (#[trigger] news[i]).seats >= 1
                && self.has_journey(news[i].journey_id) && news[i].pickup.spec_valid() by {
                assert(news[i] == if i == idx as int {
                    b2
                } else {
                    olds[i]
                });
                assert(old(self).has_journey(news[i].journey_id));
            }
            assert forall|i: int, j: int| 0 <= i < j < news.len() implies (#[trigger] news[i]).id
                != (#[trigger] news[j]).id && !(news[i].journey_id == news[j].journey_id
                && news[i].traveller_id == news[j].traveller_id) by {
                assert(olds[i].id == news[i].id && olds[i].journey_id == news[i].journey_id
                    && olds[i].traveller_id == news[i].traveller_id);
                assert(olds[j].id == news[j].id && olds[j].journey_id == news[j].journey_id
                    && olds[j].traveller_id == news[j].traveller_id);
            }
            assert(self.wf());
        }
        Ok(())
    }

    /// Two stores whose journey lists carry the same ids position by
    /// position agree on journey existence and on lookup indices.
    proof fn lemma_journeys_pointwise(pre: Self, post: Self)
        requires
            forall|i: int, j: int|
                0 <= i < j < pre.journeys@.len() ==> (#[trigger] pre.journeys@[i]).id
                    != (#[trigger] pre.journeys@[j]).id,
            post.journeys@.len() == pre.journeys@.len(),
            forall|k: int|
                0 <= k < pre.journeys@.len() ==> (#[trigger] post.journeys@[k]).id
                    == pre.journeys@[k].id,
        ensures
            forall|jid: u128| #[trigger] post.has_journey(jid) <==> pre.has_journey(jid),
            forall|jid: u128|
                pre.has_journey(jid) ==> #[trigger] post.journey_index(jid) == pre.journey_index(
                    jid,
                ),
    {
        assert forall|jid: u128| #[trigger] post.has_journey(jid) <==> pre.has_journey(jid) by {
            if pre.has_journey(jid) {
                let k = choose|i: int|
                    0 <= i < pre.journeys@.len() && (#[trigger] pre.journeys@[i]).id == jid;
                assert(post.journeys@[k].id == jid);
            }
            if post.has_journey(jid) {
                let k = choose|i: int|
                    0 <= i < post.journeys@.len() && (#[trigger] post.journeys@[i]).id == jid;
                assert(pre.journeys@[k].id == jid);
            }
        }
        assert forall|jid: u128| pre.has_journey(jid) implies #[trigger] post.journey_index(jid)
            == pre.journey_index(jid) by {
            assert(post.has_journey(jid));
            let k1 = pre.journey_index(jid);
            assert(0 <= k1 < pre.journeys@.len() && pre.journeys@[k1].id == jid);
            let k2 = post.journey_index(jid);
            assert(0 <= k2 < post.journeys@.len() && post.journeys@[k2].id == jid);
            assert(pre.journeys@[k2].id == jid);
        }
    }

    /// Re-establish well-formedness and the stability of every lookup
    /// after the journey at position `idx` was replaced by `nj`, which
    /// keeps its id.
    proof fn lemma_journey_updated(pre: Self, post: Self, idx: int, nj: Journey)
        requires
            pre.wf(),
            0 <= idx < pre.journeys@.len(),
            nj.id == pre.journeys@[idx].id,
            nj.total_seats >= 1,
            pre.has_city(nj.origin_city_id),
            pre.has_city(nj.destination_city_id),
            post.journeys@ == pre.journeys@.update(idx, nj),
            post.cities@ == pre.cities@,
            post.bookings@ == pre.bookings@,
            post.next_city_id == pre.next_city_id,
            post.next_journey_id == pre.next_journey_id,
            post.next_booking_id == pre.next_booking_id,
        ensures
            post.wf(),
            forall|jid: u128| #[trigger] post.has_journey(jid) <==> pre.has_journey(jid),
            post.journey_by_id(nj.id) == nj,
            forall|jid: u128|
                jid != nj.id && pre.has_journey(jid) ==> #[trigger] post.journey_by_id(jid)
                    == pre.journey_by_id(jid),
            forall|j2: u128| #[trigger] post.booked(j2) == pre.booked(j2),
            forall|j2: u128|
                j2 != nj.id && pre.capacity_ok(j2) ==> #[trigger] post.capacity_ok(j2),
            post.capacity_ok(nj.id) <==> pre.booked(nj.id) <= nj.total_seats,
    {
        Self::lemma_same_cities(pre, post);
        Self::lemma_journeys_pointwise(pre, post);
        assert(pre.has_journey(nj.id)) by {
            assert(pre.journeys@[idx].id == nj.id);
        }
        assert(pre.journey_index(nj.id) == idx) by {
            let k = pre.journey_index(nj.id);
            assert(0 <= k < pre.journeys@.len() && pre.journeys@[k].id == nj.id);
        }
        assert forall|i: int| 0 <= i < post.journeys@.len() implies post.has_city(
            (#[trigger] post.journeys@[i]).origin_city_id,
        ) && post.has_city(post.journeys@[i].destination_city_id) && post.journeys@[i].total_seats
            >= 1 by {
            if i != idx {
                assert(post.journeys@[i] == pre.journeys@[i]);
                assert(pre.has_city(pre.journeys@[i].origin_city_id));
                assert(pre.has_city(pre.journeys@[i].destination_city_id));
            }
        }
        assert forall|i: int| 0 <= i < post.bookings@.len() implies post.has_journey(
            (#[trigger] post.bookings@[i]).journey_id,
        ) by {
            assert(pre.has_journey(pre.bookings@[i].journey_id));
        }
        assert(post.wf());
        assert forall|jid: u128|
            jid != nj.id && pre.has_journey(jid) implies #[trigger] post.journey_by_id(jid)
            == pre.journey_by_id(jid) by {
            let k = pre.journey_index(jid);
            assert(0 <= k < pre.journeys@.len() && pre.journeys@[k].id == jid);
            assert(k != idx);
        }
    }

    /// The reason `update_journey` rejects a request: unknown journey,
    /// an unknown replacement city, or a zero replacement capacity.
    pub open spec fn update_journey_error(self, journey_id: u128, u: UpdateJourneyRequest) -> Option<
        BookingError,
    > {
        if !self.has_journey(journey_id) {
            Some(BookingError::NotFound)
        } else if match u.origin_city_id {
            Some(c) => !self.has_city(c),
            None => false,
        } {
            Some(BookingError::InvalidRequest)
        } else if match u.destination_city_id {
            Some(c) => !self.has_city(c),
            None => false,
        } {
            Some(BookingError::InvalidRequest)
        } else if u.total_seats == Some(0u32) {
            Some(BookingError::InvalidRequest)
        } else {
            None
        }
    }

    /// An administrator rewrites a journey's route, departure time or
    /// capacity. Replacement cities must exist and a replacement
    /// capacity must be positive; there is deliberately no check
    /// against the seats already booked, so lowering the capacity may
    /// leave the journey over capacity — the contract states exactly
    /// when it does.
    pub fn update_journey(&mut self, journey_id: u128, u: UpdateJourneyRequest) -> (r: Result<
        (),
        BookingError,
    >)
        requires
            old(self).wf(),
        ensures
            final(self).wf(),
            match r {
                Ok(()) => {
                    &&& old(self).update_journey_error(journey_id, u) is None
                    &&& final(self).journeys@ == old(self).journeys@.update(
                        old(self).journey_index(journey_id),
                        apply_update(old(self).journey_by_id(journey_id), u),
                    )
                    &&& final(self).cities@ == old(self).cities@
                    &&& final(self).bookings@ == old(self).bookings@
                    &&& final(self).next_city_id == old(self).next_city_id
                    &&& final(self).next_journey_id == old(self).next_journey_id
                    &&& final(self).next_booking_id == old(self).next_booking_id
                    &&& final(self).journey_by_id(journey_id) == apply_update(
                        old(self).journey_by_id(journey_id),
                        u,
                    )
                    &&& forall|j2: u128| #[trigger]
                        final(self).booked(j2) == old(self).booked(j2)
                    &&& forall|j2: u128|
                        j2 != journey_id && old(self).capacity_ok(j2)
                            ==> #[trigger] final(self).capacity_ok(j2)
                    &&& (final(self).capacity_ok(journey_id) <==> old(self).booked(journey_id)
                        <= apply_update(old(self).journey_by_id(journey_id), u).total_seats)
                },
                Err(e) => {
                    &&& *final(self) == *old(self)
                    &&& old(self).update_journey_error(journey_id, u) == Some(e)
                },
            },
    {
        let idx = match self.find_journey(journey_id) {
            None => {
                return Err(BookingError::NotFound);
            },
            Some(i) => i,
        };
        if let Some(c) = u.origin_city_id {
            if self.find_city(c).is_none() {
                return Err(BookingError::InvalidRequest);
            }
        }
        if let Some(c) = u.destination_city_id {
            if self.find_city(c).is_none() {
                return Err(BookingError::InvalidRequest);
            }
        }
        if let Some(s) = u.total_seats {
            if s == 0 {
                return Err(BookingError::InvalidRequest);
            }
        }
        let j = self.journeys[idx];
        let nj = Journey {
            id: j.id,
            origin_city_id: match u.origin_city_id {
                Some(c) => c,
                None => j.origin_city_id,
            },
            destination_city_id: match u.destination_city_id {
                Some(c) => c,
                None => j.destination_city_id,
            },
            departure_ms: match u.departure_ms {
                Some(t) => t,
                None => j.departure_ms,
            },
            total_seats: match u.total_seats {
                Some(s) => s,
                None => j.total_seats,
            },
            driver_id: j.driver_id,
            created_ms: j.created_ms,
        };
        self.journeys[idx] = nj;
        proof {
            assert(nj == apply_update(j, u));
            Self::lemma_journey_updated(*old(self), *self, idx as int, nj);
        }
        Ok(())
    }

    /// An administrator assigns a driver to a journey. The identity
    /// collaborator vouches for the driver's existence; this store
    /// checks that the vouched role really is the driver role.
    pub fn assign_driver(&mut self, journey_id: u128, driver_id: u128, driver_role: Role) -> (r:
        Result<(), BookingError>)
        requires
            old(self).wf(),
        ensures
            final(self).wf(),
            forall|j2: u128|
                old(self).capacity_ok(j2) ==> #[trigger] final(self).capacity_ok(j2),
            match r {
                Ok(()) => {
                    &&& driver_role == Role::Driver
                    &&& old(self).has_journey(journey_id)
                    &&& final(self).journeys@ == old(self).journeys@.update(
                        old(self).journey_index(journey_id),
                        Journey {
                            driver_id: Some(driver_id),
                            ..old(self).journey_by_id(journey_id)
                        },
                    )
                    &&& final(self).journey_by_id(journey_id) == (Journey {
                        driver_id: Some(driver_id),
                        ..old(self).journey_by_id(journey_id)
                    })
                    &&& final(self).cities@ == old(self).cities@
                    &&& final(self).bookings@ == old(self).bookings@
                    &&& final(self).next_city_id == old(self).next_city_id
                    &&& final(self).next_journey_id == old(self).next_journey_id
                    &&& final(self).next_booking_id == old(self).next_booking_id
                    &&& forall|j2: u128| #[trigger]
                        final(self).booked(j2) == old(self).booked(j2)
                },
                Err(e) => {
                    &&& *final(self) == *old(self)
                    &&& if driver_role != Role::Driver {
                        e == BookingError::InvalidRequest
                    } else {
                        e == BookingError::NotFound && !old(self).has_journey(journey_id)
                    }
                },
            },
    {
        if !matches!(driver_role, Role::Driver) {
            return Err(BookingError::InvalidRequest);
        }
        let idx = match self.find_journey(journey_id) {
            None => {
                return Err(BookingError::NotFound);
            },
            Some(i) => i,
        };
        let j = self.journeys[idx];
        let nj = Journey {
            id: j.id,
            origin_city_id: j.origin_city_id,
            destination_city_id: j.destination_city_id,
            departure_ms: j.departure_ms,
            total_seats: j.total_seats,
            driver_id: Some(driver_id),
            created_ms: j.created_ms,
        };
        self.journeys[idx] = nj;
        proof {
            Self::lemma_journey_updated(*old(self), *self, idx as int, nj);
            assert forall|j2: u128|
                old(self).capacity_ok(j2) implies #[trigger] self.capacity_ok(j2) by {
                if j2 == journey_id {
                    assert(self.journey_by_id(j2).total_seats == old(self).journey_by_id(
                        j2,
                    ).total_seats);
                }
            }
        }
        Ok(())
    }

    /// An administrator deletes a journey; its bookings are deleted
    /// with it in the same step (capacity bookkeeping for a deleted
    /// journey is moot). Every other journey keeps its bookings, its
    /// booked total and its capacity standing.
    #[verifier::loop_isolation(false)]
    pub fn delete_journey(&mut self, journey_id: u128) -> (r: Result<(), BookingError>)
        requires
            old(self).wf(),
        ensures
            final(self).wf(),
            forall|j2: u128|
                old(self).capacity_ok(j2) ==> #[trigger] final(self).capacity_ok(j2),
            match r {
                Ok(()) => {
                    &&& old(self).has_journey(journey_id)
                    &&& final(self).journeys@ == old(self).journeys@.remove(
                        old(self).journey_index(journey_id),
                    )
                    &&& final(self).bookings@ == old(self).bookings@.filter(
                        not_of_journey(journey_id),
                    )
                    &&& final(self).cities@ == old(self).cities@
                    &&& final(self).next_city_id == old(self).next_city_id
                    &&& final(self).next_journey_id == old(self).next_journey_id
                    &&& final(self).next_booking_id == old(self).next_booking_id
                    &&& !final(self).has_journey(journey_id)
                    &&& forall|j2: u128|
                        j2 != journey_id ==> #[trigger] final(self).booked(j2) == old(
                            self,
                        ).booked(j2)
                },
                Err(e) => {
                    &&& *final(self) == *old(self)
                    &&& e == BookingError::NotFound
                    &&& !old(self).has_journey(journey_id)
                },
            },
    {
        let jidx = match self.find_journey(journey_id) {
            None => {
                return Err(BookingError::NotFound);
            },
            Some(i) => i,
        };
        let n = self.bookings.len();
        let mut kept: Vec<Booking> = Vec::new();
        let mut i: usize = 0;
        while i < n
            invariant
                i <= n,
                kept@ == self.bookings@.take(i as int).filter(not_of_journey(journey_id)),
            decreases n - i,
        {
            let b = self.bookings[i];
            if b.journey_id != journey_id {
                kept.push(b);
            }
            proof {
                reveal(Seq::filter);
                let s = self.bookings@;
                assert(s.take(i as int + 1).drop_last() =~= s.take(i as int));
                assert(s.take(i as int + 1).last() == s[i as int]);
            }
            i += 1;
        }
        proof {
            assert(self.bookings@.take(n as int) =~= self.bookings@);
        }
        self.bookings = kept;
        self.journeys.remove(jidx);
        proof {
            let pre = *old(self);
            let post = *self;
            let oldb = pre.bookings@;
            let oldj = pre.journeys@;
            let pred = not_of_journey(journey_id);
            assert(post.bookings@ == oldb.filter(pred));
            assert(post.journeys@ == oldj.remove(jidx as int));
            oldj.remove_ensures(jidx as int);
            Self::lemma_same_cities(pre, post);
            assert forall|jid2: u128|
                jid2 != journey_id implies (#[trigger] post.has_journey(jid2)
                <==> pre.has_journey(jid2)) by {
                if pre.has_journey(jid2) {
                    let k = choose|x: int|
                        0 <= x < oldj.len() && (#[trigger] oldj[x]).id == jid2;
                    assert(k != jidx);
                    if k < jidx {
                        assert(post.journeys@[k].id == jid2);
                    } else {
                        assert(post.journeys@[k - 1].id == jid2);
                    }
                }
                if post.has_journey(jid2) {
                    let k = choose|x: int|
                        0 <= x < post.journeys@.len() && (#[trigger] post.journeys@[x]).id
                            == jid2;
                    if k < jidx {
                        assert(oldj[k].id == jid2);
                    } else {
                        assert(oldj[k + 1].id == jid2);
                    }
                }
            }
            assert(!post.has_journey(journey_id)) by {
                if post.has_journey(journey_id) {
                    let k = choose|x: int|
                        0 <= x < post.journeys@.len() && (#[trigger] post.journeys@[x]).id
                            == journey_id;
                    if k < jidx {
                        assert(oldj[k].id == journey_id);
                    } else {
                        assert(oldj[k + 1].id == journey_id);
                    }
                }
            }
            lemma_filter_keeps_distinct(oldb, pred);
            assert forall|x: int|
                0 <= x < post.bookings@.len() implies (#[trigger] post.bookings@[x]).seats >= 1
                && post.bookings@[x].pickup.spec_valid() && post.bookings@[x].id
                < post.next_booking_id && post.bookings@[x].journey_id != journey_id
                && post.has_journey(post.bookings@[x].journey_id) by {
                oldb.lemma_filter_pred(pred, x);
                let e = post.bookings@[x];
                assert(oldb.filter(pred).contains(e));
                oldb.lemma_filter_contains_rev(pred, e);
                let k = choose|k: int| 0 <= k < oldb.len() && oldb[k] == e;
                assert(oldb[k].seats >= 1);
                assert(pre.has_journey(e.journey_id));
            }
            assert forall|x: int|
                0 <= x < post.journeys@.len() implies (#[trigger] post.journeys@[x]).total_seats
                >= 1 && post.has_city(post.journeys@[x].origin_city_id) && post.has_city(
                post.journeys@[x].destination_city_id,
            ) && post.journeys@[x].id < post.next_journey_id by {
                let m: int = if x < jidx {
                    x
                } else {
                    x + 1
                };
                assert(post.journeys@[x] == oldj[m]);
                assert(pre.has_city(oldj[m].origin_city_id));
                assert(pre.has_city(oldj[m].destination_city_id));
            }
            assert forall|x: int, y: int|
                0 <= x < y < post.journeys@.len() implies (#[trigger] post.journeys@[x]).id
                != (#[trigger] post.journeys@[y]).id by {
                let mx: int = if x < jidx {
                    x
                } else {
                    x + 1
                };
                let my: int = if y < jidx {
                    y
                } else {
                    y + 1
                };
                assert(post.journeys@[x] == oldj[mx]);
                assert(post.journeys@[y] == oldj[my]);
            }
            assert forall|j2: u128| #[trigger]
                seats_sum(post.bookings@, j2) == (if j2 == journey_id {
                    0int
                } else {
                    seats_sum(oldb, j2)
                }) by {
                lemma_seats_sum_filter_out(oldb, journey_id, j2);
            }
            assert(post.wf());
            assert forall|j2: u128|
                pre.capacity_ok(j2) implies #[trigger] post.capacity_ok(j2) by {
                if j2 != journey_id && post.has_journey(j2) {
                    let k1 = pre.journey_index(j2);
                    assert(0 <= k1 < oldj.len() && oldj[k1].id == j2);
                    let k2 = post.journey_index(j2);
                    assert(0 <= k2 < post.journeys@.len() && post.journeys@[k2].id == j2);
                    let m: int = if k2 < jidx {
                        k2
                    } else {
                        k2 + 1
                    };
                    assert(post.journeys@[k2] == oldj[m]);
                    assert(m == k1);
                }
            }
        }
        Ok(())
    }

    /// Deleting a driver's account unassigns them everywhere: every
    /// journey they were driving loses its driver assignment; nothing
    /// else moves.
    #[verifier::loop_isolation(false)]
    pub fn remove_driver_assignments(&mut self, driver_id: u128)
        requires
            old(self).wf(),
        ensures
            final(self).wf(),
            final(self).journeys@.len() == old(self).journeys@.len(),
            forall|k: int|
                0 <= k < old(self).journeys@.len() ==> #[trigger] final(self).journeys@[k]
                    == clear_driver(old(self).journeys@[k], driver_id),
            forall|k: int|
                0 <= k < final(self).journeys@.len()
                    ==> (#[trigger] final(self).journeys@[k]).driver_id != Some(driver_id),
            final(self).bookings@ == old(self).bookings@,
            final(self).cities@ == old(self).cities@,
            final(self).next_city_id == old(self).next_city_id,
            final(self).next_journey_id == old(self).next_journey_id,
            final(self).next_booking_id == old(self).next_booking_id,
            forall|j2: u128| #[trigger] final(self).booked(j2) == old(self).booked(j2),
            forall|j2: u128|
                old(self).capacity_ok(j2) ==> #[trigger] final(self).capacity_ok(j2),
    {
        let n = self.journeys.len();
        let mut i: usize = 0;
        while i < n
            invariant
                i <= n,
                self.journeys@.len() == n,
                forall|k: int|
                    0 <= k < i ==> #[trigger] self.journeys@[k] == clear_driver(
                        old(self).journeys@[k],
                        driver_id,
                    ),
                forall|k: int|
                    i <= k < n ==> #[trigger] self.journeys@[k] == old(self).journeys@[k],
                self.bookings@ == old(self).bookings@,
                self.cities@ == old(self).cities@,
                self.next_city_id == old(self).next_city_id,
                self.next_journey_id == old(self).next_journey_id,
                self.next_booking_id == old(self).next_booking_id,
            decreases n - i,
        {
            let j = self.journeys[i];
            if let Some(d) = j.driver_id {
                if d == driver_id {
                    let nj = Journey {
                        id: j.id,
                        origin_city_id: j.origin_city_id,
                        destination_city_id: j.destination_city_id,
                        departure_ms: j.departure_ms,
                        total_seats: j.total_seats,
                        driver_id: None,
                        created_ms: j.created_ms,
                    };
                    self.journeys[i] = nj;
                }
            }
            i += 1;
        }
        proof {
            let pre = *old(self);
            let post = *self;
            assert(forall|k: int|
                0 <= k < n ==> (#[trigger] post.journeys@[k]).id == pre.journeys@[k].id);
            Self::lemma_journeys_pointwise(pre, post);
            Self::lemma_same_cities(pre, post);
            assert forall|x: int|
                0 <= x < post.journeys@.len() implies (#[trigger] post.journeys@[x]).total_seats
                >= 1 && post.has_city(post.journeys@[x].origin_city_id) && post.has_city(
                post.journeys@[x].destination_city_id,
            ) && post.journeys@[x].id < post.next_journey_id by {
                assert(post.journeys@[x] == clear_driver(pre.journeys@[x], driver_id));
                assert(pre.has_city(pre.journeys@[x].origin_city_id));
                assert(pre.has_city(pre.journeys@[x].destination_city_id));
            }
            assert forall|x: int, y: int|
                0 <= x < y < post.journeys@.len() implies (#[trigger] post.journeys@[x]).id
                != (#[trigger] post.journeys@[y]).id by {
                assert(post.journeys@[x].id == pre.journeys@[x].id);
                assert(post.journeys@[y].id == pre.journeys@[y].id);
            }
            assert forall|x: int| 0 <= x < post.bookings@.len() implies post.has_journey(
                (#[trigger] post.bookings@[x]).journey_id,
            ) by {
                assert(pre.has_journey(pre.bookings@[x].journey_id));
            }
            assert(post.wf());
            assert forall|j2: u128|
                pre.capacity_ok(j2) implies #[trigger] post.capacity_ok(j2) by {
                if post.has_journey(j2) {
                    let k = pre.journey_index(j2);
                    assert(post.journey_index(j2) == k);
                    assert(0 <= k < pre.journeys@.len() && pre.journeys@[k].id == j2);
                    assert(post.journeys@[k] == clear_driver(pre.journeys@[k], driver_id));
                }
            }
        }
    }

    /// The journeys assigned to one driver, in the order the store
    /// keeps them.
    #[verifier::loop_isolation(false)]
    pub fn journeys_of_driver(&self, driver_id: u128) -> (r: Vec<Journey>)
        requires
            self.wf(),
        ensures
            r@ == self.journeys@.filter(driven_by(driver_id)),
    {
        let n = self.journeys.len();
        let mut found: Vec<Journey> = Vec::new();
        let mut i: usize = 0;
        while i < n
            invariant
                i <= n,
                found@ == self.journeys@.take(i as int).filter(driven_by(driver_id)),
            decreases n - i,
        {
            let j = self.journeys[i];
            let mine = match j.driver_id {
                Some(d) => d == driver_id,
                None => false,
            };
            if mine {
                found.push(j);
            }
            proof {
                reveal(Seq::filter);
                let s = self.journeys@;
                assert(s.take(i as int + 1).drop_last() =~= s.take(i as int));
                assert(s.take(i as int + 1).last() == s[i as int]);
            }
            i += 1;
        }
        proof {
            assert(self.journeys@.take(n as int) =~= self.journeys@);
        }
        found
    }

    /// The bookings one traveller holds, in the order the store keeps
    /// them.
    #[verifier::loop_isolation(false)]
    pub fn bookings_of_traveller(&self, traveller_id: u128) -> (r: Vec<Booking>)
        requires
            self.wf(),
        ensures
            r@ == self.bookings@.filter(of_traveller(traveller_id)),
    {
        let n = self.bookings.len();
        let mut found: Vec<Booking> = Vec::new();
        let mut i: usize = 0;
        while i < n
            invariant
                i <= n,
                found@ == self.bookings@.take(i as int).filter(of_traveller(traveller_id)),
            decreases n - i,
        {
            let b = self.bookings[i];
            if b.traveller_id == traveller_id {
                found.push(b);
            }
            proof {
                reveal(Seq::filter);
                let s = self.bookings@;
                assert(s.take(i as int + 1).drop_last() =~= s.take(i as int));
                assert(s.take(i as int + 1).last() == s[i as int]);
            }
            i += 1;
        }
        proof {
            assert(self.bookings@.take(n as int) =~= self.bookings@);
        }
        found
    }

    /// The pickups of one journey, shown only to the driver assigned to
    /// it: anyone else is `Forbidden`, an unknown journey `NotFound`.
    #[verifier::loop_isolation(false)]
    pub fn journey_passengers(&self, caller_id: u128, journey_id: u128) -> (r: Result<
        Vec<Booking>,
        BookingError,
    >)
        requires
            self.wf(),
        ensures
            match r {
                Ok(bs) => {
                    &&& self.has_journey(journey_id)
                    &&& self.journey_by_id(journey_id).driver_id == Some(caller_id)
                    &&& bs@ == self.bookings@.filter(of_journey(journey_id))
                },
                Err(e) => {
                    if !self.has_journey(journey_id) {
                        e == BookingError::NotFound
                    } else {
                        e == BookingError::Forbidden && self.journey_by_id(
                            journey_id,
                        ).driver_id != Some(caller_id)
                    }
                },
            },
    {
        let jidx = match self.find_journey(journey_id) {
            None => {
                return Err(BookingError::NotFound);
            },
            Some(i) => i,
        };
        let owned = match self.journeys[jidx].driver_id {
            Some(d) => d == caller_id,
            None => false,
        };
        if !owned {
            return Err(BookingError::Forbidden);
        }
        let n = self.bookings.len();
        let mut found: Vec<Booking> = Vec::new();
        let mut i: usize = 0;
        while i < n
            invariant
                i <= n,
                found@ == self.bookings@.take(i as int).filter(of_journey(journey_id)),
            decreases n - i,
        {
            let b = self.bookings[i];
            if b.journey_id == journey_id {
                found.push(b);
            }
            proof {
                reveal(Seq::filter);
                let s = self.bookings@;
                assert(s.take(i as int + 1).drop_last() =~= s.take(i as int));
                assert(s.take(i as int + 1).last() == s[i as int]);
            }
            i += 1;
        }
        proof {
            assert(self.bookings@.take(n as int) =~= self.bookings@);
        }
        Ok(found)
    }

    /// The journeys still open for booking at `now_ms`: exactly those
    /// whose departure has not passed, in the order the store keeps
    /// them.
    #[verifier::loop_isolation(false)]
    pub fn upcoming_journeys(&self, now_ms: i64) -> (r: Vec<Journey>)
        requires
            self.wf(),
        ensures
            r@ == self.journeys@.filter(departs_at_or_after(now_ms)),
    {
        let n = self.journeys.len();
        let mut found: Vec<Journey> = Vec::new();
        let mut i: usize = 0;
        while i < n
            invariant
                i <= n,
                found@ == self.journeys@.take(i as int).filter(departs_at_or_after(now_ms)),
            decreases n - i,
        {
            let j = self.journeys[i];
            if j.departure_ms >= now_ms {
                found.push(j);
            }
            proof {
                reveal(Seq::filter);
                let s = self.journeys@;
                assert(s.take(i as int + 1).drop_last() =~= s.take(i as int));
                assert(s.take(i as int + 1).last() == s[i as int]);
            }
            i += 1;
        }
        proof {
            assert(self.journeys@.take(n as int) =~= self.journeys@);
        }
        found
    }

    /// One journey as a listing shows it. The seat arithmetic comes
    /// from the same bookings the ledger sums, in the same read.
    pub fn journey_info(&self, journey_id: u128) -> (r: Result<JourneyInfo, BookingError>)
        requires
            self.wf(),
        ensures
            match r {
                Ok(info) => {
                    &&& self.has_journey(journey_id)
                    &&& info.id == journey_id
                    &&& info.origin_city_id == self.journey_by_id(journey_id).origin_city_id
                    &&& info.destination_city_id == self.journey_by_id(
                        journey_id,
                    ).destination_city_id
                    &&& info.departure_ms == self.journey_by_id(journey_id).departure_ms
                    &&& info.total_seats == self.journey_by_id(journey_id).total_seats
                    &&& info.booked_seats == self.booked(journey_id)
                    &&& info.available_seats == self.journey_by_id(journey_id).total_seats
                        - self.booked(journey_id)
                    &&& info.has_driver == (self.journey_by_id(journey_id).driver_id is Some)
                },
                Err(e) => {
                    &&& e == BookingError::NotFound
                    &&& !self.has_journey(journey_id)
                },
            },
    {
        let jidx = match self.find_journey(journey_id) {
            None => {
                return Err(BookingError::NotFound);
            },
            Some(i) => i,
        };
        let j = self.journeys[jidx];
        let booked = self.booked_seats(journey_id);
        proof {
            lemma_seats_sum_nonneg(self.bookings@, journey_id);
        }
        Ok(
            JourneyInfo {
                id: j.id,
                origin_city_id: j.origin_city_id,
                destination_city_id: j.destination_city_id,
                departure_ms: j.departure_ms,
                total_seats: j.total_seats,
                booked_seats: booked as u32,
                available_seats: j.total_seats as i64 - booked as i64,
                has_driver: j.driver_id.is_some(),
            },
        )
    }

    /// `self` extends `prev` by exactly one booking, created at
    /// `now_ms`, an instant no later than the journey's departure.
    pub open spec fn booking_appended_at(
        self,
        prev: Self,
        bid: u128,
        traveller_id: u128,
        journey_id: u128,
        seats: i64,
        pickup: GeoPoint,
        now_ms: i64,
    ) -> bool {
        &&& now_ms <= prev.journey_by_id(journey_id).departure_ms
        &&& self.bookings@ == prev.bookings@.push(
            Booking {
                id: bid,
                journey_id,
                traveller_id,
                seats: seats as u32,
                pickup,
                created_ms: now_ms,
            },
        )
    }

    /// `create_booking` against the wall clock. The full decision
    /// ladder is stated on `create_booking`, which this calls with the
    /// instant the clock handed back; here the contract states what
    /// holds whatever that instant was: an unknown journey is still
    /// `NotFound`, a failure leaves the store untouched, and a success
    /// appends exactly one admissible booking whose creation time
    /// precedes the journey's departure.
    pub fn create_booking_now(
        &mut self,
        traveller_id: u128,
        journey_id: u128,
        seats: i64,
        pickup: GeoPoint,
        pickup_distance_m: u64,
    ) -> (r: Result<u128, BookingError>)
        requires
            old(self).wf(),
        ensures
            final(self).wf(),
            forall|j2: u128|
                old(self).capacity_ok(j2) ==> #[trigger] final(self).capacity_ok(j2),
            !old(self).has_journey(journey_id) ==> r == Err::<u128, BookingError>(
                BookingError::NotFound,
            ),
            match r {
                Ok(bid) => {
                    &&& old(self).has_journey(journey_id)
                    &&& seats >= 1
                    &&& pickup.spec_valid()
                    &&& pickup_distance_m <= old(self).city_by_id(
                        old(self).journey_by_id(journey_id).origin_city_id,
                    ).radius_m
                    &&& !old(self).has_booking_for(journey_id, traveller_id)
                    &&& bid == old(self).next_booking_id
                    &&& exists|now_ms: i64|
                        #[trigger] final(self).booking_appended_at(
                            *old(self),
                            bid,
                            traveller_id,
                            journey_id,
                            seats,
                            pickup,
                            now_ms,
                        )
                    &&& final(self).journeys@ == old(self).journeys@
                    &&& final(self).cities@ == old(self).cities@
                    &&& final(self).next_booking_id == old(self).next_booking_id + 1
                    &&& final(self).booked(journey_id) == old(self).booked(journey_id) + seats
                    &&& final(self).booked(journey_id) <= old(self).journey_by_id(
                        journey_id,
                    ).total_seats
                    &&& forall|j2: u128|
                        j2 != journey_id ==> #[trigger] final(self).booked(j2) == old(
                            self,
                        ).booked(j2)
                },
                Err(_) => *final(self) == *old(self),
            },
    {
        let now_ms = crate::clock::current_time_ms();
        let r = self.create_booking(
            traveller_id,
            journey_id,
            seats,
            pickup,
            pickup_distance_m,
            now_ms,
        );
        proof {
            match r {
                Ok(bid) => {
                    assert(self.booking_appended_at(
                        *old(self),
                        bid,
                        traveller_id,
                        journey_id,
                        seats,
                        pickup,
                        now_ms,
                    ));
                },
                Err(_) => {},
            }
        }
        r
    }

    /// `cancel_booking` against the wall clock: whatever instant the
    /// clock handed back, an unknown booking is `NotFound`, a failure
    /// leaves the store untouched, and a success removes exactly the
    /// caller's booking and releases its seats.
    pub fn cancel_booking_now(&mut self, caller_id: u128, booking_id: u128) -> (r: Result<
        (),
        BookingError,
    >)
        requires
            old(self).wf(),
        ensures
            final(self).wf(),
            forall|j2: u128|
                old(self).capacity_ok(j2) ==> #[trigger] final(self).capacity_ok(j2),
            !old(self).has_booking(booking_id) ==> r == Err::<(), BookingError>(
                BookingError::NotFound,
            ),
            match r {
                Ok(()) => {
                    &&& old(self).has_booking(booking_id)
                    &&& old(self).booking_by_id(booking_id).traveller_id == caller_id
                    &&& final(self).bookings@ == old(self).bookings@.remove(
                        old(self).booking_index(booking_id),
                    )
                    &&& final(self).journeys@ == old(self).journeys@
                    &&& final(self).cities@ == old(self).cities@
                    &&& !final(self).has_booking(booking_id)
                    &&& final(self).booked(old(self).booking_by_id(booking_id).journey_id) == old(
                        self,
                    ).booked(old(self).booking_by_id(booking_id).journey_id) - old(
                        self,
                    ).booking_by_id(booking_id).seats
                    &&& forall|j2: u128|
                        j2 != old(self).booking_by_id(booking_id).journey_id
                            ==> #[trigger] final(self).booked(j2) == old(self).booked(j2)
                },
                Err(_) => *final(self) == *old(self),
            },
    {
        let now_ms = crate::clock::current_time_ms();
        self.cancel_booking(caller_id, booking_id, now_ms)
    }

    /// The journeys still open for booking against the wall clock: for
    /// whatever instant the clock handed back, exactly the journeys
    /// that had not departed by it.
    pub fn upcoming_journeys_now(&self) -> (r: Vec<Journey>)
        requires
            self.wf(),
        ensures
            exists|now_ms: i64| #![auto] r@ == self.journeys@.filter(departs_at_or_after(now_ms)),
    {
        let now_ms = crate::clock::current_time_ms();
        self.upcoming_journeys(now_ms)
    }
}

} // verus!
