use bus_travel_core::catalog::UpdateJourneyRequest;
use bus_travel_core::config::Config;
use bus_travel_core::roles::Role;
use bus_travel_core::errors::BookingError;
use bus_travel_core::geo::is_within_radius;
use bus_travel_core::geo::GeoPoint;
use bus_travel_core::store::BookingStore;

fn point(lat_microdeg: i64, lng_microdeg: i64) -> GeoPoint {
    GeoPoint { lat_microdeg, lng_microdeg }
}

/// A store with two cities (radius 10 km) and one journey of the given
/// capacity departing at t = 1_000_000.
fn store_with_journey(total_seats: u32) -> (BookingStore, u128) {
    let mut s = BookingStore::new();
    // Jakarta center, microdegrees of (-6.2088, 106.8456)
    let c1 = s
        .add_city("Jakarta".to_string(), point(-6_208_800, 106_845_600), 10_000)
        .unwrap();
    let c2 = s
        .add_city("Bandung".to_string(), point(-6_917_500, 107_619_100), 10_000)
        .unwrap();
    let j = s.create_journey(c1, c2, 1_000_000, total_seats, 0).unwrap();
    (s, j)
}

#[test]
fn geofence_boundary_is_inclusive() {
    // a pickup at exactly the configured radius is accepted
    assert!(is_within_radius(10_000, 10_000));
    // one unit beyond is rejected
    assert!(!is_within_radius(10_001, 10_000));
    // the city center itself (0 km away) is accepted
    assert!(is_within_radius(0, 10_000));
    // 15 km away with a 10 km radius is rejected
    assert!(!is_within_radius(15_000, 10_000));
}

#[test]
fn booking_at_radius_accepted_beyond_rejected() {
    let (mut s, j) = store_with_journey(4);
    let r = s.create_booking(1, j, 1, point(0, 0), 10_000, 500);
    assert!(r.is_ok());
    let r2 = s.create_booking(2, j, 1, point(0, 0), 10_001, 500);
    assert_eq!(r2, Err(BookingError::PickupOutOfRange));
}

#[test]
fn end_to_end_scenario() {
    // journey capacity 4
    let (mut s, j) = store_with_journey(4);
    let p = point(0, 0);
    // traveller A books 2 seats: success, 2 remain
    let a_booking = s.create_booking(1, j, 2, p, 0, 500).unwrap();
    assert_eq!(s.available_seats(j).unwrap(), 2);
    // traveller B requests 3 seats: rejected for capacity
    assert_eq!(
        s.create_booking(2, j, 3, p, 0, 500),
        Err(BookingError::InsufficientCapacity)
    );
    // traveller B requests 2 seats: success, 0 remain
    s.create_booking(2, j, 2, p, 0, 500).unwrap();
    assert_eq!(s.available_seats(j).unwrap(), 0);
    // traveller A cancels: 2 remain again
    s.cancel_booking(1, a_booking, 600).unwrap();
    assert_eq!(s.available_seats(j).unwrap(), 2);
    // traveller C books the released 2 seats: success
    s.create_booking(3, j, 2, p, 0, 500).unwrap();
    assert_eq!(s.available_seats(j).unwrap(), 0);
}

#[test]
fn release_restores_exactly_the_cancelled_seats() {
    let (mut s, j) = store_with_journey(10);
    let p = point(0, 0);
    let b = s.create_booking(1, j, 3, p, 0, 500).unwrap();
    s.create_booking(2, j, 4, p, 0, 500).unwrap();
    assert_eq!(s.available_seats(j).unwrap(), 3);
    s.cancel_booking(1, b, 600).unwrap();
    // exactly the cancelled booking's 3 seats came back
    assert_eq!(s.available_seats(j).unwrap(), 6);
    // and a new booking up to that amount succeeds
    assert!(s.create_booking(3, j, 6, p, 0, 500).is_ok());
    assert_eq!(s.available_seats(j).unwrap(), 0);
}

#[test]
fn no_overbooking_under_many_attempts() {
    let (mut s, j) = store_with_journey(7);
    let p = point(0, 0);
    let mut admitted_seats: u64 = 0;
    for t in 0..50u128 {
        let want = 1 + (t % 4) as i64;
        if let Ok(_) = s.create_booking(t, j, want, p, 0, 500) {
            admitted_seats += want as u64;
        }
        assert!(s.booked_seats(j) <= 7);
    }
    assert_eq!(s.booked_seats(j), admitted_seats);
    assert!(admitted_seats <= 7);
}

#[test]
fn duplicate_booking_rejected() {
    let (mut s, j) = store_with_journey(4);
    let p = point(0, 0);
    s.create_booking(1, j, 1, p, 0, 500).unwrap();
    assert_eq!(
        s.create_booking(1, j, 1, p, 0, 500),
        Err(BookingError::DuplicateBooking)
    );
    // after cancelling, the traveller may book again
    let mine = s.bookings_of_traveller(1);
    s.cancel_booking(1, mine[0].id, 600).unwrap();
    assert!(s.create_booking(1, j, 1, p, 0, 500).is_ok());
}

#[test]
fn booking_error_ladder() {
    let (mut s, j) = store_with_journey(4);
    let p = point(0, 0);
    // unknown journey
    assert_eq!(
        s.create_booking(1, 999, 1, p, 0, 500),
        Err(BookingError::NotFound)
    );
    // departure already past
    assert_eq!(
        s.create_booking(1, j, 1, p, 0, 2_000_000),
        Err(BookingError::PastJourney)
    );
    // departure at exactly "now" is still bookable
    assert!(s.create_booking(9, j, 1, p, 0, 1_000_000).is_ok());
    // non-positive seat count
    assert_eq!(
        s.create_booking(1, j, 0, p, 0, 500),
        Err(BookingError::InvalidRequest)
    );
    assert_eq!(
        s.create_booking(1, j, -2, p, 0, 500),
        Err(BookingError::InvalidRequest)
    );
    // out-of-range pickup coordinate
    assert_eq!(
        s.create_booking(1, j, 1, point(91_000_000, 0), 0, 500),
        Err(BookingError::InvalidRequest)
    );
}

#[test]
fn cancel_error_ladder() {
    let (mut s, j) = store_with_journey(4);
    let p = point(0, 0);
    let b = s.create_booking(1, j, 2, p, 0, 500).unwrap();
    // unknown booking
    assert_eq!(s.cancel_booking(1, 999, 600), Err(BookingError::NotFound));
    // someone else's booking
    assert_eq!(s.cancel_booking(2, b, 600), Err(BookingError::Forbidden));
    // after departure the traveller may no longer cancel
    assert_eq!(
        s.cancel_booking(1, b, 2_000_000),
        Err(BookingError::JourneyAlreadyDeparted)
    );
    // an administrator may, regardless of time
    s.admin_cancel_booking(b).unwrap();
    assert_eq!(s.available_seats(j).unwrap(), 4);
}

#[test]
fn admin_override_may_exceed_capacity() {
    let (mut s, j) = store_with_journey(4);
    let p = point(0, 0);
    let b = s.create_booking(1, j, 2, p, 0, 500).unwrap();
    assert_eq!(s.admin_override_seats(b, 0), Err(BookingError::InvalidRequest));
    s.admin_override_seats(b, 10).unwrap();
    assert_eq!(s.booked_seats(j), 10);
    // available goes negative: the deliberate escape hatch
    assert_eq!(s.available_seats(j).unwrap(), -6);
    // ordinary travellers are still refused while over capacity
    assert_eq!(
        s.create_booking(2, j, 1, p, 0, 500),
        Err(BookingError::InsufficientCapacity)
    );
}

#[test]
fn journey_lifecycle_and_cascade() {
    let mut s = BookingStore::new();
    let c1 = s.add_city("Jakarta".to_string(), point(0, 0), 10_000).unwrap();
    let c2 = s.add_city("Bandung".to_string(), point(1_000_000, 1_000_000), 5_000).unwrap();
    // duplicate city name is refused
    assert_eq!(
        s.add_city("Jakarta".to_string(), point(0, 0), 1_000),
        Err(BookingError::InvalidRequest)
    );
    // a journey needs two distinct known cities and a positive capacity
    assert_eq!(s.create_journey(c1, c1, 10, 4, 0), Err(BookingError::InvalidRequest));
    assert_eq!(s.create_journey(c1, 99, 10, 4, 0), Err(BookingError::InvalidRequest));
    assert_eq!(s.create_journey(c1, c2, 10, 0, 0), Err(BookingError::InvalidRequest));
    let j1 = s.create_journey(c1, c2, 1_000, 4, 0).unwrap();
    let j2 = s.create_journey(c2, c1, 2_000, 5, 0).unwrap();
    let p = point(0, 0);
    s.create_booking(1, j1, 2, p, 0, 500).unwrap();
    s.create_booking(1, j2, 3, p, 0, 500).unwrap();
    // lowering a journey's capacity below its booked seats is allowed
    // administratively and shows up as negative availability
    s.update_journey(
        j1,
        UpdateJourneyRequest {
            origin_city_id: None,
            destination_city_id: None,
            departure_ms: None,
            total_seats: Some(1),
        },
    )
    .unwrap();
    assert_eq!(s.available_seats(j1).unwrap(), -1);
    // deleting a journey cascades to its bookings and leaves the rest
    s.delete_journey(j1).unwrap();
    assert_eq!(s.available_seats(j1), Err(BookingError::NotFound));
    let mine = s.bookings_of_traveller(1);
    assert_eq!(mine.len(), 1);
    assert_eq!(mine[0].journey_id, j2);
    assert_eq!(s.available_seats(j2).unwrap(), 2);
}

#[test]
fn journey_info_reports_the_ledgers_numbers() {
    let (mut s, j) = store_with_journey(4);
    let p = point(0, 0);
    s.create_booking(1, j, 3, p, 0, 500).unwrap();
    let info = s.journey_info(j).unwrap();
    assert_eq!(info.id, j);
    assert_eq!(info.total_seats, 4);
    assert_eq!(info.booked_seats, 3);
    assert_eq!(info.available_seats, 1);
    assert!(!info.has_driver);
    assert_eq!(info.departure_ms, 1_000_000);
    assert_eq!(s.journey_info(12345), Err(BookingError::NotFound));
}

#[test]
fn upcoming_journeys_excludes_departed() {
    let mut s = BookingStore::new();
    let c1 = s.add_city("a".to_string(), point(0, 0), 1_000).unwrap();
    let c2 = s.add_city("b".to_string(), point(1, 1), 1_000).unwrap();
    let j1 = s.create_journey(c1, c2, 100, 4, 0).unwrap();
    let j2 = s.create_journey(c1, c2, 200, 4, 0).unwrap();
    let up = s.upcoming_journeys(150);
    assert_eq!(up.len(), 1);
    assert_eq!(up[0].id, j2);
    // a journey departing exactly now is still listed
    let up2 = s.upcoming_journeys(100);
    assert_eq!(up2.len(), 2);
    assert_eq!(up2[0].id, j1);
}

#[test]
fn driver_assignment_and_passenger_list() {
    let (mut s, j) = store_with_journey(4);
    let p = point(0, 0);
    s.create_booking(1, j, 2, p, 0, 500).unwrap();
    // only a caller vouched as a driver can be assigned
    assert_eq!(
        s.assign_driver(j, 77, Role::Traveller),
        Err(BookingError::InvalidRequest)
    );
    assert_eq!(s.assign_driver(99, 77, Role::Driver), Err(BookingError::NotFound));
    s.assign_driver(j, 77, Role::Driver).unwrap();
    assert!(s.journey_info(j).unwrap().has_driver);
    // the assigned driver sees the pickups; anyone else is refused
    let passengers = s.journey_passengers(77, j).unwrap();
    assert_eq!(passengers.len(), 1);
    assert_eq!(passengers[0].traveller_id, 1);
    assert_eq!(passengers[0].seats, 2);
    assert_eq!(s.journey_passengers(78, j), Err(BookingError::Forbidden));
    assert_eq!(s.journey_passengers(77, 999), Err(BookingError::NotFound));
    // the driver's own journey listing
    let mine = s.journeys_of_driver(77);
    assert_eq!(mine.len(), 1);
    assert_eq!(mine[0].id, j);
    // deleting the driver's account unassigns them everywhere
    s.remove_driver_assignments(77);
    assert!(s.journeys_of_driver(77).is_empty());
    assert!(!s.journey_info(j).unwrap().has_driver);
}

#[test]
fn server_addr_formats_host_and_port() {
    let cfg = Config {
        database_url: "postgres://localhost/app".to_string(),
        jwt_secret: "secret".to_string(),
        jwt_expiration_hours: 24,
        server_host: "0.0.0.0".to_string(),
        server_port: 3000,
    };
    assert_eq!(cfg.server_addr(), "0.0.0.0:3000");
    let cfg2 = Config { server_port: 65535, server_host: "localhost".to_string(), ..cfg };
    assert_eq!(cfg2.server_addr(), "localhost:65535");
    let cfg3 = Config { server_port: 0, ..cfg2 };
    assert_eq!(cfg3.server_addr(), "localhost:0");
}

#[test]
fn clock_backed_entry_points() {
    let mut s = BookingStore::new();
    let c1 = s.add_city("a".to_string(), point(0, 0), 1_000).unwrap();
    let c2 = s.add_city("b".to_string(), point(1, 1), 1_000).unwrap();
    // departure at the far end of time: bookable whatever the clock says
    let j = s.create_journey(c1, c2, i64::MAX, 4, 0).unwrap();
    let b = s.create_booking_now(1, j, 2, point(0, 0), 500).unwrap();
    assert_eq!(s.available_seats(j).unwrap(), 2);
    // the booking's creation time came from the live clock
    let mine = s.bookings_of_traveller(1);
    assert!(mine[0].created_ms > 0);
    s.cancel_booking_now(1, b).unwrap();
    assert_eq!(s.available_seats(j).unwrap(), 4);
    assert!(!s.upcoming_journeys_now().is_empty());
}
