use bus_travel_core::admission::AdmissionController;
use bus_travel_core::bucket::RateBucket;
use bus_travel_core::errors::BookingError;
use bus_travel_core::roles::rate_limited_role;
use bus_travel_core::roles::require_role;
use bus_travel_core::roles::role_budget;
use bus_travel_core::roles::RateLimitedRole;
use bus_travel_core::roles::Role;

#[test]
fn bucket_saturation_and_proportional_refill() {
    // capacity 100, full refill in 60 time-units
    let mut b = RateBucket::new(100, 60, 0);
    // admits exactly 100 requests instantly
    for _ in 0..100 {
        assert!(b.try_acquire(0));
    }
    // rejects the 101st
    assert!(!b.try_acquire(0));
    // after 3 time-units, tokens refill proportionally: 3 * 100 / 60 = 5
    assert_eq!(b.available_tokens(), 0);
    for _ in 0..5 {
        assert!(b.try_acquire(3));
    }
    assert!(!b.try_acquire(3));
    // tokens never exceed capacity, however long the idle stretch
    let mut idle = RateBucket::new(100, 60, 0);
    assert_eq!(idle.available_tokens(), 100);
    assert!(idle.try_acquire(1_000_000));
    assert_eq!(idle.available_tokens(), 99);
    let mut drained = RateBucket::new(100, 60, 0);
    for _ in 0..100 {
        assert!(drained.try_acquire(0));
    }
    assert!(drained.try_acquire(1_000_000_000));
    assert_eq!(drained.available_tokens(), 99);
}

#[test]
fn bucket_clock_going_backwards_credits_nothing() {
    let mut b = RateBucket::new(2, 10, 100);
    assert!(b.try_acquire(100));
    assert!(b.try_acquire(100));
    // an earlier reading refills nothing and keeps the later instant
    assert!(!b.try_acquire(50));
    // time resumes from 100, not 50: with 2 tokens per 10 time-units a
    // token takes 5 units, so 104 is still empty and 105 grants one
    assert!(!b.try_acquire(104));
    assert!(b.try_acquire(105));
}

#[test]
fn controller_keys_are_independent() {
    let mut c = AdmissionController::new(2, 1000);
    // key 1 exhausts its own bucket
    assert!(c.try_acquire(1, 0));
    assert!(c.try_acquire(1, 0));
    assert!(!c.try_acquire(1, 0));
    // key 2 still has its full budget
    assert!(c.try_acquire(2, 0));
    assert!(c.try_acquire(2, 0));
    assert!(!c.try_acquire(2, 0));
    // key 1 recovers one token after half a refill period
    assert!(c.try_acquire(1, 500));
    assert!(!c.try_acquire(1, 500));
}

#[test]
fn role_budgets_and_exemption() {
    // administrators are exempt from the per-identity bucket
    assert_eq!(rate_limited_role(Role::Admin), None);
    assert_eq!(rate_limited_role(Role::Driver), Some(RateLimitedRole::Driver));
    assert_eq!(
        rate_limited_role(Role::Traveller),
        Some(RateLimitedRole::Traveller)
    );
    // drivers get the higher budget, travellers the base one
    assert_eq!(role_budget(RateLimitedRole::Driver), (500, 120_000));
    assert_eq!(role_budget(RateLimitedRole::Traveller), (100, 120_000));
    // a driver's budget admits 500 at once, the 501st waits
    let (cap, refill) = role_budget(RateLimitedRole::Driver);
    let mut c = AdmissionController::new(cap, refill);
    for _ in 0..500 {
        assert!(c.try_acquire(42, 0));
    }
    assert!(!c.try_acquire(42, 0));
}

#[test]
fn role_gate() {
    assert!(require_role(Role::Admin, Role::Admin).is_ok());
    assert_eq!(
        require_role(Role::Traveller, Role::Admin),
        Err(BookingError::Forbidden)
    );
    assert_eq!(
        require_role(Role::Admin, Role::Driver),
        Err(BookingError::Forbidden)
    );
}
