//! Roles, the role-gating policy, and the admission budgets each role
//! is entitled to. Policy lives here as explicit tables; the token
//! bucket mechanism itself is role-agnostic.

use vstd::prelude::*;

use crate::errors::BookingError;

verus! {

/// Who a caller is, as established by the identity collaborator.
#[derive(Clone, Copy, PartialEq, Eq, Structural, Debug)]
pub enum Role {
    Admin,
    Driver,
    Traveller,
}

/// The roles subject to the per-identity token bucket. Administrators
/// are deliberately absent: their only ceiling is the global per-IP
/// bucket applied ahead of authentication.
#[derive(Clone, Copy, PartialEq, Eq, Structural, Debug)]
pub enum RateLimitedRole {
    Traveller,
    Driver,
}

/// Which per-identity bucket a role is billed to: none for an
/// administrator, the higher-budget bucket for a driver, the base
/// bucket for a traveller.
pub fn rate_limited_role(role: Role) -> (r: Option<RateLimitedRole>)
    ensures
        r == (match role {
            Role::Admin => None::<RateLimitedRole>,
            Role::Driver => Some(RateLimitedRole::Driver),
            Role::Traveller => Some(RateLimitedRole::Traveller),
        }),
{
    match role {
        Role::Admin => None,
        Role::Driver => Some(RateLimitedRole::Driver),
        Role::Traveller => Some(RateLimitedRole::Traveller),
    }
}

/// The admission budget of a rate-limited role, as (bucket capacity,
/// milliseconds for a full refill from empty): drivers may burst 500
/// requests and travellers 100, each bucket replenishing fully over
/// two minutes.
pub fn role_budget(role: RateLimitedRole) -> (r: (u64, u64))
    ensures
        r == (match role {
            RateLimitedRole::Driver => (500u64, 120000u64),
            RateLimitedRole::Traveller => (100u64, 120000u64),
        }),
{
    match role {
        RateLimitedRole::Driver => (500, 120000),
        RateLimitedRole::Traveller => (100, 120000),
    }
}

/// Gate an operation on the caller holding exactly the required role;
/// anything else is `Forbidden`.
pub fn require_role(actual: Role, required: Role) -> (r: Result<(), BookingError>)
    ensures
        r is Ok <==> actual == required,
        r is Err ==> r == Err::<(), BookingError>(BookingError::Forbidden),
{
    if actual == required {
        Ok(())
    } else {
        Err(BookingError::Forbidden)
    }
}

} // verus!
