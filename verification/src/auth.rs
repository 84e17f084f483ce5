//! The plain shapes of the account-facing requests. Password hashing
//! and token issuance are the identity collaborator's work and happen
//! outside the library; these types carry the caller's input to it.

use vstd::prelude::*;

verus! {

/// A traveller's self-registration.
#[derive(Clone, Debug)]
pub struct RegisterRequest {
    pub email: String,
    pub password: String,
    pub name: String,
}

/// An email/password login.
#[derive(Clone, Debug)]
pub struct LoginRequest {
    pub email: String,
    pub password: String,
}

/// An administrator's creation of a driver account.
#[derive(Clone, Debug)]
pub struct CreateDriverRequest {
    pub email: String,
    pub password: String,
    pub name: String,
}

} // verus!
