//! Core of a seat-booking system for scheduled journeys between cities:
//! a capacity ledger that never admits more seats than a journey offers,
//! geofenced pickup validation, and a token-bucket admission controller
//! with per-role budgets.
//!
//! The store's `&mut self` operations are the per-journey critical
//! sections the concurrency design demands: each one is an indivisible
//! read-decide-commit step, so the capacity and uniqueness guarantees
//! proved here hold under any interleaving of requests.

pub mod admission;
pub mod auth;
pub mod bucket;
pub mod catalog;
pub mod clock;
pub mod config;
pub mod errors;
pub mod geo;
pub mod laws;
pub mod roles;
pub mod store;
