//! Invoice lifecycle engine for a multi-token payment hub.
//!
//! Tracks payment requests issued against a value-transfer ledger, verifies
//! that an inbound transfer satisfies a requested amount, and reclaims
//! storage for requests that are never paid.

pub mod hashing;
pub mod laws;
pub mod stats;
pub mod store;
pub mod types;

use vstd::prelude::*;

verus! {

/// Countdown value a fresh invoice starts with; the expiry sweep decrements it.
pub const DEFAULT_TTL: u8 = 10;

/// Floor for the countdown: a sweep that finds an invoice at or below this
/// value deletes the invoice instead of decrementing further.
pub const RECYCLING_TTL: u8 = 1;

} // verus!
