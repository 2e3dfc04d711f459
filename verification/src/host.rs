//! The few values only the hosting environment can supply: the current
//! time, the start of the local calendar day, and fresh route identifiers.
//! Each depends on the clock, the machine's time zone or a random source,
//! so nothing is promised of any of them; every caller states what holds
//! whatever value comes back.

use vstd::prelude::*;
use chrono::Timelike;

verus! {

/// Relies on chrono's `Utc::now` and `DateTime::timestamp`: the current
/// time as epoch seconds.
#[verifier::external_body]
pub fn now_epoch_seconds() -> i64 {
    chrono::Utc::now().timestamp()
}

/// Relies on chrono's `Local::now` and its `Timelike` setters, as epoch
/// seconds: the start of the current calendar day in the local time zone.
/// `None` when the local calendar has no midnight instant today.
#[verifier::external_body]
pub fn local_midnight_epoch() -> Option<i64> {
    match chrono::Local::now().with_hour(0).and_then(|t| t.with_minute(0)).and_then(
        |t| t.with_second(0),
    ) {
        Some(t) => Some(t.timestamp()),
        None => None,
    }
}

/// Relies on uuid's `Uuid::new_v4` and `Uuid::as_u128`: a fresh random
/// identifier. Uniqueness is probabilistic, never guaranteed.
#[verifier::external_body]
pub fn fresh_route_id() -> u128 {
    uuid::Uuid::new_v4().as_u128()
}

} // verus!
