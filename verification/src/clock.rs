//! The wall clock, for timestamping writes to TTL tables.

use vstd::prelude::*;

verus! {

/// Relies on chrono's `Utc::now` and `DateTime::timestamp`: the current
/// unix time in seconds, truncated to 32 bits. Nothing is assumed of
/// the value: the clock may move arbitrarily between calls. `Utc::now`
/// itself needs a system clock at or after the unix epoch.
#[verifier::external_body]
pub fn now() -> u32 {
    chrono::Utc::now().timestamp() as u32
}

} // verus!
