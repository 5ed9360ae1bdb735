//! The wall clock, read through the chrono crate.

use vstd::prelude::*;

verus! {

/// Relies on chrono's `Utc::now` and `DateTime::timestamp`: the current time
/// as whole seconds since the Unix epoch.  Nothing is assumed of the value;
/// callers state what holds of every reading.  (chrono's `Utc::now` panics
/// when the system clock is set before the epoch.)
#[verifier::external_body]
pub(crate) fn now_seconds() -> i64 {
    chrono::Utc::now().timestamp()
}

} // verus!
