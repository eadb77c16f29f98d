//! Trusted boundary to the system clock.

use vstd::prelude::*;

verus! {

/// Relies on chrono's `Local::now` and `DateTime::timestamp`: the current
/// moment as whole seconds since the Unix epoch. The result depends on the
/// clock, so nothing is promised of it; callers state what holds whatever
/// value comes back.
#[verifier::external_body]
pub(crate) fn now_epoch_seconds() -> i64 {
    chrono::Local::now().timestamp()
}

} // verus!
