//! Wall-clock reading for the reset scheduler.

use vstd::prelude::*;

verus! {

/// Relies on chrono's `Local::now` and `DateTime::timestamp`: the current
/// wall-clock time as whole seconds since the Unix epoch. Nothing is
/// assumed of the reading; every caller takes it as an argument and is
/// verified for all values.
#[verifier::external_body]
pub fn now_unix_seconds() -> i64 {
    chrono::Local::now().timestamp()
}

} // verus!
