//! Timestamp validation through the `chrono` crate: whether an update
//! time read back from a fast field is a representable date.

use vstd::prelude::*;

verus! {

/// Whether `chrono` can represent the timestamp as a date and time:
/// a function of the number of seconds alone.
pub uninterp spec fn timestamp_valid(secs: i64) -> bool;

/// Relies on chrono::DateTime::from_timestamp, which yields a value
/// exactly for timestamps within chrono's representable range.
#[verifier::external_body]
pub fn timestamp_representable(secs: i64) -> (r: bool)
    ensures
        r == timestamp_valid(secs),
{
    chrono::DateTime::from_timestamp(secs, 0).is_some()
}

} // verus!
