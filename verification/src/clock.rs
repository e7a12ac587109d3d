//! The one place the library reads the wall clock.

use vstd::prelude::*;
use crate::data::clock_in_range;

verus! {

/// Relies on `time::OffsetDateTime::now_utc` for the current instant and on
/// `unix_timestamp_nanos` to turn it into nanoseconds since the Unix epoch.
/// Nothing is promised of the value beyond the range the `OffsetDateTime`
/// type can represent (years -9999 to 9999); a machine clock sitting
/// outside that range would already fail inside the conversion, before any
/// value reached this library.
#[verifier::external_body]
pub fn now_nanos() -> (r: i128)
    ensures
        clock_in_range(r as int),
{
    time::OffsetDateTime::now_utc().unix_timestamp_nanos()
}

} // verus!
