//! The store's clock: creation timestamps come from the system's UTC time.

use vstd::prelude::*;

use crate::models::Timestamp;

verus! {

/// Relies on `time::OffsetDateTime::now_utc` and its component accessors:
/// the current UTC time always has calendar components within their ranges.
/// Nothing more can be promised of a clock reading.
#[verifier::external_body]
pub fn now_utc() -> (r: Timestamp)
    ensures
        r.wf(),
{
    let t = time::OffsetDateTime::now_utc();
    Timestamp {
        year: t.year(),
        month: u8::from(t.month()),
        day: t.day(),
        hour: t.hour(),
        minute: t.minute(),
        second: t.second(),
        nanosecond: t.nanosecond(),
    }
}

} // verus!
