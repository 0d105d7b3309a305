//! The range of instants that an event's timestamp may name.

use vstd::prelude::*;

verus! {

/// The earliest instant, in milliseconds since the Unix epoch, that
/// `jiff::Timestamp` represents (`Timestamp::MIN`).
pub const MIN_MILLISECOND: i64 = -377_705_023_201_000i64;

/// The latest instant, in milliseconds since the Unix epoch, that
/// `jiff::Timestamp` represents (`Timestamp::MAX`, rounded down to the
/// millisecond).
pub const MAX_MILLISECOND: i64 = 253_402_207_200_000i64;

/// Calls `jiff::Timestamp::from_millisecond` and tells whether it built a
/// timestamp. The contract claims that it fails exactly for instants
/// outside `Timestamp::MIN ..= Timestamp::MAX`, as jiff documents (the only
/// error it can return), with the bounds of its `UnixEpochMilliseconds`
/// range written out.
#[verifier::external_body]
pub(crate) fn millisecond_in_range(millisecond: i64) -> (ok: bool)
    ensures
        ok == (MIN_MILLISECOND <= millisecond <= MAX_MILLISECOND),
{
    jiff::Timestamp::from_millisecond(millisecond).is_ok()
}

} // verus!
