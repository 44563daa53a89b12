//! Instants as nanoseconds since the Unix epoch, in the range of
//! `jiff::Timestamp`, and the few operations on them that the logic needs.
use vstd::prelude::*;

verus! {

/// Nanoseconds in one second.
pub const NANOS_PER_SEC: i128 = 1_000_000_000;

/// `jiff::Timestamp::MIN.as_nanosecond()`: `-009999-01-02T01:59:59Z`.
pub const TIMESTAMP_MIN_NANOS: i128 = -377_705_023_201_000_000_000;

/// `jiff::Timestamp::MAX.as_nanosecond()`: `9999-12-30T22:00:00.999999999Z`.
pub const TIMESTAMP_MAX_NANOS: i128 = 253_402_207_200_999_999_999;

/// An instant that a `jiff::Timestamp` can represent.
pub open spec fn valid_timestamp(nanos: int) -> bool {
    TIMESTAMP_MIN_NANOS <= nanos <= TIMESTAMP_MAX_NANOS
}

/// The instant `secs` seconds after `nanos` (before it when `secs < 0`),
/// if a `jiff::Timestamp` can represent it.
pub open spec fn shifted_timestamp(nanos: int, secs: int) -> Option<int> {
    let r = nanos + secs * NANOS_PER_SEC;
    if valid_timestamp(r) {
        Some(r)
    } else {
        None
    }
}

/// Calls `jiff::Timestamp::checked_add` with `jiff::SignedDuration::from_secs(secs)`
/// on the timestamp `Timestamp::from_nanosecond(nanos)`. Claimed, as jiff documents:
/// the sum is returned exactly when it lies within `Timestamp::MIN..=Timestamp::MAX`.
#[verifier::external_body]
pub(crate) fn jiff_checked_add_secs(nanos: i128, secs: i64) -> (r: Option<i128>)
    requires
        valid_timestamp(nanos as int),
    ensures
        r matches Some(x) ==> shifted_timestamp(nanos as int, secs as int) == Some(x as int),
        r is None ==> shifted_timestamp(nanos as int, secs as int) is None,
{
    match jiff::Timestamp::from_nanosecond(nanos) {
        Ok(ts) => match ts.checked_add(jiff::SignedDuration::from_secs(secs)) {
            Ok(t) => Some(t.as_nanosecond()),
            Err(_) => None,
        },
        Err(_) => None,
    }
}

/// Reads `jiff::Timestamp::MIN` as nanoseconds. Claimed: the value is
/// `TIMESTAMP_MIN_NANOS`, as the jiff-core bounds give it.
#[verifier::external_body]
pub(crate) fn jiff_timestamp_min() -> (r: i128)
    ensures
        r == TIMESTAMP_MIN_NANOS,
{
    jiff::Timestamp::MIN.as_nanosecond()
}

/// Reads the system clock, `std::time::SystemTime::now()`, as a
/// `jiff::Timestamp` through `Timestamp::try_from`, in nanoseconds. Claimed:
/// a returned instant is one a `jiff::Timestamp` can represent; `None` when
/// the clock lies outside that range. The instant itself is the clock's and
/// is left free.
#[verifier::external_body]
pub(crate) fn jiff_timestamp_now() -> (r: Option<i128>)
    ensures
        r matches Some(x) ==> valid_timestamp(x as int),
{
    match jiff::Timestamp::try_from(std::time::SystemTime::now()) {
        Ok(t) => Some(t.as_nanosecond()),
        Err(_) => None,
    }
}

} // verus!
