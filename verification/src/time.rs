//! Spans of time, which the library counts in nanoseconds.

use vstd::prelude::*;

verus! {

/// The nanoseconds in a second.
pub const NANOS_PER_SEC: u64 = 1_000_000_000;

/// The nanoseconds in a span.
pub uninterp spec fn nanos(d: std::time::Duration) -> u128;

/// A span of `n` seconds, in nanoseconds.
pub open spec fn seconds(n: int) -> int {
    n * NANOS_PER_SEC
}

/// The whole seconds in a span of `n` nanoseconds.
pub open spec fn whole_seconds(n: int) -> int {
    n / (NANOS_PER_SEC as int)
}

/// `Duration::from_secs` makes the span of that many seconds.
pub assume_specification[ std::time::Duration::from_secs ](n: u64) -> (d: std::time::Duration)
    ensures
        nanos(d) == seconds(n as int),
;

/// `Duration::from_nanos` makes the span of that many nanoseconds.
pub assume_specification[ std::time::Duration::from_nanos ](n: u64) -> (d: std::time::Duration)
    ensures
        nanos(d) == n,
;

/// `Duration::as_secs` gives the whole seconds in the span.
pub assume_specification[ std::time::Duration::as_secs ](d: &std::time::Duration) -> (n: u64)
    ensures
        n == whole_seconds(nanos(*d) as int),
;

/// `Duration::as_nanos` gives the nanoseconds in the span.
pub assume_specification[ std::time::Duration::as_nanos ](d: &std::time::Duration) -> (n: u128)
    ensures
        n == nanos(*d),
;

/// A second has a thousand million nanoseconds; whole seconds are counted back from them, and
/// what is less than a second does not count.
pub proof fn law_seconds(n: int, part: int)
    requires
        0 <= n,
        0 <= part < 1_000_000_000,
    ensures
        seconds(n) == n * 1_000_000_000,
        whole_seconds(seconds(n) + part) == n,
{
}

}
