//! Time: nanoseconds on a clock that never goes back.
use vstd::prelude::*;

verus! {

/// A moment, in nanoseconds since the clock started.
pub type Instant = u64;

/// A span of time, in nanoseconds.
pub type Duration = u64;

pub const SECOND: Duration = 1_000_000_000;

/// The last moment that anything can happen at: a day of nanoseconds, the
/// longest that anything here is put off, fits after it.
pub const LATEST: Instant = 18_446_657_673_709_551_615;

} // verus!
