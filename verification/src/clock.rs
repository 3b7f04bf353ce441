//! The source of the current time: the system clock, or a fixed instant.

use vstd::prelude::*;

verus! {

/// A moment of the system clock, `std::time::SystemTime`.
#[verifier::external_type_specification]
#[verifier::external_body]
pub struct ExSystemTime(std::time::SystemTime);

/// A moment of the monotonic clock, `std::time::Instant`.
#[verifier::external_type_specification]
#[verifier::external_body]
pub struct ExInstant(std::time::Instant);

/// The present moment, from `std::time::SystemTime::now`. Nothing is claimed of the result: it
/// depends on when the call is made.
#[verifier::external_body]
fn system_now() -> (r: std::time::SystemTime) {
    std::time::SystemTime::now()
}

/// The time from the Unix epoch to a moment, from `std::time::SystemTime::duration_since`;
/// none where the moment lies before it. Nothing is claimed of the result: a moment of the
/// system clock is opaque.
#[verifier::external_body]
fn since_epoch(moment: &std::time::SystemTime) -> (r: Option<std::time::Duration>) {
    moment.duration_since(std::time::UNIX_EPOCH).ok()
}

/// A stretch of time in milliseconds, from `std::time::Duration::as_millis`. Nothing is
/// claimed of the result: a stretch of time is opaque.
#[verifier::external_body]
fn whole_milliseconds(stretch: &std::time::Duration) -> (r: u128) {
    stretch.as_millis()
}

/// A stretch of time in nanoseconds, from `std::time::Duration::as_nanos`. Nothing is claimed
/// of the result: a stretch of time is opaque.
#[verifier::external_body]
fn whole_nanoseconds(stretch: &std::time::Duration) -> (r: u128) {
    stretch.as_nanos()
}

/// The present moment, from `std::time::Instant::now`. Nothing is claimed of the result: it
/// depends on when the call is made.
#[verifier::external_body]
pub(crate) fn moment() -> (r: std::time::Instant) {
    std::time::Instant::now()
}

/// The time since a moment, from `std::time::Instant::elapsed`. Nothing is claimed of the
/// result: it depends on when the call is made.
#[verifier::external_body]
fn elapsed_since(begun: &std::time::Instant) -> (r: std::time::Duration) {
    begun.elapsed()
}

/// Milliseconds since the Unix epoch as the system clock has them; zero where it stands before
/// the epoch.
pub(crate) fn system_now_ms() -> (r: i64) {
    match since_epoch(&system_now()) {
        Some(stretch) => {
            let ms: u128 = whole_milliseconds(&stretch);
            #[verifier::truncate]
            (ms as i64)
        },
        None => 0,
    }
}

/// The nanoseconds since a moment.
pub(crate) fn nanoseconds_since(begun: &std::time::Instant) -> (r: u64) {
    let ns: u128 = whole_nanoseconds(&elapsed_since(begun));
    #[verifier::truncate]
    (ns as u64)
}

/// The greatest 64-bit number not above `n`, or the least where `n` is below all.
pub open spec fn clamp(n: int) -> i64 {
    if n > i64::MAX {
        i64::MAX
    } else if n < i64::MIN {
        i64::MIN
    } else {
        n as i64
    }
}

/// The sum, held to the range of 64 bits.
pub fn add_clamped(a: i64, b: i64) -> (r: i64)
    ensures
        r == clamp(a + b),
{
    match a.checked_add(b) {
        Some(s) => s,
        None => if b > 0 {
            i64::MAX
        } else {
            i64::MIN
        },
    }
}

/// The difference, held to the range of 64 bits.
pub fn sub_clamped(a: i64, b: i64) -> (r: i64)
    ensures
        r == clamp(a - b),
{
    match a.checked_sub(b) {
        Some(s) => s,
        None => if b < 0 {
            i64::MAX
        } else {
            i64::MIN
        },
    }
}

/// A thousand times the number, held to the range of 64 bits.
pub fn thousandfold_clamped(a: i64) -> (r: i64)
    ensures
        r == clamp(a * 1000),
{
    match a.checked_mul(1000) {
        Some(s) => s,
        None => if a > 0 {
            i64::MAX
        } else {
            i64::MIN
        },
    }
}

/// Milliseconds as whole seconds, rounded toward zero.
pub open spec fn whole_secs(ms: i64) -> int {
    if ms >= 0 {
        ms as int / 1000
    } else {
        -((-ms) / 1000)
    }
}

/// A clock of millisecond resolution. It follows the system clock until it is pinned;
/// the instant 0 stands for "not pinned".
#[derive(Debug, Clone, Copy, PartialEq, Eq, Structural)]
pub struct Clock {
    pub fixed_ms: i64,
}

impl Clock {
    /// The instant at which the clock is pinned.
    pub open spec fn pinned(&self) -> Option<i64> {
        if self.fixed_ms != 0 {
            Some(self.fixed_ms)
        } else {
            None
        }
    }

    /// A clock that follows the system clock until pinned.
    pub fn system() -> (r: Self)
        ensures
            r.pinned() is None,
    {
        Clock { fixed_ms: 0 }
    }

    /// A clock pinned from the start.
    pub fn fixed(ms: i64) -> (r: Self)
        ensures
            r.fixed_ms == ms,
    {
        Clock { fixed_ms: ms }
    }

    /// Pins the clock.
    pub fn set_fixed_now_ms(&mut self, ms: i64)
        ensures
            final(self).fixed_ms == ms,
    {
        self.fixed_ms = ms;
    }

    /// Pins the clock at a time in seconds.
    pub fn set_fixed_now_secs(&mut self, secs: i64)
        ensures
            final(self).fixed_ms == clamp(secs * 1000),
    {
        self.set_fixed_now_ms(thousandfold_clamped(secs));
    }

    /// Follows the system clock again.
    pub fn clear_fixed(&mut self)
        ensures
            final(self).pinned() is None,
    {
        self.fixed_ms = 0;
    }

    /// Milliseconds since the Unix epoch: the pinned instant, or the system's.
    pub fn now_ms(&self) -> (r: i64)
        ensures
            self.pinned() matches Some(ms) ==> r == ms,
    {
        if self.fixed_ms != 0 {
            self.fixed_ms
        } else {
            system_now_ms()
        }
    }

    /// Whole seconds since the Unix epoch.
    pub fn now_secs(&self) -> (r: i64)
        ensures
            self.pinned() matches Some(ms) ==> r == whole_secs(ms),
    {
        seconds_of(self.now_ms())
    }
}

/// Milliseconds as whole seconds, rounded toward zero.
pub fn seconds_of(ms: i64) -> (r: i64)
    ensures
        r == whole_secs(ms),
{
    if ms >= 0 {
        ms / 1000
    } else if ms == i64::MIN {
        -9223372036854775i64
    } else {
        0 - ((0 - ms) / 1000)
    }
}

} // verus!
