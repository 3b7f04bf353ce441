//! Deterministic faults in the write-ahead log.

use crate::text::owned;
use vstd::prelude::*;

verus! {

/// The message of every injected failure.
pub const INJECTED_WAL_WRITE_ERROR: &'static str = "injected fault: WAL write failed";

/// What one log write does to the countdown: whether the write fails, and the countdown
/// after it. A negative countdown is disarmed.
pub open spec fn after_write(countdown: int) -> (bool, int) {
    if countdown < 0 {
        (false, countdown)
    } else if countdown == 1 {
        (true, -1)
    } else {
        (false, countdown - 1)
    }
}

/// Whether the write number `k`, counted from 1, is the one that fails.
pub open spec fn write_fails(countdown: int, k: nat) -> bool
    decreases k,
{
    if k == 0 {
        false
    } else if k == 1 {
        after_write(countdown).0
    } else {
        write_fails(after_write(countdown).1, (k - 1) as nat)
    }
}

/// An injector armed for the `n`th write fails that write and no other.
pub proof fn law_fires_once(n: nat, k: nat)
    requires
        n >= 1,
        k >= 1,
    ensures
        write_fails(n as int, k) <==> k == n,
    decreases k,
{
    if k > 1 {
        if n == 1 {
            law_disarmed_never_fires(-1, (k - 1) as nat);
        } else {
            law_fires_once((n - 1) as nat, (k - 1) as nat);
        }
    }
}

/// A disarmed injector never fails a write.
pub proof fn law_disarmed_never_fires(countdown: int, k: nat)
    requires
        countdown < 0,
    ensures
        !write_fails(countdown, k),
    decreases k,
{
    if k > 1 {
        law_disarmed_never_fires(countdown, (k - 1) as nat);
    }
}

/// The countdown that is set to fail the `nth` write.
pub open spec fn armed_for(nth: u64) -> int {
    if nth == 0 {
        1
    } else if nth <= i64::MAX {
        nth as int
    } else {
        i64::MAX as int
    }
}

/// A source of faults that counts down the log writes until one is to fail.
#[derive(Debug, Clone, Copy, PartialEq, Eq, Structural)]
pub struct FaultInjector {
    pub countdown: i64,
}

impl FaultInjector {
    pub fn new() -> (r: Self)
        ensures
            r.countdown == -1,
    {
        FaultInjector { countdown: -1 }
    }

    /// Makes the `nth` log write from now fail; 1 is the very next, and so is 0. Numbers past
    /// the range of a signed count stand for the largest in it.
    pub fn arm_wal_write_failure(&mut self, nth: u64)
        ensures
            final(self).countdown == armed_for(nth),
            final(self).countdown > 0,
    {
        if nth == 0 {
            self.countdown = 1;
        } else if nth <= 9223372036854775807u64 {
            self.countdown = nth as i64;
        } else {
            self.countdown = i64::MAX;
        }
    }

    /// Calls off an armed fault.
    pub fn disarm(&mut self)
        ensures
            final(self).countdown == -1,
    {
        self.countdown = -1;
    }

    /// Whether a fault is armed.
    pub fn is_armed(&self) -> (r: bool)
        ensures
            r == (self.countdown > 0),
    {
        self.countdown > 0
    }

    /// To be called before each log write: counts it, and fails it where it is the one.
    pub fn check_wal_write(&mut self) -> (r: Result<(), String>)
        ensures
            after_write(old(self).countdown as int) == (r is Err, final(self).countdown as int),
            r matches Err(e) ==> e@ == INJECTED_WAL_WRITE_ERROR@,
    {
        if self.countdown < 0 {
            Ok(())
        } else if self.countdown == 1 {
            self.countdown = -1;
            Err(owned(INJECTED_WAL_WRITE_ERROR))
        } else {
            self.countdown = self.countdown - 1;
            Ok(())
        }
    }
}

} // verus!
