use vstd::prelude::*;

verus! {

/// A length of time, as whole seconds and the nanoseconds past the last whole second.
#[derive(Clone, Copy, Debug, PartialEq, Eq, Structural)]
pub struct TimeSpan {
    pub secs: u64,
    pub subsec_nanos: u32,
}

pub const NANOS_PER_SEC: u32 = 1_000_000_000;

pub const NANOS_PER_MILLI: u32 = 1_000_000;

pub const MILLIS_PER_SEC: u64 = 1_000;

impl TimeSpan {
    /// The nanosecond part stays below one second.
    pub open spec fn wf(self) -> bool {
        self.subsec_nanos < NANOS_PER_SEC
    }

    /// The whole span in nanoseconds.
    pub open spec fn nanos(self) -> int {
        self.secs * 1_000_000_000 + self.subsec_nanos
    }

    /// The whole span in milliseconds, rounded down.
    pub open spec fn millis(self) -> int {
        self.secs * 1000 + self.subsec_nanos / 1_000_000
    }
}

/// The length of `duration` in whole milliseconds.
pub fn duration_as_millis(duration: &TimeSpan) -> (r: u64)
    requires
        duration.millis() <= u64::MAX,
    ensures
        r == duration.millis(),
{
    let sub_millis: u64 = (duration.subsec_nanos / NANOS_PER_MILLI) as u64;
    duration.secs * MILLIS_PER_SEC + sub_millis
}

/// The length of `d` in whole milliseconds, wide enough for any span.
pub(crate) fn millis_wide(d: &TimeSpan) -> (r: u128)
    ensures
        r == d.millis(),
{
    d.secs as u128 * 1000 + (d.subsec_nanos / 1_000_000) as u128
}

/// Percent of `target_ms` that `elapsed_ms` has covered, rounded down and capped
/// at 100. A zero target counts as covered as soon as any time has passed.
pub open spec fn percent_of(elapsed_ms: int, target_ms: int) -> int {
    if target_ms == 0 {
        if elapsed_ms == 0 {
            0
        } else {
            100
        }
    } else if elapsed_ms * 100 / target_ms >= 100 {
        100
    } else {
        elapsed_ms * 100 / target_ms
    }
}

/// The countdown is over once strictly more than its target has passed.
pub open spec fn expired(elapsed: TimeSpan, target: TimeSpan) -> bool {
    elapsed.nanos() > target.nanos()
}

/// Progress never goes back as time passes, reads 0 before any time has passed,
/// and reads exactly 100 once the whole (non-zero) target has passed.
pub proof fn lemma_percent_monotone_and_clamped(e1: int, e2: int, target_ms: int)
    requires
        0 <= e1 <= e2,
        0 <= target_ms,
    ensures
        percent_of(e1, target_ms) <= percent_of(e2, target_ms),
        0 <= percent_of(e1, target_ms) <= 100,
        percent_of(0, target_ms) == 0,
        target_ms > 0 && e1 >= target_ms ==> percent_of(e1, target_ms) == 100,
{
    if target_ms > 0 {
        assert(e1 * 100 <= e2 * 100) by (nonlinear_arith)
            requires
                e1 <= e2,
        ;
        assert(e1 * 100 / target_ms <= e2 * 100 / target_ms) by (nonlinear_arith)
            requires
                e1 * 100 <= e2 * 100,
                target_ms > 0,
        ;
        assert(0 <= e1 * 100 / target_ms) by (nonlinear_arith)
            requires
                e1 >= 0,
                target_ms > 0,
        ;
        assert((0int * 100) / target_ms == 0);
        if e1 >= target_ms {
            assert(e1 * 100 / target_ms >= 100) by (nonlinear_arith)
                requires
                    e1 >= target_ms,
                    target_ms > 0,
            ;
        }
    }
}

/// A countdown is not yet over when exactly its target has passed, and is over
/// for anything longer.
pub proof fn lemma_expiry_boundary(elapsed: TimeSpan, target: TimeSpan)
    ensures
        !expired(target, target),
        elapsed.nanos() > target.nanos() ==> expired(elapsed, target),
        elapsed.nanos() <= target.nanos() ==> !expired(elapsed, target),
{
}

} // verus!
