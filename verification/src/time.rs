//! Fixed timestep support: turns variable frame times into a whole number of
//! fixed steps, carrying the remainder to the next frame.

use std::time::Duration;
use vstd::prelude::*;

verus! {

/// The length of a `Duration` in nanoseconds, as `Duration::as_nanos`
/// reports it.
pub uninterp spec fn nanos_of(d: Duration) -> u128;

/// Calls `Duration::as_nanos`, the whole length of `d` in nanoseconds. A
/// `Duration` holds at most `u64::MAX` seconds and 999 999 999 nanoseconds,
/// so the length never exceeds that.
#[verifier::external_body]
pub(crate) fn duration_nanos(d: Duration) -> (n: u128)
    ensures
        n == nanos_of(d),
        n <= max_duration_nanos(),
{
    d.as_nanos()
}

/// Calls `Duration::new(secs, nanos)`; with `nanos` below one second the
/// constructor carries nothing into the seconds, so the duration is `secs`
/// seconds and `nanos` nanoseconds long.
#[verifier::external_body]
pub(crate) fn duration_from_parts(secs: u64, nanos: u32) -> (d: Duration)
    requires
        nanos < 1_000_000_000,
    ensures
        nanos_of(d) == secs * 1_000_000_000 + nanos,
{
    Duration::new(secs, nanos)
}

/// Largest length a `Duration` can hold, in nanoseconds.
pub open spec fn max_duration_nanos() -> int {
    u64::MAX as int * 1_000_000_000 + 999_999_999
}

/// Ticking `before` by `d` nanoseconds ran `steps` steps and left `after`:
/// the steps are the whole steps in the accumulator plus `d`, the rest is
/// accumulated, and the overstep is that rest.
pub open spec fn tick_outcome(before: FixedTime, after: FixedTime, steps: usize, d: int) -> bool {
    &&& 0 <= d
    &&& before.accumulated_nanos() + d <= max_duration_nanos()
    &&& steps as int == (before.accumulated_nanos() + d) / (before.step_nanos() as int)
    &&& after.accumulated_nanos() as int == (before.accumulated_nanos() + d) % (before.step_nanos() as int)
    &&& after.overstep_nanos() == after.accumulated_nanos()
}

/// Fixed timestep for deterministic updates
#[derive(Clone, Debug)]
pub struct FixedTime {
    /// Fixed timestep, in nanoseconds
    timestep: u128,
    /// Accumulated time from variable frame rate, in nanoseconds
    accumulator: u128,
    /// Overstep from last frame (for interpolation), in nanoseconds
    overstep: u128,
}

impl FixedTime {
    /// The fixed step, in nanoseconds.
    pub closed spec fn step_nanos(&self) -> nat {
        self.timestep as nat
    }

    /// Time carried over, in nanoseconds.
    pub closed spec fn accumulated_nanos(&self) -> nat {
        self.accumulator as nat
    }

    /// What the last tick left over, in nanoseconds.
    pub closed spec fn overstep_nanos(&self) -> nat {
        self.overstep as nat
    }

    /// All three lengths fit a `Duration`.
    pub closed spec fn wf(&self) -> bool {
        &&& self.timestep <= max_duration_nanos()
        &&& self.accumulator <= max_duration_nanos()
        &&& self.overstep <= max_duration_nanos()
    }

    /// A fixed step of `timestep_nanos` nanoseconds, nothing accumulated.
    pub fn from_nanos(timestep_nanos: u128) -> (t: Self)
        requires
            timestep_nanos <= max_duration_nanos(),
        ensures
            t.wf(),
            t.step_nanos() == timestep_nanos,
            t.accumulated_nanos() == 0,
            t.overstep_nanos() == 0,
    {
        FixedTime { timestep: timestep_nanos, accumulator: 0, overstep: 0 }
    }

    /// Create with explicit timestep duration
    pub fn from_duration(timestep: Duration) -> (t: Self)
        ensures
            t.wf(),
            t.step_nanos() == nanos_of(timestep),
            t.accumulated_nanos() == 0,
            t.overstep_nanos() == 0,
    {
        let n = duration_nanos(timestep);
        Self::from_nanos(n)
    }

    /// Add `delta_nanos` to the accumulator and take out as many whole steps
    /// as fit; return their number and keep the remainder as the overstep.
    pub fn tick_nanos(&mut self, delta_nanos: u128) -> (steps: usize)
        requires
            old(self).wf(),
            old(self).step_nanos() > 0,
            old(self).accumulated_nanos() + delta_nanos <= max_duration_nanos(),
            (old(self).accumulated_nanos() + delta_nanos) / (old(self).step_nanos() as int) <= usize::MAX,
        ensures
            final(self).wf(),
            final(self).step_nanos() == old(self).step_nanos(),
            steps == (old(self).accumulated_nanos() + delta_nanos) / (old(self).step_nanos() as int),
            final(self).accumulated_nanos() == (old(self).accumulated_nanos() + delta_nanos) % (old(
                self,
            ).step_nanos() as int),
            final(self).overstep_nanos() == final(self).accumulated_nanos(),
    {
        let ghost total = self.accumulator + delta_nanos;
        self.accumulator = self.accumulator + delta_nanos;
        let mut steps: usize = 0;
        while self.accumulator >= self.timestep
            invariant
                self.timestep == old(self).timestep,
                self.timestep > 0,
                self.timestep <= max_duration_nanos(),
                total <= max_duration_nanos(),
                total / (self.timestep as int) <= usize::MAX,
                steps * self.timestep + self.accumulator == total,
            decreases self.accumulator,
        {
            proof {
                assert((steps + 1) * self.timestep <= total) by (nonlinear_arith)
                    requires
                        steps * self.timestep + self.accumulator == total,
                        self.accumulator >= self.timestep,
                ;
                assert(steps + 1 <= total / (self.timestep as int)) by (nonlinear_arith)
                    requires
                        (steps + 1) * self.timestep <= total,
                        self.timestep > 0,
                ;
            }
            let ghost prev_steps = steps as int;
            let ghost prev_acc = self.accumulator as int;
            self.accumulator = self.accumulator - self.timestep;
            steps = steps + 1;
            proof {
                let t = self.timestep as int;
                assert(steps * t + self.accumulator == total) by (nonlinear_arith)
                    requires
                        prev_steps * t + prev_acc == total,
                        steps == prev_steps + 1,
                        self.accumulator == prev_acc - t,
                ;
            }
        }
        proof {
            let t = self.timestep as int;
            let a = self.accumulator as int;
            assert(total / t == steps as int && total % t == a) by {
                vstd::arithmetic::div_mod::lemma_fundamental_div_mod_converse(
                    total as int,
                    t,
                    steps as int,
                    a,
                );
            }
        }
        self.overstep = self.accumulator;
        steps
    }

    /// Update accumulator and return number of fixed steps to run: for the
    /// length `d` of `delta` in nanoseconds, the steps are the whole steps in
    /// the accumulator plus `d`, and the rest is kept. Where adding `d` would
    /// pass the largest `Duration` or the steps would not fit a `usize`,
    /// nothing is run and nothing changes.
    pub fn tick(&mut self, delta: Duration) -> (steps: usize)
        requires
            old(self).wf(),
            old(self).step_nanos() > 0,
        ensures
            final(self).wf(),
            final(self).step_nanos() == old(self).step_nanos(),
            ({
                let d = nanos_of(delta) as int;
                let total = old(self).accumulated_nanos() + d;
                if total <= max_duration_nanos() && total / (old(self).step_nanos() as int) <= usize::MAX {
                    tick_outcome(*old(self), *final(self), steps, d)
                } else {
                    steps == 0 && final(self).accumulated_nanos() == old(self).accumulated_nanos()
                        && final(self).overstep_nanos() == old(self).overstep_nanos()
                }
            }),
    {
        let d = duration_nanos(delta);
        if d > 18_446_744_073_709_551_615u128 * 1_000_000_000u128 + 999_999_999u128 - self.accumulator {
            // Adding `delta` would overflow `Duration`: keep the state.
            return 0;
        }
        if (self.accumulator + d) / self.timestep > usize::MAX as u128 {
            return 0;
        }
        let ghost before = *self;
        let steps = self.tick_nanos(d);
        assert(tick_outcome(before, *self, steps, d as int));
        steps
    }

    /// Get fixed timestep duration
    pub fn timestep(&self) -> (d: Duration)
        requires
            self.wf(),
        ensures
            nanos_of(d) == self.step_nanos(),
    {
        Self::to_duration(self.timestep)
    }

    /// Get overstep (for interpolation)
    pub fn overstep(&self) -> (d: Duration)
        requires
            self.wf(),
        ensures
            nanos_of(d) == self.overstep_nanos(),
    {
        Self::to_duration(self.overstep)
    }

    fn to_duration(n: u128) -> (d: Duration)
        requires
            n <= max_duration_nanos(),
        ensures
            nanos_of(d) == n,
    {
        proof {
            assert(n / 1_000_000_000 <= u64::MAX) by (nonlinear_arith)
                requires
                    n <= u64::MAX as int * 1_000_000_000 + 999_999_999,
            ;
            assert((n / 1_000_000_000) * 1_000_000_000 + n % 1_000_000_000 == n) by (nonlinear_arith);
        }
        let secs = (n / 1_000_000_000) as u64;
        let nanos = (n % 1_000_000_000) as u32;
        duration_from_parts(secs, nanos)
    }
}

} // verus!
