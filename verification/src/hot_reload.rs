//! Bookkeeping for systems that can be reloaded while the program runs: which
//! systems are registered, when the next check is due, and how many reloads
//! of each system succeeded.

use crate::time::{duration_from_parts, duration_nanos, nanos_of};
use std::time::Duration;
use vstd::prelude::*;

verus! {

/// The text of each string.
pub open spec fn texts(v: Seq<String>) -> Seq<Seq<char>> {
    v.map_values(|s: String| s@)
}

/// How many of the outcomes are successes.
pub open spec fn successes(outcomes: Seq<bool>) -> nat
    decreases outcomes.len(),
{
    if outcomes.len() == 0 {
        0
    } else {
        successes(outcomes.drop_last()) + if outcomes.last() {
            1nat
        } else {
            0nat
        }
    }
}

/// One more recorded reload, staying at the largest count once reached.
pub open spec fn one_more(count: u64) -> u64 {
    if count < u64::MAX {
        (count + 1) as u64
    } else {
        count
    }
}

/// Time from `earlier` to `now` in nanoseconds, zero when `now` is earlier.
pub open spec fn elapsed_nanos(earlier: u128, now: u128) -> int {
    if now >= earlier {
        now - earlier
    } else {
        0
    }
}

/// Manager for handling reloadable systems, by name in registration order.
pub struct HotReloadManager {
    names: Vec<String>,
    reloads: Vec<u64>,
    check_interval: Duration,
    last_check: u128,
    enabled: bool,
}

impl HotReloadManager {
    /// The registered names, in registration order.
    pub closed spec fn names(&self) -> Seq<Seq<char>> {
        texts(self.names@)
    }

    /// How many reloads of each registered system succeeded.
    pub closed spec fn reload_counts(&self) -> Seq<u64> {
        self.reloads@
    }

    /// Least time between two checks.
    pub closed spec fn interval(&self) -> Duration {
        self.check_interval
    }

    /// When the last check ran, in nanoseconds since the Unix epoch.
    pub closed spec fn checked_at(&self) -> u128 {
        self.last_check
    }

    /// Whether checks and reloads do anything.
    pub closed spec fn is_on(&self) -> bool {
        self.enabled
    }

    /// One count per name, and no name twice.
    pub open spec fn wf(&self) -> bool {
        &&& self.reload_counts().len() == self.names().len()
        &&& forall|i: int, j: int|
            0 <= i < j < self.names().len() ==> #[trigger] self.names()[i] != #[trigger] self.names()[j]
    }

    /// An enabled manager with no systems that checks at most once a second,
    /// last checked at `now_nanos`.
    pub fn new(now_nanos: u128) -> (m: Self)
        ensures
            m.wf(),
            m.names() == Seq::<Seq<char>>::empty(),
            nanos_of(m.interval()) == 1_000_000_000,
            m.checked_at() == now_nanos,
            m.is_on(),
    {
        let m = HotReloadManager {
            names: Vec::new(),
            reloads: Vec::new(),
            check_interval: duration_from_parts(1, 0),
            last_check: now_nanos,
            enabled: true,
        };
        assert(m.names() =~= Seq::<Seq<char>>::empty());
        m
    }

    /// Register a system under `name`, returning its position. A system
    /// already registered under that name is replaced in its place and its
    /// reload count starts again from zero; a new name goes last.
    pub fn register_system(&mut self, name: String) -> (idx: usize)
        requires
            old(self).wf(),
            old(self).names().len() < usize::MAX,
        ensures
            final(self).wf(),
            final(self).is_on() == old(self).is_on(),
            final(self).checked_at() == old(self).checked_at(),
            final(self).interval() == old(self).interval(),
            idx < final(self).names().len(),
            final(self).names()[idx as int] == name@,
            final(self).reload_counts()[idx as int] == 0,
            old(self).names().contains(name@) ==> {
                &&& old(self).names()[idx as int] == name@
                &&& final(self).names() == old(self).names()
                &&& final(self).reload_counts() == old(self).reload_counts().update(idx as int, 0)
            },
            !old(self).names().contains(name@) ==> {
                &&& idx == old(self).names().len()
                &&& final(self).names() == old(self).names().push(name@)
                &&& final(self).reload_counts() == old(self).reload_counts().push(0)
            },
    {
        let mut i: usize = 0;
        while i < self.names.len()
            invariant
                self == old(self),
                old(self).wf(),
                self.reloads@.len() == self.names@.len(),
                i <= self.names().len(),
                self.names().len() == self.names@.len(),
                forall|k: int| 0 <= k < i ==> self.names()[k] != name@,
            decreases self.names@.len() - i,
        {
            assert(self.names()[i as int] == self.names@[i as int]@);
            if self.names[i] == name {
                self.reloads.set(i, 0);
                proof {
                    assert(self.names() == old(self).names());
                    assert(self.reload_counts() == old(self).reload_counts().update(i as int, 0));
                }
                return i;
            }
            i = i + 1;
        }
        self.names.push(name);
        self.reloads.push(0);
        proof {
            assert(self.names() =~= old(self).names().push(name@));
            assert(!old(self).names().contains(name@));
        }
        i
    }

    /// The registered names, in registration order.
    pub fn system_names(&self) -> (r: Vec<String>)
        ensures
            texts(r@) == self.names(),
    {
        let mut r: Vec<String> = Vec::new();
        let mut i: usize = 0;
        while i < self.names.len()
            invariant
                i <= self.names@.len(),
                r@.len() == i,
                texts(r@) == self.names().take(i as int),
            decreases self.names@.len() - i,
        {
            let ghost prev = r@;
            let c = self.names[i].clone();
            r.push(c);
            proof {
                assert(r@ == prev.push(c));
                assert forall|k: int| 0 <= k < i + 1 implies #[trigger] texts(r@)[k] == self.names().take(i + 1)[k] by {
                    if k < i {
                        assert(texts(prev)[k] == self.names().take(i as int)[k]);
                    }
                }
                assert(texts(r@) =~= self.names().take(i + 1));
            }
            i = i + 1;
        }
        assert(self.names().take(i as int) =~= self.names());
        r
    }

    /// Number of registered systems.
    pub fn system_count(&self) -> (n: usize)
        ensures
            n == self.names().len(),
    {
        self.names.len()
    }

    /// Successful reloads recorded for the system at `idx`.
    pub fn reload_count(&self, idx: usize) -> (r: Option<u64>)
        ensures
            r == if idx < self.reload_counts().len() {
                Some(self.reload_counts()[idx as int])
            } else {
                None
            },
    {
        if idx < self.reloads.len() {
            Some(self.reloads[idx])
        } else {
            None
        }
    }

    /// Whether checks and reloads do anything.
    pub fn enabled(&self) -> (r: bool)
        ensures
            r == self.is_on(),
    {
        self.enabled
    }

    /// Least time between two checks.
    pub fn check_interval(&self) -> (r: Duration)
        ensures
            r == self.interval(),
    {
        self.check_interval
    }

    /// When the last check ran, in nanoseconds since the Unix epoch.
    pub fn last_check(&self) -> (r: u128)
        ensures
            r == self.checked_at(),
    {
        self.last_check
    }

    pub fn set_check_interval(&mut self, interval: Duration)
        ensures
            final(self).interval() == interval,
            final(self).names() == old(self).names(),
            final(self).reload_counts() == old(self).reload_counts(),
            final(self).checked_at() == old(self).checked_at(),
            final(self).is_on() == old(self).is_on(),
    {
        self.check_interval = interval;
    }

    pub fn set_enabled(&mut self, enabled: bool)
        ensures
            final(self).is_on() == enabled,
            final(self).names() == old(self).names(),
            final(self).reload_counts() == old(self).reload_counts(),
            final(self).checked_at() == old(self).checked_at(),
            final(self).interval() == old(self).interval(),
    {
        self.enabled = enabled;
    }

    /// Periodic check at time `now_nanos`: nothing happens while disabled or
    /// while less than the check interval has passed since the last check;
    /// otherwise the check time moves to `now_nanos`. No file is watched, so
    /// no system is reloaded and the count is always zero.
    pub fn check_and_reload(&mut self, now_nanos: u128) -> (r: Result<usize, crate::error::EcsError>)
        ensures
            r == Ok::<usize, crate::error::EcsError>(0),
            final(self).names() == old(self).names(),
            final(self).reload_counts() == old(self).reload_counts(),
            final(self).interval() == old(self).interval(),
            final(self).is_on() == old(self).is_on(),
            final(self).checked_at() == if old(self).is_on() && elapsed_nanos(old(self).checked_at(), now_nanos)
                >= nanos_of(old(self).interval()) {
                now_nanos
            } else {
                old(self).checked_at()
            },
    {
        if !self.enabled {
            return Ok(0);
        }
        let elapsed: u128 = if now_nanos >= self.last_check {
            now_nanos - self.last_check
        } else {
            0
        };
        if elapsed < duration_nanos(self.check_interval) {
            return Ok(0);
        }
        self.last_check = now_nanos;
        Ok(0)
    }

    /// Record the outcome of one reload attempt per registered system, in
    /// registration order. While disabled nothing is recorded and the count
    /// is zero; otherwise each successful system's count goes up by one (a
    /// count at the largest `u64` stays there) and the number of successes
    /// is returned.
    pub fn record_reloads(&mut self, outcomes: &[bool]) -> (r: usize)
        requires
            old(self).wf(),
            outcomes@.len() == old(self).names().len(),
        ensures
            final(self).wf(),
            final(self).names() == old(self).names(),
            final(self).is_on() == old(self).is_on(),
            final(self).checked_at() == old(self).checked_at(),
            final(self).interval() == old(self).interval(),
            !old(self).is_on() ==> r == 0 && final(self).reload_counts() == old(self).reload_counts(),
            old(self).is_on() ==> {
                &&& r == successes(outcomes@)
                &&& final(self).reload_counts().len() == old(self).reload_counts().len()
                &&& forall|i: int| 0 <= i < outcomes@.len() ==> #[trigger] final(self).reload_counts()[i] == if outcomes@[i] {
                    one_more(old(self).reload_counts()[i])
                } else {
                    old(self).reload_counts()[i]
                }
            },
    {
        if !self.enabled {
            return 0;
        }
        let mut count: usize = 0;
        let mut i: usize = 0;
        while i < outcomes.len()
            invariant
                i <= outcomes@.len(),
                outcomes@.len() == old(self).names().len(),
                old(self).wf(),
                self.names() == old(self).names(),
                self.enabled == old(self).is_on(),
                self.last_check == old(self).checked_at(),
                self.check_interval == old(self).interval(),
                self.reload_counts().len() == old(self).reload_counts().len(),
                count == successes(outcomes@.take(i as int)),
                count <= i,
                forall|k: int| 0 <= k < i ==> #[trigger] self.reload_counts()[k] == if outcomes@[k] {
                    one_more(old(self).reload_counts()[k])
                } else {
                    old(self).reload_counts()[k]
                },
                forall|k: int| i <= k < outcomes@.len() ==> #[trigger] self.reload_counts()[k] == old(self).reload_counts()[k],
            decreases outcomes@.len() - i,
        {
            assert(outcomes@.take(i + 1).drop_last() =~= outcomes@.take(i as int));
            if outcomes[i] {
                let c = self.reloads[i];
                let next: u64 = if c < u64::MAX {
                    c + 1
                } else {
                    c
                };
                self.reloads.set(i, next);
                count = count + 1;
            }
            i = i + 1;
        }
        assert(outcomes@.take(i as int) =~= outcomes@);
        count
    }
}

} // verus!
