//! Rate limiter for vehicle spawning: grants at most one spawn per
//! configured interval.
//!
//! Time is an externally supplied, monotonically nondecreasing timestamp in
//! arbitrary units; the caller passes the current timestamp to `try_spawn`.

use vstd::prelude::*;

verus! {

/// Grants a spawn when no spawn has been granted yet, or when at least
/// `interval` time units have passed since the last granted spawn.
pub struct VehicleSpawnLimiter {
    interval: u64,
    last_spawned: Option<u64>,
}

/// Whether a limiter with the given interval and last-grant timestamp grants
/// a spawn at time `now`.
pub open spec fn spawn_granted(interval: u64, last_spawned: Option<u64>, now: u64) -> bool {
    match last_spawned {
        Option::None => true,
        Option::Some(t) => now - t >= interval,
    }
}

impl VehicleSpawnLimiter {
    /// The configured minimum interval between granted spawns.
    pub closed spec fn spec_interval(self) -> u64 {
        self.interval
    }

    /// The timestamp of the last granted spawn, if any.
    pub closed spec fn spec_last_spawned(self) -> Option<u64> {
        self.last_spawned
    }

    /// A timestamp is admissible when it does not precede the last grant.
    pub open spec fn now_admissible(self, now: u64) -> bool {
        match self.spec_last_spawned() {
            Option::None => true,
            Option::Some(t) => t <= now,
        }
    }

    pub fn new(interval: u64) -> (r: Self)
        ensures
            r.spec_interval() == interval,
            r.spec_last_spawned() is None,
    {
        VehicleSpawnLimiter { interval, last_spawned: Option::None }
    }

    /// Grants at most one spawn per interval: returns `true`, and records
    /// `now`, exactly when no spawn was granted yet or the last one is at
    /// least `interval` old; otherwise leaves the limiter unchanged.
    pub fn try_spawn(&mut self, now: u64) -> (granted: bool)
        requires
            old(self).now_admissible(now),
        ensures
            granted == spawn_granted(old(self).spec_interval(), old(self).spec_last_spawned(), now),
            final(self).spec_interval() == old(self).spec_interval(),
            final(self).spec_last_spawned() == if granted {
                Option::Some(now)
            } else {
                old(self).spec_last_spawned()
            },
    {
        if let Option::Some(last_spawned) = self.last_spawned {
            if now - last_spawned < self.interval {
                return false;
            }
        }
        self.last_spawned = Option::Some(now);
        true
    }
}

/// A call inside the interval after a granted spawn is refused: if a spawn
/// was granted at `t1`, any request at `t2` with `t2 - t1 < interval` is
/// denied.
pub proof fn lemma_spawn_denied_within_interval(interval: u64, t1: u64, t2: u64)
    requires
        t1 <= t2,
        t2 - t1 < interval,
    ensures
        !spawn_granted(interval, Option::Some(t1), t2),
{
}

/// Two granted spawns are at least one interval apart: if the limiter last
/// granted at `t1` and grants again at `t2 >= t1`, then `t2 - t1 >= interval`.
pub proof fn lemma_granted_spawns_spaced(interval: u64, t1: u64, t2: u64)
    requires
        t1 <= t2,
        spawn_granted(interval, Option::Some(t1), t2),
    ensures
        t2 - t1 >= interval,
{
}

} // verus!
