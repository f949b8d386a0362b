//! The scheduler's decision state: one next-fire time per device, each
//! aligned on its own scan interval.  The surrounding loop (outside the
//! verified core, where the clock and the Modbus transport live) asks which
//! device is due next, sleeps until then, runs that device's sampling round,
//! and reports back the completion time; ticks that would have fired during
//! a long round are coalesced, never queued.

use vstd::prelude::*;

verus! {

/// Per-device periodic ticks merged into one serialized stream.
#[derive(Debug, PartialEq)]
pub struct Scheduler {
    /// Each device's scan interval, in nanoseconds; all positive.
    pub intervals_ns: Vec<u64>,
    /// Each device's next tick, in nanoseconds.
    pub next_fire_ns: Vec<u64>,
}

impl Scheduler {
    /// One next-fire time per device, every interval positive.
    pub open spec fn wf(self) -> bool {
        &&& self.next_fire_ns@.len() == self.intervals_ns@.len()
        &&& forall|i: int| 0 <= i < self.intervals_ns@.len() ==> #[trigger] self.intervals_ns@[i] > 0
    }

    /// Starts every device's cadence at `now_ns`: the first tick of each
    /// fires one interval later, not immediately.
    pub fn new(intervals_ns: Vec<u64>, now_ns: u64) -> (r: Scheduler)
        requires
            forall|i: int| 0 <= i < intervals_ns@.len() ==> #[trigger] intervals_ns@[i] > 0,
            forall|i: int|
                0 <= i < intervals_ns@.len() ==> now_ns + #[trigger] intervals_ns@[i] <= u64::MAX,
        ensures
            r.wf(),
            r.intervals_ns == intervals_ns,
            r.next_fire_ns@.len() == intervals_ns@.len(),
            forall|i: int|
                0 <= i < intervals_ns@.len() ==> #[trigger] r.next_fire_ns@[i] == now_ns
                    + intervals_ns@[i],
    {
        let mut next_fire_ns: Vec<u64> = Vec::new();
        let mut i: usize = 0;
        while i < intervals_ns.len()
            invariant
                i <= intervals_ns@.len(),
                forall|k: int| 0 <= k < intervals_ns@.len() ==> #[trigger] intervals_ns@[k] > 0,
                forall|k: int|
                    0 <= k < intervals_ns@.len() ==> now_ns + #[trigger] intervals_ns@[k]
                        <= u64::MAX,
                next_fire_ns@.len() == i,
                forall|k: int|
                    0 <= k < i ==> #[trigger] next_fire_ns@[k] == now_ns + intervals_ns@[k],
            decreases intervals_ns@.len() - i,
        {
            next_fire_ns.push(now_ns + intervals_ns[i]);
            i += 1;
        }
        Scheduler { intervals_ns, next_fire_ns }
    }

    /// The device whose tick fires soonest, earliest index winning ties, and
    /// that tick's time; nothing when no device is configured.
    pub fn next_due(&self) -> (r: Option<(usize, u64)>)
        requires
            self.wf(),
        ensures
            match r {
                Some((i, t)) => {
                    &&& i < self.next_fire_ns@.len()
                    &&& t == self.next_fire_ns@[i as int]
                    &&& forall|k: int| 0 <= k < self.next_fire_ns@.len() ==> t <= #[trigger] self.next_fire_ns@[k]
                    &&& forall|k: int| 0 <= k < i ==> t < #[trigger] self.next_fire_ns@[k]
                },
                None => self.next_fire_ns@.len() == 0,
            },
    {
        if self.next_fire_ns.len() == 0 {
            return None;
        }
        let mut best: usize = 0;
        let mut best_t: u64 = self.next_fire_ns[0];
        let mut k: usize = 1;
        while k < self.next_fire_ns.len()
            invariant
                self.wf(),
                1 <= k <= self.next_fire_ns@.len(),
                best < k,
                best_t == self.next_fire_ns@[best as int],
                forall|j: int| 0 <= j < k ==> best_t <= #[trigger] self.next_fire_ns@[j],
                forall|j: int| 0 <= j < best ==> best_t < #[trigger] self.next_fire_ns@[j],
            decreases self.next_fire_ns@.len() - k,
        {
            if self.next_fire_ns[k] < best_t {
                best = k;
                best_t = self.next_fire_ns[k];
            }
            k += 1;
        }
        Some((best, best_t))
    }

    /// Re-arms device `i` after its round finished at `now_ns`: its next
    /// tick is the first one on its own cadence that lies after `now_ns`.
    /// Ticks skipped while the round ran are coalesced into that one.
    pub fn advance(&mut self, i: usize, now_ns: u64)
        requires
            old(self).wf(),
            i < old(self).next_fire_ns@.len(),
            now_ns + old(self).intervals_ns@[i as int] <= u64::MAX,
        ensures
            final(self).wf(),
            final(self).intervals_ns == old(self).intervals_ns,
            final(self).next_fire_ns@.len() == old(self).next_fire_ns@.len(),
            forall|k: int|
                0 <= k < old(self).next_fire_ns@.len() && k != i ==> #[trigger] final(self).next_fire_ns@[k]
                    == old(self).next_fire_ns@[k],
            final(self).next_fire_ns@[i as int] > now_ns,
            old(self).next_fire_ns@[i as int] <= now_ns ==> final(self).next_fire_ns@[i as int]
                <= now_ns + old(self).intervals_ns@[i as int],
            old(self).next_fire_ns@[i as int] > now_ns ==> final(self).next_fire_ns@[i as int]
                == old(self).next_fire_ns@[i as int],
            (final(self).next_fire_ns@[i as int] - old(self).next_fire_ns@[i as int]) as int % (
            old(self).intervals_ns@[i as int] as int) == 0,
    {
        let interval = self.intervals_ns[i];
        let mut next = self.next_fire_ns[i];
        proof {
            vstd::arithmetic::div_mod::lemma_small_mod(0, interval as nat);
        }
        while next <= now_ns
            invariant
                self.wf(),
                interval == self.intervals_ns@[i as int],
                i < self.next_fire_ns@.len(),
                interval > 0,
                now_ns + interval <= u64::MAX,
                next >= self.next_fire_ns@[i as int],
                self.next_fire_ns@[i as int] <= now_ns ==> next <= now_ns + interval,
                self.next_fire_ns@[i as int] > now_ns ==> next == self.next_fire_ns@[i as int],
                (next - self.next_fire_ns@[i as int]) as int % (interval as int) == 0,
            decreases now_ns - next + interval,
        {
            proof {
                let base = self.next_fire_ns@[i as int] as int;
                vstd::arithmetic::div_mod::lemma_mod_add_multiples_vanish(
                    (next - base) as int,
                    interval as int,
                );
                assert((next + interval - base) as int % (interval as int) == 0);
            }
            next = next + interval;
        }
        self.next_fire_ns.set(i, next);
    }
}

} // verus!
