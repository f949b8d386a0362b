//! The failure-accounting controller: a single counter over all devices,
//! raised by one on every failed round and lowered by one (never below
//! zero) on every successful round.  When the counter reaches a threshold
//! derived from the fleet's size and interval spread, the process must exit.

use vstd::prelude::*;

verus! {

/// The counter after one observed outcome: a success lowers it by one with a
/// floor of zero, a failure raises it by one.
pub open spec fn apply_outcome(count: nat, success: bool) -> nat {
    if success {
        if count > 0 {
            (count - 1) as nat
        } else {
            0
        }
    } else {
        count + 1
    }
}

/// The counter after a run of outcomes, oldest first.
pub open spec fn run_outcomes(count: nat, outcomes: Seq<bool>) -> nat
    decreases outcomes.len(),
{
    if outcomes.len() == 0 {
        count
    } else {
        run_outcomes(apply_outcome(count, outcomes[0]), outcomes.drop_first())
    }
}

/// The interval spread of the fleet: how many of the fastest device's rounds
/// fit into one round of the slowest, rounded up.
pub open spec fn interval_ratio(min_interval_ns: nat, max_interval_ns: nat) -> nat {
    max_interval_ns / min_interval_ns + if max_interval_ns % min_interval_ns == 0 {
        0
    } else {
        1nat
    }
}

/// The exit threshold: two failed rounds of every device, scaled by the
/// interval spread so fast devices cannot drown out slow ones.
pub open spec fn spec_threshold(device_count: nat, min_interval_ns: nat, max_interval_ns: nat) -> nat {
    2 * device_count * interval_ratio(min_interval_ns, max_interval_ns)
}

/// The interval ratio is the ceiling of `max / min`: the least round count
/// that spans the slowest interval.
pub proof fn lemma_ratio_is_ceiling(min_interval_ns: nat, max_interval_ns: nat)
    requires
        0 < min_interval_ns <= max_interval_ns,
    ensures
        interval_ratio(min_interval_ns, max_interval_ns) * min_interval_ns >= max_interval_ns,
        (interval_ratio(min_interval_ns, max_interval_ns) - 1) * min_interval_ns
            < max_interval_ns,
{
    let m = min_interval_ns as int;
    let x = max_interval_ns as int;
    vstd::arithmetic::div_mod::lemma_fundamental_div_mod(x, m);
    vstd::arithmetic::div_mod::lemma_mod_pos_bound(x, m);
    let q = x / m;
    let r = x % m;
    assert(x == q * m + r) by (nonlinear_arith)
        requires
            x == m * q + r,
    ;
    if r == 0 {
        assert(q * m >= x);
        assert((q - 1) * m == q * m - m) by (nonlinear_arith);
    } else {
        assert((q + 1) * m == q * m + m) by (nonlinear_arith);
    }
}

/// The global failure counter and its fixed exit threshold.
#[derive(Debug, PartialEq)]
pub struct Controller {
    pub fail_count: u64,
    pub threshold: u64,
}

impl Controller {
    /// A fresh controller for `device_count` devices whose scan intervals
    /// span `[min_interval_ns, max_interval_ns]`.
    pub fn new(device_count: usize, min_interval_ns: u64, max_interval_ns: u64) -> (r: Controller)
        requires
            device_count >= 1,
            0 < min_interval_ns <= max_interval_ns,
            spec_threshold(
                device_count as nat,
                min_interval_ns as nat,
                max_interval_ns as nat,
            ) <= u64::MAX,
        ensures
            r.fail_count == 0,
            r.threshold == spec_threshold(
                device_count as nat,
                min_interval_ns as nat,
                max_interval_ns as nat,
            ),
    {
        let q = max_interval_ns / min_interval_ns;
        let rem = max_interval_ns % min_interval_ns;
        proof {
            vstd::arithmetic::div_mod::lemma_div_non_zero(
                max_interval_ns as int,
                min_interval_ns as int,
            );
            if rem != 0 {
                assert(min_interval_ns >= 2);
                vstd::arithmetic::div_mod::lemma_div_is_ordered_by_denominator(
                    max_interval_ns as int,
                    2,
                    min_interval_ns as int,
                );
                assert((max_interval_ns as int) / 2 < u64::MAX);
            }
        }
        let ratio: u64 = if rem == 0 {
            q
        } else {
            q + 1
        };
        proof {
            assert(ratio == interval_ratio(min_interval_ns as nat, max_interval_ns as nat));
            assert(2 * (device_count as nat) * (ratio as nat) <= u64::MAX);
            assert(2 * (device_count as int) <= u64::MAX) by (nonlinear_arith)
                requires
                    ratio >= 1,
                    device_count >= 1,
                    2 * (device_count as int) * (ratio as int) <= u64::MAX,
            ;
            assert(2 * (device_count as int) * (ratio as int) == (2 * (device_count as int)) * (
            ratio as int)) by (nonlinear_arith);
        }
        let threshold: u64 = 2 * (device_count as u64) * ratio;
        Controller { fail_count: 0, threshold }
    }

    /// Records one failed round.
    pub fn on_failure(&mut self)
        requires
            old(self).fail_count < u64::MAX,
        ensures
            final(self).fail_count == apply_outcome(old(self).fail_count as nat, false),
            final(self).fail_count == old(self).fail_count + 1,
            final(self).threshold == old(self).threshold,
    {
        self.fail_count = self.fail_count + 1;
    }

    /// Records one successful round: the counter falls by one, but never
    /// below zero.
    pub fn on_success(&mut self)
        ensures
            final(self).fail_count == apply_outcome(old(self).fail_count as nat, true),
            final(self).threshold == old(self).threshold,
    {
        if self.fail_count > 0 {
            self.fail_count = self.fail_count - 1;
        }
    }

    /// Whether the failure count has reached the threshold, so the process
    /// must exit.
    pub fn should_exit(&self) -> (r: bool)
        ensures
            r == (self.fail_count >= self.threshold),
    {
        self.fail_count >= self.threshold
    }
}

/// Controller monotonicity, failing side: a run of K consecutive failures
/// raises the counter by exactly K.
pub proof fn lemma_failure_run(count: nat, outcomes: Seq<bool>)
    requires
        forall|i: int| 0 <= i < outcomes.len() ==> !outcomes[i],
    ensures
        run_outcomes(count, outcomes) == count + outcomes.len(),
    decreases outcomes.len(),
{
    if outcomes.len() > 0 {
        lemma_failure_run(count + 1, outcomes.drop_first());
    }
}

/// Controller monotonicity, succeeding side: a run of K consecutive
/// successes lowers the counter by at most K, and never raises it.
pub proof fn lemma_success_run(count: nat, outcomes: Seq<bool>)
    requires
        forall|i: int| 0 <= i < outcomes.len() ==> outcomes[i],
    ensures
        run_outcomes(count, outcomes) <= count,
        run_outcomes(count, outcomes) + outcomes.len() >= count,
    decreases outcomes.len(),
{
    if outcomes.len() > 0 {
        lemma_success_run(apply_outcome(count, true), outcomes.drop_first());
    }
}

/// Controller termination: if every round fails, a fresh controller reaches
/// any threshold after at most that many rounds.
pub proof fn lemma_failure_termination(threshold: nat, outcomes: Seq<bool>)
    requires
        forall|i: int| 0 <= i < outcomes.len() ==> !outcomes[i],
        outcomes.len() >= threshold,
    ensures
        run_outcomes(0, outcomes) >= threshold,
{
    lemma_failure_run(0, outcomes);
}

} // verus!
