use vstd::arithmetic::div_mod::{lemma_fundamental_div_mod_converse, lemma_mod_pos_bound};
use vstd::prelude::*;

verus! {

/// Turns variable frame times into whole logical beats of a fixed period. Time is counted in
/// integer units (the caller chooses them, e.g. microseconds).
pub struct BeatScheduler {
    period: u64,
    accumulator: u64,
}

impl BeatScheduler {
    pub closed spec fn spec_period(&self) -> int {
        self.period as int
    }

    /// Time gathered since the last beat.
    pub closed spec fn spec_accumulator(&self) -> int {
        self.accumulator as int
    }

    pub open spec fn wf(&self) -> bool {
        self.spec_period() >= 1 && 0 <= self.spec_accumulator() < self.spec_period()
    }

    pub fn new(period: u64) -> (s: BeatScheduler)
        requires
            period >= 1,
        ensures
            s.wf(),
            s.spec_period() == period,
            s.spec_accumulator() == 0,
    {
        BeatScheduler { period, accumulator: 0 }
    }

    pub fn period(&self) -> (r: u64)
        ensures
            r == self.spec_period(),
    {
        self.period
    }

    /// Adds `dt` to the accumulator and drains it one period per beat; returns the number of
    /// beats.
    pub fn advance(&mut self, dt: u64) -> (ticks: u64)
        requires
            old(self).wf(),
            old(self).spec_accumulator() + dt <= u64::MAX,
        ensures
            final(self).wf(),
            final(self).spec_period() == old(self).spec_period(),
            ticks == (old(self).spec_accumulator() + dt) / old(self).spec_period(),
            final(self).spec_accumulator() == (old(self).spec_accumulator() + dt) % old(
                self,
            ).spec_period(),
    {
        let total = self.accumulator + dt;
        let p = self.period;
        let mut acc = total;
        let mut ticks: u64 = 0;
        while acc >= p
            invariant
                p >= 1,
                total == ticks * p + acc,
                0 <= acc <= total,
            decreases acc,
        {
            proof {
                assert(ticks + 1 <= total) by (nonlinear_arith)
                    requires
                        total == ticks * p + acc,
                        acc >= p,
                        p >= 1,
                ;
            }
            acc = acc - p;
            ticks = ticks + 1;
            assert(total == ticks * p + acc) by (nonlinear_arith)
                requires
                    total == (ticks - 1) * p + acc + p,
            ;
        }
        proof {
            lemma_fundamental_div_mod_converse(total as int, p as int, ticks as int, acc as int);
        }
        self.accumulator = acc;
        ticks
    }

    /// The fraction of the way to the next beat, as `(numerator, denominator)`; it lies in
    /// `[0, 1)` and serves only for interpolation.
    pub fn phase(&self) -> (r: (u64, u64))
        requires
            self.wf(),
        ensures
            r.0 == self.spec_accumulator(),
            r.1 == self.spec_period(),
            r.0 < r.1,
    {
        (self.accumulator, self.period)
    }
}

/// For a frame of exactly `k` periods, `k` beats come out and the phase is zero; for a frame
/// between `k` and `k + 1` periods, `k` beats come out and the phase is the remainder over the
/// period.
pub proof fn lemma_beats_per_frame(period: int, k: int, dt: int)
    requires
        period >= 1,
        k >= 0,
        k * period <= dt < (k + 1) * period,
    ensures
        (0 + dt) / period == k,
        (0 + dt) % period == dt - k * period,
        dt == k * period ==> (0 + dt) % period == 0,
{
    assert(0 <= dt - k * period < period) by (nonlinear_arith)
        requires
            k * period <= dt < (k + 1) * period,
    ;
    lemma_fundamental_div_mod_converse(dt, period, k, dt - k * period);
    lemma_mod_pos_bound(dt, period);
}

} // verus!
