//! The streaming aggregator: a single-pass, order-invariant accumulation
//! of count, extremes, sum and sum of squares over an append-only stream
//! of lengths.
//!
//! The aggregator keeps the moments exactly, so its outputs agree with the
//! two-pass batch summarizer not merely within a tolerance but equal to it
//! outright; `lemma_streamed_matches_batch` states that agreement.

use vstd::prelude::*;
use crate::seq_stats::{
    lemma_min_max_permutation, lemma_sum_of_permutation, max_of, min_of, sum_of, sum_sq_of,
};
use crate::summary::{stats_for, Stats};

verus! {

/// Order-invariant running statistics over the lengths pushed so far.
/// The ghost `hist` records the pushed stream; every concrete field is a
/// function of it alone.
pub struct RunningStats {
    pub count: u64,
    pub min: Option<u64>,
    pub max: Option<u64>,
    pub sum: u128,
    pub sum_sq: u128,
    pub hist: Ghost<Seq<u64>>,
}

impl RunningStats {
    /// The concrete fields agree with the recorded stream.
    pub open spec fn wf(self) -> bool {
        &&& self.count == self.hist@.len()
        &&& self.sum == sum_of(self.hist@)
        &&& self.sum_sq == sum_sq_of(self.hist@)
        &&& (self.hist@.len() == 0 ==> self.min is None && self.max is None)
        &&& (self.hist@.len() > 0 ==> self.min == Some(min_of(self.hist@)) && self.max == Some(
            max_of(self.hist@),
        ))
    }

    /// A fresh aggregator that has seen nothing.
    pub fn new() -> (r: Self)
        ensures
            r.wf(),
            r.hist@ == Seq::<u64>::empty(),
    {
        RunningStats {
            count: 0,
            min: None,
            max: None,
            sum: 0,
            sum_sq: 0,
            hist: Ghost(Seq::empty()),
        }
    }

    /// Feeds one length into the stream: the count grows by one, the
    /// extremes absorb the value, and the sums take its contribution.
    pub fn push(&mut self, x: u64)
        requires
            old(self).wf(),
            old(self).hist@.len() < u64::MAX,
            sum_of(old(self).hist@) + x <= u128::MAX,
            sum_sq_of(old(self).hist@) + x * x <= u128::MAX,
        ensures
            final(self).wf(),
            final(self).hist@ == old(self).hist@.push(x),
    {
        proof {
            assert(self.hist@.push(x).drop_last() =~= self.hist@);
            assert((x as int) * (x as int) <= (u64::MAX as int) * (u64::MAX as int))
                by (nonlinear_arith)
                requires
                    0 <= x as int <= u64::MAX as int,
            ;
        }
        self.count = self.count + 1;
        self.min = match self.min {
            None => Some(x),
            Some(m) => if x < m {
                Some(x)
            } else {
                Some(m)
            },
        };
        self.max = match self.max {
            None => Some(x),
            Some(m) => if x > m {
                Some(x)
            } else {
                Some(m)
            },
        };
        self.sum = self.sum + (x as u128);
        self.sum_sq = self.sum_sq + (x as u128) * (x as u128);
        proof {
            self.hist@ = self.hist@.push(x);
        }
    }

    /// Closes the stream: packages the accumulated count, extremes and
    /// sums together with the percentiles supplied by the caller (the
    /// aggregator itself never materializes the stream, so percentiles
    /// must come from outside).
    pub fn finalize(self, p25_q4: Option<u128>, p50_q4: Option<u128>, p75_q4: Option<u128>) -> (r:
        Stats)
        requires
            self.wf(),
        ensures
            r.count == self.hist@.len(),
            r.min == self.min,
            r.max == self.max,
            r.sum == sum_of(self.hist@),
            r.sum_sq == sum_sq_of(self.hist@),
            r.p25_q4 == p25_q4,
            r.p50_q4 == p50_q4,
            r.p75_q4 == p75_q4,
    {
        Stats {
            count: self.count,
            min: self.min,
            max: self.max,
            sum: self.sum,
            sum_sq: self.sum_sq,
            p25_q4,
            p50_q4,
            p75_q4,
        }
    }
}

/// The streamed moments agree with the two-pass batch moments: an
/// aggregator that has seen the values of `data`, in any order, reports
/// exactly the count, sum, sum of squares and extremes that a batch
/// summary of `data` reports.  Mean and sample variance are determined by
/// these, so the two strategies cannot diverge.
pub proof fn lemma_streamed_matches_batch(rs: RunningStats, data: Seq<u64>, st: Stats)
    requires
        rs.wf(),
        rs.hist@.to_multiset() == data.to_multiset(),
        stats_for(st, data),
    ensures
        rs.count == st.count,
        rs.sum == st.sum,
        rs.sum_sq == st.sum_sq,
        rs.min == st.min,
        rs.max == st.max,
{
    lemma_sum_of_permutation(rs.hist@, data);
    rs.hist@.to_multiset_ensures();
    data.to_multiset_ensures();
    assert(rs.hist@.to_multiset().len() == data.to_multiset().len());
    assert(rs.hist@.len() == data.len());
    if data.len() > 0 {
        lemma_min_max_permutation(rs.hist@, data);
    }
}

} // verus!
