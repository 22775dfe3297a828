//! The statistics record for one collection of lengths, and the two-pass
//! batch summarizer that fills it.
//!
//! Every field is exact.  `sum` and `sum_sq` determine the mean
//! (`sum / count`) and the unbiased sample variance
//! (`(count*sum_sq - sum*sum) / (count*(count-1))` for `count > 1`, `0` by
//! convention for `count == 1`); the square root of the variance and the
//! divisions are left to the caller, since they leave the integers.
//! Percentile fields hold the interpolated percentile multiplied by four.

use vstd::prelude::*;
use crate::percentile::{percentile_scaled, percentile_scaled_spec};
use crate::seq_stats::{
    lemma_min_max_permutation, lemma_sorted_ends, lemma_sorted_permutation_unique,
    lemma_sum_of_permutation, lemma_sum_prefix_bound, max_of, min_of, sorted, sum_of, sum_sq_of,
};
use crate::sort::sort_lengths;

verus! {

/// Descriptive statistics of one multiset of lengths.  When `count == 0`
/// every optional field is absent; `sum` and `sum_sq` are then `0`.
#[derive(Clone, Copy, Debug, PartialEq, Eq)]
pub struct Stats {
    pub count: u64,
    pub min: Option<u64>,
    pub max: Option<u64>,
    pub sum: u128,
    pub sum_sq: u128,
    pub p25_q4: Option<u128>,
    pub p50_q4: Option<u128>,
    pub p75_q4: Option<u128>,
}

/// An exact scaled percentile as a mathematical value.
pub open spec fn opt_scaled(o: Option<u128>) -> Option<int> {
    match o {
        None => None,
        Some(v) => Some(v as int),
    }
}

/// The record `st` holds exactly the statistics of the data sequence:
/// the count, the sum, the sum of squares, the extremes, and the three
/// quartiles of the sorted arrangement of the data, each scaled by four.
pub open spec fn stats_for(st: Stats, data: Seq<u64>) -> bool {
    &&& st.count == data.len()
    &&& st.sum == sum_of(data)
    &&& st.sum_sq == sum_sq_of(data)
    &&& (data.len() == 0 ==> {
        &&& st.min is None
        &&& st.max is None
        &&& st.p25_q4 is None
        &&& st.p50_q4 is None
        &&& st.p75_q4 is None
    })
    &&& (data.len() > 0 ==> {
        &&& st.min == Some(min_of(data))
        &&& st.max == Some(max_of(data))
        &&& forall|sd: Seq<u64>|
            sorted(sd) && #[trigger] sd.to_multiset() == data.to_multiset() ==> {
                &&& opt_scaled(st.p25_q4) == percentile_scaled_spec(sd, 1, 4)
                &&& opt_scaled(st.p50_q4) == percentile_scaled_spec(sd, 2, 4)
                &&& opt_scaled(st.p75_q4) == percentile_scaled_spec(sd, 3, 4)
            }
    })
}

/// The numerator of the exact sample variance of a record:
/// for `count > 1` the variance is `variance_num / variance_den`.
pub open spec fn variance_num(st: Stats) -> int {
    st.count * st.sum_sq - st.sum * st.sum
}

/// The denominator of the exact sample variance of a record.
pub open spec fn variance_den(st: Stats) -> int {
    st.count * (st.count - 1)
}

/// The variance numerator of any data is nonnegative, so the variance is
/// a ratio of nonnegative quantities and its square root exists.
pub proof fn lemma_variance_nonneg(s: Seq<u64>)
    ensures
        s.len() * sum_sq_of(s) - sum_of(s) * sum_of(s) >= 0,
    decreases s.len(),
{
    if s.len() > 0 {
        let sp = s.drop_last();
        lemma_variance_nonneg(sp);
        crate::seq_stats::lemma_sum_of_nonneg(sp);
        let x = s.last() as int;
        let n = sp.len() as int;
        let sm = sum_of(sp);
        let s2 = sum_sq_of(sp);
        if n == 0 {
            assert(s.len() * sum_sq_of(s) - sum_of(s) * sum_of(s) == 0) by (nonlinear_arith)
                requires
                    s.len() == 1,
                    sum_sq_of(s) == x * x,
                    sum_of(s) == x,
            ;
        } else {
            assert((n * x - sm) * (n * x - sm) >= 0) by (nonlinear_arith);
            assert(n * ((n + 1) * (s2 + x * x) - (sm + x) * (sm + x)) == (n + 1) * (n * s2 - sm
                * sm) + (n * x - sm) * (n * x - sm)) by (nonlinear_arith);
            assert((n + 1) * (s2 + x * x) - (sm + x) * (sm + x) >= 0) by (nonlinear_arith)
                requires
                    n > 0,
                    n * s2 - sm * sm >= 0,
                    (n * x - sm) * (n * x - sm) >= 0,
                    n * ((n + 1) * (s2 + x * x) - (sm + x) * (sm + x)) == (n + 1) * (n * s2 - sm
                        * sm) + (n * x - sm) * (n * x - sm),
            ;
        }
    }
}

/// A record that summarizes any data has a nonnegative variance
/// numerator and, for more than one value, a positive denominator.
pub proof fn lemma_stats_variance_nonneg(st: Stats, data: Seq<u64>)
    requires
        stats_for(st, data),
    ensures
        variance_num(st) >= 0,
        st.count > 1 ==> variance_den(st) > 0,
{
    lemma_variance_nonneg(data);
    if st.count > 1 {
        assert((st.count as int) * ((st.count as int) - 1) > 0) by (nonlinear_arith)
            requires
                st.count as int > 1,
        ;
    }
}

/// The statistics of a collection are pinned down completely: any two
/// records that summarize the same data are equal.
pub proof fn lemma_stats_for_unique(s1: Stats, s2: Stats, data: Seq<u64>)
    requires
        stats_for(s1, data),
        stats_for(s2, data),
    ensures
        s1 == s2,
{
    if data.len() > 0 {
        let leq = |x: u64, y: u64| x <= y;
        assert(vstd::relations::total_ordering(leq));
        data.lemma_sort_by_ensures(leq);
        let sd = data.sort_by(leq);
        assert(sorted(sd)) by {
            assert(forall|i: int, j: int|
                0 <= i < j < sd.len() ==> #[trigger] leq(sd[i], sd[j]));
            assert forall|i: int, j: int| 0 <= i <= j < sd.len() implies sd[i] <= sd[j] by {
                if i < j {
                    assert(leq(sd[i], sd[j]));
                }
            }
        }
        assert(sd.to_multiset() == data.to_multiset());
        assert(opt_scaled(s1.p25_q4) == opt_scaled(s2.p25_q4));
        assert(opt_scaled(s1.p50_q4) == opt_scaled(s2.p50_q4));
        assert(opt_scaled(s1.p75_q4) == opt_scaled(s2.p75_q4));
    }
}

/// The quartiles of a statistics record always stand in order:
/// `p25 <= p50 <= p75`, since the interpolation is monotonic in its
/// quantile argument.  They are present together or absent together.
pub proof fn lemma_quartiles_monotonic(st: Stats, data: Seq<u64>)
    requires
        stats_for(st, data),
    ensures
        match (st.p25_q4, st.p50_q4, st.p75_q4) {
            (Some(a), Some(b), Some(c)) => a <= b && b <= c,
            (None, None, None) => true,
            _ => false,
        },
{
    if data.len() > 0 {
        let leq = |x: u64, y: u64| x <= y;
        assert(vstd::relations::total_ordering(leq));
        data.lemma_sort_by_ensures(leq);
        let sd = data.sort_by(leq);
        assert(sorted(sd)) by {
            assert(forall|i: int, j: int|
                0 <= i < j < sd.len() ==> #[trigger] leq(sd[i], sd[j]));
            assert forall|i: int, j: int| 0 <= i <= j < sd.len() implies sd[i] <= sd[j] by {
                if i < j {
                    assert(leq(sd[i], sd[j]));
                }
            }
        }
        assert(sd.to_multiset() == data.to_multiset());
        crate::percentile::lemma_percentile_monotonic(sd, 1, 2, 4);
        crate::percentile::lemma_percentile_monotonic(sd, 2, 3, 4);
        assert(sd.len() == data.len()) by {
            sd.to_multiset_ensures();
            data.to_multiset_ensures();
        }
    }
}

/// The statistics record of an empty collection.
pub fn empty_stats() -> (r: Stats)
    ensures
        stats_for(r, Seq::<u64>::empty()),
{
    Stats {
        count: 0,
        min: None,
        max: None,
        sum: 0,
        sum_sq: 0,
        p25_q4: None,
        p50_q4: None,
        p75_q4: None,
    }
}

/// Summarizes one file's complete list of lengths with the two-pass batch
/// method: sort once, accumulate the sum and the sum of squares, and read
/// the quartiles off the sorted list.
pub fn summarize_per_file(vals: &Vec<u64>) -> (r: Stats)
    requires
        vals@.len() <= u64::MAX,
        sum_of(vals@) <= u128::MAX,
        sum_sq_of(vals@) <= u128::MAX,
    ensures
        stats_for(r, vals@),
{
    let n = vals.len();
    if n == 0 {
        let r = empty_stats();
        proof {
            assert(vals@ =~= Seq::<u64>::empty());
        }
        return r;
    }
    let mut s: Vec<u64> = Vec::new();
    let mut i: usize = 0;
    while i < n
        invariant
            0 <= i <= n == vals@.len(),
            s@ == vals@.take(i as int),
        decreases n - i,
    {
        let x = vals[i];
        s.push(x);
        proof {
            assert(vals@.take(i + 1) =~= vals@.take(i as int).push(x));
        }
        i += 1;
    }
    proof {
        assert(s@ =~= vals@);
    }
    sort_lengths(&mut s);
    proof {
        lemma_sum_of_permutation(s@, vals@);
        lemma_min_max_permutation(s@, vals@);
        lemma_sorted_ends(s@);
    }
    // First pass: the sum.
    let mut sum: u128 = 0;
    i = 0;
    while i < n
        invariant
            0 <= i <= n == s@.len(),
            sorted(s@),
            sum_of(s@) <= u128::MAX,
            sum == sum_of(s@.take(i as int)),
        decreases n - i,
    {
        proof {
            assert(s@.take(i + 1).drop_last() =~= s@.take(i as int));
            assert(s@.take(i + 1).last() == s@[i as int]);
            lemma_sum_prefix_bound(s@, i + 1);
        }
        sum = sum + (s[i] as u128);
        i += 1;
    }
    // Second pass: the sum of squares.
    let mut sum_sq: u128 = 0;
    i = 0;
    while i < n
        invariant
            0 <= i <= n == s@.len(),
            sorted(s@),
            sum_sq_of(s@) <= u128::MAX,
            sum_sq == sum_sq_of(s@.take(i as int)),
        decreases n - i,
    {
        proof {
            assert(s@.take(i + 1).drop_last() =~= s@.take(i as int));
            assert(s@.take(i + 1).last() == s@[i as int]);
            lemma_sum_prefix_bound(s@, i + 1);
            assert((s@[i as int] as int) * (s@[i as int] as int) <= (u64::MAX as int) * (
            u64::MAX as int)) by (nonlinear_arith)
                requires
                    0 <= s@[i as int] as int <= u64::MAX as int,
            ;
        }
        let x = s[i];
        sum_sq = sum_sq + (x as u128) * (x as u128);
        i += 1;
    }
    proof {
        assert(s@.take(n as int) =~= s@);
    }
    let p25 = percentile_scaled(&s, 1, crate::PERCENTILE_SCALE);
    let p50 = percentile_scaled(&s, 2, crate::PERCENTILE_SCALE);
    let p75 = percentile_scaled(&s, 3, crate::PERCENTILE_SCALE);
    let r = Stats {
        count: n as u64,
        min: Some(s[0]),
        max: Some(s[n - 1]),
        sum,
        sum_sq,
        p25_q4: p25,
        p50_q4: p50,
        p75_q4: p75,
    };
    proof {
        assert forall|sd: Seq<u64>|
            sorted(sd) && #[trigger] sd.to_multiset() == vals@.to_multiset() implies {
            &&& opt_scaled(r.p25_q4) == percentile_scaled_spec(sd, 1, 4)
            &&& opt_scaled(r.p50_q4) == percentile_scaled_spec(sd, 2, 4)
            &&& opt_scaled(r.p75_q4) == percentile_scaled_spec(sd, 3, 4)
        } by {
            lemma_sorted_permutation_unique(sd, s@);
        }
    }
    r
}

} // verus!
