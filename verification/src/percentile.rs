//! Linearly interpolated percentiles of a sorted sequence of lengths,
//! kept exact by scaling with the quantile's denominator.

use vstd::prelude::*;
use crate::seq_stats::sorted;
use vstd::arithmetic::div_mod::{
    lemma_div_is_ordered, lemma_div_by_multiple, lemma_fundamental_div_mod,
};

verus! {

/// The linearly interpolated percentile of a sorted sequence, scaled by the
/// quantile's denominator so that it stays an integer.  For the quantile
/// `qn/qd` the interpolation takes `index = (qn/qd)*(n-1)`,
/// `lo = floor(index)`, `hi = min(lo+1, n-1)`, `frac = index - lo`, and the
/// percentile is `s[lo]*(1-frac) + s[hi]*frac`; the value here is that
/// percentile multiplied by `qd`.  An empty sequence has no percentile.
pub open spec fn percentile_scaled_spec(s: Seq<u64>, qn: int, qd: int) -> Option<int>
    recommends
        1 <= qd,
        0 <= qn <= qd,
        sorted(s),
{
    if s.len() == 0 {
        None
    } else {
        let t = qn * (s.len() - 1);
        let lo = t / qd;
        let r = t % qd;
        let hi = if lo + 1 < s.len() {
            lo + 1
        } else {
            s.len() - 1
        };
        Some(s[lo] * (qd - r) + s[hi] * r)
    }
}

/// The interpolation is monotonic in its quantile argument: on one sorted
/// sequence, a smaller quantile never gives a larger percentile.
pub proof fn lemma_percentile_monotonic(s: Seq<u64>, qn1: int, qn2: int, qd: int)
    requires
        sorted(s),
        1 <= qd,
        0 <= qn1 <= qn2 <= qd,
    ensures
        match (percentile_scaled_spec(s, qn1, qd), percentile_scaled_spec(s, qn2, qd)) {
            (Some(v1), Some(v2)) => v1 <= v2,
            (None, None) => true,
            _ => false,
        },
{
    if s.len() == 0 {
        return ;
    }
    let n = s.len() as int;
    let t1 = qn1 * (n - 1);
    let t2 = qn2 * (n - 1);
    assert(0 <= t1 <= t2 && t2 <= qd * (n - 1)) by (nonlinear_arith)
        requires
            0 <= qn1 <= qn2 <= qd,
            0 <= n - 1,
            t1 == qn1 * (n - 1),
            t2 == qn2 * (n - 1),
    ;
    let lo1 = t1 / qd;
    let lo2 = t2 / qd;
    let r1 = t1 % qd;
    let r2 = t2 % qd;
    lemma_div_is_ordered(t1, t2, qd);
    lemma_div_is_ordered(t2, qd * (n - 1), qd);
    lemma_div_by_multiple(n - 1, qd);
    assert((n - 1) * qd == qd * (n - 1)) by (nonlinear_arith);
    assert(0 <= lo1 <= lo2 <= n - 1) by {
        vstd::arithmetic::div_mod::lemma_div_pos_is_pos(t1, qd);
    }
    vstd::arithmetic::div_mod::lemma_mod_bound(t1, qd);
    vstd::arithmetic::div_mod::lemma_mod_bound(t2, qd);
    lemma_fundamental_div_mod(t1, qd);
    lemma_fundamental_div_mod(t2, qd);
    let hi1 = if lo1 + 1 < n {
        lo1 + 1
    } else {
        n - 1
    };
    let hi2 = if lo2 + 1 < n {
        lo2 + 1
    } else {
        n - 1
    };
    assert(lo1 <= hi1 <= n - 1 && lo2 <= hi2 <= n - 1);
    assert(s[lo1] <= s[hi1] && s[lo2] <= s[hi2]);
    let v1 = s[lo1] * (qd - r1) + s[hi1] * r1;
    let v2 = s[lo2] * (qd - r2) + s[hi2] * r2;
    if lo1 == lo2 {
        assert(r1 <= r2) by (nonlinear_arith)
            requires
                t1 == qd * lo1 + r1,
                t2 == qd * lo2 + r2,
                lo1 == lo2,
                t1 <= t2,
        ;
        assert(v1 <= v2) by (nonlinear_arith)
            requires
                v1 == s[lo1] * (qd - r1) + s[hi1] * r1,
                v2 == s[lo1] * (qd - r2) + s[hi1] * r2,
                s[lo1] <= s[hi1],
                0 <= r1 <= r2,
                hi1 == hi2,
                lo1 == lo2,
        ;
    } else {
        assert(hi1 <= lo2);
        assert(s[hi1] <= s[lo2]);
        assert(v1 <= s[hi1] * qd) by (nonlinear_arith)
            requires
                v1 == s[lo1] * (qd - r1) + s[hi1] * r1,
                s[lo1] <= s[hi1],
                0 <= r1 < qd,
        ;
        assert(s[lo2] * qd <= v2) by (nonlinear_arith)
            requires
                v2 == s[lo2] * (qd - r2) + s[hi2] * r2,
                s[lo2] <= s[hi2],
                0 <= r2 < qd,
        ;
        assert(s[hi1] * qd <= s[lo2] * qd) by (nonlinear_arith)
            requires
                s[hi1] <= s[lo2],
                0 < qd,
        ;
    }
}

/// Computes the scaled percentile of a sorted vector: the result is the
/// interpolated percentile for the quantile `qn/qd`, multiplied by `qd`.
/// Only an empty input has no percentile.
pub fn percentile_scaled(sorted_vals: &Vec<u64>, qn: u64, qd: u64) -> (r: Option<u128>)
    requires
        1 <= qd,
        qn <= qd,
        sorted(sorted_vals@),
    ensures
        r is None <==> sorted_vals@.len() == 0,
        match r {
            None => sorted_vals@.len() == 0,
            Some(v) => Some(v as int) == percentile_scaled_spec(
                sorted_vals@,
                qn as int,
                qd as int,
            ),
        },
{
    let n = sorted_vals.len();
    if n == 0 {
        return None;
    }
    assert((qn as int) * ((n - 1) as int) <= (u64::MAX as int) * (u64::MAX as int))
        by (nonlinear_arith)
        requires
            0 <= qn as int <= u64::MAX as int,
            0 <= (n - 1) as int <= u64::MAX as int,
    ;
    let t: u128 = (qn as u128) * ((n - 1) as u128);
    let qdw: u128 = qd as u128;
    let lo_wide: u128 = t / qdw;
    let rem: u128 = t % qdw;
    proof {
        assert(t as int <= (qd as int) * ((n - 1) as int)) by (nonlinear_arith)
            requires
                t as int == (qn as int) * ((n - 1) as int),
                qn as int <= qd as int,
                0 <= (n - 1) as int,
        ;
        lemma_div_is_ordered(t as int, (qd as int) * ((n - 1) as int), qd as int);
        lemma_div_by_multiple((n - 1) as int, qd as int);
        assert(((n - 1) as int) * (qd as int) == (qd as int) * ((n - 1) as int))
            by (nonlinear_arith);
        assert(lo_wide as int <= (n - 1) as int);
        lemma_fundamental_div_mod(t as int, qd as int);
    }
    let lo: usize = lo_wide as usize;
    let hi: usize = if lo + 1 < n {
        lo + 1
    } else {
        n - 1
    };
    let lv: u128 = sorted_vals[lo] as u128;
    let hv: u128 = sorted_vals[hi] as u128;
    assert(lv as int * ((qdw - rem) as int) + hv as int * (rem as int) <= (u64::MAX as int) * (
    u64::MAX as int)) by (nonlinear_arith)
        requires
            0 <= lv as int <= u64::MAX as int,
            0 <= hv as int <= u64::MAX as int,
            0 <= rem as int,
            0 <= (qdw - rem) as int,
            (qdw - rem) as int + rem as int == qdw as int,
            qdw as int <= u64::MAX as int,
    ;
    let res: u128 = lv * (qdw - rem) + hv * rem;
    Some(res)
}

} // verus!
