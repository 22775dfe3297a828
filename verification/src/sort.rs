//! A verified ascending sort for vectors of lengths, used to prepare the
//! input of the percentile estimator.

use vstd::prelude::*;
use crate::seq_stats::sorted;

verus! {

/// Sorts the vector ascending by insertion sort.  The result holds exactly
/// the values of the input, reordered.
pub fn sort_lengths(v: &mut Vec<u64>)
    ensures
        sorted(final(v)@),
        final(v)@.to_multiset() == old(v)@.to_multiset(),
        final(v)@.len() == old(v)@.len(),
{
    if v.len() <= 1 {
        return ;
    }
    let ghost orig = v@;
    let mut i: usize = 1;
    while i < v.len()
        invariant
            1 <= i <= v@.len(),
            v@.len() == orig.len(),
            v@.to_multiset() == orig.to_multiset(),
            sorted(v@.subrange(0, i as int)),
        decreases v@.len() - i,
    {
        let x = v[i];
        let mut j: usize = 0;
        while j < i && v[j] <= x
            invariant
                0 <= j <= i < v@.len(),
                forall|k: int| 0 <= k < j ==> v@[k] <= x,
            decreases i - j,
    {
            j += 1;
        }
        let ghost s = v@;
        let y = v.remove(i);
        v.insert(j, y);
        proof {
            assert(y == x);
            assert(s[i as int] == x);
            let t = s.remove(i as int);
            assert(v@ =~= t.insert(j as int, x));
            s.to_multiset_ensures();
            assert(s.contains(x));
            assert(s.to_multiset().count(x) > 0);
            vstd::seq_lib::to_multiset_remove(s, i as int);
            vstd::seq_lib::to_multiset_insert(t, j as int, x);
            assert(t.to_multiset() == s.to_multiset().remove(x));
            assert(t.insert(j as int, x).to_multiset() == t.to_multiset().insert(x));
            assert(v@.to_multiset() =~= s.to_multiset());
            assert(forall|k: int| 0 <= k < i ==> s.subrange(0, i as int)[k] == s[k]);
            assert(forall|p0: int, q0: int| 0 <= p0 <= q0 < i ==> s[p0] <= s[q0]);
            assert forall|p: int, q: int| 0 <= p <= q <= i implies v@[p] <= v@[q] by {
                assert(forall|k: int| 0 <= k < j ==> v@[k] == s[k]);
                assert(v@[j as int] == x);
                assert(forall|k: int| j < k <= i ==> v@[k] == s[k - 1]);
                assert(forall|k: int| 0 <= k < j ==> s[k] <= x);
                assert(j < i ==> s[j as int] > x);
            }
            assert(forall|k: int| 0 <= k < i + 1 ==> v@.subrange(0, i + 1)[k] == v@[k]);
            assert(sorted(v@.subrange(0, i + 1)));
        }
        i += 1;
    }
    proof {
        assert(v@.subrange(0, v@.len() as int) =~= v@);
    }
}

} // verus!
