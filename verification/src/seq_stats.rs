//! Mathematical model of a stream of lengths: sums, sums of squares,
//! minimum and maximum of a sequence, and the lemmas showing that these
//! quantities depend only on the multiset of values, never on their order.

use vstd::prelude::*;

verus! {

/// Sum of the values of a sequence of lengths, as a mathematical integer.
pub open spec fn sum_of(s: Seq<u64>) -> int
    decreases s.len(),
{
    if s.len() == 0 {
        0
    } else {
        sum_of(s.drop_last()) + s.last()
    }
}

/// Sum of the squared values of a sequence of lengths.
pub open spec fn sum_sq_of(s: Seq<u64>) -> int
    decreases s.len(),
{
    if s.len() == 0 {
        0
    } else {
        sum_sq_of(s.drop_last()) + s.last() * s.last()
    }
}

/// Least value of a non-empty sequence.
pub open spec fn min_of(s: Seq<u64>) -> u64
    recommends
        s.len() > 0,
    decreases s.len(),
{
    if s.len() <= 1 {
        s[0]
    } else if s.last() < min_of(s.drop_last()) {
        s.last()
    } else {
        min_of(s.drop_last())
    }
}

/// Greatest value of a non-empty sequence.
pub open spec fn max_of(s: Seq<u64>) -> u64
    recommends
        s.len() > 0,
    decreases s.len(),
{
    if s.len() <= 1 {
        s[0]
    } else if s.last() > max_of(s.drop_last()) {
        s.last()
    } else {
        max_of(s.drop_last())
    }
}

/// The sequence is ordered ascending.
pub open spec fn sorted(s: Seq<u64>) -> bool {
    forall|i: int, j: int| 0 <= i <= j < s.len() ==> s[i] <= s[j]
}

pub proof fn lemma_sum_of_nonneg(s: Seq<u64>)
    ensures
        sum_of(s) >= 0,
        sum_sq_of(s) >= 0,
    decreases s.len(),
{
    if s.len() > 0 {
        lemma_sum_of_nonneg(s.drop_last());
    }
}

/// Sums distribute over concatenation.
pub proof fn lemma_sum_of_concat(a: Seq<u64>, b: Seq<u64>)
    ensures
        sum_of(a + b) == sum_of(a) + sum_of(b),
        sum_sq_of(a + b) == sum_sq_of(a) + sum_sq_of(b),
    decreases b.len(),
{
    if b.len() == 0 {
        assert(a + b =~= a);
    } else {
        assert((a + b).drop_last() =~= a + b.drop_last());
        assert((a + b).last() == b.last());
        lemma_sum_of_concat(a, b.drop_last());
    }
}

/// Removing one element takes exactly its contribution out of both sums.
pub proof fn lemma_sum_of_remove(s: Seq<u64>, i: int)
    requires
        0 <= i < s.len(),
    ensures
        sum_of(s.remove(i)) == sum_of(s) - s[i],
        sum_sq_of(s.remove(i)) == sum_sq_of(s) - s[i] * s[i],
    decreases s.len(),
{
    if i == s.len() - 1 {
        assert(s.remove(i) =~= s.drop_last());
    } else {
        assert(s.remove(i).drop_last() =~= s.drop_last().remove(i));
        assert(s.remove(i).last() == s.last());
        lemma_sum_of_remove(s.drop_last(), i);
    }
}

/// The sums depend only on the multiset of values: any two orderings of
/// the same values have equal sums and equal sums of squares.
pub proof fn lemma_sum_of_permutation(a: Seq<u64>, b: Seq<u64>)
    requires
        a.to_multiset() == b.to_multiset(),
    ensures
        sum_of(a) == sum_of(b),
        sum_sq_of(a) == sum_sq_of(b),
    decreases a.len(),
{
    broadcast use vstd::seq_lib::group_to_multiset_ensures;

    if a.len() > 0 {
        let x = a.last();
        assert(a.to_multiset().count(x) > 0) by {
            assert(a.contains(x));
        }
        assert(b.contains(x));
        let i = choose|i: int| 0 <= i < b.len() && b[i] == x;
        lemma_sum_of_remove(b, i);
        assert(a.drop_last() =~= a.remove(a.len() - 1));
        assert(a.drop_last().to_multiset() == b.remove(i).to_multiset()) by {
            assert(a.remove(a.len() - 1).to_multiset() == a.to_multiset().remove(x));
            assert(b.remove(i).to_multiset() == b.to_multiset().remove(x));
        }
        lemma_sum_of_permutation(a.drop_last(), b.remove(i));
    } else {
        assert(b.to_multiset().len() == 0);
    }
}

/// The least value is a member of the sequence and bounds every member.
pub proof fn lemma_min_max_members(s: Seq<u64>)
    requires
        s.len() > 0,
    ensures
        s.contains(min_of(s)),
        s.contains(max_of(s)),
        forall|i: int| 0 <= i < s.len() ==> min_of(s) <= s[i],
        forall|i: int| 0 <= i < s.len() ==> s[i] <= max_of(s),
    decreases s.len(),
{
    if s.len() > 1 {
        lemma_min_max_members(s.drop_last());
        assert forall|i: int| 0 <= i < s.len() implies min_of(s) <= s[i] by {
            if i < s.len() - 1 {
                assert(s.drop_last()[i] == s[i]);
            }
        }
        assert forall|i: int| 0 <= i < s.len() implies s[i] <= max_of(s) by {
            if i < s.len() - 1 {
                assert(s.drop_last()[i] == s[i]);
            }
        }
        if min_of(s) != s.last() {
            let j = choose|j: int| 0 <= j < s.drop_last().len() && s.drop_last()[j] == min_of(s);
            assert(s[j] == min_of(s));
        }
        if max_of(s) != s.last() {
            let j = choose|j: int| 0 <= j < s.drop_last().len() && s.drop_last()[j] == max_of(s);
            assert(s[j] == max_of(s));
        }
    }
}

/// The extremes depend only on the multiset of values.
pub proof fn lemma_min_max_permutation(a: Seq<u64>, b: Seq<u64>)
    requires
        a.to_multiset() == b.to_multiset(),
        a.len() > 0,
    ensures
        b.len() > 0,
        min_of(a) == min_of(b),
        max_of(a) == max_of(b),
{
    broadcast use vstd::seq_lib::group_to_multiset_ensures;

    assert(b.to_multiset().len() > 0);
    lemma_min_max_members(a);
    lemma_min_max_members(b);
    assert(a.to_multiset().count(min_of(a)) > 0);
    assert(b.to_multiset().count(min_of(b)) > 0);
    assert(a.to_multiset().count(max_of(a)) > 0);
    assert(b.to_multiset().count(max_of(b)) > 0);
    assert(b.contains(min_of(a)));
    assert(a.contains(min_of(b)));
    assert(b.contains(max_of(a)));
    assert(a.contains(max_of(b)));
}

/// Both sums over a prefix are bounded by the sums over the whole.
pub proof fn lemma_sum_prefix_bound(s: Seq<u64>, i: int)
    requires
        0 <= i <= s.len(),
    ensures
        0 <= sum_of(s.take(i)) <= sum_of(s),
        0 <= sum_sq_of(s.take(i)) <= sum_sq_of(s),
{
    assert(s =~= s.take(i) + s.skip(i));
    lemma_sum_of_concat(s.take(i), s.skip(i));
    lemma_sum_of_nonneg(s.skip(i));
    lemma_sum_of_nonneg(s.take(i));
}

/// A multiset of lengths has exactly one sorted arrangement.
pub proof fn lemma_sorted_permutation_unique(a: Seq<u64>, b: Seq<u64>)
    requires
        sorted(a),
        sorted(b),
        a.to_multiset() == b.to_multiset(),
    ensures
        a == b,
{
    let leq = |x: u64, y: u64| x <= y;
    assert(vstd::relations::total_ordering(leq));
    assert(vstd::relations::sorted_by(a, leq));
    assert(vstd::relations::sorted_by(b, leq));
    vstd::seq_lib::lemma_sorted_unique(a, b, leq);
    assert(a =~= b);
}

/// Concatenation of a sequence of length sequences, in order.
pub open spec fn flat_of(ss: Seq<Seq<u64>>) -> Seq<u64>
    decreases ss.len(),
{
    if ss.len() == 0 {
        Seq::empty()
    } else {
        ss.first() + flat_of(ss.drop_first())
    }
}

/// The concatenation splits at any point into the concatenation of the
/// first `j` sequences followed by the concatenation of the rest.
pub proof fn lemma_flat_split(ss: Seq<Seq<u64>>, j: int)
    requires
        0 <= j <= ss.len(),
    ensures
        flat_of(ss) == flat_of(ss.take(j)) + flat_of(ss.skip(j)),
    decreases j,
{
    if j == 0 {
        assert(ss.take(0) =~= Seq::<Seq<u64>>::empty());
        assert(ss.skip(0) =~= ss);
        assert(flat_of(ss.take(0)) + flat_of(ss) =~= flat_of(ss));
    } else {
        let df = ss.drop_first();
        lemma_flat_split(df, j - 1);
        assert(ss.take(j).first() == ss.first());
        assert(ss.take(j).drop_first() =~= df.take(j - 1));
        assert(ss.skip(j) =~= df.skip(j - 1));
        assert(ss.first() + (flat_of(df.take(j - 1)) + flat_of(df.skip(j - 1))) =~= (ss.first()
            + flat_of(df.take(j - 1))) + flat_of(df.skip(j - 1)));
        assert(flat_of(ss.take(j)) =~= ss.first() + flat_of(df.take(j - 1)));
    }
}

/// In a sorted sequence the extremes stand at the two ends.
pub proof fn lemma_sorted_ends(s: Seq<u64>)
    requires
        s.len() > 0,
        sorted(s),
    ensures
        min_of(s) == s[0],
        max_of(s) == s[s.len() - 1],
{
    lemma_min_max_members(s);
    let i = choose|i: int| 0 <= i < s.len() && s[i] == min_of(s);
    assert(s[0] <= s[i]);
    let j = choose|j: int| 0 <= j < s.len() && s[j] == max_of(s);
    assert(s[j] <= s[s.len() - 1]);
}

} // verus!
