//! The final report: overall statistics over every length of every file,
//! and a per-file breakdown keyed by base file name, kept in ascending
//! lexicographic byte order.

use vstd::prelude::*;
use crate::percentile::percentile_scaled;
use crate::running::RunningStats;
use crate::seq_stats::{
    flat_of, lemma_flat_split, lemma_sum_of_concat, lemma_sum_of_nonneg, lemma_sum_prefix_bound,
    sum_of, sum_sq_of,
};
use crate::sort::sort_lengths;
use crate::summary::{stats_for, summarize_per_file, Stats};

verus! {

/// Strict lexicographic order on byte strings.
pub open spec fn lex_lt(a: Seq<u8>, b: Seq<u8>) -> bool
    decreases a.len(),
{
    if b.len() == 0 {
        false
    } else if a.len() == 0 {
        true
    } else if a[0] < b[0] {
        true
    } else if a[0] > b[0] {
        false
    } else {
        lex_lt(a.drop_first(), b.drop_first())
    }
}

/// No byte string precedes itself.
pub proof fn lemma_lex_irrefl(a: Seq<u8>)
    ensures
        !lex_lt(a, a),
    decreases a.len(),
{
    if a.len() > 0 {
        lemma_lex_irrefl(a.drop_first());
    }
}

/// Exactly one of `a < b`, `a == b`, `b < a` holds.
pub proof fn lemma_lex_trichotomy(a: Seq<u8>, b: Seq<u8>)
    ensures
        lex_lt(a, b) || a == b || lex_lt(b, a),
        lex_lt(a, b) ==> a != b && !lex_lt(b, a),
        decreases a.len(),
{
    lemma_lex_irrefl(a);
    lemma_lex_irrefl(b);
    if a.len() > 0 && b.len() > 0 && a[0] == b[0] {
        lemma_lex_trichotomy(a.drop_first(), b.drop_first());
        if a.drop_first() == b.drop_first() && a[0] == b[0] {
            assert(forall|k: int| 1 <= k < a.len() ==> a[k] == a.drop_first()[k - 1]);
            assert(forall|k: int| 1 <= k < b.len() ==> b[k] == b.drop_first()[k - 1]);
            assert(a =~= b);
        }
    }
}

/// Lexicographic order is transitive.
pub proof fn lemma_lex_trans(a: Seq<u8>, b: Seq<u8>, c: Seq<u8>)
    requires
        lex_lt(a, b),
        lex_lt(b, c),
    ensures
        lex_lt(a, c),
    decreases a.len(),
{
    if a.len() > 0 && b.len() > 0 && c.len() > 0 && a[0] == b[0] && b[0] == c[0] {
        lemma_lex_trans(a.drop_first(), b.drop_first(), c.drop_first());
    }
}

/// If two byte strings agree below `i` and the first either ends at `i` or
/// holds the smaller byte there, it precedes the other.
pub proof fn lemma_lex_from_prefix(a: Seq<u8>, b: Seq<u8>, i: int)
    requires
        0 <= i <= a.len(),
        i <= b.len(),
        forall|k: int| 0 <= k < i ==> a[k] == b[k],
        (i == a.len() && i < b.len()) || (i < a.len() && i < b.len() && a[i] < b[i]),
    ensures
        lex_lt(a, b),
    decreases i,
{
    if i > 0 {
        lemma_lex_from_prefix(a.drop_first(), b.drop_first(), i - 1);
    }
}

/// Compares two byte strings in lexicographic order, returning a negative,
/// zero or positive code as the first sorts before, equal to or after the
/// second.
pub fn lex_cmp(a: &Vec<u8>, b: &Vec<u8>) -> (r: i8)
    ensures
        r == 0 <==> a@ == b@,
        r < 0 <==> lex_lt(a@, b@),
        r > 0 <==> lex_lt(b@, a@),
{
    proof {
        lemma_lex_trichotomy(a@, b@);
        lemma_lex_trichotomy(b@, a@);
    }
    let mut i: usize = 0;
    while i < a.len() && i < b.len()
        invariant
            0 <= i <= a@.len(),
            i <= b@.len(),
            forall|k: int| 0 <= k < i ==> a@[k] == b@[k],
        decreases a@.len() - i,
    {
        if a[i] < b[i] {
            proof {
                lemma_lex_from_prefix(a@, b@, i as int);
                lemma_lex_trichotomy(a@, b@);
            }
            return -1;
        }
        if a[i] > b[i] {
            proof {
                lemma_lex_from_prefix(b@, a@, i as int);
                lemma_lex_trichotomy(a@, b@);
            }
            return 1;
        }
        i += 1;
    }
    if a.len() == b.len() {
        proof {
            assert(a@ =~= b@);
            lemma_lex_irrefl(a@);
        }
        0
    } else if a.len() < b.len() {
        proof {
            lemma_lex_from_prefix(a@, b@, a@.len() as int);
            lemma_lex_trichotomy(a@, b@);
        }
        -1
    } else {
        proof {
            lemma_lex_from_prefix(b@, a@, b@.len() as int);
            lemma_lex_trichotomy(a@, b@);
        }
        1
    }
}

/// The per-file entries stand in strictly ascending key order, so every
/// key occurs once.
pub open spec fn files_wf(fs: Seq<(Vec<u8>, Stats)>) -> bool {
    forall|i: int, j: int|
        0 <= i < j < fs.len() ==> lex_lt(#[trigger] fs[i].0@, #[trigger] fs[j].0@)
}

/// Some entry carries this key.
pub open spec fn has_key(fs: Seq<(Vec<u8>, Stats)>, k: Seq<u8>) -> bool {
    exists|i: int| 0 <= i < fs.len() && (#[trigger] fs[i].0@) == k
}

/// The position of the entry with this key.
pub open spec fn key_index(fs: Seq<(Vec<u8>, Stats)>, k: Seq<u8>) -> int {
    choose|i: int| 0 <= i < fs.len() && (#[trigger] fs[i].0@) == k
}

/// The statistics stored under this key.
pub open spec fn stats_of(fs: Seq<(Vec<u8>, Stats)>, k: Seq<u8>) -> Stats {
    fs[key_index(fs, k)].1
}

/// In a well-formed entry list, the entry at any position holding key `k`
/// is the entry `stats_of` reads.
pub proof fn lemma_stats_of_at(fs: Seq<(Vec<u8>, Stats)>, k: Seq<u8>, i: int)
    requires
        files_wf(fs),
        0 <= i < fs.len(),
        fs[i].0@ == k,
    ensures
        has_key(fs, k),
        stats_of(fs, k) == fs[i].1,
        key_index(fs, k) == i,
{
    assert(has_key(fs, k));
    let j = key_index(fs, k);
    if i != j {
        lemma_lex_irrefl(k);
        assert(false);
    }
}

/// Stores statistics under a base file name.  A fresh key enters at its
/// ordered position; a key already present has its statistics silently
/// overwritten, every other entry standing unchanged.
pub fn insert_file(files: &mut Vec<(Vec<u8>, Stats)>, name: Vec<u8>, st: Stats)
    requires
        files_wf(old(files)@),
    ensures
        files_wf(final(files)@),
        has_key(final(files)@, name@),
        stats_of(final(files)@, name@) == st,
        forall|k: Seq<u8>|
            k != name@ ==> (has_key(final(files)@, k) <==> has_key(old(files)@, k)),
        forall|k: Seq<u8>|
            k != name@ && has_key(old(files)@, k) ==> stats_of(final(files)@, k) == stats_of(
                old(files)@,
                k,
            ),
{
    let ghost pre = files@;
    let mut i: usize = 0;
    while i < files.len()
        invariant
            0 <= i <= pre.len(),
            pre == old(files)@,
            files@ == pre,
            files_wf(pre),
            forall|j: int| 0 <= j < i ==> lex_lt(#[trigger] pre[j].0@, name@),
        decreases pre.len() - i,
    {
        let c = lex_cmp(&files[i].0, &name);
        if c == 0 {
            let _ = files.remove(i);
            files.insert(i, (name, st));
            proof {
                assert(files@ =~= pre.update(i as int, (files@[i as int].0, st)));
                assert(files@[i as int].0@ == pre[i as int].0@);
                assert forall|p: int, q: int|
                    0 <= p < q < files@.len() implies lex_lt(
                    #[trigger] files@[p].0@,
                    #[trigger] files@[q].0@,
                ) by {
                    assert(pre[p].0@ == files@[p].0@ || p == i);
                    assert(pre[q].0@ == files@[q].0@ || q == i);
                }
                lemma_stats_of_at(files@, name@, i as int);
                assert forall|k: Seq<u8>|
                    k != name@ implies (has_key(files@, k) <==> has_key(pre, k)) by {
                    if has_key(files@, k) {
                        let w = choose|w: int|
                            0 <= w < files@.len() && (#[trigger] files@[w].0@) == k;
                        assert(pre[w].0@ == k);
                    }
                    if has_key(pre, k) {
                        let w = choose|w: int| 0 <= w < pre.len() && (#[trigger] pre[w].0@) == k;
                        assert(files@[w].0@ == k);
                    }
                }
                assert forall|k: Seq<u8>|
                    k != name@ && has_key(pre, k) implies stats_of(files@, k) == stats_of(
                    pre,
                    k,
                ) by {
                    let w = choose|w: int| 0 <= w < pre.len() && (#[trigger] pre[w].0@) == k;
                    assert(files@[w].0@ == k && files@[w].1 == pre[w].1);
                    lemma_stats_of_at(files@, k, w);
                    lemma_stats_of_at(pre, k, w);
                }
            }
            return ;
        }
        if c > 0 {
            proof {
                assert(lex_lt(name@, pre[i as int].0@));
            }
            files.insert(i, (name, st));
            proof {
                insert_position_ensures(pre, files@, name@, st, i as int);
            }
            return ;
        }
        i += 1;
    }
    files.push((name, st));
    proof {
        assert(files@ =~= pre.insert(pre.len() as int, (files@[pre.len() as int].0, st)));
        insert_position_ensures(pre, files@, name@, st, pre.len() as int);
    }
}

/// After inserting a fresh key at position `i`, where everything before
/// `i` precedes the key and everything from `i` on follows it, the list is
/// well formed again and models the map with that one binding added.
proof fn insert_position_ensures(
    pre: Seq<(Vec<u8>, Stats)>,
    post: Seq<(Vec<u8>, Stats)>,
    name: Seq<u8>,
    st: Stats,
    i: int,
)
    requires
        files_wf(pre),
        0 <= i <= pre.len(),
        post.len() == pre.len() + 1,
        forall|j: int| 0 <= j < i ==> #[trigger] post[j] == pre[j],
        forall|j: int| i < j < post.len() ==> #[trigger] post[j] == pre[j - 1],
        post[i].0@ == name,
        post[i].1 == st,
        forall|j: int| 0 <= j < i ==> lex_lt(#[trigger] pre[j].0@, name),
        i < pre.len() ==> lex_lt(name, pre[i].0@),
    ensures
        files_wf(post),
        has_key(post, name),
        stats_of(post, name) == st,
        forall|k: Seq<u8>| k != name ==> (has_key(post, k) <==> has_key(pre, k)),
        forall|k: Seq<u8>|
            k != name && has_key(pre, k) ==> stats_of(post, k) == stats_of(pre, k),
{
    assert forall|p: int, q: int|
        0 <= p < q < post.len() implies lex_lt(#[trigger] post[p].0@, #[trigger] post[q].0@) by {
        if q > i {
            assert(post[q].0@ == pre[q - 1].0@);
            if q - 1 > i {
                assert(lex_lt(pre[i].0@, pre[q - 1].0@));
                lemma_lex_trans(name, pre[i].0@, pre[q - 1].0@);
            }
            assert(lex_lt(name, post[q].0@));
        }
        if p < i && q >= i {
            assert(lex_lt(post[p].0@, name));
            if q > i {
                lemma_lex_trans(post[p].0@, name, post[q].0@);
            }
        }
    }
    assert(has_key(post, name));
    lemma_stats_of_at(post, name, i);
    assert forall|k: Seq<u8>| k != name implies (has_key(post, k) <==> has_key(pre, k)) by {
        if has_key(post, k) {
            let w = choose|w: int| 0 <= w < post.len() && (#[trigger] post[w].0@) == k;
            if w < i {
                assert(pre[w].0@ == k);
            } else {
                assert(w != i);
                assert(pre[w - 1].0@ == k);
            }
        }
        if has_key(pre, k) {
            let w = choose|w: int| 0 <= w < pre.len() && (#[trigger] pre[w].0@) == k;
            if w < i {
                assert(post[w].0@ == k);
            } else {
                assert(post[w + 1].0@ == k);
            }
        }
    }
    assert forall|k: Seq<u8>|
        k != name && has_key(pre, k) implies stats_of(post, k) == stats_of(pre, k) by {
        let w = choose|w: int| 0 <= w < pre.len() && (#[trigger] pre[w].0@) == k;
        lemma_stats_of_at(pre, k, w);
        if w < i {
            lemma_stats_of_at(post, k, w);
        } else {
            lemma_stats_of_at(post, k, w + 1);
        }
    }
}

/// The final result: statistics over every length of every file, and the
/// per-file breakdown in ascending lexicographic key order.
pub struct Report {
    pub overall: Stats,
    pub files: Vec<(Vec<u8>, Stats)>,
}

/// Every length of every file, concatenated in input order.
pub open spec fn all_lengths(inputs: Seq<(Vec<u8>, Vec<u64>)>) -> Seq<u64> {
    flat_of(inputs.map_values(|p: (Vec<u8>, Vec<u64>)| p.1@))
}

/// Some input carries this base name.
pub open spec fn some_name(inputs: Seq<(Vec<u8>, Vec<u64>)>, k: Seq<u8>) -> bool {
    exists|i: int| 0 <= i < inputs.len() && (#[trigger] inputs[i].0@) == k
}

/// The lengths of the last input with this base name: when two inputs
/// share a name, the later one silently overwrites the earlier entry.
pub open spec fn last_lens_for(inputs: Seq<(Vec<u8>, Vec<u64>)>, k: Seq<u8>) -> Seq<u64>
    recommends
        some_name(inputs, k),
    decreases inputs.len(),
{
    if inputs.len() == 0 {
        Seq::empty()
    } else if inputs.last().0@ == k {
        inputs.last().1@
    } else {
        last_lens_for(inputs.drop_last(), k)
    }
}

/// The report summarizes the inputs: `overall` holds the statistics of
/// the concatenation of every file's lengths — never a combination of
/// per-file statistics — and `files` holds, under exactly the set of
/// input base names in strictly ascending order, the statistics of the
/// last input with each name.
pub open spec fn report_for(r: Report, inputs: Seq<(Vec<u8>, Vec<u64>)>) -> bool {
    &&& stats_for(r.overall, all_lengths(inputs))
    &&& files_wf(r.files@)
    &&& forall|k: Seq<u8>| #![trigger has_key(r.files@, k)] #![trigger some_name(inputs, k)]
        has_key(r.files@, k) <==> some_name(inputs, k)
    &&& forall|k: Seq<u8>|
        #[trigger] some_name(inputs, k) ==> stats_for(stats_of(r.files@, k), last_lens_for(inputs, k))
}

/// The concatenated lengths split around any one input.
pub proof fn lemma_all_lengths_split(inputs: Seq<(Vec<u8>, Vec<u64>)>, j: int)
    requires
        0 <= j < inputs.len(),
    ensures
        all_lengths(inputs) == all_lengths(inputs.take(j)) + inputs[j].1@ + all_lengths(
            inputs.skip(j + 1),
        ),
        all_lengths(inputs.take(j + 1)) == all_lengths(inputs.take(j)) + inputs[j].1@,
{
    let f = |p: (Vec<u8>, Vec<u64>)| p.1@;
    let m = inputs.map_values(f);
    lemma_flat_split(m, j);
    assert(m.skip(j).first() == inputs[j].1@);
    assert(m.skip(j).drop_first() =~= m.skip(j + 1));
    assert(flat_of(m.skip(j)) == inputs[j].1@ + flat_of(m.skip(j + 1)));
    assert(m.take(j) =~= inputs.take(j).map_values(f));
    assert(m.skip(j + 1) =~= inputs.skip(j + 1).map_values(f));
    assert(flat_of(m) == flat_of(m.take(j)) + (inputs[j].1@ + flat_of(m.skip(j + 1))));
    assert(flat_of(m.take(j)) + (inputs[j].1@ + flat_of(m.skip(j + 1))) =~= flat_of(m.take(j))
        + inputs[j].1@ + flat_of(m.skip(j + 1)));
    let mp = inputs.take(j + 1).map_values(f);
    lemma_flat_split(mp, j);
    assert(mp.take(j) =~= inputs.take(j).map_values(f));
    assert(mp.skip(j).first() == inputs[j].1@);
    assert(mp.skip(j).drop_first() =~= mp.skip(j + 1));
    assert(mp.skip(j + 1) =~= Seq::<Seq<u64>>::empty());
    assert(inputs[j].1@ + flat_of(mp.skip(j + 1)) =~= inputs[j].1@);
}

/// A fresh owned copy of a byte string.
fn copy_bytes(src: &Vec<u8>) -> (r: Vec<u8>)
    ensures
        r@ == src@,
{
    let mut r: Vec<u8> = Vec::new();
    let mut i: usize = 0;
    while i < src.len()
        invariant
            0 <= i <= src@.len(),
            r@ == src@.take(i as int),
        decreases src@.len() - i,
    {
        let b = src[i];
        r.push(b);
        proof {
            assert(src@.take(i + 1) =~= src@.take(i as int).push(b));
        }
        i += 1;
    }
    proof {
        assert(src@.take(src@.len() as int) =~= src@);
    }
    r
}

/// Drives the full pass: summarizes each file in input order, feeds every
/// length into one shared streaming aggregator and one shared buffer,
/// computes the overall quartiles once from the sorted buffer, and
/// assembles the report.
pub fn build_report(inputs: &Vec<(Vec<u8>, Vec<u64>)>) -> (r: Report)
    requires
        all_lengths(inputs@).len() <= u64::MAX,
        sum_of(all_lengths(inputs@)) <= u128::MAX,
        sum_sq_of(all_lengths(inputs@)) <= u128::MAX,
    ensures
        report_for(r, inputs@),
{
    let ghost all = all_lengths(inputs@);
    let mut files: Vec<(Vec<u8>, Stats)> = Vec::new();
    let mut buffer: Vec<u64> = Vec::new();
    let mut agg = RunningStats::new();
    let n = inputs.len();
    let mut j: usize = 0;
    proof {
        assert(inputs@.take(0) =~= Seq::<(Vec<u8>, Vec<u64>)>::empty());
        assert(all_lengths(inputs@.take(0)) =~= Seq::<u64>::empty());
    }
    while j < n
        invariant
            0 <= j <= n == inputs@.len(),
            all == all_lengths(inputs@),
            all.len() <= u64::MAX,
            sum_of(all) <= u128::MAX,
            sum_sq_of(all) <= u128::MAX,
            agg.wf(),
            agg.hist@ == all_lengths(inputs@.take(j as int)),
            buffer@ == agg.hist@,
            files_wf(files@),
            forall|k: Seq<u8>| #![trigger has_key(files@, k)] #![trigger some_name(inputs@.take(j as int), k)]
                has_key(files@, k) <==> some_name(inputs@.take(j as int), k),
            forall|k: Seq<u8>|
                #[trigger] some_name(inputs@.take(j as int), k) ==> stats_for(
                    stats_of(files@, k),
                    last_lens_for(inputs@.take(j as int), k),
                ),
        decreases n - j,
    {
        let pair = &inputs[j];
        let file = &pair.1;
        let ghost prefix = all_lengths(inputs@.take(j as int));
        let ghost rest = all_lengths(inputs@.skip(j + 1));
        proof {
            lemma_all_lengths_split(inputs@, j as int);
            lemma_sum_of_concat(prefix + file@, rest);
            lemma_sum_of_concat(prefix, file@);
            lemma_sum_of_nonneg(rest);
            lemma_sum_of_nonneg(prefix);
            lemma_sum_of_nonneg(file@);
        }
        let st = summarize_per_file(file);
        let name = copy_bytes(&pair.0);
        let ghost pre_files = files@;
        insert_file(&mut files, name, st);
        let mut l: usize = 0;
        proof {
            assert(prefix + file@.take(0) =~= prefix);
        }
        while l < file.len()
            invariant
                0 <= l <= file@.len(),
                file@ == inputs@[j as int].1@,
                0 <= j < inputs@.len(),
                prefix == all_lengths(inputs@.take(j as int)),
                agg.wf(),
                agg.hist@ == prefix + file@.take(l as int),
                buffer@ == agg.hist@,
                sum_of(prefix) + sum_of(file@) <= u128::MAX,
                sum_sq_of(prefix) + sum_sq_of(file@) <= u128::MAX,
                prefix.len() + file@.len() <= u64::MAX,
                sum_of(prefix) >= 0,
                sum_sq_of(prefix) >= 0,
            decreases file@.len() - l,
        {
            let x = file[l];
            proof {
                assert(file@.take(l + 1).drop_last() =~= file@.take(l as int));
                assert(file@.take(l + 1).last() == x);
                lemma_sum_prefix_bound(file@, l + 1);
                lemma_sum_of_concat(prefix, file@.take(l as int));
                lemma_sum_of_concat(prefix, file@.take(l + 1));
                assert((prefix + file@.take(l as int)).push(x) =~= prefix + file@.take(l + 1));
            }
            agg.push(x);
            buffer.push(x);
            l += 1;
        }
        proof {
            assert(file@.take(file@.len() as int) =~= file@);
            assert(agg.hist@ == all_lengths(inputs@.take(j + 1)));
            let t1 = inputs@.take(j + 1);
            assert(t1.drop_last() =~= inputs@.take(j as int));
            assert(t1.last() == inputs@[j as int]);
            assert(t1[j as int].0@ == inputs@[j as int].0@);
            assert forall|k: Seq<u8>| has_key(files@, k) <==> #[trigger] some_name(t1, k) by {
                if has_key(files@, k) {
                    if k == inputs@[j as int].0@ {
                        assert(some_name(t1, k));
                    } else {
                        assert(has_key(pre_files, k));
                        let w = choose|w: int|
                            0 <= w < inputs@.take(j as int).len() && (#[trigger] inputs@.take(
                                j as int,
                            )[w].0@) == k;
                        assert(t1[w].0@ == k);
                        assert(some_name(t1, k));
                    }
                }
                if some_name(t1, k) {
                    let w = choose|w: int| 0 <= w < t1.len() && (#[trigger] t1[w].0@) == k;
                    if w == j {
                        assert(has_key(files@, k));
                    } else {
                        assert(inputs@.take(j as int)[w].0@ == k);
                        assert(some_name(inputs@.take(j as int), k));
                        assert(has_key(pre_files, k));
                        assert(has_key(files@, k));
                    }
                }
            }
            assert forall|k: Seq<u8>| #[trigger] some_name(t1, k) implies stats_for(
                stats_of(files@, k),
                last_lens_for(t1, k),
            ) by {
                if k == inputs@[j as int].0@ {
                    assert(last_lens_for(t1, k) == inputs@[j as int].1@);
                    assert(stats_of(files@, k) == st);
                } else {
                    assert(last_lens_for(t1, k) == last_lens_for(inputs@.take(j as int), k));
                    let w = choose|w: int| 0 <= w < t1.len() && (#[trigger] t1[w].0@) == k;
                    assert(w != j);
                    assert(inputs@.take(j as int)[w].0@ == k);
                    assert(some_name(inputs@.take(j as int), k));
                    assert(has_key(pre_files, k));
                    assert(stats_of(files@, k) == stats_of(pre_files, k));
                }
            }
        }
        j += 1;
    }
    proof {
        assert(inputs@.take(n as int) =~= inputs@);
    }
    sort_lengths(&mut buffer);
    let p25 = percentile_scaled(&buffer, 1, crate::PERCENTILE_SCALE);
    let p50 = percentile_scaled(&buffer, 2, crate::PERCENTILE_SCALE);
    let p75 = percentile_scaled(&buffer, 3, crate::PERCENTILE_SCALE);
    let ghost hist = agg.hist@;
    let overall = agg.finalize(p25, p50, p75);
    let r = Report { overall, files };
    proof {
        assert(hist == all);
        if all.len() > 0 {
            assert forall|sd: Seq<u64>|
                crate::seq_stats::sorted(sd) && #[trigger] sd.to_multiset() == all.to_multiset()
                implies {
                &&& crate::summary::opt_scaled(r.overall.p25_q4)
                    == crate::percentile::percentile_scaled_spec(sd, 1, 4)
                &&& crate::summary::opt_scaled(r.overall.p50_q4)
                    == crate::percentile::percentile_scaled_spec(sd, 2, 4)
                &&& crate::summary::opt_scaled(r.overall.p75_q4)
                    == crate::percentile::percentile_scaled_spec(sd, 3, 4)
            } by {
                crate::seq_stats::lemma_sorted_permutation_unique(sd, buffer@);
            }
        }
        assert(stats_for(r.overall, all));
    }
    r
}

/// The whole is at least any prefix, in length and in both sums.
proof fn lemma_all_lengths_prefix(inputs: Seq<(Vec<u8>, Vec<u64>)>, j: int)
    requires
        0 <= j <= inputs.len(),
    ensures
        all_lengths(inputs).len() >= all_lengths(inputs.take(j)).len(),
        sum_of(all_lengths(inputs)) >= sum_of(all_lengths(inputs.take(j))),
        sum_sq_of(all_lengths(inputs)) >= sum_sq_of(all_lengths(inputs.take(j))),
{
    let f = |p: (Vec<u8>, Vec<u64>)| p.1@;
    let m = inputs.map_values(f);
    lemma_flat_split(m, j);
    assert(m.take(j) =~= inputs.take(j).map_values(f));
    lemma_sum_of_concat(flat_of(m.take(j)), flat_of(m.skip(j)));
    lemma_sum_of_nonneg(flat_of(m.skip(j)));
}

/// Checks the machine limits at run time and builds the report when they
/// hold: the result is absent exactly when the total count of lengths or
/// one of the two exact sums would not fit its machine integer.
pub fn try_build_report(inputs: &Vec<(Vec<u8>, Vec<u64>)>) -> (r: Option<Report>)
    ensures
        r is Some <==> {
            &&& all_lengths(inputs@).len() <= u64::MAX
            &&& sum_of(all_lengths(inputs@)) <= u128::MAX
            &&& sum_sq_of(all_lengths(inputs@)) <= u128::MAX
        },
        match r {
            Some(rep) => report_for(rep, inputs@),
            None => true,
        },
{
    let ghost all = all_lengths(inputs@);
    let mut cnt: u128 = 0;
    let mut sm: u128 = 0;
    let mut sq: u128 = 0;
    let n = inputs.len();
    let mut j: usize = 0;
    proof {
        assert(inputs@.take(0) =~= Seq::<(Vec<u8>, Vec<u64>)>::empty());
        assert(all_lengths(inputs@.take(0)) =~= Seq::<u64>::empty());
    }
    while j < n
        invariant
            0 <= j <= n == inputs@.len(),
            all == all_lengths(inputs@),
            cnt == all_lengths(inputs@.take(j as int)).len(),
            sm == sum_of(all_lengths(inputs@.take(j as int))),
            sq == sum_sq_of(all_lengths(inputs@.take(j as int))),
        decreases n - j,
    {
        let pair = &inputs[j];
        let file = &pair.1;
        let ghost prefix = all_lengths(inputs@.take(j as int));
        proof {
            lemma_all_lengths_split(inputs@, j as int);
            lemma_all_lengths_prefix(inputs@, j + 1);
            lemma_sum_of_concat(prefix, file@);
        }
        let mut l: usize = 0;
        proof {
            assert(file@.take(0) =~= Seq::<u64>::empty());
        }
        while l < file.len()
            invariant
                0 <= l <= file@.len(),
                file@ == inputs@[j as int].1@,
                0 <= j < inputs@.len(),
                all == all_lengths(inputs@),
                prefix == all_lengths(inputs@.take(j as int)),
                all.len() >= prefix.len() + file@.len(),
                sum_of(all) >= sum_of(prefix) + sum_of(file@),
                sum_sq_of(all) >= sum_sq_of(prefix) + sum_sq_of(file@),
                cnt == prefix.len() + l,
                sm == sum_of(prefix) + sum_of(file@.take(l as int)),
                sq == sum_sq_of(prefix) + sum_sq_of(file@.take(l as int)),
            decreases file@.len() - l,
        {
            let x = file[l];
            proof {
                assert(file@.take(l + 1).drop_last() =~= file@.take(l as int));
                assert(file@.take(l + 1).last() == x);
                lemma_sum_prefix_bound(file@, l + 1);
                assert((x as int) * (x as int) <= (u64::MAX as int) * (u64::MAX as int))
                    by (nonlinear_arith)
                    requires
                        0 <= x as int <= u64::MAX as int,
                ;
            }
            cnt = match cnt.checked_add(1) {
                Some(c) => c,
                None => {
                    proof {
                        lemma_sum_of_nonneg(file@.take(l as int));
                        lemma_sum_of_nonneg(prefix);
                    }
                    return None;
                },
            };
            sm = match sm.checked_add(x as u128) {
                Some(v) => v,
                None => {
                    proof {
                        lemma_sum_of_nonneg(file@.skip(l + 1));
                        assert(file@ =~= file@.take(l + 1) + file@.skip(l + 1));
                        lemma_sum_of_concat(file@.take(l + 1), file@.skip(l + 1));
                    }
                    return None;
                },
            };
            let xsq: u128 = (x as u128) * (x as u128);
            sq = match sq.checked_add(xsq) {
                Some(v) => v,
                None => {
                    proof {
                        lemma_sum_of_nonneg(file@.skip(l + 1));
                        assert(file@ =~= file@.take(l + 1) + file@.skip(l + 1));
                        lemma_sum_of_concat(file@.take(l + 1), file@.skip(l + 1));
                    }
                    return None;
                },
            };
            l += 1;
        }
        proof {
            assert(file@.take(file@.len() as int) =~= file@);
        }
        j += 1;
    }
    proof {
        assert(inputs@.take(n as int) =~= inputs@);
    }
    if cnt > u64::MAX as u128 {
        return None;
    }
    Some(build_report(inputs))
}

/// In a well-formed entry list the tail is well formed, and models the
/// map without the head's key.
proof fn lemma_files_tail(fs: Seq<(Vec<u8>, Stats)>)
    requires
        files_wf(fs),
        fs.len() > 0,
    ensures
        files_wf(fs.drop_first()),
        forall|k: Seq<u8>| #[trigger] has_key(fs.drop_first(), k) <==> has_key(fs, k) && k != fs[0].0@,
        forall|k: Seq<u8>| #[trigger] has_key(fs.drop_first(), k) ==> stats_of(fs.drop_first(), k)
            == stats_of(fs, k),
{
    let d = fs.drop_first();
    assert forall|p: int, q: int|
        0 <= p < q < d.len() implies lex_lt(#[trigger] d[p].0@, #[trigger] d[q].0@) by {
        assert(d[p] == fs[p + 1] && d[q] == fs[q + 1]);
    }
    assert forall|k: Seq<u8>| #[trigger] has_key(d, k) implies has_key(fs, k) && k != fs[0].0@ by {
        let w = choose|w: int| 0 <= w < d.len() && (#[trigger] d[w].0@) == k;
        assert(fs[w + 1].0@ == k);
        assert(lex_lt(fs[0].0@, fs[w + 1].0@));
        lemma_lex_irrefl(k);
    }
    assert forall|k: Seq<u8>| has_key(fs, k) && k != fs[0].0@ implies #[trigger] has_key(d, k) by {
        let w = choose|w: int| 0 <= w < fs.len() && (#[trigger] fs[w].0@) == k;
        assert(w != 0);
        assert(d[w - 1].0@ == k);
    }
    assert forall|k: Seq<u8>| #[trigger] has_key(d, k) implies stats_of(d, k) == stats_of(
        fs,
        k,
    ) by {
        let w = choose|w: int| 0 <= w < d.len() && (#[trigger] d[w].0@) == k;
        assert(fs[w + 1].0@ == k);
        lemma_stats_of_at(d, k, w);
        lemma_stats_of_at(fs, k, w + 1);
    }
}

/// Two well-formed entry lists that model the same map are identical.
proof fn lemma_sorted_map_unique(f1: Seq<(Vec<u8>, Stats)>, f2: Seq<(Vec<u8>, Stats)>)
    requires
        files_wf(f1),
        files_wf(f2),
        forall|k: Seq<u8>| #[trigger] has_key(f1, k) <==> has_key(f2, k),
        forall|k: Seq<u8>| #[trigger] has_key(f1, k) ==> stats_of(f1, k) == stats_of(f2, k),
    ensures
        f1.len() == f2.len(),
        forall|i: int|
            0 <= i < f1.len() ==> (#[trigger] f1[i].0@) == f2[i].0@ && f1[i].1 == f2[i].1,
    decreases f1.len(),
{
    if f1.len() == 0 {
        if f2.len() > 0 {
            assert(has_key(f2, f2[0].0@));
            assert(has_key(f1, f2[0].0@));
        }
    } else if f2.len() == 0 {
        assert(has_key(f1, f1[0].0@));
        assert(has_key(f2, f1[0].0@));
    } else {
        assert(has_key(f1, f1[0].0@));
        assert(has_key(f2, f2[0].0@));
        assert(has_key(f2, f1[0].0@));
        assert(has_key(f1, f2[0].0@));
        let w2 = choose|w: int| 0 <= w < f2.len() && (#[trigger] f2[w].0@) == f1[0].0@;
        let w1 = choose|w: int| 0 <= w < f1.len() && (#[trigger] f1[w].0@) == f2[0].0@;
        if w1 > 0 && w2 > 0 {
            assert(lex_lt(f1[0].0@, f1[w1].0@));
            assert(lex_lt(f2[0].0@, f2[w2].0@));
            lemma_lex_trans(f1[0].0@, f2[0].0@, f1[0].0@);
            lemma_lex_irrefl(f1[0].0@);
        }
        let k0 = f1[0].0@;
        assert(f2[0].0@ == k0);
        lemma_stats_of_at(f1, k0, 0);
        lemma_stats_of_at(f2, k0, 0);
        assert(f1[0].1 == f2[0].1);
        lemma_files_tail(f1);
        lemma_files_tail(f2);
        let d1 = f1.drop_first();
        let d2 = f2.drop_first();
        assert forall|k: Seq<u8>| #[trigger] has_key(d1, k) <==> has_key(d2, k) by {
            if has_key(d1, k) {
                assert(has_key(f1, k) && k != f1[0].0@);
                assert(has_key(f2, k));
                assert(has_key(d2, k));
            }
            if has_key(d2, k) {
                assert(has_key(f2, k) && k != f2[0].0@);
                assert(has_key(f1, k));
                assert(has_key(d1, k));
            }
        }
        assert forall|k: Seq<u8>| #[trigger] has_key(d1, k) implies stats_of(d1, k) == stats_of(
            d2,
            k,
        ) by {
            assert(has_key(f1, k));
            assert(has_key(d2, k));
        }
        lemma_sorted_map_unique(d1, d2);
        assert(d1.len() == d2.len());
        assert(forall|t: int|
            0 <= t < d1.len() ==> (#[trigger] d1[t].0@) == d2[t].0@ && d1[t].1 == d2[t].1);
        assert forall|i: int|
            0 <= i < f1.len() implies (#[trigger] f1[i].0@) == f2[i].0@ && f1[i].1 == f2[i].1 by {
            if i > 0 {
                assert(d1[i - 1] == f1[i] && d2[i - 1] == f2[i]);
                assert(d1[i - 1].0@ == d2[i - 1].0@ && d1[i - 1].1 == d2[i - 1].1);
            }
        }
    }
}

/// Determinism of the whole pass: two reports that summarize the same
/// inputs agree on every field — the overall statistics are equal, and
/// the per-file breakdowns hold the same keys in the same order with the
/// same statistics.
pub proof fn lemma_report_deterministic(
    inputs: Seq<(Vec<u8>, Vec<u64>)>,
    r1: Report,
    r2: Report,
)
    requires
        report_for(r1, inputs),
        report_for(r2, inputs),
    ensures
        r1.overall == r2.overall,
        r1.files@.len() == r2.files@.len(),
        forall|i: int|
            0 <= i < r1.files@.len() ==> (#[trigger] r1.files@[i].0@) == r2.files@[i].0@
                && r1.files@[i].1 == r2.files@[i].1,
{
    crate::summary::lemma_stats_for_unique(r1.overall, r2.overall, all_lengths(inputs));
    assert forall|k: Seq<u8>| #[trigger] has_key(r1.files@, k) implies stats_of(r1.files@, k)
        == stats_of(r2.files@, k) by {
        assert(some_name(inputs, k));
        crate::summary::lemma_stats_for_unique(
            stats_of(r1.files@, k),
            stats_of(r2.files@, k),
            last_lens_for(inputs, k),
        );
    }
    lemma_sorted_map_unique(r1.files@, r2.files@);
}

} // verus!
