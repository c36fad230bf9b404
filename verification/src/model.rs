//! Shared mathematical model: prefix maxima, the canonical-form invariant,
//! and the counting functions the analysis contracts are stated over.

use vstd::prelude::*;

verus! {

/// Largest symbol among the first `i` entries of `s`, as an integer;
/// `-1` when that prefix is empty.
pub open spec fn prefix_max(s: Seq<u32>, i: int) -> int
    decreases i,
{
    if i <= 0 {
        -1
    } else if s[i - 1] > prefix_max(s, i - 1) {
        s[i - 1] as int
    } else {
        prefix_max(s, i - 1)
    }
}

/// Largest symbol in `s`, or `-1` for the empty sequence.
pub open spec fn seq_max(s: Seq<u32>) -> int {
    prefix_max(s, s.len() as int)
}

/// A trace is canonical (a restricted growth string) when each symbol exceeds
/// every earlier one by at most one. Symbol values are then introduced in
/// increasing order of first appearance, with no gaps, and `s[0] == 0`.
pub open spec fn is_canonical(s: Seq<u32>) -> bool {
    forall|i: int| 0 <= i < s.len() ==> s[i] <= prefix_max(s, i) + 1
}

/// Occurrences of the symbol `v` among the first `k` entries of `s`.
pub open spec fn count_sym_upto(s: Seq<u32>, k: int, v: u32) -> nat
    decreases k,
{
    if k <= 0 {
        0
    } else {
        count_sym_upto(s, k - 1, v) + (if s[k - 1] == v {
            1nat
        } else {
            0nat
        })
    }
}

/// Occurrences of the symbol `v` in all of `s`.
pub open spec fn count_sym(s: Seq<u32>, v: u32) -> nat {
    count_sym_upto(s, s.len() as int, v)
}

/// How many symbol values below `m` occur in `s` at least once.
pub open spec fn count_present(s: Seq<u32>, m: int) -> nat
    decreases m,
{
    if m <= 0 {
        0
    } else {
        count_present(s, m - 1) + (if count_sym(s, (m - 1) as u32) > 0 {
            1nat
        } else {
            0nat
        })
    }
}

/// Sum of the entries of a histogram.
pub open spec fn sum_counts(s: Seq<usize>) -> int
    decreases s.len(),
{
    if s.len() == 0 {
        0
    } else {
        sum_counts(s.drop_last()) + s.last()
    }
}

/// `prefix_max` only depends on the entries of the prefix it speaks of.
pub proof fn lemma_prefix_max_congruent(a: Seq<u32>, b: Seq<u32>, k: int)
    requires
        forall|l: int| 0 <= l < k ==> a[l] == b[l],
    ensures
        prefix_max(a, k) == prefix_max(b, k),
    decreases k,
{
    if k > 0 {
        lemma_prefix_max_congruent(a, b, k - 1);
    }
}

/// A prefix maximum is `-1` or the value of some symbol, so it fits a word.
pub proof fn lemma_prefix_max_range(s: Seq<u32>, i: int)
    ensures
        -1 <= prefix_max(s, i) <= u32::MAX,
    decreases i,
{
    if i > 0 {
        lemma_prefix_max_range(s, i - 1);
    }
}

/// The prefix maximum never decreases as the prefix grows.
proof fn lemma_prefix_max_monotone(s: Seq<u32>, i: int, j: int)
    requires
        i <= j,
    ensures
        prefix_max(s, i) <= prefix_max(s, j),
    decreases j - i,
{
    if i < j {
        lemma_prefix_max_monotone(s, i, j - 1);
    }
}

/// Every entry of a prefix is bounded by that prefix's maximum.
pub proof fn lemma_prefix_max_bounds_entry(s: Seq<u32>, i: int, j: int)
    requires
        0 <= j < i,
    ensures
        s[j] <= prefix_max(s, i),
{
    lemma_prefix_max_monotone(s, j + 1, i);
}

/// In a canonical trace the maximum of the first `i` symbols is below `i`.
pub proof fn lemma_canonical_prefix_bound(s: Seq<u32>, i: int)
    requires
        is_canonical(s),
        0 <= i <= s.len(),
    ensures
        prefix_max(s, i) < i,
    decreases i,
{
    if i > 0 {
        lemma_canonical_prefix_bound(s, i - 1);
    }
}

/// A prefix of `k` entries holds at most `k` occurrences of any symbol.
pub proof fn lemma_count_sym_upto_bound(s: Seq<u32>, k: int, v: u32)
    ensures
        count_sym_upto(s, k, v) <= (if k <= 0 {
            0int
        } else {
            k
        }),
    decreases k,
{
    if k > 0 {
        lemma_count_sym_upto_bound(s, k - 1, v);
    }
}

/// Counting occurrences only reads the entries of the prefix counted over.
proof fn lemma_count_sym_upto_congruent(a: Seq<u32>, b: Seq<u32>, k: int, v: u32)
    requires
        forall|l: int| 0 <= l < k ==> a[l] == b[l],
    ensures
        count_sym_upto(a, k, v) == count_sym_upto(b, k, v),
    decreases k,
{
    if k > 0 {
        lemma_count_sym_upto_congruent(a, b, k - 1, v);
    }
}

/// A symbol occurs a positive number of times within a prefix exactly when
/// some position of that prefix holds it.
pub proof fn lemma_count_sym_upto_positive(s: Seq<u32>, k: int, v: u32)
    requires
        k <= s.len(),
    ensures
        count_sym_upto(s, k, v) > 0 <==> exists|j: int| 0 <= j < k && s[j] == v,
    decreases k,
{
    if k > 0 {
        lemma_count_sym_upto_positive(s, k - 1, v);
        if s[k - 1] == v {
            assert(0 <= k - 1 < k && s[k - 1] == v);
        }
    }
}

/// Appending a symbol raises its own count by one and changes no other.
proof fn lemma_count_sym_push(p: Seq<u32>, x: u32, v: u32)
    ensures
        count_sym(p.push(x), v) == count_sym(p, v) + (if v == x {
            1nat
        } else {
            0nat
        }),
{
    let s = p.push(x);
    lemma_count_sym_upto_congruent(s, p, p.len() as int, v);
    assert(s[s.len() - 1] == x);
}

/// A symbol above the maximum of a sequence does not occur in it.
proof fn lemma_count_sym_above_max(p: Seq<u32>, v: u32)
    requires
        v > seq_max(p),
    ensures
        count_sym(p, v) == 0,
{
    lemma_count_sym_upto_positive(p, p.len() as int, v);
    if count_sym(p, v) > 0 {
        let j = choose|j: int| 0 <= j < p.len() && p[j] == v;
        lemma_prefix_max_bounds_entry(p, p.len() as int, j);
    }
}

/// Appending a symbol adds one present value exactly when the symbol is new
/// and lies below the bound.
pub proof fn lemma_count_present_step(p: Seq<u32>, x: u32, m: int)
    requires
        m <= u32::MAX + 1,
    ensures
        count_present(p.push(x), m) == count_present(p, m) + (if x < m && count_sym(p, x) == 0 {
            1nat
        } else {
            0nat
        }),
    decreases m,
{
    if m > 0 {
        lemma_count_present_step(p, x, m - 1);
        lemma_count_sym_push(p, x, (m - 1) as u32);
    }
}

/// Widening the bound past the largest symbol adds no present values.
pub proof fn lemma_count_present_stable(p: Seq<u32>, m1: int, m2: int)
    requires
        seq_max(p) < m1 <= m2,
        m2 <= u32::MAX + 1,
    ensures
        count_present(p, m2) == count_present(p, m1),
    decreases m2 - m1,
{
    if m1 < m2 {
        lemma_count_present_stable(p, m1, m2 - 1);
        lemma_count_sym_above_max(p, (m2 - 1) as u32);
    }
}

/// Appending an entry to a histogram adds that entry to its sum.
pub proof fn lemma_sum_push(s: Seq<usize>, x: usize)
    ensures
        sum_counts(s.push(x)) == sum_counts(s) + x,
{
    assert(s.push(x).drop_last() =~= s);
    assert(s.push(x).last() == x);
}

/// Replacing one entry of a histogram changes its sum by the difference.
pub proof fn lemma_sum_update(s: Seq<usize>, i: int, v: usize)
    requires
        0 <= i < s.len(),
    ensures
        sum_counts(s.update(i, v)) == sum_counts(s) - s[i] + v,
    decreases s.len(),
{
    let t = s.update(i, v);
    if i == s.len() - 1 {
        assert(t.drop_last() =~= s.drop_last());
        assert(t.last() == v);
    } else {
        assert(t.drop_last() =~= s.drop_last().update(i, v));
        assert(t.last() == s.last());
        lemma_sum_update(s.drop_last(), i, v);
    }
}

} // verus!
