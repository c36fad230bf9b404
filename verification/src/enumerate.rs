//! Enumeration of canonical traces in lexicographic order.
//!
//! A canonical trace of length `n` is a restricted growth string (see
//! `model::is_canonical`); the canonical traces of length `n` stand one to
//! one for the equivalence classes of reference strings of length `n` under
//! symbol renaming.
//! `TraceIter` walks them in strictly increasing lexicographic order, from
//! the all-zero trace to the trace `0, 1, 2, ...`, emitting each exactly
//! once: the successor step proves that nothing lies strictly between one
//! emitted trace and the next.

use vstd::prelude::*;

use crate::model::is_canonical;
use crate::model::lemma_canonical_prefix_bound;
use crate::model::lemma_prefix_max_congruent;
use crate::model::lemma_prefix_max_range;
use crate::model::prefix_max;
use crate::trace::Trace;

verus! {

/// The sequences `a` and `b` agree before position `j`, where `a` holds the
/// smaller symbol.
pub open spec fn lex_at(a: Seq<u32>, b: Seq<u32>, j: int) -> bool {
    &&& 0 <= j < a.len()
    &&& j < b.len()
    &&& (forall|l: int| 0 <= l < j ==> a[l] == b[l])
    &&& a[j] < b[j]
}

/// Strict lexicographic order on symbol sequences.
pub open spec fn lex_lt(a: Seq<u32>, b: Seq<u32>) -> bool {
    exists|j: int| lex_at(a, b, j)
}

/// The all-zero sequence of length `n`: the least canonical trace.
pub open spec fn zero_seq(n: nat) -> Seq<u32> {
    Seq::new(n, |i: int| 0u32)
}

/// `b` is the canonical trace right after `a`: of the same length,
/// canonical, lexicographically greater, and with no canonical trace
/// strictly in between.
pub open spec fn is_immediate_successor(a: Seq<u32>, b: Seq<u32>) -> bool {
    &&& b.len() == a.len()
    &&& is_canonical(b)
    &&& lex_lt(a, b)
    &&& (forall|u: Seq<u32>| u.len() == a.len() && is_canonical(u) && lex_lt(a, u) ==> !lex_lt(u, b))
}

/// `a` is the lexicographically greatest canonical trace of its length.
pub open spec fn is_last_canonical(a: Seq<u32>) -> bool {
    forall|u: Seq<u32>| u.len() == a.len() && is_canonical(u) ==> !lex_lt(a, u)
}

/// The all-zero sequence is canonical.
pub proof fn lemma_zero_seq_canonical(n: nat)
    ensures
        is_canonical(zero_seq(n)),
{
    assert forall|i: int| 0 <= i < n implies zero_seq(n)[i] <= prefix_max(zero_seq(n), i) + 1 by {
        lemma_prefix_max_range(zero_seq(n), i);
    }
}

/// No sequence is lexicographically below the all-zero sequence: enumeration
/// starts at the least canonical trace.
pub proof fn lemma_zero_seq_least(u: Seq<u32>, n: nat)
    requires
        u.len() == n,
    ensures
        !lex_lt(u, zero_seq(n)),
{
    if lex_lt(u, zero_seq(n)) {
        let j = choose|j: int| lex_at(u, zero_seq(n), j);
        assert(zero_seq(n)[j] == 0);
    }
}

/// Lexicographic order is strict: related sequences differ, and only one way
/// around. With `lemma_lex_trichotomy` this makes each enumerated trace
/// distinct from every other.
pub proof fn lemma_lex_strict(a: Seq<u32>, b: Seq<u32>)
    requires
        lex_lt(a, b),
    ensures
        a != b,
        !lex_lt(b, a),
{
    let j1 = choose|j: int| lex_at(a, b, j);
    assert(a[j1] != b[j1]);
    if lex_lt(b, a) {
        let j2 = choose|j: int| lex_at(b, a, j);
        if j1 < j2 {
            assert(b[j1] == a[j1]);
        } else if j2 < j1 {
            assert(a[j2] == b[j2]);
        }
        assert(false);
    }
}

/// Lexicographic order is transitive.
pub proof fn lemma_lex_transitive(a: Seq<u32>, b: Seq<u32>, c: Seq<u32>)
    requires
        lex_lt(a, b),
        lex_lt(b, c),
    ensures
        lex_lt(a, c),
{
    let j1 = choose|j: int| lex_at(a, b, j);
    let j2 = choose|j: int| lex_at(b, c, j);
    if j1 < j2 {
        assert(lex_at(a, c, j1));
    } else if j2 < j1 {
        assert(lex_at(a, c, j2));
    } else {
        assert(lex_at(a, c, j1));
    }
}

/// Position of the first difference between two sequences of equal length.
proof fn lemma_first_diff(a: Seq<u32>, b: Seq<u32>, k: int) -> (j: int)
    requires
        a.len() == b.len(),
        0 <= k < a.len(),
        a[k] != b[k],
    ensures
        0 <= j <= k,
        a[j] != b[j],
        forall|l: int| 0 <= l < j ==> a[l] == b[l],
    decreases k,
{
    if exists|l: int| 0 <= l < k && a[l] != b[l] {
        let l0 = choose|l: int| 0 <= l < k && a[l] != b[l];
        lemma_first_diff(a, b, l0)
    } else {
        k
    }
}

/// Any two sequences of one length are lexicographically comparable: the
/// order the enumerator walks in leaves no two traces unrelated.
pub proof fn lemma_lex_trichotomy(a: Seq<u32>, b: Seq<u32>)
    requires
        a.len() == b.len(),
    ensures
        lex_lt(a, b) || lex_lt(b, a) || a == b,
{
    if a != b {
        assert(exists|j: int| 0 <= j < a.len() && a[j] != b[j]) by {
            if forall|j: int| 0 <= j < a.len() ==> a[j] == b[j] {
                assert(a =~= b);
            }
        }
        let k = choose|j: int| 0 <= j < a.len() && a[j] != b[j];
        let j = lemma_first_diff(a, b, k);
        if a[j] < b[j] {
            assert(lex_at(a, b, j));
        } else {
            assert(lex_at(b, a, j));
        }
    }
}

/// One full enumeration, described abstractly: the list of emitted
/// sequences starts at the all-zero trace, every later entry is the
/// immediate canonical successor of the one before, and the last entry is
/// the greatest canonical trace. The contracts of `TraceIter::new` and
/// `TraceIter::next` say that a run of the enumerator produces exactly such
/// a list.
pub open spec fn is_enumeration_run(run: Seq<Seq<u32>>, n: nat) -> bool {
    &&& run.len() > 0
    &&& run[0] == zero_seq(n)
    &&& (forall|i: int| 0 < i < run.len() ==> is_immediate_successor(run[i - 1], #[trigger] run[i]))
    &&& is_last_canonical(run.last())
}

/// Every entry of an enumeration run is a canonical trace of length `n`.
proof fn lemma_run_entries_canonical(run: Seq<Seq<u32>>, n: nat, i: int)
    requires
        is_enumeration_run(run, n),
        0 <= i < run.len(),
    ensures
        is_canonical(run[i]),
        run[i].len() == n,
    decreases i,
{
    if i == 0 {
        lemma_zero_seq_canonical(n);
    } else {
        lemma_run_entries_canonical(run, n, i - 1);
    }
}

/// A canonical trace at or above some entry of an enumeration run appears
/// in the run: stepping through immediate successors skips nothing.
proof fn lemma_run_reaches(run: Seq<Seq<u32>>, n: nat, u: Seq<u32>, i: int)
    requires
        is_enumeration_run(run, n),
        u.len() == n,
        is_canonical(u),
        0 <= i < run.len(),
        run[i] == u || lex_lt(run[i], u),
    ensures
        run.contains(u),
    decreases run.len() - i,
{
    if run[i] == u {
        assert(run.contains(u));
    } else {
        lemma_run_entries_canonical(run, n, i);
        if i == run.len() - 1 {
            assert(run.last() == run[i]);
            assert(false);
        } else {
            assert(is_immediate_successor(run[i], run[i + 1]));
            assert(!lex_lt(u, run[i + 1]));
            lemma_run_entries_canonical(run, n, i + 1);
            lemma_lex_trichotomy(u, run[i + 1]);
            lemma_run_reaches(run, n, u, i + 1);
        }
    }
}

/// Entries of an enumeration run come in strictly increasing order.
proof fn lemma_run_increasing(run: Seq<Seq<u32>>, n: nat, i: int, j: int)
    requires
        is_enumeration_run(run, n),
        0 <= i < j < run.len(),
    ensures
        lex_lt(run[i], run[j]),
    decreases j - i,
{
    assert(is_immediate_successor(run[j - 1], run[j]));
    if j > i + 1 {
        lemma_run_increasing(run, n, i, j - 1);
        lemma_lex_transitive(run[i], run[j - 1], run[j]);
    }
}

/// What a full enumeration emits, in one statement: an enumeration run
/// holds exactly the canonical traces (restricted growth strings) of its
/// length — every one of them, each exactly once, in strictly increasing
/// lexicographic order. Its length is therefore the number of canonical
/// traces of length `n`, the Bell number.
pub proof fn lemma_run_enumerates_all_canonical_traces(run: Seq<Seq<u32>>, n: nat)
    requires
        is_enumeration_run(run, n),
    ensures
        forall|u: Seq<u32>| #[trigger] run.contains(u) <==> u.len() == n && is_canonical(u),
        run.no_duplicates(),
        forall|i: int, j: int| 0 <= i < j < run.len() ==> lex_lt(run[i], run[j]),
{
    assert forall|u: Seq<u32>| #[trigger] run.contains(u) implies u.len() == n && is_canonical(
        u,
    ) by {
        let k = choose|k: int| 0 <= k < run.len() && run[k] == u;
        lemma_run_entries_canonical(run, n, k);
    }
    assert forall|u: Seq<u32>| u.len() == n && is_canonical(u) implies #[trigger] run.contains(
        u,
    ) by {
        lemma_zero_seq_least(u, n);
        lemma_run_entries_canonical(run, n, 0);
        lemma_lex_trichotomy(u, run[0]);
        lemma_run_reaches(run, n, u, 0);
    }
    assert forall|i: int, j: int| 0 <= i < j < run.len() implies lex_lt(run[i], run[j]) by {
        lemma_run_increasing(run, n, i, j);
    }
    assert forall|i: int, j: int|
        0 <= i < run.len() && 0 <= j < run.len() && i != j implies run[i] != run[j] by {
        if i < j {
            lemma_run_increasing(run, n, i, j);
            lemma_lex_strict(run[i], run[j]);
        } else {
            lemma_run_increasing(run, n, j, i);
            lemma_lex_strict(run[j], run[i]);
        }
    }
}

/// Raising position `i` by one and clearing everything after it yields the
/// immediate lexicographic successor among canonical traces, provided every
/// later position was stuck at a freshly introduced symbol.
proof fn lemma_successor_step(s: Seq<u32>, t: Seq<u32>, i: int)
    requires
        is_canonical(s),
        0 < i < s.len(),
        s[i] <= prefix_max(s, i),
        forall|j: int| i < j < s.len() ==> s[j] > prefix_max(s, j),
        t.len() == s.len(),
        forall|l: int| 0 <= l < i ==> t[l] == s[l],
        t[i] == s[i] + 1,
        forall|l: int| i < l < t.len() ==> t[l] == 0,
    ensures
        is_canonical(t),
        lex_lt(s, t),
        forall|u: Seq<u32>|
            u.len() == s.len() && is_canonical(u) && lex_lt(s, u) ==> !lex_lt(u, t),
{
    assert forall|l: int| 0 <= l < t.len() implies t[l] <= prefix_max(t, l) + 1 by {
        if l <= i {
            lemma_prefix_max_congruent(s, t, l);
        } else {
            lemma_prefix_max_range(t, l);
        }
    }
    assert(lex_lt(s, t)) by {
        assert(lex_at(s, t, i));
    }
    assert forall|u: Seq<u32>|
        u.len() == s.len() && is_canonical(u) && lex_lt(s, u) implies !lex_lt(u, t) by {
        if lex_lt(u, t) {
            let j1 = choose|j: int| lex_at(u, t, j);
            let j2 = choose|j: int| lex_at(s, u, j);
            // the first position where `u` leaves `s` could itself be raised
            assert(0 < j2 <= i) by {
                lemma_prefix_max_congruent(s, u, j2);
                assert(u[j2] <= prefix_max(u, j2) + 1);
                assert(s[j2] <= prefix_max(s, j2));
                if j2 == 0 {
                    assert(prefix_max(s, 0) == -1);
                }
            }
            if j1 < j2 {
                assert(u[j1] == s[j1]);
                assert(t[j1] == s[j1]);
            } else if j1 == j2 {
                if j2 < i {
                    assert(t[j2] == s[j2]);
                } else {
                    assert(s[i] < u[i] < t[i]);
                }
            } else {
                assert(u[j2] == t[j2]);
                if j2 < i {
                    assert(t[j2] == s[j2]);
                } else {
                    assert(t[j1] == 0);
                    assert(u[j1] < t[j1]);
                }
            }
            assert(false);
        }
    }
}

/// A canonical trace whose every later position holds a freshly introduced
/// symbol is the lexicographically greatest one: enumeration is complete.
proof fn lemma_no_canonical_above(s: Seq<u32>)
    requires
        is_canonical(s),
        forall|j: int| 0 < j < s.len() ==> s[j] > prefix_max(s, j),
    ensures
        forall|u: Seq<u32>| u.len() == s.len() && is_canonical(u) ==> !lex_lt(s, u),
{
    assert forall|u: Seq<u32>| u.len() == s.len() && is_canonical(u) implies !lex_lt(s, u) by {
        if lex_lt(s, u) {
            let j = choose|j: int| lex_at(s, u, j);
            lemma_prefix_max_congruent(s, u, j);
            assert(u[j] <= prefix_max(u, j) + 1);
            assert(s[j] <= prefix_max(s, j));
            if j == 0 {
                assert(prefix_max(s, 0) == -1);
            }
            assert(false);
        }
    }
}

/// An independent copy of a symbol sequence.
fn copy_vec(v: &Vec<u32>) -> (r: Vec<u32>)
    ensures
        r@ == v@,
{
    let mut r: Vec<u32> = Vec::new();
    let mut i: usize = 0;
    while i < v.len()
        invariant
            i <= v@.len(),
            r@.len() == i,
            forall|j: int| 0 <= j < i ==> r@[j] == v@[j],
        decreases v@.len() - i,
    {
        r.push(v[i]);
        i += 1;
    }
    proof {
        assert(r@ =~= v@);
    }
    r
}

/// The next canonical trace after `s` in lexicographic order, or `None` when
/// `s` is the greatest one. The scan finds the rightmost position that can
/// legally grow — one whose symbol already appeared earlier, so that raising
/// it by one keeps the restricted-growth invariant — raises it, and clears
/// the tail back to zero.
pub fn successor(s: &Vec<u32>) -> (r: Option<Vec<u32>>)
    requires
        is_canonical(s@),
        s@.len() <= u32::MAX,
    ensures
        match r {
            Some(t) => is_immediate_successor(s@, t@),
            None => is_last_canonical(s@),
        },
{
    let n = s.len();
    if n == 0 {
        proof {
            lemma_no_canonical_above(s@);
        }
        return None;
    }
    // running prefix maxima, so the scan below can test positions in place
    let mut pm: Vec<u32> = Vec::new();
    pm.push(0);
    let mut m: u32 = s[0];
    let mut k: usize = 1;
    proof {
        assert(prefix_max(s@, 0) == -1);
        assert(prefix_max(s@, 1) == s@[0]);
    }
    while k < n
        invariant
            n == s@.len(),
            1 <= k <= n,
            pm@.len() == k,
            m == prefix_max(s@, k as int),
            forall|i2: int| 1 <= i2 < k ==> pm@[i2] == prefix_max(s@, i2),
        decreases n - k,
    {
        pm.push(m);
        if s[k] > m {
            m = s[k];
        }
        k += 1;
    }
    let mut i: usize = n;
    while i > 1
        invariant
            n == s@.len(),
            1 <= i <= n,
            n <= u32::MAX,
            is_canonical(s@),
            pm@.len() == n,
            forall|i2: int| 1 <= i2 < n ==> pm@[i2] == prefix_max(s@, i2),
            forall|j: int| i <= j < n ==> s@[j] > prefix_max(s@, j),
        decreases i,
    {
        let idx = i - 1;
        if s[idx] <= pm[idx] {
            proof {
                lemma_canonical_prefix_bound(s@, idx as int);
            }
            let mut t: Vec<u32> = Vec::new();
            let mut l: usize = 0;
            while l < idx
                invariant
                    l <= idx,
                    idx < n,
                    n == s@.len(),
                    t@.len() == l,
                    forall|l2: int| 0 <= l2 < l ==> t@[l2] == s@[l2],
                decreases idx - l,
            {
                t.push(s[l]);
                l += 1;
            }
            t.push(s[idx] + 1);
            while t.len() < n
                invariant
                    n == s@.len(),
                    idx < n,
                    idx + 1 <= t@.len() <= n,
                    forall|l2: int| 0 <= l2 < idx ==> t@[l2] == s@[l2],
                    t@[idx as int] == s@[idx as int] + 1,
                    forall|l2: int| idx < l2 < t@.len() ==> t@[l2] == 0,
                decreases n - t@.len(),
            {
                t.push(0);
            }
            proof {
                lemma_successor_step(s@, t@, idx as int);
            }
            return Some(t);
        }
        i -= 1;
    }
    proof {
        lemma_no_canonical_above(s@);
    }
    None
}

/// Lazily enumerates every canonical trace of one fixed length, in strictly
/// increasing lexicographic order, each exactly once. Exhausted after the
/// greatest one; a fresh enumerator is the only way to start over.
pub struct TraceIter {
    next: Option<Vec<u32>>,
}

impl TraceIter {
    /// The sequence this enumerator will emit next, if any.
    pub closed spec fn state(&self) -> Option<Seq<u32>> {
        match self.next {
            Some(v) => Some(v@),
            None => None,
        }
    }

    /// What the enumerator holds is always a canonical trace whose length
    /// leaves room for its symbols in a machine word.
    pub open spec fn wf(&self) -> bool {
        match self.state() {
            Some(s) => is_canonical(s) && s.len() <= u32::MAX,
            None => true,
        }
    }

    /// Start enumerating the canonical traces of length `trace_size`,
    /// beginning with the all-zero trace, the least of them.
    pub fn new(trace_size: usize) -> (it: Self)
        requires
            trace_size <= u32::MAX,
        ensures
            it.wf(),
            it.state() == Some(zero_seq(trace_size as nat)),
    {
        let mut v: Vec<u32> = Vec::new();
        while v.len() < trace_size
            invariant
                v@.len() <= trace_size,
                forall|l: int| 0 <= l < v@.len() ==> v@[l] == 0,
            decreases trace_size - v@.len(),
        {
            v.push(0);
        }
        proof {
            assert(v@ =~= zero_seq(trace_size as nat));
            lemma_zero_seq_canonical(trace_size as nat);
        }
        TraceIter { next: Some(v) }
    }

    /// Emit the current canonical trace and step to its successor: the next
    /// canonical trace of the same length in lexicographic order, with no
    /// canonical trace skipped in between. After the greatest one the
    /// enumerator is exhausted and yields nothing further.
    pub fn next(&mut self) -> (r: Option<Trace>)
        requires
            old(self).wf(),
        ensures
            final(self).wf(),
            match old(self).state() {
                None => r is None && final(self).state() is None,
                Some(cur) => {
                    &&& r matches Some(t) && t@ == cur
                    &&& match final(self).state() {
                        Some(nxt) => is_immediate_successor(cur, nxt),
                        None => is_last_canonical(cur),
                    }
                },
            },
    {
        match &self.next {
            None => None,
            Some(v) => {
                let cur = copy_vec(v);
                let nxt = successor(&cur);
                self.next = nxt;
                Some(Trace::new(cur))
            },
        }
    }
}

} // verus!
