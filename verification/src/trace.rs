//! The `Trace` value type and its stack-distance and frequency analyses.

use vstd::prelude::*;

use crate::model::count_sym;
use crate::model::count_sym_upto;
use crate::model::prefix_max;
use crate::model::seq_max;
use crate::model::sum_counts;

verus! {

/// An immutable, ordered, finite sequence of symbol accesses.
#[derive(Debug, Eq, Hash)]
pub struct Trace {
    trace: Vec<u32>,
}

impl View for Trace {
    type V = Seq<u32>;

    closed spec fn view(&self) -> Seq<u32> {
        self.trace@
    }
}

impl Trace {
    /// Wrap a sequence of symbols as a trace.
    pub fn new(trace: Vec<u32>) -> (t: Self)
        ensures
            t@ == trace@,
    {
        Trace { trace }
    }

    /// The trace's symbol sequence.
    pub fn symbols(&self) -> (r: &Vec<u32>)
        ensures
            r@ == self@,
    {
        &self.trace
    }
}

/// Index of the first occurrence of `x` in `stack`, if any.
fn find_first(stack: &Vec<u32>, x: u32) -> (r: Option<usize>)
    ensures
        match r {
            Some(p) => p < stack@.len() && stack@[p as int] == x && (forall|l: int|
                0 <= l < p ==> stack@[l] != x),
            None => !stack@.contains(x),
        },
{
    let mut pos: usize = 0;
    while pos < stack.len()
        invariant
            pos <= stack@.len(),
            forall|l: int| 0 <= l < pos ==> stack@[l] != x,
        decreases stack@.len() - pos,
    {
        if stack[pos] == x {
            return Some(pos);
        }
        pos += 1;
    }
    None
}

impl Trace {
    /// Per-access stack distances: for each position in order, the LRU depth
    /// at which its symbol was found, or `None` on a cold miss. The result is
    /// aligned one-to-one with the trace's positions.
    pub fn stack_distance(&self) -> (out: Vec<Option<usize>>)
        ensures
            out@.len() == self@.len(),
            forall|i: int| 0 <= i < out@.len() ==> dist_matches(self@, i, out@[i]),
    {
        let n = self.trace.len();
        let mut out: Vec<Option<usize>> = Vec::new();
        let mut stack: Vec<u32> = Vec::new();
        let mut i: usize = 0;
        while i < n
            invariant
                n == self@.len(),
                out@.len() == i,
                i <= n,
                stack@ == lru_stack(self@.take(i as int)),
                forall|j: int| 0 <= j < i ==> dist_matches(self@, j, out@[j]),
            decreases n - i,
        {
            let ghost pre = self@.take(i as int);
            let x = self.trace[i];
            proof {
                lemma_lru_stack_props(pre);
                assert(self@.take(i + 1).drop_last() =~= pre);
                assert(self@.take(i + 1).last() == self@[i as int]);
            }
            match find_first(&stack, x) {
                Some(p) => {
                    proof {
                        assert(stack@.contains(x)) by {
                            assert(stack@[p as int] == x);
                        }
                        let io = stack@.index_of(x);
                        assert(0 <= io < stack@.len() && stack@[io] == x);
                        assert(io == p as int);
                    }
                    out.push(Some(stack.len() - p - 1));
                    stack.remove(p);
                    stack.push(x);
                }
                None => {
                    out.push(None);
                    stack.push(x);
                }
            }
            proof {
                assert(stack@ == lru_stack(self@.take(i + 1)));
                assert(dist_matches(self@, i as int, out@[i as int]));
            }
            i += 1;
        }
        out
    }

    /// The stack-distance histogram: entry `d` of the returned vector counts
    /// the accesses that hit at distance `d` (the vector is sized by the
    /// largest finite distance observed, and empty when there is none), and
    /// the second component counts the cold misses. Together the counts cover
    /// every access exactly once.
    pub fn stack_distance_histogram(&self) -> (r: (Vec<usize>, usize))
        ensures
            r.0@.len() == max_dist(self@) + 1,
            forall|d: int| 0 <= d < r.0@.len() ==> r.0@[d] == count_dist(self@, d),
            r.1 == count_infinite(self@),
            sum_counts(r.0@) + r.1 == self@.len(),
    {
        let distances = self.stack_distance();
        let n = distances.len();
        let mut any: bool = false;
        let mut mx: usize = 0;
        let mut k: usize = 0;
        while k < n
            invariant
                n == self@.len(),
                distances@.len() == n,
                forall|i: int| 0 <= i < n ==> dist_matches(self@, i, distances@[i]),
                k <= n,
                if any {
                    mx as int == max_dist_upto(self@, k as int)
                } else {
                    max_dist_upto(self@, k as int) == -1 && mx == 0
                },
            decreases n - k,
        {
            proof {
                lemma_distance_bound(self@, k as int);
            }
            match distances[k] {
                Some(p) => {
                    if !any || p > mx {
                        mx = p;
                    }
                    any = true;
                }
                None => {}
            }
            k += 1;
        }
        proof {
            lemma_max_dist_bound(self@, n as int);
        }
        let width: usize = if any {
            mx + 1
        } else {
            0
        };
        let mut counts: Vec<usize> = Vec::new();
        while counts.len() < width
            invariant
                counts@.len() <= width,
                forall|d: int| 0 <= d < counts@.len() ==> counts@[d] == 0,
                sum_counts(counts@) == 0,
            decreases width - counts@.len(),
        {
            proof {
                crate::model::lemma_sum_push(counts@, 0);
            }
            counts.push(0);
        }
        let mut infinities: usize = 0;
        let mut j: usize = 0;
        while j < n
            invariant
                n == self@.len(),
                distances@.len() == n,
                forall|i: int| 0 <= i < n ==> dist_matches(self@, i, distances@[i]),
                j <= n,
                counts@.len() == max_dist_upto(self@, n as int) + 1,
                forall|d: int| 0 <= d < counts@.len() ==> counts@[d] == count_dist_upto(
                    self@,
                    j as int,
                    d,
                ),
                infinities == count_inf_upto(self@, j as int),
                sum_counts(counts@) + infinities == j,
            decreases n - j,
        {
            proof {
                lemma_count_inf_upto_bound(self@, j as int);
            }
            match distances[j] {
                Some(p) => {
                    proof {
                        lemma_dist_le_max(self@, j as int, n as int);
                        lemma_count_dist_upto_bound(self@, j as int, p as int);
                        crate::model::lemma_sum_update(counts@, p as int, (counts@[p as int]
                            + 1) as usize);
                    }
                    let c = counts[p];
                    counts[p] = c + 1;
                }
                None => {
                    infinities = infinities + 1;
                }
            }
            j += 1;
        }
        (counts, infinities)
    }

    /// The frequency histogram: entry `v` counts the accesses of symbol `v`.
    /// The vector is sized by the largest symbol present, is empty for the
    /// empty trace, and its entries sum to the trace's length. The bound on
    /// the largest symbol keeps the histogram's width a machine integer.
    pub fn frequency_histogram(&self) -> (freqs: Vec<usize>)
        requires
            seq_max(self@) < u32::MAX,
        ensures
            freqs@.len() == seq_max(self@) + 1,
            forall|v: int| 0 <= v < freqs@.len() ==> freqs@[v] == count_sym(self@, v as u32),
            sum_counts(freqs@) == self@.len(),
    {
        let n = self.trace.len();
        if n == 0 {
            return Vec::new();
        }
        let mut mx: u32 = self.trace[0];
        let mut k: usize = 1;
        proof {
            assert(prefix_max(self@, 0) == -1);
            assert(prefix_max(self@, 1) == self@[0]);
        }
        while k < n
            invariant
                n == self@.len(),
                1 <= k <= n,
                mx as int == prefix_max(self@, k as int),
            decreases n - k,
        {
            if self.trace[k] > mx {
                mx = self.trace[k];
            }
            k += 1;
        }
        let width: usize = mx as usize + 1;
        let mut freqs: Vec<usize> = Vec::new();
        while freqs.len() < width
            invariant
                freqs@.len() <= width,
                forall|v: int| 0 <= v < freqs@.len() ==> freqs@[v] == 0,
                sum_counts(freqs@) == 0,
            decreases width - freqs@.len(),
        {
            proof {
                crate::model::lemma_sum_push(freqs@, 0);
            }
            freqs.push(0);
        }
        let mut j: usize = 0;
        while j < n
            invariant
                n == self@.len(),
                j <= n,
                freqs@.len() == width,
                width == seq_max(self@) + 1,
                width <= u32::MAX,
                forall|v: int| 0 <= v < freqs@.len() ==> freqs@[v] == count_sym_upto(
                    self@,
                    j as int,
                    v as u32,
                ),
                sum_counts(freqs@) == j,
            decreases n - j,
        {
            let x = self.trace[j];
            let idx = x as usize;
            proof {
                crate::model::lemma_prefix_max_bounds_entry(self@, n as int, j as int);
                crate::model::lemma_count_sym_upto_bound(self@, j as int, x);
                crate::model::lemma_sum_update(freqs@, idx as int, (freqs@[idx as int]
                    + 1) as usize);
            }
            let c = freqs[idx];
            freqs[idx] = c + 1;
            proof {
                assert forall|v: int| 0 <= v < freqs@.len() implies freqs@[v] == count_sym_upto(
                    self@,
                    j + 1,
                    v as u32,
                ) by {
                    if v != idx {
                        assert(v as u32 != x);
                    }
                }
            }
            j += 1;
        }
        freqs
    }

    /// Render the trace for display: one letter per symbol when every symbol
    /// is below 26, else each symbol in decimal followed by one space.
    pub fn render(&self) -> (r: String)
        ensures
            r@ == rendered(self@),
    {
        let n = self.trace.len();
        if n == 0 {
            let r = String::new();
            proof {
                assert(letters(self@) =~= Seq::<char>::empty());
            }
            return r;
        }
        let mut mx: u32 = self.trace[0];
        let mut k: usize = 1;
        proof {
            assert(prefix_max(self@, 0) == -1);
            assert(prefix_max(self@, 1) == self@[0]);
        }
        while k < n
            invariant
                n == self@.len(),
                1 <= k <= n,
                mx as int == prefix_max(self@, k as int),
            decreases n - k,
        {
            if self.trace[k] > mx {
                mx = self.trace[k];
            }
            k += 1;
        }
        let mut r = String::new();
        if mx < 26 {
            let mut i: usize = 0;
            while i < n
                invariant
                    n == self@.len(),
                    i <= n,
                    seq_max(self@) < 26,
                    r@ == letters(self@.take(i as int)),
                decreases n - i,
            {
                proof {
                    crate::model::lemma_prefix_max_bounds_entry(self@, n as int, i as int);
                }
                let c = (65 + self.trace[i] as u8) as char;
                push_char(&mut r, c);
                proof {
                    assert(letters(self@.take(i + 1)) =~= letters(self@.take(i as int)).push(
                        letter_of(self@[i as int]),
                    ));
                }
                i += 1;
            }
            proof {
                assert(self@.take(n as int) =~= self@);
            }
        } else {
            let mut i: usize = 0;
            while i < n
                invariant
                    n == self@.len(),
                    i <= n,
                    r@ == decimals(self@.take(i as int)),
                decreases n - i,
            {
                let ghost before = r@;
                let ghost sym = self@[i as int] as int;
                if i > 0 {
                    push_char(&mut r, ' ');
                }
                push_decimal(&mut r, self.trace[i]);
                proof {
                    assert(self@.take(i + 1).drop_last() =~= self@.take(i as int));
                    assert(self@.take(i + 1).last() == self@[i as int]);
                    if i == 0 {
                        assert(before + dec_chars(sym) =~= dec_chars(sym));
                    } else {
                        assert(before.push(' ') + dec_chars(sym) =~= before + seq![' ']
                            + dec_chars(sym));
                    }
                }
                i += 1;
            }
            proof {
                assert(self@.take(n as int) =~= self@);
            }
        }
        r
    }
}

impl From<Vec<u32>> for Trace {
    fn from(trace: Vec<u32>) -> (t: Self) {
        Trace { trace }
    }
}

impl vstd::std_specs::convert::FromSpecImpl<Vec<u32>> for Trace {
    open spec fn obeys_from_spec() -> bool {
        true
    }

    closed spec fn from_spec(trace: Vec<u32>) -> Self {
        Trace { trace }
    }
}

/// `Trace::from` stores the given sequence unchanged: the trace that the
/// `From` contract promises, `from_spec(v)`, has `v`'s sequence as its view.
/// With `eq`'s contract this also makes traces built from equal sequences
/// equal, and those built from different sequences unequal.
pub broadcast proof fn lemma_from_spec_view(v: Vec<u32>)
    ensures
        (#[trigger] <Trace as vstd::std_specs::convert::FromSpec<Vec<u32>>>::from_spec(v))@ == v@,
{
}

/// The LRU stack after the accesses in `s`: the distinct symbols of `s`,
/// ordered from least to most recently accessed.
pub open spec fn lru_stack(s: Seq<u32>) -> Seq<u32>
    decreases s.len(),
{
    if s.len() == 0 {
        Seq::empty()
    } else {
        let prev = lru_stack(s.drop_last());
        let x = s.last();
        if prev.contains(x) {
            prev.remove(prev.index_of(x)).push(x)
        } else {
            prev.push(x)
        }
    }
}

/// The LRU stack of a sequence holds exactly the symbols of the sequence,
/// each once, and is no longer than the sequence.
pub proof fn lemma_lru_stack_props(s: Seq<u32>)
    ensures
        lru_stack(s).no_duplicates(),
        lru_stack(s).len() <= s.len(),
        forall|x: u32| #[trigger] lru_stack(s).contains(x) <==> s.contains(x),
    decreases s.len(),
{
    if s.len() == 0 {
        assert(forall|x: u32| !(#[trigger] s.contains(x)));
    } else {
        let p = s.drop_last();
        let x = s.last();
        lemma_lru_stack_props(p);
        let prev = lru_stack(p);
        let st = lru_stack(s);
        assert(p.push(x) =~= s);
        assert(forall|y: u32| #[trigger] s.contains(y) <==> p.contains(y) || y == x) by {
            assert(forall|y: u32| #[trigger] p.contains(y) ==> s.contains(y));
            assert(s.contains(x)) by {
                assert(s[s.len() - 1] == x);
            }
            assert(forall|y: u32| #[trigger] s.contains(y) && y != x ==> p.contains(y)) by {
                assert forall|y: u32| #[trigger] s.contains(y) && y != x implies p.contains(y) by {
                    let j = choose|j: int| 0 <= j < s.len() && s[j] == y;
                    assert(j < s.len() - 1);
                    assert(p[j] == y);
                }
            }
        }
        if prev.contains(x) {
            let io = prev.index_of(x);
            assert(0 <= io < prev.len() && prev[io] == x);
            let rem = prev.remove(io);
            prev.remove_ensures(io);
            assert(st == rem.push(x));
            assert(!rem.contains(x)) by {
                if rem.contains(x) {
                    let j = choose|j: int| 0 <= j < rem.len() && rem[j] == x;
                    if j < io {
                        assert(prev[j] == x);
                    } else {
                        assert(prev[j + 1] == x);
                    }
                }
            }
            assert(rem.no_duplicates()) by {
                assert forall|i: int, j: int|
                    0 <= i < rem.len() && 0 <= j < rem.len() && i != j implies rem[i] != rem[j] by {
                    let pi = if i < io {
                        i
                    } else {
                        i + 1
                    };
                    let pj = if j < io {
                        j
                    } else {
                        j + 1
                    };
                    assert(rem[i] == prev[pi] && rem[j] == prev[pj]);
                }
            }
            assert(st.no_duplicates()) by {
                assert forall|i: int, j: int|
                    0 <= i < st.len() && 0 <= j < st.len() && i != j implies st[i] != st[j] by {
                    if i < st.len() - 1 && j < st.len() - 1 {
                        assert(st[i] == rem[i] && st[j] == rem[j]);
                    } else if i == st.len() - 1 {
                        assert(st[i] == x && st[j] == rem[j]);
                    } else {
                        assert(st[j] == x && st[i] == rem[i]);
                    }
                }
            }
            assert(forall|y: u32| #[trigger] rem.contains(y) ==> prev.contains(y)) by {
                assert forall|y: u32| #[trigger] rem.contains(y) implies prev.contains(y) by {
                    let j = choose|j: int| 0 <= j < rem.len() && rem[j] == y;
                    if j < io {
                        assert(prev[j] == y);
                    } else {
                        assert(prev[j + 1] == y);
                    }
                }
            }
            assert(forall|y: u32| #[trigger] prev.contains(y) && y != x ==> rem.contains(y)) by {
                assert forall|y: u32| #[trigger] prev.contains(y) && y != x implies rem.contains(
                    y,
                ) by {
                    let j = choose|j: int| 0 <= j < prev.len() && prev[j] == y;
                    if j < io {
                        assert(rem[j] == y);
                    } else {
                        assert(j != io);
                        assert(rem[j - 1] == prev[j]);
                    }
                }
            }
            assert(forall|y: u32| #[trigger] st.contains(y) <==> rem.contains(y) || y == x) by {
                assert(st[st.len() - 1] == x);
                assert forall|y: u32| #[trigger] st.contains(y) implies rem.contains(y) || y
                    == x by {
                    let j = choose|j: int| 0 <= j < st.len() && st[j] == y;
                    if j < st.len() - 1 {
                        assert(rem[j] == y);
                    }
                }
                assert forall|y: u32| rem.contains(y) implies #[trigger] st.contains(y) by {
                    let j = choose|j: int| 0 <= j < rem.len() && rem[j] == y;
                    assert(st[j] == y);
                }
            }
            assert forall|y: u32| #[trigger] st.contains(y) <==> s.contains(y) by {
                assert(st.contains(y) <==> rem.contains(y) || y == x);
                assert(prev.contains(y) <==> p.contains(y));
                assert(rem.contains(y) ==> prev.contains(y));
                assert(prev.contains(y) && y != x ==> rem.contains(y));
                assert(s.contains(y) <==> p.contains(y) || y == x);
            }
        } else {
            assert(st == prev.push(x));
            assert(st.no_duplicates()) by {
                assert forall|i: int, j: int|
                    0 <= i < st.len() && 0 <= j < st.len() && i != j implies st[i] != st[j] by {
                    if i < st.len() - 1 && j < st.len() - 1 {
                        assert(st[i] == prev[i] && st[j] == prev[j]);
                    } else if i == st.len() - 1 {
                        assert(st[i] == x && st[j] == prev[j]);
                        assert(prev.contains(prev[j]));
                    } else {
                        assert(st[j] == x && st[i] == prev[i]);
                        assert(prev.contains(prev[i]));
                    }
                }
            }
            assert(forall|y: u32| #[trigger] st.contains(y) <==> prev.contains(y) || y == x) by {
                assert(st[st.len() - 1] == x);
                assert forall|y: u32| #[trigger] st.contains(y) implies prev.contains(y) || y
                    == x by {
                    let j = choose|j: int| 0 <= j < st.len() && st[j] == y;
                    if j < st.len() - 1 {
                        assert(prev[j] == y);
                    }
                }
                assert forall|y: u32| prev.contains(y) implies #[trigger] st.contains(y) by {
                    let j = choose|j: int| 0 <= j < prev.len() && prev[j] == y;
                    assert(st[j] == y);
                }
            }
            assert forall|y: u32| #[trigger] st.contains(y) <==> s.contains(y) by {
                assert(st.contains(y) <==> prev.contains(y) || y == x);
                assert(prev.contains(y) <==> p.contains(y));
                assert(s.contains(y) <==> p.contains(y) || y == x);
            }
        }
    }
}

/// Stack distance of the access at position `i` of `s`: the depth at which
/// the symbol sits in the LRU stack of the preceding accesses (`0` is the
/// top), or `None` when this is its first occurrence (a cold miss).
pub open spec fn spec_stack_distance(s: Seq<u32>, i: int) -> Option<int> {
    let st = lru_stack(s.take(i));
    if st.contains(s[i]) {
        Some(st.len() - 1 - st.index_of(s[i]))
    } else {
        None
    }
}

/// Does the machine word `o` record the stack distance at position `i`?
pub open spec fn dist_matches(s: Seq<u32>, i: int, o: Option<usize>) -> bool {
    match (spec_stack_distance(s, i), o) {
        (Some(d), Some(p)) => p == d,
        (None, None) => true,
        _ => false,
    }
}

/// How many of the first `k` accesses of `s` hit at stack distance `d`.
pub open spec fn count_dist_upto(s: Seq<u32>, k: int, d: int) -> nat
    decreases k,
{
    if k <= 0 {
        0
    } else {
        count_dist_upto(s, k - 1, d) + (if spec_stack_distance(s, k - 1) == Some(d) {
            1nat
        } else {
            0nat
        })
    }
}

/// How many accesses of `s` hit at stack distance `d`.
pub open spec fn count_dist(s: Seq<u32>, d: int) -> nat {
    count_dist_upto(s, s.len() as int, d)
}

/// How many of the first `k` accesses of `s` are cold misses.
pub open spec fn count_inf_upto(s: Seq<u32>, k: int) -> nat
    decreases k,
{
    if k <= 0 {
        0
    } else {
        count_inf_upto(s, k - 1) + (if spec_stack_distance(s, k - 1) is None {
            1nat
        } else {
            0nat
        })
    }
}

/// How many accesses of `s` are cold misses.
pub open spec fn count_infinite(s: Seq<u32>) -> nat {
    count_inf_upto(s, s.len() as int)
}

/// Largest finite stack distance among the first `k` accesses of `s`,
/// or `-1` when every one of them is a cold miss.
pub open spec fn max_dist_upto(s: Seq<u32>, k: int) -> int
    decreases k,
{
    if k <= 0 {
        -1
    } else {
        let m = max_dist_upto(s, k - 1);
        match spec_stack_distance(s, k - 1) {
            Some(d) => if d > m {
                d
            } else {
                m
            },
            None => m,
        }
    }
}

/// Largest finite stack distance in `s`, or `-1` when there is none.
pub open spec fn max_dist(s: Seq<u32>) -> int {
    max_dist_upto(s, s.len() as int)
}

/// A finite stack distance is non-negative and below the access's position.
proof fn lemma_distance_bound(s: Seq<u32>, i: int)
    requires
        0 <= i <= s.len(),
    ensures
        match spec_stack_distance(s, i) {
            Some(d) => 0 <= d < i,
            None => true,
        },
{
    let st = lru_stack(s.take(i));
    lemma_lru_stack_props(s.take(i));
    if st.contains(s[i]) {
        let io = st.index_of(s[i]);
        assert(0 <= io < st.len() && st[io] == s[i]);
    }
}

/// The largest finite distance among the first `k` accesses is below `k`.
proof fn lemma_max_dist_bound(s: Seq<u32>, k: int)
    requires
        0 <= k <= s.len(),
    ensures
        max_dist_upto(s, k) < k,
    decreases k,
{
    if k > 0 {
        lemma_max_dist_bound(s, k - 1);
        lemma_distance_bound(s, k - 1);
    }
}

/// Every finite distance of an early access is bounded by the running maximum.
proof fn lemma_dist_le_max(s: Seq<u32>, i: int, k: int)
    requires
        0 <= i < k,
    ensures
        match spec_stack_distance(s, i) {
            Some(d) => d <= max_dist_upto(s, k),
            None => true,
        },
    decreases k,
{
    if i < k - 1 {
        lemma_dist_le_max(s, i, k - 1);
    }
}

/// A prefix of `k` accesses holds at most `k` hits at any one distance.
proof fn lemma_count_dist_upto_bound(s: Seq<u32>, k: int, d: int)
    ensures
        count_dist_upto(s, k, d) <= (if k <= 0 {
            0int
        } else {
            k
        }),
    decreases k,
{
    if k > 0 {
        lemma_count_dist_upto_bound(s, k - 1, d);
    }
}

/// A prefix of `k` accesses holds at most `k` cold misses.
proof fn lemma_count_inf_upto_bound(s: Seq<u32>, k: int)
    ensures
        count_inf_upto(s, k) <= (if k <= 0 {
            0int
        } else {
            k
        }),
    decreases k,
{
    if k > 0 {
        lemma_count_inf_upto_bound(s, k - 1);
    }
}

/// Dropping the last access changes no earlier stack distance.
proof fn lemma_count_inf_upto_prefix(s: Seq<u32>, k: int)
    requires
        0 <= k <= s.len() - 1,
    ensures
        count_inf_upto(s.drop_last(), k) == count_inf_upto(s, k),
    decreases k,
{
    if k > 0 {
        lemma_count_inf_upto_prefix(s, k - 1);
        let p = s.drop_last();
        assert(p.take(k - 1) =~= s.take(k - 1));
        assert(p[k - 1] == s[k - 1]);
        assert(spec_stack_distance(p, k - 1) == spec_stack_distance(s, k - 1));
    }
}

/// Each distinct symbol's first access is its one cold miss, and no other
/// access misses cold: a trace has exactly as many cold misses as it has
/// distinct symbols present.
pub proof fn lemma_cold_misses_count_distinct_symbols(s: Seq<u32>)
    ensures
        count_infinite(s) == crate::model::count_present(s, seq_max(s) + 1),
    decreases s.len(),
{
    if s.len() > 0 {
        let p = s.drop_last();
        let x = s.last();
        let n = s.len() as int;
        lemma_cold_misses_count_distinct_symbols(p);
        lemma_count_inf_upto_prefix(s, n - 1);
        lemma_lru_stack_props(s.take(n - 1));
        assert(s.take(n - 1) =~= p);
        assert(p.push(x) =~= s);
        // the last access misses cold exactly when its symbol is new
        assert(count_infinite(s) == count_infinite(p) + (if crate::model::count_sym(p, x) == 0 {
            1nat
        } else {
            0nat
        })) by {
            crate::model::lemma_count_sym_upto_positive(p, p.len() as int, x);
            assert(spec_stack_distance(s, n - 1) is None <==> !p.contains(x));
        }
        // the bound on present values grows from the old maximum to the new
        crate::model::lemma_prefix_max_congruent(s, p, n - 1);
        assert(seq_max(s) == if x > seq_max(p) {
            x as int
        } else {
            seq_max(p)
        });
        assert(x <= seq_max(s)) by {
            crate::model::lemma_prefix_max_bounds_entry(s, n, n - 1);
        }
        crate::model::lemma_prefix_max_range(s, n);
        crate::model::lemma_prefix_max_range(p, n - 1);
        crate::model::lemma_count_present_step(p, x, seq_max(s) + 1);
        crate::model::lemma_count_present_stable(p, seq_max(p) + 1, seq_max(s) + 1);
    }
}

/// The letter a symbol is rendered as: `0` maps to `A`, `1` to `B`, and so
/// on through the alphabet.
pub open spec fn letter_of(v: u32) -> char
    recommends
        v < 26,
{
    ((65 + v) as u8) as char
}

/// The character for one decimal digit.
pub open spec fn digit_char(d: int) -> char
    recommends
        0 <= d <= 9,
{
    ((48 + d) as u8) as char
}

/// The decimal digits of `n`, most significant first.
pub open spec fn dec_chars(n: int) -> Seq<char>
    recommends
        0 <= n,
    decreases n,
{
    if n < 10 {
        seq![digit_char(n)]
    } else {
        dec_chars(n / 10).push(digit_char(n % 10))
    }
}

/// Letter rendering of a whole trace: one letter per symbol, no separator.
pub open spec fn letters(s: Seq<u32>) -> Seq<char> {
    s.map_values(|v: u32| letter_of(v))
}

/// Decimal rendering of a whole trace: the symbols' digit groups joined by
/// single spaces.
pub open spec fn decimals(s: Seq<u32>) -> Seq<char>
    decreases s.len(),
{
    if s.len() == 0 {
        Seq::empty()
    } else if s.len() == 1 {
        dec_chars(s[0] as int)
    } else {
        decimals(s.drop_last()) + seq![' '] + dec_chars(s.last() as int)
    }
}

/// How a trace is displayed: as letters when every symbol fits the alphabet,
/// otherwise in decimal.
pub open spec fn rendered(s: Seq<u32>) -> Seq<char> {
    if seq_max(s) < 26 {
        letters(s)
    } else {
        decimals(s)
    }
}

/// Relies on String::push: appends the given character to the end of the
/// string.
#[verifier::external_body]
fn push_char(out: &mut String, c: char)
    ensures
        final(out)@ == old(out)@.push(c),
{
    out.push(c);
}

/// Append the decimal digits of `v`, most significant first.
fn push_decimal(out: &mut String, v: u32)
    ensures
        final(out)@ == old(out)@ + dec_chars(v as int),
    decreases v,
{
    let ghost entry = out@;
    if v >= 10 {
        push_decimal(out, v / 10);
    }
    let d = (v % 10) as u8;
    push_char(out, (48 + d) as char);
    proof {
        if v >= 10 {
            assert(entry + dec_chars(v as int / 10).push(digit_char(v as int % 10)) =~= (entry
                + dec_chars(v as int / 10)).push(digit_char(v as int % 10)));
        } else {
            assert(entry + seq![digit_char(v as int)] =~= entry.push(digit_char(v as int)));
        }
    }
}

/// Check the cross-metric invariant on one trace: the stack-distance
/// histogram's count of cold misses equals the number of non-zero entries
/// of the frequency histogram. The equality is proved for every trace, so
/// the check cannot fail.
pub fn compare(t: Trace)
    requires
        seq_max(t@) < u32::MAX,
{
        let (_counts, infinities) = t.stack_distance_histogram();
        let frequencies = t.frequency_histogram();
        let mut nonzero: usize = 0;
        let mut v: usize = 0;
        let width = frequencies.len();
        while v < width
            invariant
                width == frequencies@.len(),
                frequencies@.len() == seq_max(t@) + 1,
                width <= u32::MAX,
                forall|u: int| 0 <= u < frequencies@.len() ==> frequencies@[u] == count_sym(
                    t@,
                    u as u32,
                ),
                v <= width,
                nonzero <= v,
                nonzero == crate::model::count_present(t@, v as int),
            decreases width - v,
        {
            if frequencies[v] != 0 {
                nonzero = nonzero + 1;
            }
            v += 1;
        }
        proof {
            lemma_cold_misses_count_distinct_symbols(t@);
        }
        assert(infinities == nonzero);
}

/// Element-wise comparison of two symbol sequences.
fn eq_vec(a: &Vec<u32>, b: &Vec<u32>) -> (r: bool)
    ensures
        r == (a@ == b@),
{
    if a.len() != b.len() {
        return false;
    }
    let mut i: usize = 0;
    while i < a.len()
        invariant
            i <= a@.len(),
            a@.len() == b@.len(),
            forall|j: int| 0 <= j < i ==> a@[j] == b@[j],
        decreases a@.len() - i,
    {
        if a[i] != b[i] {
            return false;
        }
        i += 1;
    }
    proof {
        assert(a@ =~= b@);
    }
    true
}

impl PartialEq for Trace {
    /// Two traces are equal exactly when their symbol sequences are.
    fn eq(&self, other: &Self) -> (r: bool) {
        eq_vec(&self.trace, &other.trace)
    }
}

impl vstd::std_specs::cmp::PartialEqSpecImpl for Trace {
    open spec fn obeys_eq_spec() -> bool {
        true
    }

    open spec fn eq_spec(&self, other: &Trace) -> bool {
        self@ == other@
    }
}

} // verus!
