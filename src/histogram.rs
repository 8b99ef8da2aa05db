//! Fixed-bin histograms and the normalisation of counts into probabilities.
use crate::model::{ints_i128, ints_u64, sum_of, EDGE_BOUND, MAX_BINS, PROB_ONE, VALUE_SCALE};
use crate::table::MAX_ROWS;
use vstd::prelude::*;

verus! {

/// The bin of `v` among `k` equal-width bins spanning `[lo, hi]`; bins are
/// one unit wide where `hi <= lo`, and values outside fall into the nearest
/// boundary bin.
pub open spec fn bin_index(v: int, lo: int, hi: int, k: nat) -> int {
    let raw = if hi > lo {
        (v - lo) * k / (hi - lo)
    } else {
        (v - lo) / (VALUE_SCALE as int)
    };
    if raw < 0 {
        0
    } else if raw >= k {
        k - 1
    } else {
        raw
    }
}

/// How many of `vals` fall into bin `b`.
pub open spec fn bin_count(vals: Seq<int>, lo: int, hi: int, k: nat, b: int) -> nat
    decreases vals.len(),
{
    if vals.len() == 0 {
        0
    } else {
        bin_count(vals.drop_last(), lo, hi, k, b) + if bin_index(vals.last(), lo, hi, k) == b {
            1nat
        } else {
            0nat
        }
    }
}

/// The count of each bin.
pub open spec fn bin_counts_of(vals: Seq<int>, lo: int, hi: int, k: nat) -> Seq<int> {
    Seq::new(k, |b: int| bin_count(vals, lo, hi, k, b) as int)
}

/// The probability of `c` out of `n`, truncated to whole units of `1 / PROB_ONE`.
pub open spec fn share(c: int, n: int) -> int {
    c * (PROB_ONE as int) / n
}

pub open spec fn shares(c: Seq<int>, n: int) -> Seq<int> {
    c.map_values(|x: int| share(x, n))
}

/// The probability of each bin.
pub open spec fn histogram(vals: Seq<int>, lo: int, hi: int, k: nat) -> Seq<int> {
    shares(bin_counts_of(vals, lo, hi, k), vals.len() as int)
}

pub fn bin_of(v: i128, lo: i128, hi: i128, k: usize) -> (r: usize)
    requires
        -EDGE_BOUND < v < EDGE_BOUND,
        -EDGE_BOUND < lo < EDGE_BOUND,
        -EDGE_BOUND < hi < EDGE_BOUND,
        1 <= k <= MAX_BINS,
    ensures
        r == bin_index(v as int, lo as int, hi as int, k as nat),
        r < k,
{
    if v <= lo {
        proof {
            if hi > lo {
                assert((v - lo) * k <= 0) by (nonlinear_arith)
                    requires v <= lo, k >= 1;
                assert((v - lo) * k / (hi - lo) <= 0) by (nonlinear_arith)
                    requires (v - lo) * k <= 0, hi - lo > 0;
            }
        }
        return 0;
    }
    let d = (v - lo) as u128;
    let raw: u128 = if hi > lo {
        let w = (hi - lo) as u128;
        assert(d * k <= 20_000_000_000_000_000_000_000_000_000 * 1_000_000) by (nonlinear_arith)
            requires d <= 20_000_000_000_000_000_000_000_000_000u128, k <= 1_000_000;
        d * (k as u128) / w
    } else {
        d / (VALUE_SCALE as u128)
    };
    if raw >= k as u128 {
        k - 1
    } else {
        raw as usize
    }
}

/// Counts the values falling into each of `k` bins over `[lo, hi]`.
pub fn bin_counts(vals: &Vec<i128>, lo: i128, hi: i128, k: usize) -> (r: Vec<u64>)
    requires
        forall|i: int| 0 <= i < vals.len() ==> -EDGE_BOUND < #[trigger] vals[i] < EDGE_BOUND,
        -EDGE_BOUND < lo < EDGE_BOUND,
        -EDGE_BOUND < hi < EDGE_BOUND,
        1 <= k <= MAX_BINS,
        vals.len() <= MAX_ROWS,
    ensures
        ints_u64(r@) == bin_counts_of(ints_i128(vals@), lo as int, hi as int, k as nat),
        r.len() == k,
        forall|b: int| 0 <= b < k ==> r[b] <= vals.len(),
{
    let ghost vs = ints_i128(vals@);
    let mut counts: Vec<u64> = Vec::new();
    let mut b: usize = 0;
    while b < k
        invariant
            b <= k,
            counts.len() == b,
            forall|j: int| 0 <= j < b ==> counts[j] == 0,
        decreases k - b,
    {
        counts.push(0);
        b = b + 1;
    }
    let mut i: usize = 0;
    while i < vals.len()
        invariant
            i <= vals.len() <= MAX_ROWS,
            vs == ints_i128(vals@),
            counts.len() == k,
            1 <= k <= MAX_BINS,
            -EDGE_BOUND < lo < EDGE_BOUND,
            -EDGE_BOUND < hi < EDGE_BOUND,
            forall|j: int| 0 <= j < vals.len() ==> -EDGE_BOUND < #[trigger] vals[j] < EDGE_BOUND,
            forall|j: int| 0 <= j < k ==> #[trigger] counts[j] == bin_count(vs.take(i as int), lo as int, hi as int, k as nat, j),
            forall|j: int| 0 <= j < k ==> #[trigger] counts[j] <= i,
        decreases vals.len() - i,
    {
        let bi = bin_of(vals[i], lo, hi, k);
        proof {
            assert(vs.take(i + 1).drop_last() == vs.take(i as int));
            assert(vs.take(i + 1).last() == vals[i as int] as int);
        }
        let c = counts[bi];
        counts.set(bi, c + 1);
        i = i + 1;
    }
    assert(vs.take(i as int) == vs);
    assert(ints_u64(counts@) =~= bin_counts_of(vs, lo as int, hi as int, k as nat));
    counts
}

/// Turns counts out of `total` into probabilities.
pub fn normalize(counts: &Vec<u64>, total: u64) -> (r: Vec<u64>)
    requires
        0 < total <= MAX_ROWS,
        forall|b: int| 0 <= b < counts.len() ==> #[trigger] counts[b] <= total,
    ensures
        ints_u64(r@) == shares(ints_u64(counts@), total as int),
        r.len() == counts.len(),
        forall|b: int| 0 <= b < r.len() ==> #[trigger] r[b] <= PROB_ONE,
{
    let mut out: Vec<u64> = Vec::new();
    let mut b: usize = 0;
    while b < counts.len()
        invariant
            b <= counts.len(),
            0 < total <= MAX_ROWS,
            forall|j: int| 0 <= j < counts.len() ==> #[trigger] counts[j] <= total,
            out.len() == b,
            forall|j: int| 0 <= j < b ==> #[trigger] out[j] == share(counts[j] as int, total as int),
            forall|j: int| 0 <= j < b ==> #[trigger] out[j] <= PROB_ONE,
        decreases counts.len() - b,
    {
        let c = counts[b] as u128;
        assert(c * 1_000_000_000_000_000_000 <= (total as u128) * 1_000_000_000_000_000_000) by (nonlinear_arith)
            requires c <= total;
        let p = c * (PROB_ONE as u128) / (total as u128);
        proof {
            let ci = c as int;
            let ti = total as int;
            let one = PROB_ONE as int;
            assert(ci * one / ti <= one) by (nonlinear_arith)
                requires ci <= ti, ti > 0, one > 0;
        }
        out.push(p as u64);
        b = b + 1;
    }
    assert(ints_u64(out@) =~= shares(ints_u64(counts@), total as int));
    out
}

pub proof fn lemma_sum_update(s: Seq<int>, i: int, x: int)
    requires
        0 <= i < s.len(),
    ensures
        sum_of(s.update(i, x)) == sum_of(s) - s[i] + x,
    decreases s.len(),
{
    let t = s.update(i, x);
    if i == s.len() - 1 {
        assert(t.drop_last() == s.drop_last());
    } else {
        lemma_sum_update(s.drop_last(), i, x);
        assert(t.drop_last() == s.drop_last().update(i, x));
    }
}

/// Every value falls into exactly one bin: the counts add up to the number of values.
pub proof fn lemma_bin_counts_sum(vals: Seq<int>, lo: int, hi: int, k: nat)
    requires
        k >= 1,
    ensures
        sum_of(bin_counts_of(vals, lo, hi, k)) == vals.len(),
    decreases vals.len(),
{
    if vals.len() == 0 {
        lemma_sum_zero(bin_counts_of(vals, lo, hi, k));
    } else {
        let s = vals.drop_last();
        lemma_bin_counts_sum(s, lo, hi, k);
        let bi = bin_index(vals.last(), lo, hi, k);
        let before = bin_counts_of(s, lo, hi, k);
        lemma_sum_update(before, bi, before[bi] + 1);
        assert(bin_counts_of(vals, lo, hi, k) =~= before.update(bi, before[bi] + 1));
    }
}

pub proof fn lemma_sum_zero(s: Seq<int>)
    requires
        forall|i: int| 0 <= i < s.len() ==> s[i] == 0,
    ensures
        sum_of(s) == 0,
    decreases s.len(),
{
    if s.len() > 0 {
        lemma_sum_zero(s.drop_last());
    }
}

/// Truncating each share loses less than one unit per entry.
pub proof fn lemma_shares_bounds(c: Seq<int>, n: int)
    requires
        n > 0,
        forall|i: int| 0 <= i < c.len() ==> c[i] >= 0,
    ensures
        sum_of(shares(c, n)) * n <= sum_of(c) * PROB_ONE,
        sum_of(c) * PROB_ONE < (sum_of(shares(c, n)) + c.len()) * n || c.len() == 0,
    decreases c.len(),
{
    if c.len() > 0 {
        let d = c.drop_last();
        lemma_shares_bounds(d, n);
        assert(shares(c, n).drop_last() == shares(d, n));
        let x = c.last();
        let q = share(x, n);
        let a = sum_of(shares(d, n));
        let s = sum_of(d);
        let one = PROB_ONE as int;
        assert(q * n <= x * one && x * one < (q + 1) * n) by (nonlinear_arith)
            requires q == x * one / n, n > 0;
        assert((a + q) * n <= (s + x) * one) by (nonlinear_arith)
            requires a * n <= s * one, q * n <= x * one;
        if d.len() == 0 {
            assert(a == 0 && s == 0);
            assert((s + x) * one < (a + q + 1) * n) by (nonlinear_arith)
                requires x * one < (q + 1) * n, a == 0, s == 0;
        } else {
            assert((s + x) * one < (a + q + c.len()) * n) by (nonlinear_arith)
                requires s * one < (a + d.len()) * n, x * one < (q + 1) * n, c.len() == d.len() + 1;
        }
    }
}

/// Shares of counts that add up to their total add up to one, less under one
/// unit per entry.
pub proof fn lemma_shares_sum(c: Seq<int>, n: int)
    requires
        n > 0,
        forall|i: int| 0 <= i < c.len() ==> c[i] >= 0,
        sum_of(c) == n,
    ensures
        sum_of(shares(c, n)) <= PROB_ONE,
        sum_of(shares(c, n)) > PROB_ONE - c.len(),
{
    lemma_shares_bounds(c, n);
    let a = sum_of(shares(c, n));
    let one = PROB_ONE as int;
    assert(a <= one) by (nonlinear_arith)
        requires a * n <= n * one, n > 0;
    if c.len() > 0 {
        assert(a + c.len() > one) by (nonlinear_arith)
            requires n * one < (a + c.len()) * n, n > 0;
    } else {
        assert(sum_of(c) == 0);
    }
}

} // verus!
