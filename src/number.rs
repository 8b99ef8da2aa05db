//! Numeric field values: decimal literals with an optional exponent
//! (`-12.5`, `.5`, `3e4`, `2.5E-3`), held with a fixed number of fractional
//! digits and truncated toward zero beyond them.
use crate::decimal::{
    all_digits, decimal_value, digits_value, has_sign, is_digit, lead_digits, lemma_lead_digits,
    lemma_pow10_add, lemma_pow10_monotone, lemma_pow10_positive, lemma_pow10_values,
    parse_decimal, pow10, pow10_exec, unsigned_part,
};
use vstd::math::min;
use vstd::prelude::*;

verus! {

/// Saturation point of digit values read while parsing.
pub const DIGITS_CAP: u128 = 10_000_000_000_000_000_000_000_000_000_000_000_000;

/// Saturation point of an exponent's magnitude while parsing.
pub const EXPONENT_CAP: u128 = 1_000_000_000_000_000_000_000_000_000_000;

pub open spec fn is_exp_char(c: char) -> bool {
    c == 'e' || c == 'E'
}

/// Number of characters before the first exponent marker.
pub open spec fn mantissa_len(s: Seq<char>) -> nat
    decreases s.len(),
{
    if s.len() == 0 || is_exp_char(s[0]) {
        0
    } else {
        1 + mantissa_len(s.drop_first())
    }
}

/// The value of an exponent `[+|-] digits`.
pub open spec fn exponent_of(t: Seq<char>) -> Option<int> {
    let u = unsigned_part(t);
    if u.len() > 0 && all_digits(u) {
        if has_sign(t) && t[0] == '-' {
            Some(-(digits_value(u) as int))
        } else {
            Some(digits_value(u) as int)
        }
    } else {
        None
    }
}

/// The digits of an unsigned mantissa `digits [. digits]` or `. digits`,
/// integer digits first, with the count of fractional digits.
pub open spec fn mantissa_parts(b: Seq<char>) -> Option<(Seq<char>, nat)> {
    let k = lead_digits(b);
    if k == b.len() && k > 0 {
        Some((b, 0))
    } else if k < b.len() && b[k as int] == '.' && all_digits(b.skip(k as int + 1)) && (k > 0 || b.len() > k + 1) {
        Some((b.take(k as int) + b.skip(k as int + 1), (b.len() - k - 1) as nat))
    } else {
        None
    }
}

/// The digits' value times `10^shift`, truncated.
pub open spec fn scaled(d: Seq<char>, shift: int) -> nat {
    if shift >= 0 {
        digits_value(d) * pow10(shift as nat)
    } else if d.len() + shift <= 0 {
        0
    } else {
        digits_value(d.take(d.len() + shift))
    }
}

/// A numeric literal read as an integer count of `10^-places`: a decimal
/// literal, or a mantissa and an exponent; `None` where the text is no
/// such literal or its magnitude reaches `int_bound`.
pub open spec fn number_value(s: Seq<char>, places: nat, int_bound: nat) -> Option<int> {
    let i = mantissa_len(s);
    if i == s.len() {
        decimal_value(s, places, int_bound)
    } else {
        let m = s.take(i as int);
        match (exponent_of(s.skip(i as int + 1)), mantissa_parts(unsigned_part(m))) {
            (Some(e), Some((d, f))) => {
                let u = scaled(d, places + e - f);
                if u < int_bound * pow10(places) {
                    if has_sign(m) && m[0] == '-' {
                        Some(-(u as int))
                    } else {
                        Some(u as int)
                    }
                } else {
                    None
                }
            },
            _ => None,
        }
    }
}

proof fn lemma_mantissa_len(s: Seq<char>, i: int)
    requires
        0 <= i <= s.len(),
        forall|j: int| 0 <= j < i ==> !is_exp_char(#[trigger] s[j]),
        i == s.len() || is_exp_char(s[i]),
    ensures
        mantissa_len(s) == i,
    decreases i,
{
    if i > 0 {
        let t = s.drop_first();
        assert forall|j: int| 0 <= j < i - 1 implies !is_exp_char(#[trigger] t[j]) by {
            assert(t[j] == s[j + 1]);
        }
        if i < s.len() {
            assert(t[i - 1] == s[i]);
        }
        lemma_mantissa_len(t, i - 1);
    }
}

proof fn lemma_digits_value_monotone(s: Seq<char>, j: int)
    requires
        0 <= j <= s.len(),
    ensures
        digits_value(s.take(j)) <= digits_value(s),
    decreases s.len() - j,
{
    if j < s.len() {
        lemma_digits_value_monotone(s, j + 1);
        assert(s.take(j + 1).drop_last() =~= s.take(j));
    } else {
        assert(s.take(j) =~= s);
    }
}

proof fn lemma_digits_all_zero(s: Seq<char>)
    requires
        all_digits(s),
        digits_value(s) == 0,
    ensures
        forall|j: int| 0 <= j <= s.len() ==> digits_value(#[trigger] s.take(j)) == 0,
{
    assert forall|j: int| 0 <= j <= s.len() implies digits_value(#[trigger] s.take(j)) == 0 by {
        lemma_digits_value_monotone(s, j);
    }
}

/// The `j`-th digit of a mantissa starting at `bstart` whose `k` integer
/// digits may be followed by a point.
pub open spec fn mantissa_digit(chars: Seq<char>, bstart: int, k: int, j: int) -> char {
    if j < k {
        chars[bstart + j]
    } else {
        chars[bstart + j + 1]
    }
}

/// Value of the first `count` mantissa digits, saturated at `DIGITS_CAP`.
fn mantissa_prefix_value(chars: &Vec<char>, bstart: usize, k: usize, ndigits: usize, count: usize, d: Ghost<Seq<char>>) -> (r: u128)
    requires
        count <= ndigits,
        d@.len() == ndigits,
        all_digits(d@),
        k <= ndigits,
        bstart + ndigits + (if k < ndigits { 1int } else { 0int }) <= chars.len(),
        forall|j: int| 0 <= j < ndigits ==> #[trigger] d@[j] == mantissa_digit(chars@, bstart as int, k as int, j),
    ensures
        r == min(digits_value(d@.take(count as int)) as int, DIGITS_CAP as int),
{
    let mut acc: u128 = 0;
    let mut j: usize = 0;
    assert(d@.take(0).len() == 0);
    while j < count
        invariant
            j <= count <= ndigits,
            d@.len() == ndigits,
            all_digits(d@),
            k <= ndigits,
            bstart + ndigits + (if k < ndigits { 1int } else { 0int }) <= chars.len(),
            forall|t: int| 0 <= t < ndigits ==> #[trigger] d@[t] == mantissa_digit(chars@, bstart as int, k as int, t),
            acc == min(digits_value(d@.take(j as int)) as int, DIGITS_CAP as int),
        decreases count - j,
    {
        let c = if j < k {
            chars[bstart + j]
        } else {
            chars[bstart + j + 1]
        };
        assert(c == d@[j as int]);
        assert(is_digit(c));
        let dv = (c as u32 - '0' as u32) as u128;
        assert(dv < 10);
        proof {
            assert(d@.take(j + 1).drop_last() =~= d@.take(j as int));
            assert(d@.take(j + 1).last() == c);
        }
        if acc >= DIGITS_CAP {
            acc = DIGITS_CAP;
        } else {
            let next = acc * 10 + dv;
            acc = if next < DIGITS_CAP { next } else { DIGITS_CAP };
        }
        j = j + 1;
    }
    acc
}

} // verus!

verus! {

fn is_digit_char(c: char) -> (r: bool)
    ensures
        r == is_digit(c),
{
    '0' <= c && c <= '9'
}

/// Position of the first exponent marker, or the length.
fn find_exponent(chars: &Vec<char>) -> (r: usize)
    ensures
        r == mantissa_len(chars@),
        r <= chars.len(),
{
    let mut i: usize = 0;
    while i < chars.len() && !(chars[i] == 'e' || chars[i] == 'E')
        invariant
            i <= chars.len(),
            forall|j: int| 0 <= j < i ==> !is_exp_char(#[trigger] chars@[j]),
        decreases chars.len() - i,
    {
        i = i + 1;
    }
    proof {
        lemma_mantissa_len(chars@, i as int);
    }
    i
}

/// Reads the exponent in `chars[start..]`; its magnitude saturates at `EXPONENT_CAP`.
fn parse_exponent(chars: &Vec<char>, start: usize) -> (r: Option<(bool, u128)>)
    requires
        start <= chars.len(),
    ensures
        match r {
            Some((neg, mag)) => exponent_of(chars@.skip(start as int)) matches Some(e) && mag == min(
                if e < 0 {
                    -e
                } else {
                    e
                },
                EXPONENT_CAP as int,
            ) && (neg ==> e <= 0) && (!neg ==> e >= 0),
            None => exponent_of(chars@.skip(start as int)) is None,
        },
{
    let ghost t = chars@.skip(start as int);
    let mut p = start;
    let mut neg = false;
    if p < chars.len() && (chars[p] == '-' || chars[p] == '+') {
        assert(t[0] == chars[p as int]);
        neg = chars[p] == '-';
        p = p + 1;
    }
    let ghost u = unsigned_part(t);
    assert(u =~= chars@.skip(p as int));
    let estart = p;
    if estart == chars.len() {
        return None;
    }
    let mut mag: u128 = 0;
    while p < chars.len()
        invariant
            estart <= p <= chars.len(),
            start <= estart,
            u == chars@.skip(estart as int),
            u == unsigned_part(chars@.skip(start as int)),
            all_digits(u.take(p - estart)),
            mag == min(digits_value(u.take(p - estart)) as int, EXPONENT_CAP as int),
        decreases chars.len() - p,
    {
        let c = chars[p];
        let ghost m = (p - estart) as int;
        assert(u[m] == c);
        if !is_digit_char(c) {
            assert(!all_digits(u));
            return None;
        }
        proof {
            assert(u.take(m + 1).drop_last() =~= u.take(m));
            assert(u.take(m + 1).last() == c);
            assert forall|j: int| 0 <= j < m + 1 implies is_digit(#[trigger] u.take(m + 1)[j]) by {
                if j < m {
                    assert(u.take(m + 1)[j] == u.take(m)[j]);
                }
            }
        }
        let dv = (c as u32 - '0' as u32) as u128;
        assert(dv < 10);
        if mag >= EXPONENT_CAP {
            mag = EXPONENT_CAP;
        } else {
            let next = mag * 10 + dv;
            mag = if next < EXPONENT_CAP { next } else { EXPONENT_CAP };
        }
        p = p + 1;
    }
    assert(u.take(u.len() as int) =~= u);
    Some((neg, mag))
}

/// Reads the mantissa `chars[..end]`: its sign, where its digits start, how
/// many integer digits it has, how many digits in all, and how many of them
/// are fractional.
fn parse_mantissa(chars: &Vec<char>, end: usize) -> (r: Option<(bool, usize, usize, usize, usize)>)
    requires
        end <= chars.len(),
    ensures
        match r {
            Some((neg, bstart, k, ndigits, flen)) => {
                let m = chars@.take(end as int);
                &&& mantissa_parts(unsigned_part(m)) matches Some((d, f))
                &&& f == flen
                &&& d.len() == ndigits
                &&& all_digits(d)
                &&& k <= ndigits
                &&& bstart + ndigits + (if k < ndigits { 1int } else { 0int }) <= chars.len()
                &&& forall|j: int| 0 <= j < ndigits ==> #[trigger] d[j] == mantissa_digit(chars@, bstart as int, k as int, j)
                &&& neg == (has_sign(m) && m[0] == '-')
            },
            None => mantissa_parts(unsigned_part(chars@.take(end as int))) is None,
        },
{
    let ghost m = chars@.take(end as int);
    let mut q: usize = 0;
    let mut neg = false;
    if q < end && (chars[q] == '-' || chars[q] == '+') {
        assert(m[0] == chars[0]);
        neg = chars[q] == '-';
        q = q + 1;
    }
    let bstart = q;
    let ghost b = unsigned_part(m);
    assert(b =~= chars@.subrange(bstart as int, end as int));
    let mut k: usize = 0;
    while bstart + k < end && is_digit_char(chars[bstart + k])
        invariant
            bstart <= end <= chars.len(),
            bstart + k <= end,
            b == chars@.subrange(bstart as int, end as int),
            all_digits(b.take(k as int)),
        decreases end - bstart - k,
    {
        proof {
            assert(b[k as int] == chars[bstart + k]);
            assert forall|j: int| 0 <= j < k + 1 implies is_digit(#[trigger] b.take(k + 1)[j]) by {
                if j < k {
                    assert(b.take(k + 1)[j] == b.take(k as int)[j]);
                } else {
                    assert(b.take(k + 1)[j] == b[k as int]);
                }
            }
        }
        k = k + 1;
    }
    proof {
        if bstart + k < end {
            assert(b[k as int] == chars[bstart + k]);
        }
        lemma_lead_digits(b, k as int);
    }
    if bstart + k == end {
        if k == 0 {
            return None;
        }
        proof {
            assert(b.take(k as int) =~= b);
            assert forall|j: int| 0 <= j < k implies #[trigger] b[j] == mantissa_digit(chars@, bstart as int, k as int, j) by {}
        }
        return Some((neg, bstart, k, k, 0));
    }
    assert(b[k as int] == chars[bstart + k]);
    if chars[bstart + k] != '.' {
        return None;
    }
    let fstart = bstart + k + 1;
    let ghost f = b.skip(k as int + 1);
    assert(f =~= chars@.subrange(fstart as int, end as int));
    let mut j: usize = fstart;
    while j < end
        invariant
            fstart <= j <= end <= chars.len(),
            f == chars@.subrange(fstart as int, end as int),
            f == b.skip(k as int + 1),
            b == unsigned_part(chars@.take(end as int)),
            lead_digits(b) == k,
            k < b.len(),
            forall|t: int| 0 <= t < j - fstart ==> is_digit(#[trigger] f[t]),
        decreases end - j,
    {
        assert(f[j - fstart] == chars[j as int]);
        if !is_digit_char(chars[j]) {
            assert(!all_digits(f));
            return None;
        }
        j = j + 1;
    }
    if k == 0 && fstart == end {
        return None;
    }
    let flen = end - fstart;
    let ghost d = b.take(k as int) + f;
    proof {
        assert forall|t: int| 0 <= t < k + flen implies #[trigger] d[t] == mantissa_digit(chars@, bstart as int, k as int, t) by {
            if t < k {
                assert(d[t] == b[t]);
            } else {
                assert(d[t] == f[t - k]);
            }
        }
        assert forall|t: int| 0 <= t < d.len() implies is_digit(#[trigger] d[t]) by {
            if t < k {
                assert(d[t] == b.take(k as int)[t]);
            } else {
                assert(d[t] == f[t - k]);
            }
        }
    }
    Some((neg, bstart, k, k + flen, flen))
}

} // verus!

verus! {

/// Reads a numeric literal with `places` fractional digits whose magnitude
/// is below `int_bound * 10^places` units.
#[verifier::rlimit(80)]
pub fn parse_number(chars: &Vec<char>, places: u32, int_bound: u128) -> (r: Option<i128>)
    requires
        places <= 18,
        1 <= int_bound <= 10_000_000_000_000_000_000,
    ensures
        r matches Some(v) ==> number_value(chars@, places as nat, int_bound as nat) == Some(v as int),
        r matches Some(v) ==> -(int_bound * pow10(places as nat)) < v < int_bound * pow10(places as nat),
        r is None ==> number_value(chars@, places as nat, int_bound as nat) is None,
{
    let n = chars.len();
    let i = find_exponent(chars);
    if i == n {
        assert(chars@.subrange(0, n as int) =~= chars@);
        return parse_decimal(chars, 0, n, places, int_bound);
    }
    let (eneg, emag) = match parse_exponent(chars, i + 1) {
        None => {
            return None;
        },
        Some(x) => x,
    };
    let (mneg, bstart, k, ndigits, flen) = match parse_mantissa(chars, i) {
        None => {
            return None;
        },
        Some(x) => x,
    };
    let ghost m = chars@.take(i as int);
    let ghost e = exponent_of(chars@.skip(i as int + 1))->0;
    let ghost d = match mantissa_parts(unsigned_part(m)) {
        Some((digits, _)) => digits,
        None => Seq::empty(),
    };
    let scale = pow10_exec(places);
    proof {
        lemma_pow10_values();
        lemma_pow10_monotone(places as nat, 18);
        lemma_pow10_positive(places as nat);
        assert(int_bound * scale <= 10_000_000_000_000_000_000 * 1_000_000_000_000_000_000) by (nonlinear_arith)
            requires int_bound <= 10_000_000_000_000_000_000u128, scale <= 1_000_000_000_000_000_000u128;
        assert(int_bound * scale >= 1) by (nonlinear_arith)
            requires int_bound >= 1, scale >= 1;
    }
    let limit: u128 = int_bound * scale;
    let e_sat: i128 = if eneg { -(emag as i128) } else { emag as i128 };
    let shift: i128 = places as i128 + e_sat - flen as i128;
    let ghost true_shift = places as int + e - flen as int;
    let u: u128 = if shift >= 0 {
        let dv = mantissa_prefix_value(chars, bstart, k, ndigits, ndigits, Ghost(d));
        assert(d.take(ndigits as int) =~= d);
        if dv == 0 {
            proof {
                assert(digits_value(d) == 0);
                if e > EXPONENT_CAP {
                    assert(emag == EXPONENT_CAP);
                }
                assert(true_shift >= 0);
                let pw = pow10(true_shift as nat);
                assert(digits_value(d) * pw == 0) by (nonlinear_arith)
                    requires digits_value(d) == 0;
                assert(scaled(d, true_shift) == 0);
            }
            0
        } else if shift > 37 {
            proof {
                assert(true_shift >= shift);
                lemma_pow10_monotone(38, true_shift as nat);
                assert(digits_value(d) >= 1);
                let p = pow10(true_shift as nat);
                assert(digits_value(d) * p >= p) by (nonlinear_arith)
                    requires digits_value(d) >= 1, p >= 0;
            }
            return None;
        } else {
            let sc = pow10_exec(shift as u32);
            proof {
                lemma_pow10_positive(shift as nat);
                if e > EXPONENT_CAP {
                    assert(false);
                }
                assert(true_shift == shift);
            }
            if dv > (limit - 1) / sc {
                proof {
                    let dd = digits_value(d) as int;
                    let li = limit as int;
                    let si = sc as int;
                    let di = dv as int;
                    assert(dd >= di);
                    assert(di > (li - 1) / si);
                    assert(dd * si >= li) by (nonlinear_arith)
                        requires dd >= di, di > (li - 1) / si, si > 0, li >= 1;
                }
                return None;
            }
            proof {
                let li = limit as int;
                let si = sc as int;
                let di = dv as int;
                assert(di <= (li - 1) / si);
                assert(di * si <= li - 1) by (nonlinear_arith)
                    requires di <= (li - 1) / si, si > 0, li >= 1, di >= 0;
                assert(dv < DIGITS_CAP) by {
                    assert(limit <= 10_000_000_000_000_000_000_000_000_000_000_000_000);
                    assert(dv * sc >= dv) by (nonlinear_arith)
                        requires sc >= 1, dv >= 0;
                }
                assert(dv == digits_value(d));
                assert(pow10(shift as nat) == sc);
                assert(scaled(d, true_shift) == dv * sc);
            }
            dv * sc
        }
    } else {
        let keep: i128 = ndigits as i128 + shift;
        if keep <= 0 {
            proof {
                if e < -(EXPONENT_CAP as int) {
                    assert(true_shift <= shift);
                }
                assert(true_shift <= shift);
                assert(d.len() + true_shift <= 0);
                assert(scaled(d, true_shift) == 0);
            }
            0
        } else {
            proof {
                if e < -(EXPONENT_CAP as int) {
                    assert(false);
                }
                if e > EXPONENT_CAP as int {
                    assert(false);
                }
                assert(true_shift == shift);
            }
            let w = mantissa_prefix_value(chars, bstart, k, ndigits, keep as usize, Ghost(d));
            proof {
                assert(d.len() + true_shift == keep);
                if w < DIGITS_CAP {
                    assert(scaled(d, true_shift) == w);
                }
            }
            w
        }
    };
    proof {
        assert(u < DIGITS_CAP ==> scaled(d, true_shift) == u);
    }
    if u >= limit {
        proof {
            if u == DIGITS_CAP {
                lemma_digits_value_monotone(d, (ndigits as int + shift) as int);
            }
        }
        return None;
    }
    let v = u as i128;
    proof {
        assert(limit <= 10_000_000_000_000_000_000_000_000_000_000_000_000);
        assert(scaled(d, true_shift) == u);
        assert(limit == int_bound * pow10(places as nat));
        assert(mantissa_len(chars@) == i);
        assert(exponent_of(chars@.skip(i as int + 1)) == Some(e));
        assert(mantissa_parts(unsigned_part(m)) == Some((d, flen as nat)));
        assert(number_value(chars@, places as nat, int_bound as nat) == if mneg {
            Some(-(u as int))
        } else {
            Some(u as int)
        });
    }
    if mneg {
        Some(-v)
    } else {
        Some(v)
    }
}

} // verus!
