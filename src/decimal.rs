//! Fixed-point decimal numbers: reading them from text and writing them back.
//!
//! A number with `places` fractional digits is held as the integer
//! `value * 10^places`.  Digits beyond `places` are dropped (the value is
//! truncated toward zero).
use vstd::math::min;
use vstd::prelude::*;

verus! {

pub open spec fn is_digit(c: char) -> bool {
    '0' <= c && c <= '9'
}

pub open spec fn digit_val(c: char) -> nat {
    ((c as u32) - ('0' as u32)) as nat
}

pub open spec fn digit_char(d: nat) -> char {
    ((d + 48) as u32) as char
}

pub open spec fn all_digits(s: Seq<char>) -> bool {
    forall|i: int| 0 <= i < s.len() ==> is_digit(#[trigger] s[i])
}

/// The value of a string of decimal digits.
pub open spec fn digits_value(s: Seq<char>) -> nat
    decreases s.len(),
{
    if s.len() == 0 {
        0
    } else {
        digits_value(s.drop_last()) * 10 + digit_val(s.last())
    }
}

pub open spec fn pow10(n: nat) -> nat
    decreases n,
{
    if n == 0 {
        1
    } else {
        10 * pow10((n - 1) as nat)
    }
}

/// Number of leading decimal digits.
pub open spec fn lead_digits(s: Seq<char>) -> nat
    decreases s.len(),
{
    if s.len() == 0 || !is_digit(s[0]) {
        0
    } else {
        1 + lead_digits(s.drop_first())
    }
}

/// The fractional digits `f` in units of `10^-places`, truncated.
pub open spec fn frac_units(f: Seq<char>, places: nat) -> nat {
    if f.len() >= places {
        digits_value(f.take(places as int))
    } else {
        digits_value(f) * pow10((places - f.len()) as nat)
    }
}

pub open spec fn has_sign(s: Seq<char>) -> bool {
    s.len() > 0 && (s[0] == '-' || s[0] == '+')
}

/// The unsigned part of a literal, after an optional sign.
pub open spec fn unsigned_part(s: Seq<char>) -> Seq<char> {
    if has_sign(s) {
        s.drop_first()
    } else {
        s
    }
}

/// The magnitude of a decimal literal `digits [. digits]` (or `. digits`),
/// in units of `10^-places`, when its integer part is below `int_bound`.
pub open spec fn magnitude_of(b: Seq<char>, places: nat, int_bound: nat) -> Option<nat> {
    let k = lead_digits(b);
    let ival = digits_value(b.take(k as int));
    let frac = b.skip(k as int + 1);
    if k == b.len() && k > 0 && ival < int_bound {
        Some(ival * pow10(places))
    } else if k < b.len() && b[k as int] == '.' && all_digits(frac) && (k > 0 || frac.len() > 0)
        && ival < int_bound {
        Some(ival * pow10(places) + frac_units(frac, places))
    } else {
        None
    }
}

/// A decimal literal `[+|-] digits [. digits]`, read as an integer count of
/// `10^-places`; `None` where the text is no such literal or its integer
/// part is not below `int_bound`.
pub open spec fn decimal_value(s: Seq<char>, places: nat, int_bound: nat) -> Option<int> {
    match magnitude_of(unsigned_part(s), places, int_bound) {
        Some(m) => if has_sign(s) && s[0] == '-' {
            Some(-m)
        } else {
            Some(m as int)
        },
        None => None,
    }
}

pub proof fn lemma_pow10_positive(n: nat)
    ensures
        pow10(n) >= 1,
    decreases n,
{
    if n > 0 {
        lemma_pow10_positive((n - 1) as nat);
    }
}

pub proof fn lemma_pow10_add(a: nat, b: nat)
    ensures
        pow10(a + b) == pow10(a) * pow10(b),
    decreases a,
{
    if a > 0 {
let a1 = (a - 1) as nat;
        lemma_pow10_add(a1, b);
        assert((a + b - 1) as nat == a1 + b);
        let p = pow10(a1);
        let q = pow10(b);
        assert(pow10(a + b) == 10 * (p * q));
        assert(pow10(a) == 10 * p);
        assert(10 * (p * q) == (10 * p) * q) by (nonlinear_arith);
    } else {
        assert(pow10(0) == 1);
        assert(a + b == b);
    }
}

pub proof fn lemma_lead_digits(s: Seq<char>, i: int)
    requires
        0 <= i <= s.len(),
        all_digits(s.take(i)),
        i == s.len() || !is_digit(s[i]),
    ensures
        lead_digits(s) == i,
    decreases i,
{
    if i > 0 {
        assert(is_digit(s.take(i)[0]));
        let t = s.drop_first();
        assert forall|j: int| 0 <= j < i - 1 implies is_digit(#[trigger] t.take(i - 1)[j]) by {
            assert(s.take(i)[j + 1] == t.take(i - 1)[j]);
        }
        if i < s.len() {
            assert(t[i - 1] == s[i]);
        }
        lemma_lead_digits(t, i - 1);
    }
}

/// Powers of ten that fit in 128 bits.
pub fn pow10_exec(n: u32) -> (r: u128)
    requires
        n <= 38,
    ensures
        r == pow10(n as nat),
{
    let mut r: u128 = 1;
    let mut i: u32 = 0;
    while i < n
        invariant
            i <= n <= 38,
            r == pow10(i as nat),
        decreases n - i,
    {
        proof {
            lemma_pow10_add(i as nat, 1);
            lemma_pow10_monotone((i + 1) as nat, 38);
            lemma_pow10_values();
        }
        r = r * 10;
        i = i + 1;
    }
    r
}

pub proof fn lemma_pow10_values()
    ensures
        pow10(1) == 10,
        pow10(9) == 1_000_000_000,
        pow10(18) == 1_000_000_000_000_000_000,
        pow10(38) == 100_000_000_000_000_000_000_000_000_000_000_000_000,
{
    reveal_with_fuel(pow10, 39);
}

pub proof fn lemma_pow10_monotone(a: nat, b: nat)
    requires
        a <= b,
    ensures
        pow10(a) <= pow10(b),
    decreases b,
{
    if a < b {
        lemma_pow10_monotone(a, (b - 1) as nat);
        lemma_pow10_positive((b - 1) as nat);
    }
}

#[verifier::rlimit(60)]
/// Reads `chars[start..end]` as a decimal literal with `places` fractional
/// digits whose integer part is below `int_bound`.
pub fn parse_decimal(chars: &Vec<char>, start: usize, end: usize, places: u32, int_bound: u128) -> (r:
    Option<i128>)
    requires
        start <= end <= chars.len(),
        places <= 18,
        int_bound <= 10_000_000_000_000_000_000,
    ensures
        r matches Some(v) ==> decimal_value(chars@.subrange(start as int, end as int), places as nat, int_bound as nat) == Some(v as int),
        r is None ==> decimal_value(chars@.subrange(start as int, end as int), places as nat, int_bound as nat) is None,
        r matches Some(v) ==> -(int_bound * pow10(places as nat)) < v < int_bound * pow10(places as nat),
{
    let ghost s = chars@.subrange(start as int, end as int);
    let mut i: usize = start;
    let mut neg = false;
    if i < end && (chars[i] == '-' || chars[i] == '+') {
        neg = chars[i] == '-';
        i = i + 1;
    }
    let ghost b = unsigned_part(s);
    assert(b == chars@.subrange(i as int, end as int));
    let body_start = i;
    // integer part, saturated at the bound
    let mut ival: u128 = 0;
    while i < end && '0' <= chars[i] && chars[i] <= '9'
        invariant
            body_start <= i <= end <= chars.len(),
            b == chars@.subrange(body_start as int, end as int),
            all_digits(b.take(i - body_start)),
            ival as nat == if digits_value(b.take(i - body_start)) < int_bound as nat {
                digits_value(b.take(i - body_start))
            } else {
                int_bound as nat
            },
            int_bound <= 10_000_000_000_000_000_000,
        decreases end - i,
    {
        let ghost k = (i - body_start) as int;
        let d = (chars[i] as u32 - '0' as u32) as u128;
        proof {
            assert(b.take(k + 1).drop_last() == b.take(k));
            assert(b.take(k + 1).last() == chars[i as int]);
            assert forall|j: int| 0 <= j < k + 1 implies is_digit(#[trigger] b.take(k + 1)[j]) by {
                if j < k {
                    assert(b.take(k + 1)[j] == b.take(k)[j]);
                }
            }
        }
        let next = ival * 10 + d;
        ival = if next < int_bound { next } else { int_bound };
        i = i + 1;
    }
    let k = i - body_start;
    proof {
        lemma_lead_digits(b, k as int);
    }
    if ival >= int_bound {
        return None;
    }
    let scale = pow10_exec(places);
    proof {
        lemma_pow10_positive(places as nat);
        lemma_pow10_monotone(places as nat, 18);
        lemma_pow10_values();
        assert(ival * scale <= 10_000_000_000_000_000_000 * 1_000_000_000_000_000_000) by (nonlinear_arith)
            requires ival < 10_000_000_000_000_000_000u128, scale <= 1_000_000_000_000_000_000u128;
    }
    let mut mag: u128 = ival * scale;
    if i < end {
        if chars[i] != '.' {
            return None;
        }
        let frac_start = i + 1;
        let ghost f = b.skip(k as int + 1);
        assert(f == chars@.subrange(frac_start as int, end as int));
        if k == 0 && frac_start == end {
            return None;
        }
        let mut fv: u128 = 0;
        let mut j: usize = frac_start;
        while j < end
            invariant
                frac_start <= j <= end <= chars.len(),
                f == chars@.subrange(frac_start as int, end as int),
                f == b.skip(k as int + 1),
                b == unsigned_part(chars@.subrange(start as int, end as int)),
                start <= end,
                lead_digits(b) == k,
                k < b.len(),
                all_digits(f.take(j - frac_start)),
                places <= 18,
                fv == digits_value(f.take(min((j - frac_start) as int, places as int))),
                fv < pow10(min((j - frac_start) as int, places as int) as nat),
            decreases end - j,
        {
            let c = chars[j];
            if !('0' <= c && c <= '9') {
                assert(!is_digit(f[j - frac_start]));
                assert(!all_digits(f));
                assert(magnitude_of(b, places as nat, int_bound as nat) is None);
                return None;
            }
            let ghost m = (j - frac_start) as int;
            proof {
                assert forall|t: int| 0 <= t < m + 1 implies is_digit(#[trigger] f.take(m + 1)[t]) by {
                    if t < m {
                        assert(f.take(m + 1)[t] == f.take(m)[t]);
                    }
                }
            }
            if j - frac_start < places as usize {
                proof {
                    assert(f.take(m + 1).drop_last() == f.take(m));
                    assert(f.take(m + 1).last() == c);
                    lemma_pow10_monotone((m + 1) as nat, 18);
                    lemma_pow10_values();
                    assert(pow10((m + 1) as nat) == 10 * pow10(m as nat));
                }
                fv = fv * 10 + (c as u32 - '0' as u32) as u128;
            }
            j = j + 1;
        }
        assert(f.take(f.len() as int) == f);
        let flen = end - frac_start;
        if flen < places as usize {
            let pad = pow10_exec(places - flen as u32);
            proof {
                lemma_pow10_add(flen as nat, (places - flen) as nat);
                lemma_pow10_positive((places - flen) as nat);
                lemma_pow10_monotone(places as nat, 18);
                lemma_pow10_values();
                assert(fv * pad < pow10(flen as nat) * pad) by (nonlinear_arith)
                    requires fv < pow10(flen as nat), pad > 0;
            }
            fv = fv * pad;
        }
        proof {
            assert(fv == frac_units(f, places as nat));
            assert(fv < scale);
            assert(ival * scale + fv < int_bound * scale) by (nonlinear_arith)
                requires ival < int_bound, fv < scale;
            lemma_pow10_monotone(places as nat, 18);
            lemma_pow10_values();
            assert(ival * scale <= 10_000_000_000_000_000_000 * 1_000_000_000_000_000_000) by (nonlinear_arith)
                requires ival < 10_000_000_000_000_000_000u128, scale <= 1_000_000_000_000_000_000u128;
        }
        mag = mag + fv;
    } else {
        proof {
            lemma_pow10_monotone(places as nat, 18);
            lemma_pow10_values();
            assert(ival * scale <= 10_000_000_000_000_000_000 * 1_000_000_000_000_000_000) by (nonlinear_arith)
                requires ival < 10_000_000_000_000_000_000u128, scale <= 1_000_000_000_000_000_000u128;
        }
        if k == 0 {
            return None;
        }
        assert(ival * scale < int_bound * scale) by (nonlinear_arith)
            requires ival < int_bound, scale > 0;
    }
    let v = mag as i128;
    if neg {
        Some(-v)
    } else {
        Some(v)
    }
}

} // verus!

verus! {

/// The decimal digits of `n`, without leading zeros ("0" for zero).
pub open spec fn nat_digits(n: nat) -> Seq<char>
    decreases n,
{
    if n < 10 {
        seq![digit_char(n)]
    } else {
        nat_digits(n / 10).push(digit_char(n % 10))
    }
}

/// The last `width` decimal digits of `n`, with leading zeros.
pub open spec fn padded_digits(n: nat, width: nat) -> Seq<char>
    decreases width,
{
    if width == 0 {
        Seq::empty()
    } else {
        padded_digits(n / 10, (width - 1) as nat).push(digit_char(n % 10))
    }
}

pub open spec fn abs_int(v: int) -> nat {
    if v < 0 {
        (-v) as nat
    } else {
        v as nat
    }
}

/// The text of `v / 10^places`: an optional `-`, the integer digits, a `.`
/// and exactly `places` fractional digits.
pub open spec fn decimal_text(v: int, places: nat) -> Seq<char> {
    let m = abs_int(v);
    let sign = if v < 0 {
        seq!['-']
    } else {
        Seq::<char>::empty()
    };
    sign + nat_digits(m / pow10(places)) + seq!['.'] + padded_digits(m % pow10(places), places)
}

/// Appends the digits of `n`.
pub fn write_nat(out: &mut String, n: u128)
    ensures
        final(out)@ == old(out)@ + nat_digits(n as nat),
    decreases n,
{
    if n < 10 {
        crate::text::push_char(out, digit_to_char(n));
        assert(nat_digits(n as nat) =~= seq![digit_char(n as nat)]);
    } else {
        write_nat(out, n / 10);
        crate::text::push_char(out, digit_to_char(n % 10));
    }
}

fn digit_to_char(d: u128) -> (c: char)
    requires
        d < 10,
    ensures
        c == digit_char(d as nat),
{
    match d {
        0 => '0',
        1 => '1',
        2 => '2',
        3 => '3',
        4 => '4',
        5 => '5',
        6 => '6',
        7 => '7',
        8 => '8',
        _ => '9',
    }
}

/// Appends the last `width` digits of `n`, zero padded.
pub fn write_padded(out: &mut String, n: u128, width: u32)
    ensures
        final(out)@ == old(out)@ + padded_digits(n as nat, width as nat),
    decreases width,
{
    if width == 0 {
        assert(padded_digits(n as nat, 0) =~= Seq::<char>::empty());
    } else {
        write_padded(out, n / 10, width - 1);
        crate::text::push_char(out, digit_to_char(n % 10));
    }
}

/// Appends the text of `v / 10^places`.
pub fn write_decimal(out: &mut String, v: i128, places: u32)
    requires
        places <= 18,
    ensures
        final(out)@ == old(out)@ + decimal_text(v as int, places as nat),
{
    let m: u128 = if v < 0 {
        if v == i128::MIN {
            (i128::MAX as u128) + 1
        } else {
            (-v) as u128
        }
    } else {
        v as u128
    };
    assert(m == abs_int(v as int));
    let scale = pow10_exec(places);
    proof {
        lemma_pow10_positive(places as nat);
    }
    let ghost start = out@;
    if v < 0 {
        crate::text::push_char(out, '-');
    }
    let ghost signed = out@;
    write_nat(out, m / scale);
    crate::text::push_char(out, '.');
    write_padded(out, m % scale, places);
    assert(out@ =~= start + decimal_text(v as int, places as nat));
}

} // verus!

verus! {

pub proof fn lemma_digit_char(d: nat)
    requires
        d < 10,
    ensures
        is_digit(digit_char(d)),
        digit_val(digit_char(d)) == d,
{
    if d == 0 {
        assert(digit_char(0) == '0');
    } else if d == 1 {
        assert(digit_char(1) == '1');
    } else if d == 2 {
        assert(digit_char(2) == '2');
    } else if d == 3 {
        assert(digit_char(3) == '3');
    } else if d == 4 {
        assert(digit_char(4) == '4');
    } else if d == 5 {
        assert(digit_char(5) == '5');
    } else if d == 6 {
        assert(digit_char(6) == '6');
    } else if d == 7 {
        assert(digit_char(7) == '7');
    } else if d == 8 {
        assert(digit_char(8) == '8');
    } else {
        assert(digit_char(9) == '9');
    }
}

pub proof fn lemma_nat_digits(n: nat)
    ensures
        nat_digits(n).len() >= 1,
        all_digits(nat_digits(n)),
        digits_value(nat_digits(n)) == n,
    decreases n,
{
    lemma_digit_char(n % 10);
    if n < 10 {
        lemma_digit_char(n);
        assert(seq![digit_char(n)].drop_last() =~= Seq::<char>::empty());
        assert(digits_value(Seq::<char>::empty()) == 0);
        assert(seq![digit_char(n)].last() == digit_char(n));
    } else {
        lemma_nat_digits(n / 10);
        let s = nat_digits(n / 10);
        assert(s.push(digit_char(n % 10)).drop_last() == s);
        assert(n == (n / 10) * 10 + n % 10);
        assert forall|i: int| 0 <= i < s.len() + 1 implies is_digit(#[trigger] s.push(digit_char(n % 10))[i]) by {
            if i < s.len() {
                assert(s.push(digit_char(n % 10))[i] == s[i]);
            }
        }
    }
}

pub proof fn lemma_padded_digits(n: nat, w: nat)
    ensures
        padded_digits(n, w).len() == w,
        all_digits(padded_digits(n, w)),
        digits_value(padded_digits(n, w)) == n % pow10(w),
    decreases w,
{
    if w == 0 {
        assert(padded_digits(n, 0).len() == 0);
    } else {
        let w1 = (w - 1) as nat;
        lemma_padded_digits(n / 10, w1);
        lemma_digit_char(n % 10);
        let s = padded_digits(n / 10, w1);
        assert(s.push(digit_char(n % 10)).drop_last() == s);
        assert forall|i: int| 0 <= i < s.len() + 1 implies is_digit(#[trigger] s.push(digit_char(n % 10))[i]) by {
            if i < s.len() {
                assert(s.push(digit_char(n % 10))[i] == s[i]);
            }
        }
        let p = pow10(w1);
        lemma_pow10_positive(w1);
        assert(pow10(w) == 10 * p);
        let a = n / 10;
        let b = n % 10;
        let e = a % p;
        let c = a / p;
        assert(n == 10 * a + b);
        vstd::arithmetic::div_mod::lemma_breakdown(n as int, 10, p as int);
    }
}

/// A decimal text reads back as the value it was written from.
pub proof fn lemma_decimal_round_trip(v: int, places: nat, int_bound: nat)
    requires
        abs_int(v) / pow10(places) < int_bound,
    ensures
        decimal_value(decimal_text(v, places), places, int_bound) == Some(v),
{
    let m = abs_int(v);
    lemma_pow10_positive(places);
    let q = m / pow10(places);
    let r = m % pow10(places);
    let nd = nat_digits(q);
    let pd = padded_digits(r, places);
    lemma_nat_digits(q);
    lemma_padded_digits(r, places);
    let b = nd + seq!['.'] + pd;
    let t = decimal_text(v, places);
    if v < 0 {
        assert(t == seq!['-'] + b);
        assert(t.drop_first() =~= b);
    } else {
        assert(t =~= b);
        assert(is_digit(nd[0]));
        assert(t[0] == nd[0]);
    }
    assert(unsigned_part(t) == b);
    assert(b.take(nd.len() as int) =~= nd);
    assert(b[nd.len() as int] == '.');
    lemma_lead_digits(b, nd.len() as int);
    assert(b.skip(nd.len() as int + 1) =~= pd);
    assert(pd.take(places as int) =~= pd);
    assert(r % pow10(places) == r) by {
        vstd::arithmetic::div_mod::lemma_mod_twice(m as int, pow10(places) as int);
    }
    assert(m == q * pow10(places) + r) by {
        vstd::arithmetic::div_mod::lemma_fundamental_div_mod(m as int, pow10(places) as int);
    }
}

} // verus!
