//! The stored form of a feature's distribution, as JSON text:
//! `{"bins":[..],"probabilities":[..]}` for a histogram and
//! `{"frequencies":{"category":p,..}}` for a frequency map.  Numbers are
//! written as exact decimals: edges with `VALUE_PLACES` and probabilities
//! with `PROB_PLACES` fractional digits.
use crate::decimal::{
    abs_int, decimal_text, decimal_value, is_digit, lemma_decimal_round_trip,
    lemma_nat_digits, lemma_padded_digits, nat_digits, padded_digits, pow10,
};
use crate::model::{categorical_wf, numeric_wf, EDGE_BOUND, PROB_ONE};
use vstd::prelude::*;

verus! {

/// Integer-part bound of a stored edge (edges lie within `EDGE_BOUND`).
pub const EDGE_INT_BOUND: u128 = 10_000_000_000_000_000_000;

/// Integer-part bound of a stored probability.
pub const PROB_INT_BOUND: u128 = 2;

pub open spec fn is_num_char(c: char) -> bool {
    is_digit(c) || c == '-' || c == '+' || c == '.'
}

/// Length of the leading run of number characters.
pub open spec fn num_span(s: Seq<char>) -> nat
    decreases s.len(),
{
    if s.len() == 0 || !is_num_char(s[0]) {
        0
    } else {
        1 + num_span(s.drop_first())
    }
}

/// Numbers separated by commas.
pub open spec fn num_list(xs: Seq<int>, places: nat) -> Seq<char>
    decreases xs.len(),
{
    if xs.len() == 0 {
        Seq::empty()
    } else if xs.len() == 1 {
        decimal_text(xs[0], places)
    } else {
        decimal_text(xs[0], places) + seq![','] + num_list(xs.drop_first(), places)
    }
}

/// Reads one or more comma-separated numbers; yields them and what follows.
pub open spec fn parse_num_list(s: Seq<char>, places: nat, int_bound: nat) -> Option<(Seq<int>, Seq<char>)>
    decreases s.len(),
{
    let n = num_span(s);
    if n == 0 || n > s.len() {
        None
    } else {
        match decimal_value(s.take(n as int), places, int_bound) {
            None => None,
            Some(v) => {
                let rest = s.skip(n as int);
                if rest.len() > 0 && rest[0] == ',' {
                    match parse_num_list(rest.drop_first(), places, int_bound) {
                        Some((vs, r)) => Some((seq![v] + vs, r)),
                        None => None,
                    }
                } else {
                    Some((seq![v], rest))
                }
            },
        }
    }
}

pub open spec fn hex_char(d: nat) -> char {
    if d < 10 {
        crate::decimal::digit_char(d)
    } else {
        ((d + 87) as u32) as char
    }
}

pub open spec fn is_hex(c: char) -> bool {
    is_digit(c) || ('a' <= c && c <= 'f')
}

pub open spec fn hex_val(c: char) -> nat {
    if is_digit(c) {
        crate::decimal::digit_val(c)
    } else {
        ((c as u32) - 87) as nat
    }
}

/// The escaped form of one character inside a JSON string.
pub open spec fn escape_char(c: char) -> Seq<char> {
    if c == '"' || c == '\\' {
        seq!['\\', c]
    } else if (c as u32) < 32 {
        seq!['\\', 'u', '0', '0', hex_char((c as u32) as nat / 16), hex_char((c as u32) as nat % 16)]
    } else {
        seq![c]
    }
}

pub open spec fn escape(k: Seq<char>) -> Seq<char>
    decreases k.len(),
{
    if k.len() == 0 {
        Seq::empty()
    } else {
        escape_char(k[0]) + escape(k.drop_first())
    }
}

/// Reads the rest of a JSON string up to its closing quote; yields its
/// characters and what follows the quote.
pub open spec fn parse_string_body(s: Seq<char>) -> Option<(Seq<char>, Seq<char>)>
    decreases s.len(),
{
    if s.len() == 0 {
        None
    } else if s[0] == '"' {
        Some((Seq::empty(), s.drop_first()))
    } else if s[0] == '\\' {
        if s.len() >= 2 && (s[1] == '"' || s[1] == '\\') {
            match parse_string_body(s.skip(2)) {
                Some((k, r)) => Some((seq![s[1]] + k, r)),
                None => None,
            }
        } else if s.len() >= 6 && s[1] == 'u' && is_hex(s[2]) && is_hex(s[3]) && is_hex(s[4]) && is_hex(s[5]) {
            let code = ((hex_val(s[2]) * 16 + hex_val(s[3])) * 16 + hex_val(s[4])) * 16 + hex_val(s[5]);
            if code < 0x80 {
                match parse_string_body(s.skip(6)) {
                    Some((k, r)) => Some((seq![(code as u32) as char] + k, r)),
                    None => None,
                }
            } else {
                None
            }
        } else {
            None
        }
    } else {
        match parse_string_body(s.drop_first()) {
            Some((k, r)) => Some((seq![s[0]] + k, r)),
            None => None,
        }
    }
}

pub open spec fn entry_text(k: Seq<char>, p: int) -> Seq<char> {
    seq!['"'] + escape(k) + seq!['"', ':'] + decimal_text(p, crate::model::PROB_PLACES as nat)
}

pub open spec fn entries_text(ks: Seq<Seq<char>>, ps: Seq<int>) -> Seq<char>
    decreases ks.len(),
{
    if ks.len() == 0 {
        Seq::empty()
    } else if ks.len() == 1 {
        entry_text(ks[0], ps[0])
    } else {
        entry_text(ks[0], ps[0]) + seq![','] + entries_text(ks.drop_first(), ps.drop_first())
    }
}

/// Reads one or more `"key":number` entries separated by commas.
pub open spec fn parse_entries(s: Seq<char>) -> Option<(Seq<Seq<char>>, Seq<int>, Seq<char>)>
    decreases s.len(),
{
    if s.len() == 0 || s[0] != '"' {
        None
    } else {
        match parse_string_body(s.drop_first()) {
            None => None,
            Some((k, r1)) => {
                if r1.len() == 0 || r1[0] != ':' || r1.len() >= s.len() {
                    None
                } else {
                    let r2 = r1.drop_first();
                    let n = num_span(r2);
                    if n == 0 || n > r2.len() {
                        None
                    } else {
                        match decimal_value(r2.take(n as int), crate::model::PROB_PLACES as nat, PROB_INT_BOUND as nat) {
                            None => None,
                            Some(v) => {
                                let r3 = r2.skip(n as int);
                                if r3.len() > 0 && r3[0] == ',' {
                                    match parse_entries(r3.drop_first()) {
                                        Some((ks, ps, r)) => Some((seq![k] + ks, seq![v] + ps, r)),
                                        None => None,
                                    }
                                } else {
                                    Some((seq![k], seq![v], r3))
                                }
                            },
                        }
                    }
                }
            },
        }
    }
}

pub open spec fn numeric_text(bins: Seq<int>, probs: Seq<int>) -> Seq<char> {
    "{\"bins\":["@ + num_list(bins, crate::model::VALUE_PLACES as nat) + "],\"probabilities\":["@
        + num_list(probs, crate::model::PROB_PLACES as nat) + "]}"@
}

pub open spec fn categorical_text(ks: Seq<Seq<char>>, ps: Seq<int>) -> Seq<char> {
    "{\"frequencies\":{"@ + entries_text(ks, ps) + "}}"@
}

pub open spec fn starts_with(s: Seq<char>, p: Seq<char>) -> bool {
    s.len() >= p.len() && s.take(p.len() as int) == p
}

/// The histogram a stored text describes, if it is one and well formed.
pub open spec fn decode_numeric(s: Seq<char>) -> Option<(Seq<int>, Seq<int>)> {
    let head = "{\"bins\":["@;
    let mid = "],\"probabilities\":["@;
    if !starts_with(s, head) {
        None
    } else {
        match parse_num_list(s.skip(head.len() as int), crate::model::VALUE_PLACES as nat, EDGE_INT_BOUND as nat) {
            None => None,
            Some((bins, r)) => if !starts_with(r, mid) {
                None
            } else {
                match parse_num_list(r.skip(mid.len() as int), crate::model::PROB_PLACES as nat, PROB_INT_BOUND as nat) {
                    None => None,
                    Some((probs, r2)) => if r2 == "]}"@ && numeric_wf(bins, probs) {
                        Some((bins, probs))
                    } else {
                        None
                    },
                }
            },
        }
    }
}

/// The frequency map a stored text describes, if it is one and well formed.
pub open spec fn decode_categorical(s: Seq<char>) -> Option<(Seq<Seq<char>>, Seq<int>)> {
    let head = "{\"frequencies\":{"@;
    if !starts_with(s, head) {
        None
    } else {
        let body = s.skip(head.len() as int);
        if body == "}}"@ {
            Some((Seq::empty(), Seq::empty()))
        } else {
            match parse_entries(body) {
                None => None,
                Some((ks, ps, r)) => if r == "}}"@ && categorical_wf(ks, ps) {
                    Some((ks, ps))
                } else {
                    None
                },
            }
        }
    }
}

} // verus!

verus! {

proof fn lemma_num_span(a: Seq<char>, b: Seq<char>)
    requires
        forall|i: int| 0 <= i < a.len() ==> is_num_char(#[trigger] a[i]),
        b.len() == 0 || !is_num_char(b[0]),
    ensures
        num_span(a + b) == a.len(),
    decreases a.len(),
{
    if a.len() == 0 {
        assert(a + b =~= b);
    } else {
        let t = a.drop_first();
        assert forall|i: int| 0 <= i < t.len() implies is_num_char(#[trigger] t[i]) by {
            assert(t[i] == a[i + 1]);
        }
        lemma_num_span(t, b);
        assert((a + b).drop_first() =~= t + b);
        assert((a + b)[0] == a[0]);
    }
}

proof fn lemma_decimal_text_chars(v: int, places: nat)
    ensures
        forall|i: int| 0 <= i < decimal_text(v, places).len() ==> is_num_char(#[trigger] decimal_text(v, places)[i]),
        decimal_text(v, places).len() > 0,
{
    let m = abs_int(v);
    crate::decimal::lemma_pow10_positive(places);
    let nd = nat_digits(m / pow10(places));
    let pd = padded_digits(m % pow10(places), places);
    lemma_nat_digits(m / pow10(places));
    lemma_padded_digits(m % pow10(places), places);
    let t = decimal_text(v, places);
    let sign = if v < 0 {
        seq!['-']
    } else {
        Seq::<char>::empty()
    };
    assert(t == sign + nd + seq!['.'] + pd);
    assert forall|i: int| 0 <= i < t.len() implies is_num_char(#[trigger] t[i]) by {
        if i < sign.len() {
            assert(t[i] == '-');
        } else if i < sign.len() + nd.len() {
            assert(t[i] == nd[i - sign.len()]);
        } else if i == sign.len() + nd.len() {
            assert(t[i] == '.');
        } else {
            assert(t[i] == pd[i - sign.len() - nd.len() - 1]);
        }
    }
}

/// Numbers written as a comma-separated list read back as the same numbers.
pub proof fn lemma_num_list_round_trip(xs: Seq<int>, rest: Seq<char>, places: nat, int_bound: nat)
    requires
        xs.len() >= 1,
        forall|i: int| 0 <= i < xs.len() ==> abs_int(#[trigger] xs[i]) / pow10(places) < int_bound,
        rest.len() > 0,
        !is_num_char(rest[0]),
        rest[0] != ',',
    ensures
        parse_num_list(num_list(xs, places) + rest, places, int_bound) == Some((xs, rest)),
    decreases xs.len(),
{
    let t = decimal_text(xs[0], places);
    lemma_decimal_text_chars(xs[0], places);
    lemma_decimal_round_trip(xs[0], places, int_bound);
    let s = num_list(xs, places) + rest;
    if xs.len() == 1 {
        assert(s == t + rest);
        lemma_num_span(t, rest);
        assert(s.take(t.len() as int) =~= t);
        assert(s.skip(t.len() as int) =~= rest);
        assert(seq![xs[0]] =~= xs);
    } else {
        let tail = xs.drop_first();
        let after = seq![','] + num_list(tail, places) + rest;
        assert(s =~= t + after);
        lemma_num_span(t, after);
        assert(s.take(t.len() as int) =~= t);
        assert(s.skip(t.len() as int) =~= after);
        assert(after.drop_first() =~= num_list(tail, places) + rest);
        assert forall|i: int| 0 <= i < tail.len() implies abs_int(#[trigger] tail[i]) / pow10(places) < int_bound by {
            assert(tail[i] == xs[i + 1]);
        }
        lemma_num_list_round_trip(tail, rest, places, int_bound);
        assert(seq![xs[0]] + tail =~= xs);
    }
}

proof fn lemma_hex_char(d: nat)
    requires
        d < 16,
    ensures
        is_hex(hex_char(d)),
        hex_val(hex_char(d)) == d,
        hex_char(d) != '"' && hex_char(d) != '\\',
{
    if d < 10 {
        crate::decimal::lemma_digit_char(d);
        assert(is_digit(hex_char(d)));
    } else if d == 10 {
        assert(hex_char(10) == 'a');
    } else if d == 11 {
        assert(hex_char(11) == 'b');
    } else if d == 12 {
        assert(hex_char(12) == 'c');
    } else if d == 13 {
        assert(hex_char(13) == 'd');
    } else if d == 14 {
        assert(hex_char(14) == 'e');
    } else {
        assert(hex_char(15) == 'f');
    }
}

proof fn lemma_zero_hex()
    ensures
        is_hex('0'),
        hex_val('0') == 0,
{
}

/// An escaped string followed by its closing quote reads back as the same
/// characters.
pub proof fn lemma_string_round_trip(k: Seq<char>, rest: Seq<char>)
    ensures
        parse_string_body(escape(k) + seq!['"'] + rest) == Some((k, rest)),
    decreases k.len(),
{
    let s = escape(k) + seq!['"'] + rest;
    if k.len() == 0 {
        assert(s =~= seq!['"'] + rest);
        assert(s.drop_first() =~= rest);
    } else {
        let c = k[0];
        let tail = k.drop_first();
        let inner = escape(tail) + seq!['"'] + rest;
        lemma_string_round_trip(tail, rest);
        let e = escape_char(c);
        assert(s =~= e + inner);
        if c == '"' || c == '\\' {
            assert(s.skip(2) =~= inner);
            assert(seq![c] + tail =~= k);
        } else if (c as u32) < 32 {
            let u = (c as u32) as nat;
            lemma_hex_char(u / 16);
            lemma_hex_char(u % 16);
            lemma_zero_hex();
            assert(s[2] == '0' && s[3] == '0');
            assert(s.skip(6) =~= inner);
            let code = ((hex_val(s[2]) * 16 + hex_val(s[3])) * 16 + hex_val(s[4])) * 16 + hex_val(s[5]);
            assert(code == u);
            vstd::utf8::char_u32_cast(c, c as u32);
            assert(seq![(code as u32) as char] + tail =~= k);
        } else {
            assert(s[0] == c);
            assert(s.drop_first() =~= inner);
            assert(seq![c] + tail =~= k);
        }
    }
}

} // verus!

verus! {

/// Entries written one after another read back as the same keys and probabilities.
#[verifier::rlimit(100)]
pub proof fn lemma_entries_round_trip(ks: Seq<Seq<char>>, ps: Seq<int>, rest: Seq<char>)
    requires
        ks.len() >= 1,
        ps.len() == ks.len(),
        forall|i: int| 0 <= i < ps.len() ==> 0 <= #[trigger] ps[i] <= PROB_ONE,
        rest.len() > 0,
        !is_num_char(rest[0]),
        rest[0] != ',',
    ensures
        parse_entries(entries_text(ks, ps) + rest) == Some((ks, ps, rest)),
    decreases ks.len(),
{
    let k = ks[0];
    let p = ps[0];
    let places = crate::model::PROB_PLACES as nat;
    let t = decimal_text(p, places);
    crate::decimal::lemma_pow10_values();
    assert(abs_int(p) / pow10(places) < PROB_INT_BOUND) by {
        let a = abs_int(p) as int;
        assert(a <= 1_000_000_000_000_000_000);
        assert(pow10(places) == 1_000_000_000_000_000_000);
        assert(a / 1_000_000_000_000_000_000 <= 1) by (nonlinear_arith)
            requires 0 <= a <= 1_000_000_000_000_000_000int;
    }
    lemma_decimal_text_chars(p, places);
    lemma_decimal_round_trip(p, places, PROB_INT_BOUND as nat);
    let after = if ks.len() == 1 {
        rest
    } else {
        seq![','] + entries_text(ks.drop_first(), ps.drop_first()) + rest
    };
    let s = entries_text(ks, ps) + rest;
    assert(s =~= seq!['"'] + escape(k) + seq!['"'] + (seq![':'] + t + after));
    lemma_string_round_trip(k, seq![':'] + t + after);
    assert(s.drop_first() =~= escape(k) + seq!['"'] + (seq![':'] + t + after));
    let r1 = seq![':'] + t + after;
    let r2 = r1.drop_first();
    assert(r2 =~= t + after);
    lemma_num_span(t, after);
    assert(r2.take(t.len() as int) =~= t);
    assert(r2.skip(t.len() as int) =~= after);
    if ks.len() == 1 {
        assert(seq![k] =~= ks);
        assert(seq![p] =~= ps);
    } else {
        assert(after.drop_first() =~= entries_text(ks.drop_first(), ps.drop_first()) + rest);
        let pt = ps.drop_first();
        assert forall|i: int| 0 <= i < pt.len() implies 0 <= #[trigger] pt[i] <= PROB_ONE by {
            assert(pt[i] == ps[i + 1]);
        }
        lemma_entries_round_trip(ks.drop_first(), pt, rest);
        assert(seq![k] + ks.drop_first() =~= ks);
        assert(seq![p] + pt =~= ps);
    }
}

/// A well-formed histogram written to text reads back unchanged.
pub proof fn lemma_numeric_round_trip(bins: Seq<int>, probs: Seq<int>)
    requires
        numeric_wf(bins, probs),
    ensures
        decode_numeric(numeric_text(bins, probs)) == Some((bins, probs)),
{
    reveal_strlit("{\"bins\":[");
    reveal_strlit("],\"probabilities\":[");
    reveal_strlit("]}");
    crate::decimal::lemma_pow10_values();
    let head = "{\"bins\":["@;
    let mid = "],\"probabilities\":["@;
    let end = "]}"@;
    let vp = crate::model::VALUE_PLACES as nat;
    let pp = crate::model::PROB_PLACES as nat;
    let s = numeric_text(bins, probs);
    let r = mid + num_list(probs, pp) + end;
    assert(s =~= head + (num_list(bins, vp) + r));
    assert(s.take(head.len() as int) =~= head);
    assert(s.skip(head.len() as int) =~= num_list(bins, vp) + r);
    assert forall|i: int| 0 <= i < bins.len() implies abs_int(#[trigger] bins[i]) / pow10(vp) < EDGE_INT_BOUND by {
        let a = abs_int(bins[i]) as int;
        assert(a < 10_000_000_000_000_000_000_000_000_000);
        assert(a / 1_000_000_000 < 10_000_000_000_000_000_000) by (nonlinear_arith)
            requires 0 <= a < 10_000_000_000_000_000_000_000_000_000int;
    }
    assert(r[0] == ']');
    lemma_num_list_round_trip(bins, r, vp, EDGE_INT_BOUND as nat);
    assert(r.take(mid.len() as int) =~= mid);
    assert(r.skip(mid.len() as int) =~= num_list(probs, pp) + end);
    assert forall|i: int| 0 <= i < probs.len() implies abs_int(#[trigger] probs[i]) / pow10(pp) < PROB_INT_BOUND by {
        assert(0 <= probs[i] <= PROB_ONE);
    }
    lemma_num_list_round_trip(probs, end, pp, PROB_INT_BOUND as nat);
}

/// A well-formed frequency map written to text reads back unchanged.
pub proof fn lemma_categorical_round_trip(ks: Seq<Seq<char>>, ps: Seq<int>)
    requires
        categorical_wf(ks, ps),
    ensures
        decode_categorical(categorical_text(ks, ps)) == Some((ks, ps)),
{
    reveal_strlit("{\"frequencies\":{");
    reveal_strlit("}}");
    let head = "{\"frequencies\":{"@;
    let end = "}}"@;
    let s = categorical_text(ks, ps);
    assert(s.take(head.len() as int) =~= head);
    assert(s.skip(head.len() as int) =~= entries_text(ks, ps) + end);
    if ks.len() == 0 {
        assert(entries_text(ks, ps) + end =~= end);
        assert(ks =~= Seq::<Seq<char>>::empty());
        assert(ps =~= Seq::<int>::empty());
    } else {
        let body = entries_text(ks, ps) + end;
        assert(body[0] == '"');
        assert(body != end);
        lemma_entries_round_trip(ks, ps, end);
    }
}

} // verus!

verus! {

fn hex_to_char(d: u32) -> (c: char)
    requires
        d < 16,
    ensures
        c == hex_char(d as nat),
{
    proof {
        crate::decimal::lemma_digit_char(0);
    }
    match d {
        0 => '0',
        1 => '1',
        2 => '2',
        3 => '3',
        4 => '4',
        5 => '5',
        6 => '6',
        7 => '7',
        8 => '8',
        9 => '9',
        10 => 'a',
        11 => 'b',
        12 => 'c',
        13 => 'd',
        14 => 'e',
        _ => 'f',
    }
}

fn write_escaped_char(out: &mut String, c: char)
    ensures
        final(out)@ == old(out)@ + escape_char(c),
{
    let ghost start = out@;
    if c == '"' || c == '\\' {
        crate::text::push_char(out, '\\');
        crate::text::push_char(out, c);
    } else if (c as u32) < 32 {
        let u = c as u32;
        crate::text::push_char(out, '\\');
        crate::text::push_char(out, 'u');
        crate::text::push_char(out, '0');
        crate::text::push_char(out, '0');
        crate::text::push_char(out, hex_to_char(u / 16));
        crate::text::push_char(out, hex_to_char(u % 16));
    } else {
        crate::text::push_char(out, c);
    }
    assert(out@ =~= start + escape_char(c));
}

fn write_escaped(out: &mut String, k: &Vec<char>, i: usize)
    requires
        i <= k.len(),
    ensures
        final(out)@ == old(out)@ + escape(k@.skip(i as int)),
    decreases k.len() - i,
{
    let ghost start = out@;
    if i < k.len() {
        write_escaped_char(out, k[i]);
        write_escaped(out, k, i + 1);
        assert(k@.skip(i as int).drop_first() =~= k@.skip(i + 1));
        assert(k@.skip(i as int)[0] == k[i as int]);
        assert(out@ =~= start + escape(k@.skip(i as int)));
    } else {
        assert(k@.skip(i as int) =~= Seq::<char>::empty());
        assert(out@ =~= start + escape(k@.skip(i as int)));
    }
}

fn write_num_list(out: &mut String, xs: &Vec<i128>, i: usize, places: u32)
    requires
        i < xs.len(),
        places <= 18,
    ensures
        final(out)@ == old(out)@ + num_list(crate::model::ints_i128(xs@).skip(i as int), places as nat),
    decreases xs.len() - i,
{
    let ghost s = crate::model::ints_i128(xs@).skip(i as int);
    let ghost start = out@;
    crate::decimal::write_decimal(out, xs[i], places);
    assert(s[0] == xs[i as int] as int);
    if i + 1 < xs.len() {
        crate::text::push_char(out, ',');
        write_num_list(out, xs, i + 1, places);
        assert(s.drop_first() =~= crate::model::ints_i128(xs@).skip(i + 1));
        assert(out@ =~= start + num_list(s, places as nat));
    } else {
        assert(s.len() == 1);
        assert(out@ =~= start + num_list(s, places as nat));
    }
}

fn write_prob_list(out: &mut String, xs: &Vec<u64>, i: usize)
    requires
        i < xs.len(),
    ensures
        final(out)@ == old(out)@ + num_list(crate::model::ints_u64(xs@).skip(i as int), crate::model::PROB_PLACES as nat),
    decreases xs.len() - i,
{
    let ghost s = crate::model::ints_u64(xs@).skip(i as int);
    let ghost start = out@;
    crate::decimal::write_decimal(out, xs[i] as i128, crate::model::PROB_PLACES);
    assert(s[0] == xs[i as int] as int);
    if i + 1 < xs.len() {
        crate::text::push_char(out, ',');
        write_prob_list(out, xs, i + 1);
        assert(s.drop_first() =~= crate::model::ints_u64(xs@).skip(i + 1));
        assert(out@ =~= start + num_list(s, crate::model::PROB_PLACES as nat));
    } else {
        assert(s.len() == 1);
        assert(out@ =~= start + num_list(s, crate::model::PROB_PLACES as nat));
    }
}

/// The stored text of a histogram.
pub fn encode_numeric(stats: &crate::model::NumericStats) -> (r: String)
    requires
        stats.wf(),
    ensures
        r@ == numeric_text(crate::model::ints_i128(stats.bins@), crate::model::ints_u64(stats.probabilities@)),
{
    let mut out = String::new();
    crate::text::push_str(&mut out, "{\"bins\":[");
    write_num_list(&mut out, &stats.bins, 0, crate::model::VALUE_PLACES);
    crate::text::push_str(&mut out, "],\"probabilities\":[");
    write_prob_list(&mut out, &stats.probabilities, 0);
    crate::text::push_str(&mut out, "]}");
    assert(crate::model::ints_i128(stats.bins@).skip(0) == crate::model::ints_i128(stats.bins@));
    assert(crate::model::ints_u64(stats.probabilities@).skip(0) == crate::model::ints_u64(stats.probabilities@));
    out
}

fn write_entries(out: &mut String, entries: &Vec<(String, u64)>, i: usize)
    requires
        i < entries.len(),
    ensures
        final(out)@ == old(out)@ + entries_text(
            crate::model::entry_keys(entries@).skip(i as int),
            crate::model::entry_probs(entries@).skip(i as int),
        ),
    decreases entries.len() - i,
{
    let ghost ks = crate::model::entry_keys(entries@).skip(i as int);
    let ghost ps = crate::model::entry_probs(entries@).skip(i as int);
    let ghost start = out@;
    let key = crate::text::chars_of(entries[i].0.as_str());
    crate::text::push_char(out, '"');
    write_escaped(out, &key, 0);
    crate::text::push_char(out, '"');
    crate::text::push_char(out, ':');
    crate::decimal::write_decimal(out, entries[i].1 as i128, crate::model::PROB_PLACES);
    assert(key@.skip(0) == key@);
    assert(ks[0] == key@);
    assert(ps[0] == entries[i as int].1 as int);
    let ghost one = out@;
    assert(one =~= start + entry_text(ks[0], ps[0]));
    if i + 1 < entries.len() {
        crate::text::push_char(out, ',');
        write_entries(out, entries, i + 1);
        assert(ks.drop_first() =~= crate::model::entry_keys(entries@).skip(i + 1));
        assert(ps.drop_first() =~= crate::model::entry_probs(entries@).skip(i + 1));
        assert(out@ =~= start + entries_text(ks, ps));
    } else {
        assert(ks.len() == 1);
        assert(out@ =~= start + entries_text(ks, ps));
    }
}

/// The stored text of a frequency map.
pub fn encode_categorical(stats: &crate::model::CategoricalStats) -> (r: String)
    ensures
        r@ == categorical_text(crate::model::entry_keys(stats.frequencies@), crate::model::entry_probs(stats.frequencies@)),
{
    let mut out = String::new();
    crate::text::push_str(&mut out, "{\"frequencies\":{");
    let ghost mid = out@;
    if stats.frequencies.len() > 0 {
        write_entries(&mut out, &stats.frequencies, 0);
        assert(crate::model::entry_keys(stats.frequencies@).skip(0) == crate::model::entry_keys(stats.frequencies@));
        assert(crate::model::entry_probs(stats.frequencies@).skip(0) == crate::model::entry_probs(stats.frequencies@));
    } else {
        assert(entries_text(crate::model::entry_keys(stats.frequencies@), crate::model::entry_probs(stats.frequencies@)) =~= Seq::<char>::empty());
        assert(out@ =~= mid + Seq::<char>::empty());
    }
    crate::text::push_str(&mut out, "}}");
    out
}

} // verus!

verus! {

proof fn lemma_num_span_at(s: Seq<char>, i: int)
    requires
        0 <= i <= s.len(),
        forall|j: int| 0 <= j < i ==> is_num_char(#[trigger] s[j]),
        i == s.len() || !is_num_char(s[i]),
    ensures
        num_span(s) == i,
    decreases i,
{
    if i > 0 {
        let t = s.drop_first();
        assert forall|j: int| 0 <= j < i - 1 implies is_num_char(#[trigger] t[j]) by {
            assert(t[j] == s[j + 1]);
        }
        if i < s.len() {
            assert(t[i - 1] == s[i]);
        }
        lemma_num_span_at(t, i - 1);
    }
}

fn num_char(c: char) -> (r: bool)
    ensures
        r == is_num_char(c),
{
    ('0' <= c && c <= '9') || c == '-' || c == '+' || c == '.'
}

/// End of the run of number characters starting at `pos`.
fn span_end(chars: &Vec<char>, pos: usize) -> (r: usize)
    requires
        pos <= chars.len(),
    ensures
        pos <= r <= chars.len(),
        r - pos == num_span(chars@.skip(pos as int)),
{
    let ghost s = chars@.skip(pos as int);
    let mut j: usize = pos;
    while j < chars.len() && num_char(chars[j])
        invariant
            pos <= j <= chars.len(),
            s == chars@.skip(pos as int),
            forall|t: int| 0 <= t < j - pos ==> is_num_char(#[trigger] s[t]),
        decreases chars.len() - j,
    {
        assert(s[j - pos] == chars[j as int]);
        j = j + 1;
    }
    proof {
        if j < chars.len() {
            assert(s[j - pos] == chars[j as int]);
        }
        lemma_num_span_at(s, j - pos);
    }
    j
}

/// Reads comma-separated numbers from `pos`; yields them and the position after.
fn parse_num_list_at(chars: &Vec<char>, pos: usize, places: u32, int_bound: u128) -> (r: Option<(Vec<i128>, usize)>)
    requires
        pos <= chars.len(),
        places <= 18,
        int_bound <= 10_000_000_000_000_000_000,
    ensures
        match r {
            Some((vs, end)) => end <= chars.len() && parse_num_list(chars@.skip(pos as int), places as nat, int_bound as nat)
                == Some((crate::model::ints_i128(vs@), chars@.skip(end as int))),
            None => parse_num_list(chars@.skip(pos as int), places as nat, int_bound as nat) is None,
        },
    decreases chars.len() - pos,
{
    let ghost s = chars@.skip(pos as int);
    let e = span_end(chars, pos);
    let n = e - pos;
    if n == 0 {
        return None;
    }
    assert(s.take(n as int) =~= chars@.subrange(pos as int, e as int));
    let v = match crate::decimal::parse_decimal(chars, pos, e, places, int_bound) {
        None => {
            return None;
        },
        Some(v) => v,
    };
    assert(s.skip(n as int) =~= chars@.skip(e as int));
    if e < chars.len() && chars[e] == ',' {
        assert(chars@.skip(e as int).drop_first() =~= chars@.skip(e + 1));
        match parse_num_list_at(chars, e + 1, places, int_bound) {
            None => None,
            Some((tail, end)) => {
                let mut vs = tail;
                let ghost t = vs@;
                vs.insert(0, v);
                assert(crate::model::ints_i128(vs@) =~= seq![v as int] + crate::model::ints_i128(t));
                Some((vs, end))
            },
        }
    } else {
        let mut vs: Vec<i128> = Vec::new();
        vs.push(v);
        assert(crate::model::ints_i128(vs@) =~= seq![v as int]);
        Some((vs, e))
    }
}

fn hex_digit(c: char) -> (r: Option<u32>)
    ensures
        match r {
            Some(d) => is_hex(c) && d == hex_val(c) && d < 16,
            None => !is_hex(c),
        },
{
    if '0' <= c && c <= '9' {
        Some(c as u32 - '0' as u32)
    } else if 'a' <= c && c <= 'f' {
        Some(c as u32 - 87)
    } else {
        None
    }
}

/// Reads the rest of a JSON string from `pos`; yields its characters and the
/// position after the closing quote.
fn parse_string_at(chars: &Vec<char>, pos: usize) -> (r: Option<(Vec<char>, usize)>)
    requires
        pos <= chars.len(),
    ensures
        match r {
            Some((k, end)) => end <= chars.len() && parse_string_body(chars@.skip(pos as int)) == Some((k@, chars@.skip(end as int))),
            None => parse_string_body(chars@.skip(pos as int)) is None,
        },
    decreases chars.len() - pos,
{
    let ghost s = chars@.skip(pos as int);
    if pos == chars.len() {
        return None;
    }
    assert(s[0] == chars[pos as int]);
    let c = chars[pos];
    if c == '"' {
        assert(s.drop_first() =~= chars@.skip(pos + 1));
        return Some((Vec::new(), pos + 1));
    }
    let (decoded, next): (char, usize) = if c == '\\' {
        if pos + 1 < chars.len() && (chars[pos + 1] == '"' || chars[pos + 1] == '\\') {
            assert(s[1] == chars[pos + 1]);
            assert(s.skip(2) =~= chars@.skip(pos + 2));
            (chars[pos + 1], pos + 2)
        } else if chars.len() - pos > 5 && chars[pos + 1] == 'u' {
            assert(s[1] == chars[pos + 1] && s[2] == chars[pos + 2] && s[3] == chars[pos + 3]
                && s[4] == chars[pos + 4] && s[5] == chars[pos + 5]);
            let h = (hex_digit(chars[pos + 2]), hex_digit(chars[pos + 3]), hex_digit(chars[pos + 4]), hex_digit(chars[pos + 5]));
            match h {
                (Some(a), Some(b), Some(d), Some(e)) => {
                    let code = ((a * 16 + b) * 16 + d) * 16 + e;
                    if code >= 0x80 {
                        return None;
                    }
                    assert(s.skip(6) =~= chars@.skip(pos + 6));
                    let ch = (code as u8) as char;
                    assert(ch == (code as u32) as char);
                    (ch, pos + 6)
                },
                _ => {
                    return None;
                },
            }
        } else {
            if pos + 1 < chars.len() {
                assert(s[1] == chars[pos + 1]);
            }
            return None;
        }
    } else {
        assert(s.drop_first() =~= chars@.skip(pos + 1));
        (c, pos + 1)
    };
    match parse_string_at(chars, next) {
        None => None,
        Some((tail, end)) => {
            let mut k = tail;
            let ghost t = k@;
            k.insert(0, decoded);
            assert(k@ =~= seq![decoded] + t);
            Some((k, end))
        },
    }
}

} // verus!

verus! {

fn string_from_chars(k: &Vec<char>) -> (r: String)
    ensures
        r@ == k@,
{
    let mut out = String::new();
    let mut i: usize = 0;
    while i < k.len()
        invariant
            i <= k.len(),
            out@ == k@.take(i as int),
        decreases k.len() - i,
    {
        crate::text::push_char(&mut out, k[i]);
        assert(k@.take(i + 1) =~= k@.take(i as int).push(k[i as int]));
        i = i + 1;
    }
    assert(k@.take(i as int) =~= k@);
    out
}

pub open spec fn raw_keys(e: Seq<(String, i128)>) -> Seq<Seq<char>> {
    e.map_values(|p: (String, i128)| p.0@)
}

pub open spec fn raw_probs(e: Seq<(String, i128)>) -> Seq<int> {
    e.map_values(|p: (String, i128)| p.1 as int)
}

/// Reads `"key":number` entries from `pos`; yields them and the position after.
#[verifier::rlimit(60)]
fn parse_entries_at(chars: &Vec<char>, pos: usize) -> (r: Option<(Vec<(String, i128)>, usize)>)
    requires
        pos <= chars.len(),
    ensures
        match r {
            Some((es, end)) => end <= chars.len() && parse_entries(chars@.skip(pos as int))
                == Some((raw_keys(es@), raw_probs(es@), chars@.skip(end as int))),
            None => parse_entries(chars@.skip(pos as int)) is None,
        },
    decreases chars.len() - pos,
{
    let ghost s = chars@.skip(pos as int);
    if pos == chars.len() || chars[pos] != '"' {
        return None;
    }
    assert(s[0] == chars[pos as int]);
    assert(s.drop_first() =~= chars@.skip(pos + 1));
    let (key, head) = match parse_string_at(chars, pos + 1) {
        None => {
            return None;
        },
        Some(x) => x,
    };
    let ghost r1 = chars@.skip(head as int);
    if head == chars.len() || chars[head] != ':' || head <= pos {
        proof {
            if head < chars.len() {
                assert(r1[0] == chars[head as int]);
            }
        }
        return None;
    }
    assert(r1[0] == chars[head as int]);
    let num_start = head + 1;
    assert(r1.drop_first() =~= chars@.skip(num_start as int));
    let e = span_end(chars, num_start);
    if e == num_start {
        return None;
    }
    assert(chars@.skip(num_start as int).take((e - num_start) as int) =~= chars@.subrange(num_start as int, e as int));
    let v = match crate::decimal::parse_decimal(chars, num_start, e, crate::model::PROB_PLACES, PROB_INT_BOUND) {
        None => {
            return None;
        },
        Some(v) => v,
    };
    assert(chars@.skip(num_start as int).skip((e - num_start) as int) =~= chars@.skip(e as int));
    let name = string_from_chars(&key);
    if e < chars.len() && chars[e] == ',' {
        assert(chars@.skip(e as int).drop_first() =~= chars@.skip(e + 1));
        match parse_entries_at(chars, e + 1) {
            None => None,
            Some((tail, end)) => {
                let mut es = tail;
                let ghost t = es@;
                es.insert(0, (name, v));
                assert(raw_keys(es@) =~= seq![key@] + raw_keys(t));
                assert(raw_probs(es@) =~= seq![v as int] + raw_probs(t));
                Some((es, end))
            },
        }
    } else {
        proof {
            if e < chars.len() {
                assert(chars@.skip(e as int)[0] == chars[e as int]);
            }
        }
        let mut es: Vec<(String, i128)> = Vec::new();
        es.push((name, v));
        assert(raw_keys(es@) =~= seq![key@]);
        assert(raw_probs(es@) =~= seq![v as int]);
        Some((es, e))
    }
}

/// Whether `chars[pos..]` starts with `lit`.
fn starts_with_at(chars: &Vec<char>, pos: usize, lit: &str) -> (r: bool)
    requires
        pos <= chars.len(),
    ensures
        r == starts_with(chars@.skip(pos as int), lit@),
{
    let l = crate::text::chars_of(lit);
    let ghost s = chars@.skip(pos as int);
    if chars.len() - pos < l.len() {
        return false;
    }
    let mut i: usize = 0;
    while i < l.len()
        invariant
            i <= l.len(),
            l@ == lit@,
            s == chars@.skip(pos as int),
            l.len() <= chars.len() - pos,
            forall|j: int| 0 <= j < i ==> s[j] == l@[j],
        decreases l.len() - i,
    {
        assert(s[i as int] == chars[pos + i]);
        if chars[pos + i] != l[i] {
            assert(s.take(l.len() as int)[i as int] != l@[i as int]);
            return false;
        }
        i = i + 1;
    }
    assert(s.take(l.len() as int) =~= l@);
    true
}

/// Whether `chars[pos..]` is exactly `lit`.
fn rest_is(chars: &Vec<char>, pos: usize, lit: &str) -> (r: bool)
    requires
        pos <= chars.len(),
    ensures
        r == (chars@.skip(pos as int) == lit@),
{
    let l = crate::text::chars_of(lit);
    if chars.len() - pos != l.len() {
        return false;
    }
    let b = starts_with_at(chars, pos, lit);
    proof {
        let s = chars@.skip(pos as int);
        assert(s.take(l.len() as int) =~= s);
    }
    b
}

} // verus!

verus! {

fn check_numeric(bins: &Vec<i128>, probs: &Vec<i128>) -> (r: bool)
    ensures
        r == numeric_wf(crate::model::ints_i128(bins@), crate::model::ints_i128(probs@)),
{
    let ghost bs = crate::model::ints_i128(bins@);
    let ghost ps = crate::model::ints_i128(probs@);
    if probs.len() < 1 || probs.len() > crate::model::MAX_BINS || bins.len() != probs.len() + 1 {
        return false;
    }
    let mut i: usize = 0;
    while i < bins.len()
        invariant
            i <= bins.len(),
            bs == crate::model::ints_i128(bins@),
            forall|j: int| 0 <= j < i ==> -EDGE_BOUND < #[trigger] bs[j] < EDGE_BOUND,
        decreases bins.len() - i,
    {
        if bins[i] <= -EDGE_BOUND || bins[i] >= EDGE_BOUND {
            assert(bs[i as int] == bins[i as int]);
            return false;
        }
        i = i + 1;
    }
    let mut sum: i128 = 0;
    let mut j: usize = 0;
    while j < probs.len()
        invariant
            j <= probs.len() <= crate::model::MAX_BINS,
            ps == crate::model::ints_i128(probs@),
            forall|t: int| 0 <= t < j ==> 0 <= #[trigger] ps[t] <= PROB_ONE,
            sum == crate::model::sum_of(ps.take(j as int)),
            0 <= sum <= j * PROB_ONE,
        decreases probs.len() - j,
    {
        let p = probs[j];
        if p < 0 || p > PROB_ONE as i128 {
            assert(ps[j as int] == p);
            return false;
        }
        assert(ps.take(j + 1).drop_last() == ps.take(j as int));
        assert(ps.take(j + 1).last() == p);
        assert(j * PROB_ONE <= 1_000_000 * PROB_ONE) by (nonlinear_arith)
            requires j <= 1_000_000;
        sum = sum + p;
        assert((j + 1) * PROB_ONE == j * PROB_ONE + PROB_ONE) by (nonlinear_arith);
        j = j + 1;
    }
    assert(ps.take(j as int) == ps);
    sum <= PROB_ONE as i128
}

fn check_categorical(es: &Vec<(String, i128)>) -> (r: bool)
    ensures
        r == categorical_wf(raw_keys(es@), raw_probs(es@)),
{
    let ghost ks = raw_keys(es@);
    let ghost ps = raw_probs(es@);
    if es.len() > crate::table::MAX_ROWS {
        return false;
    }
    let mut sum: i128 = 0;
    let mut j: usize = 0;
    while j < es.len()
        invariant
            j <= es.len() <= crate::table::MAX_ROWS,
            ps == raw_probs(es@),
            forall|t: int| 0 <= t < j ==> 0 <= #[trigger] ps[t] <= PROB_ONE,
            sum == crate::model::sum_of(ps.take(j as int)),
            0 <= sum <= j * PROB_ONE,
        decreases es.len() - j,
    {
        let p = es[j].1;
        if p < 0 || p > PROB_ONE as i128 {
            assert(ps[j as int] == p);
            return false;
        }
        assert(ps.take(j + 1).drop_last() == ps.take(j as int));
        assert(ps.take(j + 1).last() == p);
        assert(j * PROB_ONE <= 1_000_000_000 * PROB_ONE) by (nonlinear_arith)
            requires j <= 1_000_000_000;
        sum = sum + p;
        assert((j + 1) * PROB_ONE == j * PROB_ONE + PROB_ONE) by (nonlinear_arith);
        j = j + 1;
    }
    assert(ps.take(j as int) == ps);
    if sum > PROB_ONE as i128 {
        return false;
    }
    let mut a: usize = 0;
    while a < es.len()
        invariant
            a <= es.len(),
            ks == raw_keys(es@),
            forall|x: int, y: int| 0 <= x < a && 0 <= y < es.len() && x != y ==> ks[x] != ks[y],
        decreases es.len() - a,
    {
        let mut b: usize = 0;
        while b < es.len()
            invariant
                a < es.len(),
                b <= es.len(),
                ks == raw_keys(es@),
                forall|x: int, y: int| 0 <= x < a && 0 <= y < es.len() && x != y ==> ks[x] != ks[y],
                forall|y: int| 0 <= y < b && y != a ==> ks[a as int] != ks[y],
            decreases es.len() - b,
        {
            if b != a && es[a].0 == es[b].0 {
                assert(ks[a as int] == ks[b as int]);
                return false;
            }
            b = b + 1;
        }
        a = a + 1;
    }
    true
}

/// Reads a stored histogram.
pub fn decode_numeric_text(text: &str) -> (r: Result<crate::model::NumericStats, crate::table::DriftError>)
    ensures
        match decode_numeric(text@) {
            Some((b, p)) => r matches Ok(n) && crate::model::ints_i128(n.bins@) == b
                && crate::model::ints_u64(n.probabilities@) == p && n.wf(),
            None => r == Err::<crate::model::NumericStats, crate::table::DriftError>(crate::table::DriftError::Serialization),
        },
{
    let chars = crate::text::chars_of(text);
    assert(chars@.skip(0) == chars@);
    let head = "{\"bins\":[";
    let mid = "],\"probabilities\":[";
    if !starts_with_at(&chars, 0, head) {
        return Err(crate::table::DriftError::Serialization);
    }
    let l1 = crate::text::chars_of(head).len();
    assert(chars@.skip(head@.len() as int) == chars@.skip(l1 as int));
    let (bins, q) = match parse_num_list_at(&chars, l1, crate::model::VALUE_PLACES, EDGE_INT_BOUND) {
        None => {
            return Err(crate::table::DriftError::Serialization);
        },
        Some(x) => x,
    };
    if !starts_with_at(&chars, q, mid) {
        return Err(crate::table::DriftError::Serialization);
    }
    let l2 = crate::text::chars_of(mid).len();
    assert(chars@.skip(q as int).skip(mid@.len() as int) =~= chars@.skip(q + l2));
    let (probs, e) = match parse_num_list_at(&chars, q + l2, crate::model::PROB_PLACES, PROB_INT_BOUND) {
        None => {
            return Err(crate::table::DriftError::Serialization);
        },
        Some(x) => x,
    };
    if !rest_is(&chars, e, "]}") || !check_numeric(&bins, &probs) {
        return Err(crate::table::DriftError::Serialization);
    }
    let ghost ps = crate::model::ints_i128(probs@);
    let mut out: Vec<u64> = Vec::new();
    let mut i: usize = 0;
    while i < probs.len()
        invariant
            i <= probs.len(),
            ps == crate::model::ints_i128(probs@),
            forall|t: int| 0 <= t < probs.len() ==> 0 <= #[trigger] ps[t] <= PROB_ONE,
            crate::model::ints_u64(out@) == ps.take(i as int),
        decreases probs.len() - i,
    {
        assert(ps[i as int] == probs[i as int]);
        let ghost before = out@;
        let v = probs[i] as u64;
        out.push(v);
        assert(v as int == ps[i as int]);
        assert(crate::model::ints_u64(out@) =~= crate::model::ints_u64(before).push(v as int));
        assert(ps.take(i + 1) =~= ps.take(i as int).push(ps[i as int]));
        assert(crate::model::ints_u64(out@) =~= ps.take(i + 1));
        i = i + 1;
    }
    assert(ps.take(i as int) == ps);
    Ok(crate::model::NumericStats { bins, probabilities: out })
}

/// Reads a stored frequency map.
pub fn decode_categorical_text(text: &str) -> (r: Result<crate::model::CategoricalStats, crate::table::DriftError>)
    ensures
        match decode_categorical(text@) {
            Some((k, p)) => r matches Ok(c) && crate::model::entry_keys(c.frequencies@) == k
                && crate::model::entry_probs(c.frequencies@) == p && c.wf(),
            None => r == Err::<crate::model::CategoricalStats, crate::table::DriftError>(crate::table::DriftError::Serialization),
        },
{
    let chars = crate::text::chars_of(text);
    assert(chars@.skip(0) == chars@);
    let head = "{\"frequencies\":{";
    if !starts_with_at(&chars, 0, head) {
        return Err(crate::table::DriftError::Serialization);
    }
    let l1 = crate::text::chars_of(head).len();
    assert(chars@.skip(head@.len() as int) == chars@.skip(l1 as int));
    if rest_is(&chars, l1, "}}") {
        let r = crate::model::CategoricalStats { frequencies: Vec::new() };
        assert(crate::model::entry_keys(r.frequencies@) =~= Seq::<Seq<char>>::empty());
        assert(crate::model::entry_probs(r.frequencies@) =~= Seq::<int>::empty());
        return Ok(r);
    }
    let (es, e) = match parse_entries_at(&chars, l1) {
        None => {
            return Err(crate::table::DriftError::Serialization);
        },
        Some(x) => x,
    };
    if !rest_is(&chars, e, "}}") || !check_categorical(&es) {
        return Err(crate::table::DriftError::Serialization);
    }
    let ghost ks = raw_keys(es@);
    let ghost ps = raw_probs(es@);
    let mut out: Vec<(String, u64)> = Vec::new();
    let mut i: usize = 0;
    while i < es.len()
        invariant
            i <= es.len(),
            ks == raw_keys(es@),
            ps == raw_probs(es@),
            forall|t: int| 0 <= t < es.len() ==> 0 <= #[trigger] ps[t] <= PROB_ONE,
            crate::model::entry_keys(out@) == ks.take(i as int),
            crate::model::entry_probs(out@) == ps.take(i as int),
        decreases es.len() - i,
    {
        assert(ps[i as int] == es[i as int].1);
        let ghost before = out@;
        let k = es[i].0.clone();
        let v = es[i].1 as u64;
        out.push((k, v));
        assert(v as int == ps[i as int]);
        assert(k@ == ks[i as int]);
        assert(crate::model::entry_keys(out@) =~= crate::model::entry_keys(before).push(k@));
        assert(crate::model::entry_probs(out@) =~= crate::model::entry_probs(before).push(v as int));
        assert(ks.take(i + 1) =~= ks.take(i as int).push(ks[i as int]));
        assert(ps.take(i + 1) =~= ps.take(i as int).push(ps[i as int]));
        assert(crate::model::entry_keys(out@) =~= ks.take(i + 1));
        assert(crate::model::entry_probs(out@) =~= ps.take(i + 1));
        i = i + 1;
    }
    assert(ks.take(i as int) == ks);
    assert(ps.take(i as int) == ps);
    Ok(crate::model::CategoricalStats { frequencies: out })
}

} // verus!

verus! {

/// The stored text of a distribution.
pub open spec fn metadata_text(d: crate::model::Distribution) -> Seq<char> {
    match d {
        crate::model::Distribution::Numeric(b, p) => numeric_text(b, p),
        crate::model::Distribution::Categorical(k, p) => categorical_text(k, p),
    }
}

/// The distribution of the given type that a stored text describes.
pub open spec fn decode_metadata(t: crate::model::FeatureType, s: Seq<char>) -> Option<crate::model::Distribution> {
    match t {
        crate::model::FeatureType::Numeric => match decode_numeric(s) {
            Some((b, p)) => Some(crate::model::Distribution::Numeric(b, p)),
            None => None,
        },
        crate::model::FeatureType::Categorical => match decode_categorical(s) {
            Some((k, p)) => Some(crate::model::Distribution::Categorical(k, p)),
            None => None,
        },
    }
}

pub open spec fn distribution_type(d: crate::model::Distribution) -> crate::model::FeatureType {
    match d {
        crate::model::Distribution::Numeric(_, _) => crate::model::FeatureType::Numeric,
        crate::model::Distribution::Categorical(_, _) => crate::model::FeatureType::Categorical,
    }
}

pub open spec fn distribution_wf(d: crate::model::Distribution) -> bool {
    match d {
        crate::model::Distribution::Numeric(b, p) => numeric_wf(b, p),
        crate::model::Distribution::Categorical(k, p) => categorical_wf(k, p),
    }
}

/// Writing a well-formed distribution to its stored text and reading it back
/// gives the same edges and probabilities, or the same frequencies.
pub proof fn lemma_metadata_round_trip(d: crate::model::Distribution)
    requires
        distribution_wf(d),
    ensures
        decode_metadata(distribution_type(d), metadata_text(d)) == Some(d),
{
    match d {
        crate::model::Distribution::Numeric(b, p) => lemma_numeric_round_trip(b, p),
        crate::model::Distribution::Categorical(k, p) => lemma_categorical_round_trip(k, p),
    }
}

/// The stored text of a feature's distribution.
pub fn encode_feature_metadata(stats: &crate::model::FeatureStats) -> (r: String)
    requires
        stats.wf(),
    ensures
        r@ == metadata_text(stats.stats.view()),
{
    match &stats.stats {
        crate::model::FeatureStatsData::Numeric(n) => encode_numeric(n),
        crate::model::FeatureStatsData::Categorical(c) => encode_categorical(c),
    }
}

/// Reads a stored distribution of the given type.
pub fn decode_feature_metadata(feature_type: crate::model::FeatureType, text: &str) -> (r: Result<crate::model::FeatureStatsData, crate::table::DriftError>)
    ensures
        match decode_metadata(feature_type, text@) {
            Some(d) => r matches Ok(x) && x.view() == d && distribution_wf(d),
            None => r == Err::<crate::model::FeatureStatsData, crate::table::DriftError>(crate::table::DriftError::Serialization),
        },
{
    match feature_type {
        crate::model::FeatureType::Numeric => match decode_numeric_text(text) {
            Ok(n) => Ok(crate::model::FeatureStatsData::Numeric(n)),
            Err(e) => Err(e),
        },
        crate::model::FeatureType::Categorical => match decode_categorical_text(text) {
            Ok(c) => Ok(crate::model::FeatureStatsData::Categorical(c)),
            Err(e) => Err(e),
        },
    }
}

/// Reads a stored feature: its name, its type word and its distribution text.
pub fn decode_feature(name: &String, feature_type: &String, metadata: &str) -> (r: Result<crate::model::FeatureStats, crate::table::DriftError>)
    ensures
        match type_of_word(feature_type@) {
            None => r == Err::<crate::model::FeatureStats, crate::table::DriftError>(crate::table::DriftError::Serialization),
            Some(t) => match decode_metadata(t, metadata@) {
                Some(d) => r matches Ok(f) && f.name@ == name@ && f.feature_type == t && f.stats.view() == d && f.wf(),
                None => r == Err::<crate::model::FeatureStats, crate::table::DriftError>(crate::table::DriftError::Serialization),
            },
        },
{
    let t = match feature_type_from_word(feature_type) {
        Some(t) => t,
        None => {
            return Err(crate::table::DriftError::Serialization);
        },
    };
    let stats = decode_feature_metadata(t, metadata)?;
    Ok(crate::model::FeatureStats { name: name.clone(), feature_type: t, stats })
}

/// The stored word of a feature type.
pub open spec fn type_word(t: crate::model::FeatureType) -> Seq<char> {
    match t {
        crate::model::FeatureType::Numeric => "numeric"@,
        crate::model::FeatureType::Categorical => "categorical"@,
    }
}

pub open spec fn type_of_word(w: Seq<char>) -> Option<crate::model::FeatureType> {
    if w == "numeric"@ {
        Some(crate::model::FeatureType::Numeric)
    } else if w == "categorical"@ {
        Some(crate::model::FeatureType::Categorical)
    } else {
        None
    }
}

pub fn feature_type_word(t: crate::model::FeatureType) -> (r: String)
    ensures
        r@ == type_word(t),
{
    match t {
        crate::model::FeatureType::Numeric => "numeric".to_owned(),
        crate::model::FeatureType::Categorical => "categorical".to_owned(),
    }
}

pub fn feature_type_from_word(w: &String) -> (r: Option<crate::model::FeatureType>)
    ensures
        r == type_of_word(w@),
{
    let n = "numeric".to_owned();
    let c = "categorical".to_owned();
    if *w == n {
        Some(crate::model::FeatureType::Numeric)
    } else if *w == c {
        Some(crate::model::FeatureType::Categorical)
    } else {
        None
    }
}

} // verus!
