//! Exact decimal values of numeric text fields.
//!
//! The element-set formats carry real numbers as decimal text. The library
//! keeps the exact decimal number that the text denotes; turning it into a
//! binary floating-point value is left to the caller, which gets the same
//! result as parsing the field's own text with `f64::from_str` by parsing
//! the canonical text of the decimal.
//!
//! The accepted syntax is that of `f64::from_str` (documented in the
//! standard library as an EBNF grammar, matched after lowercasing):
//! `Sign? ( 'inf' | 'infinity' | 'nan' | Number )` with
//! `Number ::= ( Digit+ | Digit+ '.' Digit* | Digit* '.' Digit+ ) Exp?` and
//! `Exp ::= 'e' Sign? Digit+`.

use vstd::prelude::*;
use crate::text::{
    all_digits, all_digits_at, copy_range, digits_value, digits_value_capped, is_digit,
    is_signed_numeral, lemma_digits_value_bound, numeral_digits_start, parse_i64_at, pow10,
    signed_numeral_value, starts_negative, unsigned_part,
};

verus! {

broadcast use vstd::seq::group_seq_axioms;

/// A real number written in decimal: `(-1)^negative * mantissa * 10^exponent`,
/// or one of the non-finite values that the floating-point syntax admits.
#[derive(Clone, Copy, Debug, PartialEq, Eq, Structural)]
pub enum DecimalValue {
    /// A finite value `(-1)^negative * mantissa * 10^exponent`.
    Finite { negative: bool, mantissa: u64, exponent: i64 },
    /// Positive or negative infinity.
    Infinite { negative: bool },
    /// Not a number (the sign is kept as written).
    NotANumber { negative: bool },
}

impl DecimalValue {
    /// Exact zero.
    pub open spec fn zero() -> DecimalValue {
        DecimalValue::Finite { negative: false, mantissa: 0, exponent: 0 }
    }
}

/// ASCII lower-casing of one byte.
pub open spec fn lower(b: u8) -> u8 {
    if 0x41 <= b <= 0x5a {
        (b + 0x20) as u8
    } else {
        b
    }
}

/// `s` equals the lower-case word `w` once lower-cased.
pub open spec fn matches_word(s: Seq<u8>, w: Seq<u8>) -> bool {
    s.len() == w.len() && forall|i: int| 0 <= i < s.len() ==> #[trigger] lower(s[i]) == w[i]
}

pub open spec fn word_inf() -> Seq<u8> {
    seq![0x69u8, 0x6e, 0x66]
}

pub open spec fn word_infinity() -> Seq<u8> {
    seq![0x69u8, 0x6e, 0x66, 0x69, 0x6e, 0x69, 0x74, 0x79]
}

pub open spec fn word_nan() -> Seq<u8> {
    seq![0x6eu8, 0x61, 0x6e]
}

/// An exponent marker, `e` or `E`.
pub open spec fn is_exp_marker(b: u8) -> bool {
    b == 0x65 || b == 0x45
}

/// Position of the first exponent marker in `s`, or its length.
pub open spec fn find_exp_marker(s: Seq<u8>) -> int
    decreases s.len(),
{
    if s.len() == 0 {
        0
    } else if is_exp_marker(s[0]) {
        0
    } else {
        1 + find_exp_marker(s.subrange(1, s.len() as int))
    }
}

/// Position of the first `.` in `s`, or its length.
pub open spec fn find_dot(s: Seq<u8>) -> int
    decreases s.len(),
{
    if s.len() == 0 {
        0
    } else if s[0] == 0x2e {
        0
    } else {
        1 + find_dot(s.subrange(1, s.len() as int))
    }
}

/// The integer-part digits of an unsigned decimal numeral.
pub open spec fn int_digits(r: Seq<u8>) -> Seq<u8> {
    let m = r.subrange(0, find_exp_marker(r));
    m.subrange(0, find_dot(m))
}

/// The fraction digits of an unsigned decimal numeral.
pub open spec fn frac_digits(r: Seq<u8>) -> Seq<u8> {
    let m = r.subrange(0, find_exp_marker(r));
    let d = find_dot(m);
    if d < m.len() {
        m.subrange(d + 1, m.len() as int)
    } else {
        Seq::empty()
    }
}

/// The exponent text after the marker (empty when there is no marker).
pub open spec fn exp_text(r: Seq<u8>) -> Seq<u8> {
    let p = find_exp_marker(r);
    if p < r.len() {
        r.subrange(p + 1, r.len() as int)
    } else {
        Seq::empty()
    }
}

/// `r` is an unsigned decimal numeral: digits with at most one point,
/// at least one digit, and an optional signed integer exponent.
pub open spec fn is_unsigned_decimal(r: Seq<u8>) -> bool {
    &&& all_digits(int_digits(r))
    &&& all_digits(frac_digits(r))
    &&& int_digits(r).len() + frac_digits(r).len() > 0
    &&& (find_exp_marker(r) < r.len() ==> is_signed_numeral(exp_text(r)))
}

/// The exponent written after the marker, zero when absent.
pub open spec fn written_exponent(r: Seq<u8>) -> int {
    if find_exp_marker(r) < r.len() {
        signed_numeral_value(exp_text(r))
    } else {
        0
    }
}

/// What `f64::from_str` accepts, as the exact decimal the text denotes.
pub open spec fn parse_decimal_spec(s: Seq<u8>) -> Option<DecimalValue> {
    let neg = starts_negative(s);
    let r = unsigned_part(s);
    if matches_word(r, word_inf()) || matches_word(r, word_infinity()) {
        Some(DecimalValue::Infinite { negative: neg })
    } else if matches_word(r, word_nan()) {
        Some(DecimalValue::NotANumber { negative: neg })
    } else if is_unsigned_decimal(r) {
        Some(
            DecimalValue::Finite {
                negative: neg,
                mantissa: digits_value(int_digits(r) + frac_digits(r)) as u64,
                exponent: (written_exponent(r) - frac_digits(r).len()) as i64,
            },
        )
    } else {
        None
    }
}

pub proof fn lemma_pow10_mono(a: nat, b: nat)
    requires
        a <= b,
    ensures
        pow10(a) <= pow10(b),
    decreases b,
{
    if a < b {
        lemma_pow10_mono(a, (b - 1) as nat);
    }
}

proof fn lemma_pow10_18()
    ensures
        pow10(18) == 1000000000000000000,
{
    reveal_with_fuel(pow10, 19);
}

/// A run of at most 18 digits has a value below `10^18`.
proof fn lemma_short_digits(s: Seq<u8>)
    requires
        all_digits(s),
        s.len() <= 18,
    ensures
        digits_value(s) < 1000000000000000000,
{
    lemma_digits_value_bound(s);
    lemma_pow10_mono(s.len(), 18);
    lemma_pow10_18();
}

fn lower_byte(b: u8) -> (r: u8)
    ensures
        r == lower(b),
{
    if b >= 0x41 && b <= 0x5a {
        b + 0x20
    } else {
        b
    }
}

/// Whether `b[lo..hi]` matches `w` once lower-cased.
pub(crate) fn matches_word_at(b: &[u8], lo: usize, hi: usize, w: &[u8]) -> (r: bool)
    requires
        lo <= hi <= b@.len(),
    ensures
        r == matches_word(b@.subrange(lo as int, hi as int), w@),
{
    if hi - lo != w.len() {
        return false;
    }
    let mut i: usize = 0;
    while i < w.len()
        invariant
            hi - lo == w@.len(),
            lo <= hi <= b@.len(),
            i <= w@.len(),
            forall|k: int| 0 <= k < i ==> lower(b@[lo + k]) == w@[k],
        decreases w@.len() - i,
    {
        if lower_byte(b[lo + i]) != w[i] {
            proof {
                let s = b@.subrange(lo as int, hi as int);
                assert(lower(s[i as int]) != w@[i as int]);
            }
            return false;
        }
        i = i + 1;
    }
    proof {
        let s = b@.subrange(lo as int, hi as int);
        assert forall|k: int| 0 <= k < s.len() implies #[trigger] lower(s[k]) == w@[k] by {
            assert(s[k] == b@[lo + k]);
        }
    }
    true
}

/// Position of the first byte of `b[lo..hi]` that is an exponent marker
/// (when `marker_e`) or a point, as an index into `b`.
fn find_at(b: &[u8], lo: usize, hi: usize, marker_e: bool) -> (p: usize)
    requires
        lo <= hi <= b@.len(),
    ensures
        lo <= p <= hi,
        marker_e ==> p - lo == find_exp_marker(b@.subrange(lo as int, hi as int)),
        !marker_e ==> p - lo == find_dot(b@.subrange(lo as int, hi as int)),
{
    let mut i = lo;
    while i < hi
        invariant
            lo <= i <= hi <= b@.len(),
            marker_e ==> find_exp_marker(b@.subrange(lo as int, hi as int)) == (i - lo)
                + find_exp_marker(b@.subrange(i as int, hi as int)),
            !marker_e ==> find_dot(b@.subrange(lo as int, hi as int)) == (i - lo) + find_dot(
                b@.subrange(i as int, hi as int),
            ),
        ensures
            lo <= i <= hi,
            marker_e ==> find_exp_marker(b@.subrange(lo as int, hi as int)) == (i - lo)
                + find_exp_marker(b@.subrange(i as int, hi as int)),
            !marker_e ==> find_dot(b@.subrange(lo as int, hi as int)) == (i - lo) + find_dot(
                b@.subrange(i as int, hi as int),
            ),
            i < hi ==> (marker_e ==> is_exp_marker(b@[i as int])),
            i < hi ==> (!marker_e ==> b@[i as int] == 0x2e),
        decreases hi - i,
    {
        let c = b[i];
        let hit = if marker_e {
            c == 0x65 || c == 0x45
        } else {
            c == 0x2e
        };
        if hit {
            break ;
        }
        proof {
            let s = b@.subrange(i as int, hi as int);
            assert(s.subrange(1, s.len() as int) =~= b@.subrange(i + 1, hi as int));
        }
        i = i + 1;
    }
    i
}

/// An exponent written as an optionally signed integer in `b[lo..hi]`.
fn exponent_at(b: &[u8], lo: usize, hi: usize) -> (r: Option<i64>)
    requires
        lo <= hi <= b@.len(),
        hi - lo <= 18,
    ensures
        r is Some <==> is_signed_numeral(b@.subrange(lo as int, hi as int)),
        r matches Some(e) ==> e == signed_numeral_value(b@.subrange(lo as int, hi as int)),
        r matches Some(e) ==> -1000000000000000000 < e < 1000000000000000000,
{
    let ghost es = b@.subrange(lo as int, hi as int);
    proof {
        if is_signed_numeral(es) {
            lemma_short_digits(unsigned_part(es));
        }
    }
    parse_i64_at(b, lo, hi)
}

/// Value of the digits `b[lo..mid] ++ b[mid2..hi]` read as one numeral.
fn joined_digits_value(b: &[u8], lo: usize, mid: usize, mid2: usize, hi: usize) -> (r: u64)
    requires
        lo <= mid <= mid2 <= hi <= b@.len(),
        (mid - lo) + (hi - mid2) <= 18,
        all_digits(b@.subrange(lo as int, mid as int)),
        all_digits(b@.subrange(mid2 as int, hi as int)),
    ensures
        r as nat == digits_value(b@.subrange(lo as int, mid as int) + b@.subrange(
            mid2 as int,
            hi as int,
        )),
{
    let ghost all = b@.subrange(lo as int, mid as int) + b@.subrange(mid2 as int, hi as int);
    let mut digits = copy_range(b, lo, mid);
    let mut i = mid2;
    while i < hi
        invariant
            mid2 <= i <= hi <= b@.len(),
            digits@ == b@.subrange(lo as int, mid as int) + b@.subrange(mid2 as int, i as int),
        decreases hi - i,
    {
        digits.push(b[i]);
        proof {
            assert(digits@ =~= b@.subrange(lo as int, mid as int) + b@.subrange(
                mid2 as int,
                i + 1,
            ));
        }
        i = i + 1;
    }
    proof {
        assert(digits@ =~= all);
        let a = b@.subrange(lo as int, mid as int);
        let c = b@.subrange(mid2 as int, hi as int);
        assert(all_digits(all)) by {
            assert forall|k: int| 0 <= k < all.len() implies #[trigger] is_digit(all[k]) by {
                if k < a.len() {
                    assert(all[k] == a[k]);
                } else {
                    assert(all[k] == c[k - a.len()]);
                }
            }
        }
        lemma_short_digits(all);
        assert(digits@.subrange(0, digits@.len() as int) =~= digits@);
    }
    let n = digits.len();
    match digits_value_capped(digits.as_slice(), 0, n, 999999999999999999) {
        Some(v) => v,
        None => {
            proof {
                assert(false);
            }
            0
        },
    }
}

/// An unsigned decimal numeral in `b[lo..hi]`, as `(mantissa, exponent)`.
fn unsigned_decimal_at(b: &[u8], lo: usize, hi: usize) -> (r: Option<(u64, i64)>)
    requires
        lo <= hi <= b@.len(),
        hi - lo <= 18,
    ensures
        r is Some <==> is_unsigned_decimal(b@.subrange(lo as int, hi as int)),
        r matches Some(v) ==> {
            let s = b@.subrange(lo as int, hi as int);
            &&& v.0 as nat == digits_value(int_digits(s) + frac_digits(s))
            &&& v.1 as int == written_exponent(s) - frac_digits(s).len()
        },
{
    let ghost r = b@.subrange(lo as int, hi as int);
    let p = find_at(b, lo, hi, true);
    let d = find_at(b, lo, p, false);
    proof {
        let m = r.subrange(0, p - lo);
        assert(m =~= b@.subrange(lo as int, p as int));
        assert(int_digits(r) =~= b@.subrange(lo as int, d as int));
        if d < p {
            assert(frac_digits(r) =~= b@.subrange(d + 1, p as int));
        } else {
            assert(frac_digits(r) =~= b@.subrange(p as int, p as int));
        }
        if p < hi {
            assert(exp_text(r) =~= b@.subrange(p + 1, hi as int));
        }
    }
    let frac_lo = if d < p {
        d + 1
    } else {
        p
    };
    if !all_digits_at(b, lo, d) || !all_digits_at(b, frac_lo, p) {
        return None;
    }
    if (d - lo) + (p - frac_lo) == 0 {
        return None;
    }
    let mut exp: i64 = 0;
    if p < hi {
        match exponent_at(b, p + 1, hi) {
            None => {
                return None;
            },
            Some(e) => {
                exp = e;
            },
        }
    }
    let mantissa = joined_digits_value(b, lo, d, frac_lo, p);
    let flen = (p - frac_lo) as i64;
    Some((mantissa, exp - flen))
}

/// `f64::from_str` on the bytes `b[lo..hi]`, kept as an exact decimal.
/// Fields of at most 18 bytes are handled, which covers every numeric
/// column of the element-set formats.
pub fn parse_decimal_at(b: &[u8], lo: usize, hi: usize) -> (r: Option<DecimalValue>)
    requires
        lo <= hi <= b@.len(),
        hi - lo <= 18,
    ensures
        r == parse_decimal_spec(b@.subrange(lo as int, hi as int)),
{
    let ghost s = b@.subrange(lo as int, hi as int);
    let (neg, start) = numeral_digits_start(b, lo, hi);
    let inf: [u8; 3] = [0x69, 0x6e, 0x66];
    let infinity: [u8; 8] = [0x69, 0x6e, 0x66, 0x69, 0x6e, 0x69, 0x74, 0x79];
    let nan: [u8; 3] = [0x6e, 0x61, 0x6e];
    proof {
        assert(inf@ =~= word_inf());
        assert(infinity@ =~= word_infinity());
        assert(nan@ =~= word_nan());
    }
    if matches_word_at(b, start, hi, &inf) || matches_word_at(b, start, hi, &infinity) {
        return Some(DecimalValue::Infinite { negative: neg });
    }
    if matches_word_at(b, start, hi, &nan) {
        return Some(DecimalValue::NotANumber { negative: neg });
    }
    match unsigned_decimal_at(b, start, hi) {
        None => None,
        Some((m, e)) => Some(DecimalValue::Finite { negative: neg, mantissa: m, exponent: e }),
    }
}


/// Integer part of a day-of-year that is finite and lies in `[1, 367)`,
/// read as the exact decimal; `None` otherwise.
pub open spec fn day_of_year_int(d: DecimalValue) -> Option<nat> {
    match d {
        DecimalValue::Finite { negative, mantissa, exponent } => {
            if negative || mantissa == 0 {
                None
            } else if exponent >= 0 {
                let v: nat = mantissa as nat * pow10(exponent as nat);
                if v < 367 {
                    Some(v)
                } else {
                    None
                }
            } else {
                let q = pow10((-exponent) as nat);
                let m = mantissa as nat;
                if m >= q && m < 367 * q {
                    Some(m / q)
                } else {
                    None
                }
            }
        },
        _ => None,
    }
}

/// `10^k` for `k <= 20`.
pub fn pow10_u128(k: u32) -> (r: u128)
    requires
        k <= 20,
    ensures
        r as nat == pow10(k as nat),
{
    let mut r: u128 = 1;
    let mut i: u32 = 0;
    while i < k
        invariant
            i <= k <= 20,
            r as nat == pow10(i as nat),
            r <= 100000000000000000000,
        decreases k - i,
    {
        proof {
            lemma_pow10_mono(i as nat, 19);
            reveal_with_fuel(pow10, 21);
        }
        r = r * 10;
        i = i + 1;
    }
    r
}

/// Integer part of a day-of-year in `[1, 367)` (see [`day_of_year_int`]).
pub fn day_of_year_floor(d: DecimalValue) -> (r: Option<u32>)
    ensures
        day_of_year_int(d) matches Some(v) ==> (r matches Some(x) && x as nat == v),
        day_of_year_int(d) is None ==> r is None,
        r matches Some(x) ==> 1 <= x <= 366,
{
    match d {
        DecimalValue::Finite { negative, mantissa, exponent } => {
            if negative || mantissa == 0 {
                return None;
            }
            if exponent >= 0 {
                if mantissa >= 367 || exponent >= 3 {
                    proof {
                        crate::text::lemma_pow10_positive(exponent as nat);
                        if exponent >= 3 {
                            lemma_pow10_mono(3, exponent as nat);
                            reveal_with_fuel(pow10, 4);
                        }
                        assert(mantissa * pow10(exponent as nat) >= 367) by (nonlinear_arith)
                            requires
                                mantissa >= 1,
                                pow10(exponent as nat) >= 1,
                                mantissa >= 367 || pow10(exponent as nat) >= 1000,
                        ;
                    }
                    return None;
                }
                let p = pow10_u128(exponent as u32);
                proof {
                    lemma_pow10_mono(exponent as nat, 2);
                    reveal_with_fuel(pow10, 3);
                    assert((mantissa as u128) * p <= 366 * 100) by (nonlinear_arith)
                        requires
                            mantissa < 367,
                            p <= 100,
                    ;
                    crate::text::lemma_pow10_positive(exponent as nat);
                    assert((mantissa as u128) * p >= 1) by (nonlinear_arith)
                        requires
                            mantissa >= 1,
                            p >= 1,
                    ;
                }
                let v = (mantissa as u128) * p;
                if v < 367 {
                    Some(v as u32)
                } else {
                    None
                }
            } else {
                if exponent < -19 {
                    proof {
                        lemma_pow10_mono(20, (-exponent) as nat);
                        reveal_with_fuel(pow10, 21);
                    }
                    return None;
                }
                let q = pow10_u128((0 - exponent) as u32);
                proof {
                    lemma_pow10_mono((-exponent) as nat, 19);
                    reveal_with_fuel(pow10, 20);
                }
                let m = mantissa as u128;
                if m >= q && m < 367 * q {
                    proof {
                        vstd::arithmetic::div_mod::lemma_div_is_ordered_by_denominator(m as int, q as int, q as int);
                        assert(m / q < 367) by (nonlinear_arith)
                            requires
                                m < 367 * q,
                                q > 0,
                        ;
                        assert(m / q >= 1) by (nonlinear_arith)
                            requires
                                m >= q,
                                q > 0,
                        ;
                    }
                    Some((m / q) as u32)
                } else {
                    None
                }
            }
        },
        _ => None,
    }
}

} // verus!
