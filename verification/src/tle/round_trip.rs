//! Reading back what the writer wrote: an element set rendered by
//! [`format_tle`](super::format::format_tle) parses, column by column, to
//! the same catalogue number, classification, designator, counters and
//! epoch year, and to each real element rounded as its column rounds it.
//! [`format_then_parse`] states this for records whose fields fit their
//! columns; [`written_lines_read_back`] for every record the writer
//! accepts whose fixed-point elements are finite, whose year a two-digit
//! year expands to, whose designator is trimmed and whose rounded epoch is
//! still a day of its year; [`parsed_set_reads_back`] for the record of two
//! lines that parse, when the writer accepts it, its fixed-point elements
//! are finite and its rounded epoch is still a day of its year.

use vstd::prelude::*;
use crate::decimal::{
    find_dot, find_exp_marker, frac_digits, int_digits, is_exp_marker,
    is_unsigned_decimal, matches_word, parse_decimal_spec, word_inf, word_infinity, word_nan,
    written_exponent, DecimalValue,
};
use crate::render::{
    abs_scaled_u64, display_fixed, pad_left, scaled_u64, scaled_value, sign_negative,
    Rounding,
};
use super::parse::{
    assumed_decimal_field, assumed_decimal_value, eccentricity_field, float_field, int_field,
    last_sign,
};
use super::{alpha5_text, alpha5_round_trip, lemma_alpha5_ascii, Classification, TleErrorView, TleView};
use super::parse::{
    checksum_check, epoch_check, expand_year, line1_spec, line2_spec, parse_lines_spec, Line1View,
    Line2View,
};
use super::format::{
    format_spec, with_checksum_passes,
    assumed_col, count_col, day_col, designator_col, eccentricity_col, line1_body, line1_head, line1_tail, line2_body, line2_head, line2_motion, line2_shape, real_col,
    signed_fraction_col, with_checksum,
};
use vstd::utf8::{decode_utf8, encode_utf8};
use crate::text::{
    all_ascii, all_digits, decimal_text, digit_value, digits_value, is_ascii_ws, is_digit,
    digit_byte, is_signed_numeral, lemma_decimal_text, lemma_padded_digits, parse_i32_spec,
    parse_i64_spec, signed_numeral_value, lemma_padded_is_decimal, num_digits, padded_digits,
    pow10, starts_negative, trim,
    trim_end, trim_start, unsigned_part, ws_prefix_len, ws_suffix_len,
};

verus! {

broadcast use vstd::seq::group_seq_axioms;

/// `k` copies of a byte.
pub open spec fn fill(k: nat, b: u8) -> Seq<u8> {
    Seq::new(k, |i: int| b)
}

/// The value of digits after digits: `digits_value(a + b) == a * 10^|b| + b`.
proof fn lemma_digits_concat(a: Seq<u8>, b: Seq<u8>)
    ensures
        digits_value(a + b) == digits_value(a) * pow10(b.len()) + digits_value(b),
    decreases b.len(),
{
    if b.len() == 0 {
        assert(a + b =~= a);
        assert(pow10(0) == 1);
        assert(digits_value(b) == 0);
    } else {
        let c = a + b;
        let bl = b.drop_last();
        assert(c.drop_last() =~= a + bl);
        assert(c.last() == b.last());
        lemma_digits_concat(a, bl);
        let x = digits_value(a);
        let y = digits_value(bl);
        let p = pow10(bl.len());
        let d = digit_value(b.last());
        assert(pow10(b.len()) == 10 * p);
        assert(digits_value(a + bl) == x * p + y);
        assert(digits_value(c) == digits_value(c.drop_last()) * 10 + d);
        assert(digits_value(c) == (x * p + y) * 10 + d);
        assert(digits_value(b) == y * 10 + d);
        assert((x * p + y) * 10 + d == x * (10 * p) + (y * 10 + d)) by (nonlinear_arith);
    }
}

/// Leading zeros do not change the value of digits.
proof fn lemma_digits_zeros(k: nat, s: Seq<u8>)
    ensures
        digits_value(fill(k, 0x30) + s) == digits_value(s),
    decreases k,
{
    lemma_digits_concat(fill(k, 0x30), s);
    lemma_zeros_value(k);
}

proof fn lemma_zeros_value(k: nat)
    ensures
        digits_value(fill(k, 0x30)) == 0,
    decreases k,
{
    if k > 0 {
        assert(fill(k, 0x30).drop_last() =~= fill((k - 1) as nat, 0x30));
        lemma_zeros_value((k - 1) as nat);
    }
}

/// Stripping leading whitespace skips a run of spaces.
pub(crate) proof fn lemma_trim_start_spaces(k: nat, s: Seq<u8>)
    ensures
        trim_start(fill(k, 0x20) + s) == trim_start(s),
    decreases k,
{
    if k > 0 {
        let x = fill(k, 0x20) + s;
        assert(ws_prefix_len(x) == 1);
        assert(x.subrange(1, x.len() as int) =~= fill((k - 1) as nat, 0x20) + s);
        lemma_trim_start_spaces((k - 1) as nat, s);
    } else {
        assert(fill(k, 0x20) + s =~= s);
    }
}

/// Stripping trailing whitespace skips a run of spaces.
pub(crate) proof fn lemma_trim_end_spaces(s: Seq<u8>, k: nat)
    ensures
        trim_end(s + fill(k, 0x20)) == trim_end(s),
    decreases k,
{
    if k > 0 {
        let x = s + fill(k, 0x20);
        assert(ws_suffix_len(x) == 1);
        assert(x.subrange(0, x.len() - 1) =~= s + fill((k - 1) as nat, 0x20));
        lemma_trim_end_spaces(s, (k - 1) as nat);
    } else {
        assert(s + fill(k, 0x20) =~= s);
    }
}

/// An ASCII byte that is not whitespace: text that begins or ends with
/// one does not begin or end with whitespace.
pub open spec fn solid(b: u8) -> bool {
    b < 0x80 && !is_ascii_ws(b)
}

/// Text that begins and ends with a solid byte is its own trim, also after
/// a run of leading spaces.
proof fn lemma_trim_solid(k: nat, s: Seq<u8>)
    requires
        s.len() > 0,
        solid(s[0]),
        solid(s[s.len() - 1]),
    ensures
        trim(fill(k, 0x20) + s) == s,
        trim(s) == s,
        trim_start(s) == s,
{
    lemma_trim_start_spaces(k, s);
    assert(ws_prefix_len(s) == 0);
    assert(ws_suffix_len(s) == 0);
}

/// Text without an exponent marker has its marker position at its end.
proof fn lemma_no_exp_marker(s: Seq<u8>)
    requires
        forall|i: int| 0 <= i < s.len() ==> !is_exp_marker(#[trigger] s[i]),
    ensures
        find_exp_marker(s) == s.len(),
    decreases s.len(),
{
    if s.len() > 0 {
        let t = s.subrange(1, s.len() as int);
        assert(!is_exp_marker(s[0]));
        assert forall|i: int| 0 <= i < t.len() implies !is_exp_marker(#[trigger] t[i]) by {
            assert(t[i] == s[i + 1]);
        }
        lemma_no_exp_marker(t);
    }
}

/// The first point of `s` is at `k` when `s[k]` is one and none comes before.
proof fn lemma_find_dot_at(s: Seq<u8>, k: int)
    requires
        0 <= k < s.len(),
        s[k] == 0x2e,
        forall|i: int| 0 <= i < k ==> s[i] != 0x2e,
    ensures
        find_dot(s) == k,
    decreases k,
{
    if k > 0 {
        let t = s.subrange(1, s.len() as int);
        assert(s[0] != 0x2e);
        assert forall|i: int| 0 <= i < k - 1 implies t[i] != 0x2e by {
            assert(t[i] == s[i + 1]);
        }
        lemma_find_dot_at(t, k - 1);
    }
}

/// Digits, a point and digits read back as the number they spell, scaled
/// by the count of fraction digits.
proof fn lemma_parse_point_number(neg: bool, a: Seq<u8>, f: Seq<u8>)
    requires
        all_digits(a),
        all_digits(f),
        f.len() > 0,
        a.len() > 0 || true,
        digits_value(a + f) <= u64::MAX,
    ensures
        parse_decimal_spec((if neg {
            seq![0x2du8]
        } else {
            Seq::<u8>::empty()
        }) + a + seq![0x2eu8] + f) == Some(
            DecimalValue::Finite {
                negative: neg,
                mantissa: digits_value(a + f) as u64,
                exponent: (0 - f.len()) as i64,
            },
        ),
{
    let u = a + seq![0x2eu8] + f;
    let s = (if neg {
        seq![0x2du8]
    } else {
        Seq::<u8>::empty()
    }) + u;
    assert(s =~= (if neg {
        seq![0x2du8]
    } else {
        Seq::<u8>::empty()
    }) + a + seq![0x2eu8] + f);
    if neg {
        assert(s[0] == 0x2d);
        assert(unsigned_part(s) =~= u);
    } else {
        assert(s =~= u);
        if a.len() > 0 {
            assert(is_digit(a[0]));
            assert(u[0] == a[0]);
        } else {
            assert(u[0] == 0x2e);
        }
        assert(unsigned_part(s) =~= u);
    }
    assert(starts_negative(s) == neg);
    assert forall|i: int| 0 <= i < u.len() implies !is_exp_marker(#[trigger] u[i]) by {
        if i < a.len() {
            assert(u[i] == a[i]);
            assert(is_digit(a[i]));
        } else if i > a.len() {
            assert(u[i] == f[i - a.len() - 1]);
            assert(is_digit(f[i - a.len() - 1]));
        }
    }
    lemma_no_exp_marker(u);
    assert(u.subrange(0, u.len() as int) =~= u);
    assert forall|i: int| 0 <= i < a.len() implies u[i] != 0x2e by {
        assert(u[i] == a[i]);
        assert(is_digit(a[i]));
    }
    lemma_find_dot_at(u, a.len() as int);
    assert(int_digits(u) =~= a);
    assert(frac_digits(u) =~= f);
    assert(written_exponent(u) == 0);
    // the numeral is none of the words
    assert(!matches_word(u, word_nan())) by {
        if u.len() == 3 {
            if a.len() > 0 {
                assert(is_digit(u[0]));
            }
            assert(crate::decimal::lower(u[0]) != word_nan()[0]);
        }
    }
    assert(!matches_word(u, word_inf())) by {
        if u.len() == 3 {
            if a.len() > 0 {
                assert(is_digit(u[0]));
            }
            assert(crate::decimal::lower(u[0]) != word_inf()[0]);
        }
    }
    assert(!matches_word(u, word_infinity())) by {
        if u.len() == 8 {
            if a.len() > 0 {
                assert(is_digit(u[0]));
            }
            assert(crate::decimal::lower(u[0]) != word_infinity()[0]);
        }
    }
    assert(is_unsigned_decimal(u));
}

/// A numeral has as many digits as `num_digits` says, and is below ten to
/// that power.
proof fn lemma_decimal_len(n: nat)
    ensures
        decimal_text(n).len() == num_digits(n),
        n < pow10(num_digits(n)),
{
    lemma_padded_is_decimal(n);
    lemma_padded_digits(n, num_digits(n));
    super::format::lemma_num_digits_bound(n);
}

/// A real element rounded to `p` places, as its fixed-point column gives it
/// back: the rounded magnitude over `10^p`, with the sign kept.
pub open spec fn fixed_round(d: DecimalValue, p: nat) -> DecimalValue {
    match d {
        DecimalValue::Finite { negative, mantissa, exponent } => DecimalValue::Finite {
            negative,
            mantissa: scaled_value(mantissa as nat, exponent as int, p, Rounding::HalfEven) as u64,
            exponent: (0 - p) as i64,
        },
        _ => d,
    }
}

/// The fixed-point rendering of a finite value is short enough for a
/// column of `w` characters.
pub open spec fn fits_fixed(d: DecimalValue, w: nat, p: nat) -> bool {
    d is Finite && display_fixed(d, p).len() <= w
}

/// The pieces of a finite value's fixed-point rendering.
proof fn lemma_fixed_shape(d: DecimalValue, w: nat, p: nat)
    requires
        fits_fixed(d, w, p),
        1 <= p < w <= 12,
    ensures
        ({
            let n = scaled_value(d->mantissa as nat, d->exponent as int, p, Rounding::HalfEven);
            let a = decimal_text(n / pow10(p));
            let f = padded_digits(n % pow10(p), p);
            &&& display_fixed(d, p) == (if d->Finite_negative {
                seq![0x2du8]
            } else {
                Seq::<u8>::empty()
            }) + a + seq![0x2eu8] + f
            &&& all_digits(a) && a.len() > 0
            &&& all_digits(f) && f.len() == p
            &&& digits_value(a + f) == n
            &&& n < pow10(11)
        }),
{
    let n = scaled_value(d->mantissa as nat, d->exponent as int, p, Rounding::HalfEven);
    let q = n / pow10(p);
    let a = decimal_text(q);
    let f = padded_digits(n % pow10(p), p);
    crate::text::lemma_pow10_positive(p);
    lemma_decimal_text(q);
    lemma_padded_digits(n % pow10(p), p);
    lemma_digits_concat(a, f);
    assert((n % pow10(p)) % pow10(p) == n % pow10(p)) by {
        vstd::arithmetic::div_mod::lemma_mod_twice(n as int, pow10(p) as int);
    }
    assert(q * pow10(p) + n % pow10(p) == n) by {
        vstd::arithmetic::div_mod::lemma_fundamental_div_mod(n as int, pow10(p) as int);
    }
    assert(display_fixed(d, p) =~= (if d->Finite_negative {
        seq![0x2du8]
    } else {
        Seq::<u8>::empty()
    }) + a + seq![0x2eu8] + f);
    // the integer digits fit in what the column leaves them
    lemma_decimal_len(q);
    assert(a.len() <= w - 1 - p);
    crate::decimal::lemma_pow10_mono(num_digits(q), (w - 1 - p) as nat);
    crate::decimal::lemma_pow10_mono((w - 1) as nat, 11);
    super::super::render::lemma_pow10_add((w - 1 - p) as nat, p);
    let qq = pow10((w - 1 - p) as nat);
    let pp = pow10(p);
    let r = n % pow10(p);
    assert(q < qq);
    assert(((w - 1 - p) as nat + p) as nat == (w - 1) as nat);
    assert(pow10((w - 1) as nat) == qq * pp);
    assert(r < pp);
    assert(n < qq * pp) by (nonlinear_arith)
        requires
            q < qq,
            q * pp + r == n,
            r < pp,
    ;
}

/// A fixed-point column reads back as the value rounded to its places.
proof fn lemma_real_col(d: DecimalValue, w: nat, p: nat, field: &'static str)
    requires
        fits_fixed(d, w, p),
        1 <= p < w <= 12,
    ensures
        float_field(crate::tle::format::real_col(d, w, p), field) == Ok::<
            DecimalValue,
            super::TleErrorView,
        >(fixed_round(d, p)),
        crate::tle::format::real_col(d, w, p).len() == w,
        all_ascii(crate::tle::format::real_col(d, w, p)),
{
    lemma_fixed_shape(d, w, p);
    let n = scaled_value(d->mantissa as nat, d->exponent as int, p, Rounding::HalfEven);
    let a = decimal_text(n / pow10(p));
    let f = padded_digits(n % pow10(p), p);
    let disp = display_fixed(d, p);
    reveal_with_fuel(pow10, 12);
    lemma_parse_point_number(d->Finite_negative, a, f);
    let k = (w - disp.len()) as nat;
    assert(crate::tle::format::real_col(d, w, p) =~= fill(k, 0x20) + disp);
    assert(is_digit(f[f.len() - 1]));
    assert(disp[disp.len() - 1] == f[f.len() - 1]);
    if d->Finite_negative {
        assert(disp[0] == 0x2d);
    } else {
        assert(disp[0] == a[0]);
        assert(is_digit(a[0]));
    }
    lemma_trim_solid(k, disp);
    assert(all_ascii(fill(k, 0x20) + disp)) by {
        assert forall|i: int| 0 <= i < k + disp.len() implies #[trigger] (fill(k, 0x20)
            + disp)[i] < 0x80 by {
            if i >= k {
                let j = i - k;
                assert((fill(k, 0x20) + disp)[i] == disp[j]);
                if d->Finite_negative {
                    if j == 0 {
                    } else if j < 1 + a.len() {
                        assert(disp[j] == a[j - 1]);
                        assert(is_digit(a[j - 1]));
                    } else if j > 1 + a.len() {
                        assert(disp[j] == f[j - 2 - a.len()]);
                        assert(is_digit(f[j - 2 - a.len()]));
                    }
                } else {
                    if j < a.len() {
                        assert(disp[j] == a[j]);
                        assert(is_digit(a[j]));
                    } else if j > a.len() {
                        assert(disp[j] == f[j - 1 - a.len()]);
                        assert(is_digit(f[j - 1 - a.len()]));
                    }
                }
            }
        }
    }
}

/// The zero-padded day column reads back as the day rounded to eight places.
proof fn lemma_day_col(d: DecimalValue)
    requires
        fits_fixed(d, 12, 8),
        !d->Finite_negative,
    ensures
        float_field(crate::tle::format::day_col(d), "epoch_day") == Ok::<
            DecimalValue,
            super::TleErrorView,
        >(fixed_round(d, 8)),
        crate::tle::format::day_col(d).len() == 12,
        all_ascii(crate::tle::format::day_col(d)),
{
    lemma_fixed_shape(d, 12, 8);
    let n = scaled_value(d->mantissa as nat, d->exponent as int, 8, Rounding::HalfEven);
    let a = decimal_text(n / pow10(8));
    let f = padded_digits(n % pow10(8), 8);
    let disp = display_fixed(d, 8);
    let k = (12 - disp.len()) as nat;
    let z = fill(k, 0x30) + a;
    assert(crate::tle::format::day_col(d) =~= Seq::<u8>::empty() + z + seq![0x2eu8] + f);
    assert(all_digits(z)) by {
        assert forall|i: int| 0 <= i < z.len() implies #[trigger] is_digit(z[i]) by {
            if i >= k {
                assert(z[i] == a[i - k]);
            }
        }
    }
    assert(z + f =~= fill(k, 0x30) + (a + f));
    lemma_digits_zeros(k, a + f);
    reveal_with_fuel(pow10, 12);
    lemma_parse_point_number(false, z, f);
    let col = crate::tle::format::day_col(d);
    assert(is_digit(z[0]));
    assert(col[0] == z[0]);
    assert(col[col.len() - 1] == f[f.len() - 1]);
    assert(is_digit(f[f.len() - 1]));
    lemma_trim_solid(0, col);
    crate::text::lemma_digits_ascii(z);
    crate::text::lemma_digits_ascii(f);
    assert(all_ascii(col)) by {
        assert forall|i: int| 0 <= i < col.len() implies #[trigger] col[i] < 0x80 by {
            if i < z.len() {
                assert(col[i] == z[i]);
            } else if i > z.len() {
                assert(col[i] == f[i - z.len() - 1]);
            }
        }
    }
}

/// Zero-padding digits keeps them digits and keeps their value.
proof fn lemma_zero_padded(n: nat, w: nat)
    requires
        n < pow10(w),
        w >= 1,
    ensures
        pad_left(decimal_text(n), w, 0x30) == fill((w - decimal_text(n).len()) as nat, 0x30)
            + decimal_text(n),
        pad_left(decimal_text(n), w, 0x30).len() == w,
        all_digits(pad_left(decimal_text(n), w, 0x30)),
        digits_value(pad_left(decimal_text(n), w, 0x30)) == n,
{
    lemma_decimal_len(n);
    lemma_decimal_text(n);
    if num_digits(n) > w {
        crate::decimal::lemma_pow10_mono(w, (num_digits(n) - 1) as nat);
        super::format::lemma_num_digits_bound(n);
        assert(n >= 10);
        assert(false);
    }
    let t = decimal_text(n);
    let k = (w - t.len()) as nat;
    assert(pad_left(t, w, 0x30) =~= fill(k, 0x30) + t);
    lemma_digits_zeros(k, t);
    assert forall|i: int| 0 <= i < w implies #[trigger] is_digit((fill(k, 0x30) + t)[i]) by {
        if i >= k {
            assert((fill(k, 0x30) + t)[i] == t[i - k]);
        }
    }
}

/// A first derivative rounded as its column rounds it: eight places of the
/// magnitude, half away from zero, with the sign kept.
pub open spec fn fraction_round(d: DecimalValue) -> DecimalValue {
    DecimalValue::Finite {
        negative: sign_negative(d),
        mantissa: abs_scaled_u64(d, 8) as u64,
        exponent: -8i64,
    }
}

/// The signed-fraction column reads back as the value rounded to eight
/// places.
proof fn lemma_signed_fraction_col(d: DecimalValue)
    requires
        abs_scaled_u64(d, 8) < pow10(8),
    ensures
        float_field(crate::tle::format::signed_fraction_col(d), "mean_motion_dot") == Ok::<
            DecimalValue,
            super::TleErrorView,
        >(fraction_round(d)),
        crate::tle::format::signed_fraction_col(d).len() == 10,
        all_ascii(crate::tle::format::signed_fraction_col(d)),
{
    let a = abs_scaled_u64(d, 8);
    lemma_zero_padded(a, 8);
    let ds = pad_left(decimal_text(a), 8, 0x30);
    let col = crate::tle::format::signed_fraction_col(d);
    let neg = sign_negative(d);
    reveal_with_fuel(pow10, 9);
    lemma_parse_point_number(neg, Seq::<u8>::empty(), ds);
    assert(Seq::<u8>::empty() + ds =~= ds);
    let body = seq![0x2eu8] + ds;
    assert(is_digit(ds[7]));
    crate::text::lemma_digits_ascii(ds);
    if neg {
        assert(col =~= seq![0x2du8] + Seq::<u8>::empty() + seq![0x2eu8] + ds);
        lemma_trim_solid(0, col);
        assert(col[col.len() - 1] == ds[7]);
    } else {
        assert(col =~= fill(1, 0x20) + body);
        assert(body[body.len() - 1] == ds[7]);
        lemma_trim_solid(1, body);
        assert(body =~= Seq::<u8>::empty() + Seq::<u8>::empty() + seq![0x2eu8] + ds);
    }
    assert(all_ascii(col)) by {
        assert forall|i: int| 0 <= i < col.len() implies #[trigger] col[i] < 0x80 by {
            if i >= 2 {
                assert(col[i] == ds[i - 2]);
            }
        }
    }
}

/// The decimal exponent and the five rounded mantissa digits of the
/// assumed-decimal column.
pub open spec fn assumed_exponent(d: DecimalValue) -> int {
    crate::tle::format::assumed_exponent_of(d->mantissa as nat, d->exponent as int)
}

pub open spec fn assumed_digits(d: DecimalValue) -> nat {
    crate::tle::format::assumed_digits_of(d->mantissa as nat)
}

/// A value written in the assumed-decimal column fits it: five mantissa
/// digits after rounding and a one-digit exponent.
pub open spec fn fits_assumed(d: DecimalValue) -> bool {
    d is Finite && d->mantissa != 0 ==> assumed_digits(d) < 100000 && -9 <= assumed_exponent(d)
        <= 9
}

/// A drag term rounded as its column rounds it: five significant digits
/// times a power of ten; zero and non-finite values become zero.
pub open spec fn assumed_round(d: DecimalValue) -> DecimalValue {
    if d is Finite && d->mantissa != 0 {
        DecimalValue::Finite {
            negative: d->Finite_negative,
            mantissa: assumed_digits(d) as u64,
            exponent: (assumed_exponent(d) - 5) as i64,
        }
    } else {
        DecimalValue::Finite { negative: false, mantissa: 0, exponent: -5i64 }
    }
}

/// The last sign of five digits, a sign and a digit is the sign.
proof fn lemma_last_sign_7(r: Seq<u8>)
    requires
        r.len() == 7,
        all_digits(r.subrange(0, 5)),
        r[5] == 0x2b || r[5] == 0x2d,
        is_digit(r[6]),
    ensures
        last_sign(r) == 5,
{
    assert(r.last() == r[6]);
    assert(r.last() != 0x2b && r.last() != 0x2d);
    let t = r.drop_last();
    assert(t.len() == 6);
    assert(t.last() == r[5]);
    assert(last_sign(t) == 5);
    assert(last_sign(r) == last_sign(t));
}

/// The unsigned part of the column (digits, exponent sign, exponent digit)
/// reads back as `digits * 10^(x - 5)`.
proof fn lemma_assumed_rest(neg: bool, ds: Seq<u8>, x: int)
    requires
        ds.len() == 5,
        all_digits(ds),
        -9 <= x <= 9,
    ensures
        ({
            let r = ds + seq![if x < 0 { 0x2du8 } else { 0x2bu8 }] + decimal_text(
                if x < 0 {
                    (-x) as nat
                } else {
                    x as nat
                },
            );
            let t = (if neg {
                seq![0x2du8]
            } else {
                Seq::<u8>::empty()
            }) + r;
            &&& assumed_decimal_value(t) == Some(
                DecimalValue::Finite {
                    negative: neg,
                    mantissa: digits_value(ds) as u64,
                    exponent: (x - 5) as i64,
                },
            )
            &&& r.len() == 7
            &&& all_ascii(r)
            &&& is_digit(r[6])
            &&& is_digit(r[0])
        }),
{
    crate::text::lemma_digits_value_bound(ds);
    reveal_with_fuel(pow10, 6);
    assert(digits_value(ds) < 100000);
    let ax: nat = if x < 0 {
        (-x) as nat
    } else {
        x as nat
    };
    let sg: u8 = if x < 0 {
        0x2du8
    } else {
        0x2bu8
    };
    assert(decimal_text(ax) == seq![digit_byte(ax)]);
    let r = ds + seq![sg] + decimal_text(ax);
    let t = (if neg {
        seq![0x2du8]
    } else {
        Seq::<u8>::empty()
    }) + r;
    assert(r.subrange(0, 5) =~= ds);
    assert(is_digit(ds[0]));
    assert(r[0] == ds[0]);
    lemma_last_sign_7(r);
    let rest = if t[0] == 0x2d || t[0] == 0x2b {
        t.subrange(1, t.len() as int)
    } else {
        t
    };
    if neg {
        assert(rest =~= r);
    } else {
        assert(t =~= r);
        assert(rest =~= r);
    }
    let es = r.subrange(5, 7);
    assert(es =~= seq![sg, digit_byte(ax)]);
    assert(crate::text::unsigned_part(es) =~= seq![digit_byte(ax)]);
    let u = seq![digit_byte(ax)];
    assert(u.drop_last() =~= Seq::<u8>::empty());
    assert(digits_value(u) == digits_value(u.drop_last()) * 10 + digit_value(u.last()));
    assert(digits_value(u) == ax);
    assert(is_signed_numeral(es));
    assert(signed_numeral_value(es) == x);
    assert(parse_i32_spec(es) == Some(x as i32));
    crate::text::lemma_digits_ascii(ds);
    assert(all_ascii(r)) by {
        assert forall|i: int| 0 <= i < 7 implies #[trigger] r[i] < 0x80 by {
            if i < 5 {
                assert(r[i] == ds[i]);
            }
        }
    }
}

/// The assumed-decimal column reads back as the value rounded to five
/// significant digits.
proof fn lemma_assumed_col(d: DecimalValue, field: &'static str)
    requires
        fits_assumed(d),
    ensures
        assumed_decimal_field(crate::tle::format::assumed_col(d), field) == Ok::<
            DecimalValue,
            super::TleErrorView,
        >(assumed_round(d)),
        crate::tle::format::assumed_col(d).len() == 8,
        all_ascii(crate::tle::format::assumed_col(d)),
{
    let col = crate::tle::format::assumed_col(d);
    if d is Finite && d->mantissa != 0 {
        let sc = assumed_digits(d);
        let x = assumed_exponent(d);
        reveal_with_fuel(pow10, 6);
        lemma_zero_padded(sc, 5);
        let ds = pad_left(decimal_text(sc), 5, 0x30);
        lemma_assumed_rest(d->Finite_negative, ds, x);
        let ax: nat = if x < 0 {
            (-x) as nat
        } else {
            x as nat
        };
        let r = ds + seq![if x < 0 { 0x2du8 } else { 0x2bu8 }] + decimal_text(ax);
        if d->Finite_negative {
            assert(col =~= seq![0x2du8] + r);
            lemma_trim_solid(0, col);
            assert(col[col.len() - 1] == r[6]);
        } else {
            assert(col =~= fill(1, 0x20) + r);
            assert(r[r.len() - 1] == r[6]);
            lemma_trim_solid(1, r);
            assert(r =~= Seq::<u8>::empty() + r);
        }
        assert(all_ascii(col)) by {
            assert forall|i: int| 0 <= i < col.len() implies #[trigger] col[i] < 0x80 by {
                if i >= 1 {
                    assert(col[i] == r[i - 1]);
                }
            }
        }
    } else {
        let ds = seq![0x30u8, 0x30, 0x30, 0x30, 0x30];
        assert(all_digits(ds));
        lemma_assumed_rest(false, ds, 0);
        assert(decimal_text(0) == seq![digit_byte(0)]);
        let r = ds + seq![0x2bu8] + decimal_text(0);
        assert(ds =~= fill(5, 0x30));
        lemma_zeros_value(5);
        // the zero column is written with a minus exponent sign
        let r0 = seq![0x30u8, 0x30, 0x30, 0x30, 0x30, 0x2d, 0x30];
        assert(col =~= fill(1, 0x20) + r0);
        lemma_trim_solid(1, r0);
        assert(r0.subrange(0, 5) =~= ds);
        lemma_last_sign_7(r0);
        let es = r0.subrange(5, 7);
        assert(crate::text::unsigned_part(es) =~= seq![0x30u8]);
        let u = seq![0x30u8];
        assert(u.drop_last() =~= Seq::<u8>::empty());
        assert(digits_value(u) == digits_value(u.drop_last()) * 10 + digit_value(u.last()));
        assert(parse_i32_spec(es) == Some(0i32));
        assert(all_ascii(col));
    }
}

/// An eccentricity rounded as its column rounds it: seven places, negative
/// values written as zero.
pub open spec fn eccentricity_round(d: DecimalValue) -> DecimalValue {
    DecimalValue::Finite { negative: false, mantissa: scaled_u64(d, 7) as u64, exponent: -7i64 }
}

/// The eccentricity column reads back as the value rounded to seven places.
proof fn lemma_eccentricity_col(d: DecimalValue)
    requires
        scaled_u64(d, 7) < pow10(7),
    ensures
        eccentricity_field(crate::tle::format::eccentricity_col(d)) == Ok::<
            DecimalValue,
            TleErrorView,
        >(eccentricity_round(d)),
        crate::tle::format::eccentricity_col(d).len() == 7,
        all_ascii(crate::tle::format::eccentricity_col(d)),
{
    let v = scaled_u64(d, 7);
    lemma_zero_padded(v, 7);
    let col = crate::tle::format::eccentricity_col(d);
    assert(is_digit(col[0]) && is_digit(col[6]));
    lemma_trim_solid(0, col);
    crate::text::lemma_digits_ascii(col);
}

/// Digits read as a signed integer give their value.
proof fn lemma_parse_digits(t: Seq<u8>)
    requires
        t.len() > 0,
        all_digits(t),
        digits_value(t) <= i64::MAX,
    ensures
        parse_i64_spec(t) == Some(digits_value(t) as i64),
        trim(t) == t,
{
    assert(is_digit(t[0]));
    assert(crate::text::unsigned_part(t) == t);
    assert(is_digit(t[t.len() - 1]));
    lemma_trim_solid(0, t);
}

/// A right-aligned count column reads back as the count.
proof fn lemma_count_col(n: nat, w: nat, field: &'static str)
    requires
        1 <= w <= 5,
        n < pow10(w),
    ensures
        int_field(trim_start(crate::tle::format::count_col(n, w)), field) == Ok::<
            i64,
            TleErrorView,
        >(n as i64),
        crate::tle::format::count_col(n, w).len() == w,
        all_ascii(crate::tle::format::count_col(n, w)),
{
    lemma_decimal_len(n);
    lemma_decimal_text(n);
    let t = decimal_text(n);
    if num_digits(n) > w {
        crate::decimal::lemma_pow10_mono(w, (num_digits(n) - 1) as nat);
        super::format::lemma_num_digits_bound(n);
        assert(n >= 10);
        assert(false);
    }
    let k = (w - t.len()) as nat;
    let col = crate::tle::format::count_col(n, w);
    assert(col =~= fill(k, 0x20) + t);
    assert(is_digit(t[0]) && is_digit(t[t.len() - 1]));
    lemma_trim_solid(k, t);
    lemma_trim_start_spaces(k, t);
    crate::decimal::lemma_pow10_mono(w, 5);
    reveal_with_fuel(pow10, 6);
    lemma_parse_digits(t);
    crate::text::lemma_digits_ascii(t);
    assert(all_ascii(col)) by {
        assert forall|i: int| 0 <= i < col.len() implies #[trigger] col[i] < 0x80 by {
            if i >= k {
                assert(col[i] == t[i - k]);
            }
        }
    }
}

/// The two-digit year column reads back as the year's last two digits.
proof fn lemma_year_col(y: nat)
    requires
        y < 100,
    ensures
        int_field(padded_digits(y, 2), "epoch_year") == Ok::<i64, TleErrorView>(y as i64),
        padded_digits(y, 2).len() == 2,
        all_ascii(padded_digits(y, 2)),
{
    lemma_padded_digits(y, 2);
    reveal_with_fuel(pow10, 3);
    assert(y % 100 == y);
    lemma_parse_digits(padded_digits(y, 2));
    crate::text::lemma_digits_ascii(padded_digits(y, 2));
}

/// A designator the column holds: ASCII, at most eight bytes, and no
/// whitespace at either end.
pub open spec fn fits_designator(s: Seq<char>) -> bool {
    vstd::utf8::is_ascii_chars(s) && s.len() <= 8 && trim(encode_utf8(s)) == encode_utf8(s)
}

/// The designator column reads back as the designator.
proof fn lemma_designator_col(s: Seq<char>)
    requires
        fits_designator(s),
    ensures
        decode_utf8(trim(crate::tle::format::designator_col(s))) == s,
        crate::tle::format::designator_col(s).len() == 8,
        all_ascii(crate::tle::format::designator_col(s)),
{
    let e = encode_utf8(s);
    let col = crate::tle::format::designator_col(s);
    vstd::utf8::is_ascii_chars_encode_utf8(s);
    assert(all_ascii(e)) by {
        assert forall|i: int| 0 <= i < e.len() implies #[trigger] e[i] < 0x80 by {
            assert(s[i] <= '\u{7f}');
            assert(s[i] as u8 == e[i]);
            assert((s[i] as u32) < 0x80);
        }
    }
    let k = (8 - e.len()) as nat;
    assert(col =~= e + fill(k, 0x20));
    vstd::utf8::encode_utf8_decode_utf8(s);
    vstd::utf8::encode_utf8_valid_utf8(s);
    // trimming the padded column is trimming the designator
    lemma_trim_end_spaces(trim_start(e), k);
    if e.len() > 0 {
        assert(ws_prefix_len(e) == 0) by {
            crate::text::lemma_trim_fixed_ends(e);
        }
        assert(trim_start(e + fill(k, 0x20)) == e + fill(k, 0x20));
        assert(trim_start(e) == e);
    } else {
        assert(e + fill(k, 0x20) =~= fill(k, 0x20) + e);
        lemma_trim_start_spaces(k, e);
        assert(trim_start(e) =~= e);
    }
    assert(all_ascii(col)) by {
        assert forall|i: int| 0 <= i < col.len() implies #[trigger] col[i] < 0x80 by {
            if i < e.len() {
                assert(col[i] == e[i]);
            }
        }
    }
}

/// The classification byte decodes to the classification.
proof fn lemma_classification_byte(c: Classification)
    ensures
        Classification::of_char((c.char_of() as u8) as char) == Some(c),
        (c.char_of() as u8) < 0x80,
{
    match c {
        Classification::Unclassified => {
            assert(('U' as u8) == 0x55u8);
            assert((0x55u8 as char) == 'U');
        },
        Classification::Classified => {
            assert(('C' as u8) == 0x43u8);
            assert((0x43u8 as char) == 'C');
        },
        Classification::Secret => {
            assert(('S' as u8) == 0x53u8);
            assert((0x53u8 as char) == 'S');
        },
    }
}

/// What an element set must satisfy for every field to fit its columns and
/// for the rounded epoch to stay a calendar instant.
pub open spec fn fits_columns(t: TleView) -> bool {
    &&& t.norad_id.0 < 340000
    &&& fits_designator(t.international_designator)
    &&& 1957 <= t.epoch.year <= 2056
    &&& fits_fixed(t.epoch.day_of_year, 12, 8)
    &&& !t.epoch.day_of_year->Finite_negative
    &&& super::parse::epoch_check(t.epoch.year, t.epoch.day_of_year) is Ok
    &&& super::parse::epoch_check(t.epoch.year, fixed_round(t.epoch.day_of_year, 8)) is Ok
    &&& abs_scaled_u64(t.mean_motion_dot, 8) < 100_000_000
    &&& fits_assumed(t.mean_motion_ddot)
    &&& fits_assumed(t.bstar)
    &&& t.element_set_number < 10000
    &&& fits_fixed(t.inclination, 8, 4)
    &&& fits_fixed(t.raan, 8, 4)
    &&& scaled_u64(t.eccentricity, 7) < 10_000_000
    &&& fits_fixed(t.argument_of_perigee, 8, 4)
    &&& fits_fixed(t.mean_anomaly, 8, 4)
    &&& fits_fixed(t.mean_motion, 11, 8)
    &&& t.revolution_number_at_epoch < 100000
}

/// Joining ASCII text gives ASCII text.
proof fn lemma_ascii_concat(a: Seq<u8>, b: Seq<u8>)
    requires
        all_ascii(a),
        all_ascii(b),
    ensures
        all_ascii(a + b),
{
    assert forall|i: int| 0 <= i < a.len() + b.len() implies #[trigger] (a + b)[i] < 0x80 by {
        if i < a.len() {
            assert((a + b)[i] == a[i]);
        } else {
            assert((a + b)[i] == b[i - a.len()]);
        }
    }
}

/// The columns of line 1 are ASCII and have their widths.
#[verifier::rlimit(60)]
#[verifier::spinoff_prover]
proof fn lemma_line1_pieces(t: TleView)
    requires
        fits_columns(t),
    ensures
        line1_head(t).len() == 9,
        all_ascii(line1_head(t)),
        designator_col(t.international_designator).len() == 8,
        all_ascii(designator_col(t.international_designator)),
        line1_tail(t).len() == 51,
        all_ascii(line1_tail(t)),
        line1_tail(t) == seq![0x20u8] + padded_digits((t.epoch.year as int % 100) as nat, 2)
            + day_col(t.epoch.day_of_year) + seq![0x20u8] + signed_fraction_col(t.mean_motion_dot)
            + seq![0x20u8] + assumed_col(t.mean_motion_ddot) + seq![0x20u8] + assumed_col(t.bstar)
            + seq![0x20u8, 0x30, 0x20] + count_col(t.element_set_number as nat, 4),
{
    let n = t.norad_id.0 as nat;
    lemma_alpha5_ascii(n);
    lemma_designator_col(t.international_designator);
    lemma_year_col((t.epoch.year as int % 100) as nat);
    lemma_day_col(t.epoch.day_of_year);
    reveal_with_fuel(pow10, 9);
    lemma_signed_fraction_col(t.mean_motion_dot);
    lemma_assumed_col(t.mean_motion_ddot, "mean_motion_ddot");
    lemma_assumed_col(t.bstar, "bstar");
    lemma_count_col(t.element_set_number as nat, 4, "element_set_number");
    lemma_classification_byte(t.classification);
    let sp = seq![0x20u8];
    assert(all_ascii(sp));
    assert(all_ascii(seq![0x20u8, 0x30, 0x20]));
    assert(all_ascii(seq![0x31u8, 0x20]));
    assert(all_ascii(seq![t.classification.char_of() as u8, 0x20]));
    lemma_ascii_concat(seq![0x31u8, 0x20], alpha5_text(n));
    lemma_ascii_concat(seq![0x31u8, 0x20] + alpha5_text(n), seq![t.classification.char_of() as u8, 0x20]);
    let yy = padded_digits((t.epoch.year as int % 100) as nat, 2);
    let day = day_col(t.epoch.day_of_year);
    let nd = signed_fraction_col(t.mean_motion_dot);
    let ndd = assumed_col(t.mean_motion_ddot);
    let bs = assumed_col(t.bstar);
    let esn = count_col(t.element_set_number as nat, 4);
    let x1 = sp + yy;
    lemma_ascii_concat(sp, yy);
    let x2 = x1 + day;
    lemma_ascii_concat(x1, day);
    let x3 = x2 + sp;
    lemma_ascii_concat(x2, sp);
    let x4 = x3 + nd;
    lemma_ascii_concat(x3, nd);
    let x5 = x4 + sp;
    lemma_ascii_concat(x4, sp);
    let x6 = x5 + ndd;
    lemma_ascii_concat(x5, ndd);
    let x7 = x6 + sp;
    lemma_ascii_concat(x6, sp);
    let x8 = x7 + bs;
    lemma_ascii_concat(x7, bs);
    let x9 = x8 + seq![0x20u8, 0x30, 0x20];
    lemma_ascii_concat(x8, seq![0x20u8, 0x30, 0x20]);
    let x10 = x9 + esn;
    lemma_ascii_concat(x9, esn);
    lemma_tail_assoc(sp, yy, day, nd, ndd, bs, seq![0x20u8, 0x30, 0x20], esn);
    assert(line1_tail(t) == (sp + yy + day) + (sp + nd + sp + ndd + sp + bs) + seq![
        0x20u8,
        0x30,
        0x20,
    ] + esn);
}

/// Regrouping the pieces of line 1 after the designator.
proof fn lemma_tail_assoc(
    sp: Seq<u8>,
    yy: Seq<u8>,
    day: Seq<u8>,
    nd: Seq<u8>,
    ndd: Seq<u8>,
    bs: Seq<u8>,
    z: Seq<u8>,
    esn: Seq<u8>,
)
    ensures
        (sp + yy + day) + (sp + nd + sp + ndd + sp + bs) + z + esn == sp + yy + day + sp + nd + sp
            + ndd + sp + bs + z + esn,
{
    assert((sp + yy + day) + (sp + nd + sp + ndd + sp + bs) + z + esn =~= sp + yy + day + sp + nd
        + sp + ndd + sp + bs + z + esn);
}

/// Line 1 of a record, cut into its columns.
#[verifier::rlimit(40)]
proof fn lemma_line1_layout(t: TleView)
    requires
        fits_columns(t),
    ensures
        ({
            let b = with_checksum(line1_body(t));
            &&& b.len() == 69
            &&& line1_body(t).len() == 68
            &&& all_ascii(b)
            &&& b[0] == 0x31
            &&& b.subrange(2, 7) == alpha5_text(t.norad_id.0 as nat)
            &&& b[7] == t.classification.char_of() as u8
            &&& b.subrange(9, 17) == designator_col(t.international_designator)
            &&& b.subrange(18, 20) == padded_digits((t.epoch.year as int % 100) as nat, 2)
            &&& b.subrange(20, 32) == day_col(t.epoch.day_of_year)
            &&& b.subrange(33, 43) == signed_fraction_col(t.mean_motion_dot)
            &&& b.subrange(44, 52) == assumed_col(t.mean_motion_ddot)
            &&& b.subrange(53, 61) == assumed_col(t.bstar)
            &&& b.subrange(64, 68) == count_col(t.element_set_number as nat, 4)
        }),
{
    lemma_line1_pieces(t);
    let n = t.norad_id.0 as nat;
    lemma_alpha5_ascii(n);
    let head = line1_head(t);
    let des = designator_col(t.international_designator);
    let tail = line1_tail(t);
    let body = line1_body(t);
    let b = with_checksum(body);
    lemma_ascii_concat(head, des);
    lemma_ascii_concat(head + des, tail);
    assert(body =~= head + des + tail);
    assert(b.subrange(0, 68) =~= body);
    assert(crate::tle::parse::checksum_of(body) < 10);
    assert(all_ascii(b)) by {
        assert forall|i: int| 0 <= i < 69 implies #[trigger] b[i] < 0x80 by {
            if i < 68 {
                assert(b[i] == body[i]);
            }
        }
    }
    assert(b.subrange(2, 7) =~= head.subrange(2, 7));
    assert(head.subrange(2, 7) =~= alpha5_text(n));
    assert(b.subrange(9, 17) =~= des);
    lemma_year_col((t.epoch.year as int % 100) as nat);
    lemma_day_col(t.epoch.day_of_year);
    reveal_with_fuel(pow10, 9);
    lemma_signed_fraction_col(t.mean_motion_dot);
    lemma_assumed_col(t.mean_motion_ddot, "mean_motion_ddot");
    lemma_assumed_col(t.bstar, "bstar");
    lemma_count_col(t.element_set_number as nat, 4, "element_set_number");
    let yy = padded_digits((t.epoch.year as int % 100) as nat, 2);
    let day = day_col(t.epoch.day_of_year);
    let nd = signed_fraction_col(t.mean_motion_dot);
    let ndd = assumed_col(t.mean_motion_ddot);
    let bs = assumed_col(t.bstar);
    let esn = count_col(t.element_set_number as nat, 4);
    assert(tail.subrange(1, 3) =~= yy);
    assert(tail.subrange(3, 15) =~= day);
    assert(tail.subrange(16, 26) =~= nd);
    assert(tail.subrange(27, 35) =~= ndd);
    assert(tail.subrange(36, 44) =~= bs);
    assert(tail.subrange(47, 51) =~= esn);
    assert(b.subrange(18, 20) =~= tail.subrange(1, 3));
    assert(b.subrange(20, 32) =~= tail.subrange(3, 15));
    assert(b.subrange(33, 43) =~= tail.subrange(16, 26));
    assert(b.subrange(44, 52) =~= tail.subrange(27, 35));
    assert(b.subrange(53, 61) =~= tail.subrange(36, 44));
    assert(b.subrange(64, 68) =~= tail.subrange(47, 51));
}

/// The columns of line 2 are ASCII and have their widths.
#[verifier::rlimit(40)]
proof fn lemma_line2_pieces(t: TleView)
    requires
        fits_columns(t),
    ensures
        line2_head(t).len() == 8,
        all_ascii(line2_head(t)),
        line2_shape(t).len() == 26,
        all_ascii(line2_shape(t)),
        line2_motion(t).len() == 34,
        all_ascii(line2_motion(t)),
        line2_shape(t).subrange(0, 8) == real_col(t.inclination, 8, 4),
        line2_shape(t).subrange(9, 17) == real_col(t.raan, 8, 4),
        line2_shape(t).subrange(18, 25) == eccentricity_col(t.eccentricity),
        line2_motion(t).subrange(0, 8) == real_col(t.argument_of_perigee, 8, 4),
        line2_motion(t).subrange(9, 17) == real_col(t.mean_anomaly, 8, 4),
        line2_motion(t).subrange(18, 29) == real_col(t.mean_motion, 11, 8),
        line2_motion(t).subrange(29, 34) == count_col(t.revolution_number_at_epoch as nat, 5),
{
    let n = t.norad_id.0 as nat;
    lemma_alpha5_ascii(n);
    lemma_real_col(t.inclination, 8, 4, "inclination");
    lemma_real_col(t.raan, 8, 4, "raan");
    reveal_with_fuel(pow10, 8);
    lemma_eccentricity_col(t.eccentricity);
    lemma_real_col(t.argument_of_perigee, 8, 4, "argument_of_perigee");
    lemma_real_col(t.mean_anomaly, 8, 4, "mean_anomaly");
    lemma_real_col(t.mean_motion, 11, 8, "mean_motion");
    lemma_count_col(t.revolution_number_at_epoch as nat, 5, "revolution_number");
    let sp = seq![0x20u8];
    assert(all_ascii(sp));
    assert(all_ascii(seq![0x32u8, 0x20]));
    lemma_ascii_concat(seq![0x32u8, 0x20], alpha5_text(n));
    lemma_ascii_concat(seq![0x32u8, 0x20] + alpha5_text(n), sp);
    let inc = real_col(t.inclination, 8, 4);
    let raan = real_col(t.raan, 8, 4);
    let ecc = eccentricity_col(t.eccentricity);
    let argp = real_col(t.argument_of_perigee, 8, 4);
    let ma = real_col(t.mean_anomaly, 8, 4);
    let mm = real_col(t.mean_motion, 11, 8);
    let rev = count_col(t.revolution_number_at_epoch as nat, 5);
    lemma_ascii_concat(inc, sp);
    lemma_ascii_concat(inc + sp, raan);
    lemma_ascii_concat(inc + sp + raan, sp);
    lemma_ascii_concat(inc + sp + raan + sp, ecc);
    lemma_ascii_concat(inc + sp + raan + sp + ecc, sp);
    assert(line2_shape(t) =~= inc + sp + raan + sp + ecc + sp);
    lemma_ascii_concat(argp, sp);
    lemma_ascii_concat(argp + sp, ma);
    lemma_ascii_concat(argp + sp + ma, sp);
    lemma_ascii_concat(argp + sp + ma + sp, mm);
    lemma_ascii_concat(argp + sp + ma + sp + mm, rev);
    assert(line2_motion(t) =~= argp + sp + ma + sp + mm + rev);
    assert(line2_shape(t).subrange(0, 8) =~= inc);
    assert(line2_shape(t).subrange(9, 17) =~= raan);
    assert(line2_shape(t).subrange(18, 25) =~= ecc);
    assert(line2_motion(t).subrange(0, 8) =~= argp);
    assert(line2_motion(t).subrange(9, 17) =~= ma);
    assert(line2_motion(t).subrange(18, 29) =~= mm);
    assert(line2_motion(t).subrange(29, 34) =~= rev);
}

/// Line 2 of a record, cut into its columns.
#[verifier::rlimit(40)]
proof fn lemma_line2_layout(t: TleView)
    requires
        fits_columns(t),
    ensures
        ({
            let b = with_checksum(line2_body(t));
            &&& b.len() == 69
            &&& line2_body(t).len() == 68
            &&& all_ascii(b)
            &&& b[0] == 0x32
            &&& b.subrange(2, 7) == alpha5_text(t.norad_id.0 as nat)
            &&& b.subrange(8, 16) == real_col(t.inclination, 8, 4)
            &&& b.subrange(17, 25) == real_col(t.raan, 8, 4)
            &&& b.subrange(26, 33) == eccentricity_col(t.eccentricity)
            &&& b.subrange(34, 42) == real_col(t.argument_of_perigee, 8, 4)
            &&& b.subrange(43, 51) == real_col(t.mean_anomaly, 8, 4)
            &&& b.subrange(52, 63) == real_col(t.mean_motion, 11, 8)
            &&& b.subrange(63, 68) == count_col(t.revolution_number_at_epoch as nat, 5)
        }),
{
    lemma_line2_pieces(t);
    let n = t.norad_id.0 as nat;
    lemma_alpha5_ascii(n);
    let head = line2_head(t);
    let shape = line2_shape(t);
    let motion = line2_motion(t);
    let body = line2_body(t);
    let b = with_checksum(body);
    lemma_ascii_concat(head, shape);
    lemma_ascii_concat(head + shape, motion);
    assert(body =~= head + shape + motion);
    assert(b.subrange(0, 68) =~= body);
    assert(crate::tle::parse::checksum_of(body) < 10);
    assert(all_ascii(b)) by {
        assert forall|i: int| 0 <= i < 69 implies #[trigger] b[i] < 0x80 by {
            if i < 68 {
                assert(b[i] == body[i]);
            }
        }
    }
    assert(b.subrange(2, 7) =~= head.subrange(2, 7));
    assert(head.subrange(2, 7) =~= alpha5_text(n));
    assert(b.subrange(8, 16) =~= shape.subrange(0, 8));
    assert(b.subrange(17, 25) =~= shape.subrange(9, 17));
    assert(b.subrange(26, 33) =~= shape.subrange(18, 25));
    assert(b.subrange(34, 42) =~= motion.subrange(0, 8));
    assert(b.subrange(43, 51) =~= motion.subrange(9, 17));
    assert(b.subrange(52, 63) =~= motion.subrange(18, 29));
    assert(b.subrange(63, 68) =~= motion.subrange(29, 34));
}

/// Every position of ASCII text can be cut.
proof fn lemma_ascii_cuts(b: Seq<u8>)
    requires
        all_ascii(b),
    ensures
        forall|i: int| 0 <= i <= b.len() ==> #[trigger] crate::text::cut_ok(b, i),
{
    assert forall|i: int| 0 <= i <= b.len() implies #[trigger] crate::text::cut_ok(b, i) by {
        if i < b.len() {
            assert(b[i] < 0x80);
        }
    }
}

/// The fields line 1 of a rendered record reads back.
pub open spec fn reparsed_line1(t: TleView) -> Line1View {
    Line1View {
        norad_id: t.norad_id,
        classification: t.classification,
        international_designator: t.international_designator,
        epoch_year: (t.epoch.year as int % 100) as i64,
        epoch_day: fixed_round(t.epoch.day_of_year, 8),
        mean_motion_dot: fraction_round(t.mean_motion_dot),
        mean_motion_ddot: assumed_round(t.mean_motion_ddot),
        bstar: assumed_round(t.bstar),
        element_set_number: t.element_set_number,
    }
}

/// The fields line 2 of a rendered record reads back.
pub open spec fn reparsed_line2(t: TleView) -> Line2View {
    Line2View {
        inclination: fixed_round(t.inclination, 4),
        raan: fixed_round(t.raan, 4),
        eccentricity: eccentricity_round(t.eccentricity),
        argument_of_perigee: fixed_round(t.argument_of_perigee, 4),
        mean_anomaly: fixed_round(t.mean_anomaly, 4),
        mean_motion: fixed_round(t.mean_motion, 8),
        revolution_number_at_epoch: t.revolution_number_at_epoch,
    }
}

/// Line 1 of a rendered record parses to its fields.
#[verifier::rlimit(40)]
proof fn lemma_line1_parse(t: TleView)
    requires
        fits_columns(t),
    ensures
        line1_spec(with_checksum(line1_body(t))) == Some(
            Ok::<Line1View, TleErrorView>(reparsed_line1(t)),
        ),
{
    let b = with_checksum(line1_body(t));
    lemma_line1_layout(t);
    lemma_ascii_cuts(b);
    let n = t.norad_id.0 as nat;
    alpha5_round_trip(n);
    lemma_classification_byte(t.classification);
    lemma_designator_col(t.international_designator);
    lemma_year_col((t.epoch.year as int % 100) as nat);
    lemma_day_col(t.epoch.day_of_year);
    reveal_with_fuel(pow10, 9);
    lemma_signed_fraction_col(t.mean_motion_dot);
    lemma_assumed_col(t.mean_motion_ddot, "mean_motion_ddot");
    lemma_assumed_col(t.bstar, "bstar");
    lemma_count_col(t.element_set_number as nat, 4, "element_set_number");
    assert(crate::tle::SatelliteNumber(n as u32) == t.norad_id);
}

/// Line 2 of a rendered record parses to its fields.
#[verifier::rlimit(40)]
proof fn lemma_line2_parse(t: TleView)
    requires
        fits_columns(t),
    ensures
        line2_spec(with_checksum(line2_body(t)), t.norad_id.0) == Some(
            Ok::<Line2View, TleErrorView>(reparsed_line2(t)),
        ),
{
    let b = with_checksum(line2_body(t));
    lemma_line2_layout(t);
    lemma_ascii_cuts(b);
    let n = t.norad_id.0 as nat;
    alpha5_round_trip(n);
    lemma_real_col(t.inclination, 8, 4, "inclination");
    lemma_real_col(t.raan, 8, 4, "raan");
    reveal_with_fuel(pow10, 8);
    lemma_eccentricity_col(t.eccentricity);
    lemma_real_col(t.argument_of_perigee, 8, 4, "argument_of_perigee");
    lemma_real_col(t.mean_anomaly, 8, 4, "mean_anomaly");
    lemma_real_col(t.mean_motion, 11, 8, "mean_motion");
    lemma_count_col(t.revolution_number_at_epoch as nat, 5, "revolution_number");
}

/// The record that parsing a rendered element set gives back: the same
/// catalogue number, classification, designator, counters and epoch year,
/// no name, and each real element rounded as its column rounds it.
pub open spec fn reparsed(t: TleView) -> TleView {
    TleView {
        name: None,
        norad_id: t.norad_id,
        classification: t.classification,
        international_designator: t.international_designator,
        epoch: super::TleEpoch {
            year: t.epoch.year,
            day_of_year: fixed_round(t.epoch.day_of_year, 8),
        },
        mean_motion_dot: fraction_round(t.mean_motion_dot),
        mean_motion_ddot: assumed_round(t.mean_motion_ddot),
        bstar: assumed_round(t.bstar),
        element_set_number: t.element_set_number,
        revolution_number_at_epoch: t.revolution_number_at_epoch,
        inclination: fixed_round(t.inclination, 4),
        raan: fixed_round(t.raan, 4),
        eccentricity: eccentricity_round(t.eccentricity),
        argument_of_perigee: fixed_round(t.argument_of_perigee, 4),
        mean_anomaly: fixed_round(t.mean_anomaly, 4),
        mean_motion: fixed_round(t.mean_motion, 8),
    }
}

/// Two lines whose checks pass and whose fields parse give the assembled
/// record.
proof fn lemma_parse_assembled(
    b1: Seq<u8>,
    b2: Seq<u8>,
    l1: Line1View,
    l2: Line2View,
    e: super::TleEpoch,
)
    requires
        b1.len() == 69,
        b2.len() == 69,
        b1[0] == 0x31,
        b2[0] == 0x32,
        checksum_check(b1) == Some(Ok::<(), TleErrorView>(())),
        checksum_check(b2) == Some(Ok::<(), TleErrorView>(())),
        line1_spec(b1) == Some(Ok::<Line1View, TleErrorView>(l1)),
        line2_spec(b2, l1.norad_id.0) == Some(Ok::<Line2View, TleErrorView>(l2)),
        epoch_check(expand_year((l1.epoch_year as i32) as int) as i32, l1.epoch_day) == Ok::<
            super::TleEpoch,
            TleErrorView,
        >(e),
    ensures
        parse_lines_spec(None, b1, b2) == Some(
            Ok::<TleView, TleErrorView>(super::parse::assemble(None, l1, l2, e)),
        ),
{
}

/// The epoch a rendered record reads back.
proof fn lemma_reparsed_epoch(t: TleView)
    requires
        fits_columns(t),
    ensures
        epoch_check(
            expand_year((reparsed_line1(t).epoch_year as i32) as int) as i32,
            reparsed_line1(t).epoch_day,
        ) == Ok::<super::TleEpoch, TleErrorView>(reparsed(t).epoch),
        super::parse::assemble(None, reparsed_line1(t), reparsed_line2(t), reparsed(t).epoch)
            == reparsed(t),
{
    let yy = t.epoch.year as int % 100;
    super::parse::expand_year_range(yy);
    assert(expand_year(((yy as i64) as i32) as int) == t.epoch.year);
}

/// Reading back what the writer wrote: when every field of an element set
/// fits its columns, the two rendered lines parse, and give back the
/// catalogue number, classification, designator, epoch year, element-set
/// and revolution numbers unchanged and every real element rounded as its
/// column rounds it.
pub proof fn format_then_parse(t: TleView)
    requires
        fits_columns(t),
    ensures
        format_spec(t) matches Ok((l1, l2)) && parse_lines_spec(None, l1, l2) == Some(
            Ok::<TleView, TleErrorView>(reparsed(t)),
        ),
{
    let b1 = with_checksum(line1_body(t));
    let b2 = with_checksum(line2_body(t));
    assert(b1.len() == 69 && b1[0] == 0x31 && line1_body(t).len() == 68) by {
        lemma_line1_layout(t);
    }
    assert(b2.len() == 69 && b2[0] == 0x32 && line2_body(t).len() == 68) by {
        lemma_line2_layout(t);
    }
    with_checksum_passes(line1_body(t));
    with_checksum_passes(line2_body(t));
    lemma_line1_parse(t);
    lemma_line2_parse(t);
    lemma_reparsed_epoch(t);
    lemma_parse_assembled(b1, b2, reparsed_line1(t), reparsed_line2(t), reparsed(t).epoch);
}

/// A number whose numeral has at most `k` digits is below `10^k`.
proof fn lemma_decimal_text_short(n: nat, k: nat)
    requires
        decimal_text(n).len() <= k,
    ensures
        n < pow10(k),
    decreases n,
{
    if n < 10 {
        crate::decimal::lemma_pow10_mono(1, k);
        reveal_with_fuel(pow10, 2);
    } else {
        lemma_decimal_text_short(n / 10, (k - 1) as nat);
        assert(pow10(k) == 10 * pow10((k - 1) as nat));
        assert(n < pow10(k)) by (nonlinear_arith)
            requires
                n / 10 < pow10((k - 1) as nat),
                pow10(k) == 10 * pow10((k - 1) as nat),
        ;
    }
}

/// What the writer accepting a record adds to fitting its columns: the
/// real elements of the fixed-point columns are finite, the year is one a
/// two-digit year expands to, the designator has no surrounding
/// whitespace, and the epoch rounded to its column is still a day of the
/// year.
pub open spec fn reads_back(t: TleView) -> bool {
    &&& t.epoch.day_of_year is Finite
    &&& t.inclination is Finite
    &&& t.raan is Finite
    &&& t.argument_of_perigee is Finite
    &&& t.mean_anomaly is Finite
    &&& t.mean_motion is Finite
    &&& 1957 <= t.epoch.year <= 2056
    &&& trim(encode_utf8(t.international_designator)) == encode_utf8(t.international_designator)
    &&& epoch_check(t.epoch.year, fixed_round(t.epoch.day_of_year, 8)) is Ok
}

/// A record the writer accepts fits its columns, given [`reads_back`].
proof fn lemma_written_fits(t: TleView)
    requires
        format_spec(t) is Ok,
        reads_back(t),
    ensures
        fits_columns(t),
{
    super::format::lemma_written_widths(t);
    let s = t.international_designator;
    crate::text::lemma_encode_len(s);
    assert(fits_designator(s));
    let v = abs_scaled_u64(t.mean_motion_dot, 8);
    assert(pad_left(decimal_text(v as nat), 8, 0x30).len() == 8);
    lemma_decimal_text_short(v as nat, 8);
    reveal_with_fuel(pow10, 9);
    lemma_written_assumed(t.mean_motion_ddot);
    lemma_written_assumed(t.bstar);
    lemma_decimal_text_short(t.element_set_number as nat, 4);
    lemma_decimal_text_short(t.revolution_number_at_epoch as nat, 5);
    lemma_decimal_text_short(scaled_u64(t.eccentricity, 7) as nat, 7);
    reveal_with_fuel(pow10, 8);
}

/// An assumed-decimal column of eight bytes holds a value that fits it.
proof fn lemma_written_assumed(d: DecimalValue)
    requires
        assumed_col(d).len() == 8,
    ensures
        fits_assumed(d),
{
    if d is Finite && d->mantissa != 0 {
        let x = assumed_exponent(d);
        let xa: nat = if x < 0 {
            (-x) as nat
        } else {
            x as nat
        };
        let sc = assumed_digits(d);
        let ds = pad_left(decimal_text(sc), 5, 0x30);
        assert(ds.len() >= 5);
        super::format::lemma_decimal_text_nonempty(xa);
        assert(decimal_text(xa).len() == 1);
        assert(ds.len() == 5);
        lemma_decimal_text_short(xa, 1);
        lemma_decimal_text_short(sc, 5);
        reveal_with_fuel(pow10, 6);
    }
}

/// Reading back what the writer accepted: when the writer renders a record
/// whose fixed-point elements are finite, whose year is one a two-digit
/// year expands to, whose designator has no surrounding whitespace and
/// whose epoch rounded to its column is still a day of its year, the lines
/// parse back to the record as [`format_then_parse`] states.
pub proof fn written_lines_read_back(t: TleView)
    requires
        format_spec(t) is Ok,
        reads_back(t),
    ensures
        format_spec(t) matches Ok((l1, l2)) && parse_lines_spec(None, l1, l2) == Some(
            Ok::<TleView, TleErrorView>(reparsed(t)),
        ),
{
    lemma_written_fits(t);
    format_then_parse(t);
}

/// Reading back what the writer writes of a parsed set: when two lines
/// parse to a record, the writer accepts it, its fixed-point elements are
/// finite and its epoch rounded to eight places is still a day of its
/// year, the written lines parse to the record with each real element
/// rounded as its column rounds it.
pub proof fn parsed_set_reads_back(b1: Seq<u8>, b2: Seq<u8>)
    requires
        vstd::utf8::valid_utf8(b1),
        parse_lines_spec(None, b1, b2) matches Some(Ok(t)) && {
            &&& format_spec(t) is Ok
            &&& t.epoch.day_of_year is Finite
            &&& t.inclination is Finite
            &&& t.raan is Finite
            &&& t.argument_of_perigee is Finite
            &&& t.mean_anomaly is Finite
            &&& t.mean_motion is Finite
            &&& epoch_check(t.epoch.year, fixed_round(t.epoch.day_of_year, 8)) is Ok
        },
    ensures
        parse_lines_spec(None, b1, b2) matches Some(Ok(t)) && format_spec(t) matches Ok((l1, l2))
            && parse_lines_spec(None, l1, l2) == Some(Ok::<TleView, TleErrorView>(reparsed(t))),
{
    let t = parse_lines_spec(None, b1, b2)->0->Ok_0;
    super::parse::parsed_set_agrees_with_columns(b1, b2);
    let c = super::parse::col(b1, 9, 17);
    crate::text::lemma_valid_utf8_range(b1, 9, 17);
    crate::text::lemma_trim_valid(c);
    vstd::utf8::decode_utf8_encode_utf8(trim(c));
    crate::text::lemma_trim_idempotent(c);
    assert(reads_back(t));
    written_lines_read_back(t);
}

} // verus!
