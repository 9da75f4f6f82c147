//! Rendering of element sets back to the canonical two-line form.
//!
//! Columns are rendered as the standard formatter renders them
//! (`{:8.4}`, `{:012.8}`, `{:>4}`, ...), applied to the exact decimal
//! values of the record; the assumed-decimal columns (`±NNNNN±E`) and the
//! signed-fraction column (`±.NNNNNNNN`) follow the TLE conventions.

use vstd::prelude::*;
use vstd::utf8::{decode_utf8, encode_utf8, valid_utf8, encode_utf8_valid_utf8, valid_utf8_concat};
use vstd::string::StringSliceAdditionalSpecFns;
use crate::decimal::DecimalValue;
use crate::render::{
    abs_scaled, abs_scaled_u64, display_fixed, pad_left, push_display_fixed, push_padded_left,
    scaled_nonneg, scaled_u64, scaled_value, sign_negative, within_f64_range, Rounding,
};
use crate::text::{
    all_ascii, ascii_chars, decimal_text, digit_byte, lemma_ascii_decode, num_digits,
    padded_digits, push_decimal, push_padded_digits, string_of_bytes,
};
use super::parse::{checksum_check, checksum_of, checksum_of_prefix, epoch_check};
use super::{alpha5_text, Classification, Tle, TleError, TleErrorView, TleView};

verus! {

broadcast use vstd::seq::group_seq_axioms;

/// A real column right-aligned in `w` columns with `p` decimals (`{:w.p}`).
pub open spec fn real_col(d: DecimalValue, w: nat, p: nat) -> Seq<u8> {
    pad_left(display_fixed(d, p), w, 0x20)
}

/// The day-of-year column `{:012.8}` (zero-padded; the day is positive).
pub open spec fn day_col(d: DecimalValue) -> Seq<u8> {
    pad_left(display_fixed(d, 8), 12, 0x30)
}

/// The first-derivative column: sign (`-` or space), a point and eight
/// digits of the rounded magnitude.
pub open spec fn signed_fraction_col(d: DecimalValue) -> Seq<u8> {
    seq![if sign_negative(d) { 0x2du8 } else { 0x20u8 }, 0x2eu8] + pad_left(
        decimal_text(abs_scaled_u64(d, 8)),
        8,
        0x30,
    )
}

/// Decimal exponent of a positive `m * 10^e`: the `x` with
/// `10^(x-1) <= value < 10^x`.
pub open spec fn decimal_exponent(m: nat, e: int) -> int {
    num_digits(m) + e
}

/// The five mantissa digits of a positive mantissa `m` read as `0.m`,
/// rounded half away from zero; `100000` when the rounding carries.
pub open spec fn assumed_raw_digits(m: nat) -> nat {
    scaled_value(m, -(num_digits(m) as int), 5, Rounding::HalfAway)
}

/// The five digits written for a positive `m * 10^e`: the rounded mantissa,
/// with a carry out of the fifth digit moved into the exponent.
pub open spec fn assumed_digits_of(m: nat) -> nat {
    if assumed_raw_digits(m) >= 100000 {
        assumed_raw_digits(m) / 10
    } else {
        assumed_raw_digits(m)
    }
}

/// The exponent `X` written for a positive `m * 10^e` (value
/// `0.NNNNN * 10^X`), one more when the rounding carries.
pub open spec fn assumed_exponent_of(m: nat, e: int) -> int {
    if assumed_raw_digits(m) >= 100000 {
        decimal_exponent(m, e) + 1
    } else {
        decimal_exponent(m, e)
    }
}

/// The assumed-decimal column `±NNNNN±X`: five rounded mantissa digits of
/// the value written as `0.NNNNN * 10^X`, a rounding carry moving into the
/// exponent; zero and non-finite values are written ` 00000-0`.
pub open spec fn assumed_col(d: DecimalValue) -> Seq<u8> {
    match d {
        DecimalValue::Finite { negative, mantissa, exponent } => if mantissa == 0 {
            seq![0x20u8, 0x30, 0x30, 0x30, 0x30, 0x30, 0x2d, 0x30]
        } else {
            let x = assumed_exponent_of(mantissa as nat, exponent as int);
            let scaled = assumed_digits_of(mantissa as nat);
            seq![if negative { 0x2du8 } else { 0x20u8 }] + pad_left(decimal_text(scaled), 5, 0x30)
                + seq![if x < 0 { 0x2du8 } else { 0x2bu8 }] + decimal_text(
                if x < 0 {
                    (-x) as nat
                } else {
                    x as nat
                },
            )
        },
        _ => seq![0x20u8, 0x30, 0x30, 0x30, 0x30, 0x30, 0x2d, 0x30],
    }
}

/// The eccentricity column: the value times 10^7, rounded, zero-padded to 7.
pub open spec fn eccentricity_col(d: DecimalValue) -> Seq<u8> {
    pad_left(decimal_text(scaled_u64(d, 7)), 7, 0x30)
}

/// The designator column `{:<8}`: the designator, then spaces up to eight
/// characters.
pub open spec fn designator_col(s: Seq<char>) -> Seq<u8> {
    if s.len() >= 8 {
        encode_utf8(s)
    } else {
        encode_utf8(s) + Seq::new((8 - s.len()) as nat, |i: int| 0x20u8)
    }
}

/// An unsigned count right-aligned in `w` columns.
pub open spec fn count_col(n: nat, w: nat) -> Seq<u8> {
    pad_left(decimal_text(n), w, 0x20)
}

/// Line 1 columns 1–9: line number, catalogue number, classification.
pub open spec fn line1_head(t: TleView) -> Seq<u8> {
    seq![0x31u8, 0x20] + alpha5_text(t.norad_id.0 as nat) + seq![t.classification.char_of() as u8, 0x20]
}

/// Line 1 epoch columns (with their leading separator).
pub open spec fn line1_epoch(t: TleView) -> Seq<u8> {
    seq![0x20u8] + padded_digits((t.epoch.year as int % 100) as nat, 2) + day_col(
        t.epoch.day_of_year,
    )
}

/// Line 1 mean-motion derivative and drag columns.
pub open spec fn line1_drag(t: TleView) -> Seq<u8> {
    seq![0x20u8] + signed_fraction_col(t.mean_motion_dot) + seq![0x20u8] + assumed_col(
        t.mean_motion_ddot,
    ) + seq![0x20u8] + assumed_col(t.bstar)
}

/// Line 1 after the designator.
pub open spec fn line1_tail(t: TleView) -> Seq<u8> {
    line1_epoch(t) + line1_drag(t) + seq![0x20u8, 0x30, 0x20] + count_col(
        t.element_set_number as nat,
        4,
    )
}

/// The text of line 1 before its checksum digit.
pub open spec fn line1_body(t: TleView) -> Seq<u8> {
    line1_head(t) + designator_col(t.international_designator) + line1_tail(t)
}

/// Line 2 columns 1–8.
pub open spec fn line2_head(t: TleView) -> Seq<u8> {
    seq![0x32u8, 0x20] + alpha5_text(t.norad_id.0 as nat) + seq![0x20u8]
}

/// Line 2 inclination, node and eccentricity columns.
pub open spec fn line2_shape(t: TleView) -> Seq<u8> {
    real_col(t.inclination, 8, 4) + seq![0x20u8] + real_col(t.raan, 8, 4) + seq![0x20u8]
        + eccentricity_col(t.eccentricity) + seq![0x20u8]
}

/// Line 2 perigee, anomaly, mean motion and revolution columns.
pub open spec fn line2_motion(t: TleView) -> Seq<u8> {
    real_col(t.argument_of_perigee, 8, 4) + seq![0x20u8] + real_col(t.mean_anomaly, 8, 4) + seq![
        0x20u8,
    ] + real_col(t.mean_motion, 11, 8) + count_col(t.revolution_number_at_epoch as nat, 5)
}

/// The text of line 2 before its checksum digit.
pub open spec fn line2_body(t: TleView) -> Seq<u8> {
    line2_head(t) + line2_shape(t) + line2_motion(t)
}

/// A line body followed by its checksum digit.
pub open spec fn with_checksum(body: Seq<u8>) -> Seq<u8> {
    body.push(digit_byte(checksum_of(body)))
}

/// The two rendered lines, or the error for an unwritable catalogue number,
/// an epoch that is not a calendar instant, or a value too wide for its
/// column (the line it would give, of `got` bytes, is not 69 bytes long).
pub open spec fn format_spec(t: TleView) -> Result<(Seq<u8>, Seq<u8>), TleErrorView> {
    if t.norad_id.0 >= 340000 {
        Err(TleErrorView::InvalidAlpha5 { raw: ascii_chars(decimal_text(t.norad_id.0 as nat)) })
    } else if epoch_check(t.epoch.year, t.epoch.day_of_year) is Err {
        Err(TleErrorView::EpochConversion("epoch is not a calendar instant"@))
    } else if with_checksum(line1_body(t)).len() != 69 {
        Err(TleErrorView::BadLength { line: 1, got: with_checksum(line1_body(t)).len() as usize })
    } else if with_checksum(line2_body(t)).len() != 69 {
        Err(TleErrorView::BadLength { line: 2, got: with_checksum(line2_body(t)).len() as usize })
    } else {
        Ok((with_checksum(line1_body(t)), with_checksum(line2_body(t))))
    }
}

/// What a record must satisfy to be rendered: its real elements are
/// values a binary64 float holds.
pub open spec fn formattable(t: TleView) -> bool {
    &&& within_f64_range(t.mean_motion_dot)
    &&& within_f64_range(t.mean_motion_ddot)
    &&& within_f64_range(t.bstar)
    &&& within_f64_range(t.inclination)
    &&& within_f64_range(t.raan)
    &&& within_f64_range(t.eccentricity)
    &&& within_f64_range(t.argument_of_perigee)
    &&& within_f64_range(t.mean_anomaly)
    &&& within_f64_range(t.mean_motion)
}

fn push_bytes(out: &mut Vec<u8>, b: &[u8])
    ensures
        final(out)@ == old(out)@ + b@,
{
    let ghost start = out@;
    let mut i: usize = 0;
    while i < b.len()
        invariant
            i <= b@.len(),
            out@ == start + b@.subrange(0, i as int),
        decreases b@.len() - i,
    {
        out.push(b[i]);
        proof {
            assert(out@ =~= start + b@.subrange(0, i + 1));
        }
        i = i + 1;
    }
    proof {
        assert(b@.subrange(0, b@.len() as int) =~= b@);
    }
}

fn push_real_col(out: &mut Vec<u8>, d: DecimalValue, w: usize, p: u32)
    requires
        p <= 8,
        within_f64_range(d),
    ensures
        final(out)@ == old(out)@ + real_col(d, w as nat, p as nat),
{
    let mut v: Vec<u8> = Vec::new();
    push_display_fixed(&mut v, d, p);
    proof {
        assert(v@ =~= display_fixed(d, p as nat));
    }
    push_padded_left(out, &v, w, 0x20);
}

fn push_day_col(out: &mut Vec<u8>, d: DecimalValue)
    requires
        within_f64_range(d),
    ensures
        final(out)@ == old(out)@ + day_col(d),
{
    let mut v: Vec<u8> = Vec::new();
    push_display_fixed(&mut v, d, 8);
    proof {
        assert(v@ =~= display_fixed(d, 8));
    }
    push_padded_left(out, &v, 12, 0x30);
}

fn push_count_col(out: &mut Vec<u8>, n: u64, w: usize)
    ensures
        final(out)@ == old(out)@ + count_col(n as nat, w as nat),
{
    let mut v: Vec<u8> = Vec::new();
    push_decimal(&mut v, n);
    proof {
        assert(v@ =~= decimal_text(n as nat));
    }
    push_padded_left(out, &v, w, 0x20);
}

fn push_signed_fraction_col(out: &mut Vec<u8>, d: DecimalValue)
    requires
        within_f64_range(d),
    ensures
        final(out)@ == old(out)@ + signed_fraction_col(d),
{
    let neg = match d {
        DecimalValue::Finite { negative, .. } => negative,
        DecimalValue::Infinite { negative } => negative,
        DecimalValue::NotANumber { negative } => negative,
    };
    let ghost start = out@;
    out.push(if neg { 0x2d } else { 0x20 });
    out.push(0x2e);
    let f = abs_scaled(d, 8);
    let mut v: Vec<u8> = Vec::new();
    push_decimal(&mut v, f);
    proof {
        assert(v@ =~= decimal_text(f as nat));
    }
    push_padded_left(out, &v, 8, 0x30);
    proof {
        assert(out@ =~= start + signed_fraction_col(d));
    }
}

/// Number of digits of a `u64`.
fn digit_count(m: u64) -> (r: u32)
    ensures
        r as nat == num_digits(m as nat),
        1 <= r <= 20,
{
    let mut w: u32 = 1;
    let mut x = m;
    while x >= 10
        invariant
            1 <= w <= 20,
            num_digits(m as nat) == (w - 1) + num_digits(x as nat),
        decreases x,
    {
        proof {
            assert(num_digits(x as nat / 10) >= 1);
            crate::text::lemma_num_digits_u64_pub(m as nat);
        }
        x = x / 10;
        w = w + 1;
    }
    proof {
        crate::text::lemma_num_digits_u64_pub(m as nat);
    }
    w
}

fn push_assumed_col(out: &mut Vec<u8>, d: DecimalValue)
    requires
        within_f64_range(d),
    ensures
        final(out)@ == old(out)@ + assumed_col(d),
{
    let ghost start = out@;
    let zero_text: [u8; 8] = [0x20, 0x30, 0x30, 0x30, 0x30, 0x30, 0x2d, 0x30];
    match d {
        DecimalValue::Finite { negative, mantissa, exponent } => {
            if mantissa == 0 {
                push_bytes(out, &zero_text);
                proof {
                    assert(zero_text@ =~= assumed_col(d));
                }
                return;
            }
            let l = digit_count(mantissa);
            let x: i64 = l as i64 + exponent;
            proof {
                assert(x < i64::MAX);
            }
            let shifted = DecimalValue::Finite {
                negative: false,
                mantissa,
                exponent: 0 - l as i64,
            };
            proof {
                assert(within_f64_range(shifted));
            }
            let raw = abs_scaled(shifted, 5);
            proof {
                assert(raw as nat == assumed_raw_digits(mantissa as nat)) by {
                    lemma_scaled_mantissa_small(mantissa as nat);
                }
            }
            let (scaled, x) = if raw >= 100000 {
                (raw / 10, x + 1)
            } else {
                (raw, x)
            };
            out.push(if negative { 0x2d } else { 0x20 });
            let mut v: Vec<u8> = Vec::new();
            push_decimal(&mut v, scaled);
            proof {
                assert(v@ =~= decimal_text(scaled as nat));
            }
            push_padded_left(out, &v, 5, 0x30);
            out.push(if x < 0 { 0x2d } else { 0x2b });
            let xa: u64 = if x < 0 {
                (0 - x) as u64
            } else {
                x as u64
            };
            push_decimal(out, xa);
            proof {
                assert(out@ =~= start + assumed_col(d));
            }
        },
        _ => {
            push_bytes(out, &zero_text);
            proof {
                assert(zero_text@ =~= assumed_col(d));
            }
        },
    }
}

/// The rounded five-digit mantissa is at most 100000.
proof fn lemma_scaled_mantissa_small(m: nat)
    requires
        0 < m <= u64::MAX,
    ensures
        scaled_value(m, -(num_digits(m) as int), 5, Rounding::HalfAway) <= 100000,
{
    let l = num_digits(m);
    lemma_num_digits_bound(m);
    let k = -(l as int) + 5;
    crate::text::lemma_pow10_positive(l);
    if k >= 0 {
        crate::render::lemma_pow10_add((k as nat), l);
        crate::text::lemma_pow10_positive(k as nat);
        assert(m * pow10(k as nat) < pow10(5)) by (nonlinear_arith)
            requires
                m < pow10(l),
                pow10((k as nat) + l) == pow10(k as nat) * pow10(l),
                (k as nat) + l == 5,
                pow10(k as nat) > 0,
        ;
        reveal_with_fuel(crate::text::pow10, 6);
    } else {
        let d = pow10((-k) as nat);
        crate::text::lemma_pow10_positive((-k) as nat);
        crate::render::lemma_pow10_add(((-k) as nat), 5);
        assert(m / d < pow10(5)) by (nonlinear_arith)
            requires
                m < pow10(l),
                pow10(l) == d * pow10(5),
                d > 0,
        {
            vstd::arithmetic::div_mod::lemma_div_is_ordered(m as int, (pow10(l) - 1) as int, d as int);
            vstd::arithmetic::div_mod::lemma_fundamental_div_mod((pow10(l) - 1) as int, d as int);
        }
        reveal_with_fuel(crate::text::pow10, 6);
    }
}

use crate::text::pow10;

/// A positive number is below ten to the number of its digits.
pub proof fn lemma_num_digits_bound(m: nat)
    ensures
        m < pow10(num_digits(m)),
        m > 0 ==> pow10((num_digits(m) - 1) as nat) <= m,
    decreases m,
{
    if m >= 10 {
        lemma_num_digits_bound(m / 10);
        crate::text::lemma_pow10_positive(num_digits(m / 10));
    } else {
        reveal_with_fuel(pow10, 2);
    }
}

fn push_eccentricity_col(out: &mut Vec<u8>, d: DecimalValue)
    requires
        within_f64_range(d),
    ensures
        final(out)@ == old(out)@ + eccentricity_col(d),
{
    let n = scaled_nonneg(d, 7);
    let mut v: Vec<u8> = Vec::new();
    push_decimal(&mut v, n);
    proof {
        assert(v@ =~= decimal_text(n as nat));
    }
    push_padded_left(out, &v, 7, 0x30);
}

fn push_designator_col(out: &mut Vec<u8>, s: &String)
    ensures
        final(out)@ == old(out)@ + designator_col(s@),
{
    let ghost start = out@;
    let st = s.as_str();
    let b = st.as_bytes();
    push_bytes(out, b);
    let n = crate::text::char_count(st);
    if n < 8 {
        let mut i: usize = n;
        while i < 8
            invariant
                n <= i <= 8,
                out@ == start + encode_utf8(s@) + Seq::new((i - n) as nat, |k: int| 0x20u8),
            decreases 8 - i,
        {
            out.push(0x20);
            proof {
                assert(out@ =~= start + encode_utf8(s@) + Seq::new((i + 1 - n) as nat, |k: int| 0x20u8));
            }
            i = i + 1;
        }
        proof {
            assert(out@ =~= start + designator_col(s@));
        }
    } else {
        proof {
            assert(out@ =~= start + designator_col(s@));
        }
    }
}


// ---------------------------------------------------------------------------
// The rendered columns are ASCII
// ---------------------------------------------------------------------------

proof fn lemma_concat_ascii(a: Seq<u8>, b: Seq<u8>)
    requires
        all_ascii(a),
        all_ascii(b),
    ensures
        all_ascii(a + b),
{
    assert forall|k: int| 0 <= k < (a + b).len() implies #[trigger] (a + b)[k] < 0x80 by {
        if k < a.len() {
            assert((a + b)[k] == a[k]);
        } else {
            assert((a + b)[k] == b[k - a.len()]);
        }
    }
}

proof fn lemma_decimal_ascii(n: nat)
    ensures
        all_ascii(decimal_text(n)),
{
    crate::text::lemma_decimal_text(n);
    crate::text::lemma_digits_ascii(decimal_text(n));
}

proof fn lemma_padded_ascii(n: nat, w: nat)
    ensures
        all_ascii(padded_digits(n, w)),
{
    crate::text::lemma_padded_digits(n, w);
    crate::text::lemma_digits_ascii(padded_digits(n, w));
}

proof fn lemma_pad_left_ascii(s: Seq<u8>, w: nat, fill: u8)
    requires
        all_ascii(s),
        fill < 0x80,
    ensures
        all_ascii(pad_left(s, w, fill)),
{
    if s.len() < w {
        let f = Seq::new((w - s.len()) as nat, |i: int| fill);
        assert(all_ascii(f));
        lemma_concat_ascii(f, s);
    }
}

proof fn lemma_display_fixed_ascii(d: DecimalValue, p: nat)
    ensures
        all_ascii(display_fixed(d, p)),
{
    match d {
        DecimalValue::Finite { negative, mantissa, exponent } => {
            let n = scaled_value(mantissa as nat, exponent as int, p, Rounding::HalfEven);
            lemma_decimal_ascii(n / pow10(p));
            lemma_padded_ascii(n % pow10(p), p);
            lemma_concat_ascii(decimal_text(n / pow10(p)), seq![0x2eu8]);
            lemma_concat_ascii(
                decimal_text(n / pow10(p)) + seq![0x2eu8],
                padded_digits(n % pow10(p), p),
            );
            let body = crate::render::fixed_digits(n, p);
            if negative {
                lemma_concat_ascii(seq![0x2du8], body);
            }
        },
        _ => {},
    }
}

proof fn lemma_columns_ascii(t: TleView)
    ensures
        all_ascii(day_col(t.epoch.day_of_year)),
        all_ascii(signed_fraction_col(t.mean_motion_dot)),
        all_ascii(assumed_col(t.mean_motion_ddot)),
        all_ascii(assumed_col(t.bstar)),
        all_ascii(count_col(t.element_set_number as nat, 4)),
        all_ascii(real_col(t.inclination, 8, 4)),
        all_ascii(real_col(t.raan, 8, 4)),
        all_ascii(eccentricity_col(t.eccentricity)),
        all_ascii(real_col(t.argument_of_perigee, 8, 4)),
        all_ascii(real_col(t.mean_anomaly, 8, 4)),
        all_ascii(real_col(t.mean_motion, 11, 8)),
        all_ascii(count_col(t.revolution_number_at_epoch as nat, 5)),
{
    lemma_display_fixed_ascii(t.epoch.day_of_year, 8);
    lemma_pad_left_ascii(display_fixed(t.epoch.day_of_year, 8), 12, 0x30);
    lemma_signed_fraction_ascii(t.mean_motion_dot);
    lemma_assumed_ascii(t.mean_motion_ddot);
    lemma_assumed_ascii(t.bstar);
    lemma_decimal_ascii(t.element_set_number as nat);
    lemma_pad_left_ascii(decimal_text(t.element_set_number as nat), 4, 0x20);
    lemma_decimal_ascii(t.revolution_number_at_epoch as nat);
    lemma_pad_left_ascii(decimal_text(t.revolution_number_at_epoch as nat), 5, 0x20);
    lemma_real_ascii(t.inclination, 8, 4);
    lemma_real_ascii(t.raan, 8, 4);
    lemma_real_ascii(t.argument_of_perigee, 8, 4);
    lemma_real_ascii(t.mean_anomaly, 8, 4);
    lemma_real_ascii(t.mean_motion, 11, 8);
    lemma_decimal_ascii(scaled_u64(t.eccentricity, 7));
    lemma_pad_left_ascii(decimal_text(scaled_u64(t.eccentricity, 7)), 7, 0x30);
}

proof fn lemma_real_ascii(d: DecimalValue, w: nat, p: nat)
    ensures
        all_ascii(real_col(d, w, p)),
{
    lemma_display_fixed_ascii(d, p);
    lemma_pad_left_ascii(display_fixed(d, p), w, 0x20);
}

proof fn lemma_signed_fraction_ascii(d: DecimalValue)
    ensures
        all_ascii(signed_fraction_col(d)),
{
    let f = decimal_text(abs_scaled_u64(d, 8));
    lemma_decimal_ascii(abs_scaled_u64(d, 8));
    lemma_pad_left_ascii(f, 8, 0x30);
    let h = seq![if sign_negative(d) { 0x2du8 } else { 0x20u8 }, 0x2eu8];
    lemma_concat_ascii(h, pad_left(f, 8, 0x30));
}

proof fn lemma_assumed_ascii(d: DecimalValue)
    ensures
        all_ascii(assumed_col(d)),
{
    match d {
        DecimalValue::Finite { negative, mantissa, exponent } => {
            if mantissa != 0 {
                let x = assumed_exponent_of(mantissa as nat, exponent as int);
                let scaled = assumed_digits_of(mantissa as nat);
                let xa: nat = if x < 0 {
                    (-x) as nat
                } else {
                    x as nat
                };
                lemma_decimal_ascii(scaled);
                lemma_pad_left_ascii(decimal_text(scaled), 5, 0x30);
                lemma_decimal_ascii(xa);
                let a = seq![if negative { 0x2du8 } else { 0x20u8 }];
                let b = pad_left(decimal_text(scaled), 5, 0x30);
                let c = seq![if x < 0 { 0x2du8 } else { 0x2bu8 }];
                lemma_concat_ascii(a, b);
                lemma_concat_ascii(a + b, c);
                lemma_concat_ascii(a + b + c, decimal_text(xa));
            }
        },
        _ => {},
    }
}

fn push_line1_head(out: &mut Vec<u8>, tle: &Tle)
    requires
        tle.norad_id.0 < 340000,
    ensures
        final(out)@ == old(out)@ + line1_head(tle@),
{
    let ghost start = out@;
    out.push(0x31);
    out.push(0x20);
    super::push_alpha5(out, tle.norad_id.0);
    let cls: u8 = match tle.classification {
        Classification::Unclassified => 0x55,
        Classification::Classified => 0x43,
        Classification::Secret => 0x53,
    };
    out.push(cls);
    out.push(0x20);
    proof {
        assert(out@ =~= start + line1_head(tle@));
    }
}

fn push_line1_epoch(out: &mut Vec<u8>, tle: &Tle)
    requires
        within_f64_range(tle.epoch.day_of_year),
    ensures
        final(out)@ == old(out)@ + line1_epoch(tle@),
{
    let ghost start = out@;
    out.push(0x20);
    let year = tle.epoch.year;
    let yy = ((year % 100) + 100) % 100;
    proof {
        assert(yy as int == (year as int) % 100);
    }
    push_padded_digits(out, yy as u64, 2);
    push_day_col(out, tle.epoch.day_of_year);
    proof {
        assert(out@ =~= start + line1_epoch(tle@));
    }
}

fn push_line1_drag(out: &mut Vec<u8>, tle: &Tle)
    requires
        within_f64_range(tle.mean_motion_dot),
        within_f64_range(tle.mean_motion_ddot),
        within_f64_range(tle.bstar),
    ensures
        final(out)@ == old(out)@ + line1_drag(tle@),
{
    let ghost start = out@;
    out.push(0x20);
    push_signed_fraction_col(out, tle.mean_motion_dot);
    out.push(0x20);
    push_assumed_col(out, tle.mean_motion_ddot);
    out.push(0x20);
    push_assumed_col(out, tle.bstar);
    proof {
        assert(out@ =~= start + line1_drag(tle@));
    }
}

fn push_line1_tail(out: &mut Vec<u8>, tle: &Tle)
    requires
        formattable(tle@),
        epoch_check(tle.epoch.year, tle.epoch.day_of_year) is Ok,
        within_f64_range(tle.epoch.day_of_year),
    ensures
        final(out)@ == old(out)@ + line1_tail(tle@),
{
    let ghost start = out@;
    push_line1_epoch(out, tle);
    push_line1_drag(out, tle);
    out.push(0x20);
    out.push(0x30);
    out.push(0x20);
    push_count_col(out, tle.element_set_number as u64, 4);
    proof {
        assert(out@ =~= start + line1_tail(tle@));
    }
}

fn push_line2_shape(out: &mut Vec<u8>, tle: &Tle)
    requires
        formattable(tle@),
        epoch_check(tle.epoch.year, tle.epoch.day_of_year) is Ok,
    ensures
        final(out)@ == old(out)@ + line2_shape(tle@),
{
    let ghost start = out@;
    push_real_col(out, tle.inclination, 8, 4);
    out.push(0x20);
    push_real_col(out, tle.raan, 8, 4);
    out.push(0x20);
    push_eccentricity_col(out, tle.eccentricity);
    out.push(0x20);
    proof {
        assert(out@ =~= start + line2_shape(tle@));
    }
}

fn push_line2_motion(out: &mut Vec<u8>, tle: &Tle)
    requires
        formattable(tle@),
        epoch_check(tle.epoch.year, tle.epoch.day_of_year) is Ok,
    ensures
        final(out)@ == old(out)@ + line2_motion(tle@),
{
    let ghost start = out@;
    push_real_col(out, tle.argument_of_perigee, 8, 4);
    out.push(0x20);
    push_real_col(out, tle.mean_anomaly, 8, 4);
    out.push(0x20);
    push_real_col(out, tle.mean_motion, 11, 8);
    push_count_col(out, tle.revolution_number_at_epoch as u64, 5);
    proof {
        assert(out@ =~= start + line2_motion(tle@));
    }
}

/// Append the checksum digit of everything in `out`.
fn push_checksum(out: &mut Vec<u8>)
    ensures
        final(out)@ == with_checksum(old(out)@),
{
    let n = out.len();
    let cs = checksum_of_prefix(out.as_slice(), n);
    proof {
        assert(out@.subrange(0, n as int) =~= out@);
    }
    out.push(0x30 + cs);
}

/// Render a record back to its canonical two lines `(line1, line2)`, each
/// ending in its checksum digit. A catalogue number from 340000 up has no
/// five-column rendering and gives [`TleError::InvalidAlpha5`]; an epoch
/// that is not a calendar instant gives [`TleError::EpochConversion`]; a
/// value too wide for its column gives [`TleError::BadLength`] with the
/// length the line would have had. Every `Ok` holds two 69-byte lines.
pub fn format_tle(tle: &Tle) -> (r: Result<(String, String), TleError>)
    requires
        formattable(tle@),
    ensures
        match r {
            Ok((a, b)) => format_spec(tle@) matches Ok((l1, l2)) && a@ == decode_utf8(l1) && b@
                == decode_utf8(l2) && valid_utf8(l1) && valid_utf8(l2),
            Err(e) => format_spec(tle@) == Err::<(Seq<u8>, Seq<u8>), TleErrorView>(e@),
        },
{
    let ghost t = tle@;
    let n = tle.norad_id.0;
    if n >= 340000 {
        let mut out: Vec<u8> = Vec::new();
        push_decimal(&mut out, n as u64);
        proof {
            crate::text::lemma_decimal_text(n as nat);
            crate::text::lemma_digits_ascii(out@);
        }
        return Err(TleError::InvalidAlpha5 { raw: crate::text::string_of_ascii(out) });
    }
    if super::parse::epoch_from_year_doy(tle.epoch.year, tle.epoch.day_of_year).is_err() {
        return Err(TleError::EpochConversion(String::from_str("epoch is not a calendar instant")));
    }
    proof {
        lemma_valid_epoch_in_range(tle.epoch.year, tle.epoch.day_of_year);
    }
    let mut l1: Vec<u8> = Vec::new();
    push_line1_head(&mut l1, tle);
    push_designator_col(&mut l1, &tle.international_designator.0);
    push_line1_tail(&mut l1, tle);
    proof {
        assert(l1@ =~= line1_body(t));
    }
    push_checksum(&mut l1);
    if l1.len() != 69 {
        return Err(TleError::BadLength { line: 1, got: l1.len() });
    }
    let mut l2: Vec<u8> = Vec::new();
    let mut head2: Vec<u8> = Vec::new();
    head2.push(0x32);
    head2.push(0x20);
    super::push_alpha5(&mut head2, n);
    head2.push(0x20);
    proof {
        assert(head2@ =~= line2_head(t));
    }
    l2 = head2;
    push_line2_shape(&mut l2, tle);
    push_line2_motion(&mut l2, tle);
    proof {
        assert(l2@ =~= line2_body(t));
    }
    push_checksum(&mut l2);
    if l2.len() != 69 {
        return Err(TleError::BadLength { line: 2, got: l2.len() });
    }
    proof {
        lemma_line2_ascii(t);
        lemma_ascii_decode(l2@);
        lemma_line1_valid(t);
    }
    let s1 = string_of_bytes(l1);
    let s2 = string_of_bytes(l2);
    Ok((s1, s2))
}

/// A checked epoch has a day-of-year a float holds.
proof fn lemma_valid_epoch_in_range(year: i32, day: DecimalValue)
    requires
        epoch_check(year, day) is Ok,
    ensures
        within_f64_range(day),
{
    match day {
        DecimalValue::Finite { negative, mantissa, exponent } => {
            let l = num_digits(mantissa as nat);
            lemma_num_digits_bound(mantissa as nat);
            crate::text::lemma_num_digits_u64_pub(mantissa as nat);
            if exponent >= 0 {
                crate::text::lemma_pow10_positive(exponent as nat);
                assert(mantissa as nat * pow10(exponent as nat) < 367);
                assert(exponent < 3) by {
                    if exponent >= 3 {
                        crate::decimal::lemma_pow10_mono(3, exponent as nat);
                        reveal_with_fuel(pow10, 4);
                        assert(mantissa as nat * pow10(exponent as nat) >= 1000) by (nonlinear_arith)
                            requires
                                mantissa >= 1,
                                pow10(exponent as nat) >= 1000,
                        ;
                    }
                }
            } else {
                let q = pow10((-exponent) as nat);
                crate::text::lemma_pow10_positive((-exponent) as nat);
                assert(mantissa as nat >= q);
                assert(l + exponent >= 1) by {
                    if l + exponent < 1 {
                        crate::decimal::lemma_pow10_mono(l, (-exponent) as nat);
                    }
                }
            }
        },
        _ => {},
    }
}

proof fn lemma_line2_ascii(t: TleView)
    requires
        t.norad_id.0 < 340000,
    ensures
        all_ascii(with_checksum(line2_body(t))),
{
    lemma_columns_ascii(t);
    super::lemma_alpha5_ascii(t.norad_id.0 as nat);
    let s = seq![0x20u8];
    let p0 = seq![0x32u8, 0x20];
    let a = alpha5_text(t.norad_id.0 as nat);
    lemma_concat_ascii(p0, a);
    lemma_concat_ascii(p0 + a, s);
    assert(all_ascii(line2_shape(t))) by {
        let x1 = real_col(t.inclination, 8, 4);
        lemma_concat_ascii(x1, s);
        lemma_concat_ascii(x1 + s, real_col(t.raan, 8, 4));
        let x2 = x1 + s + real_col(t.raan, 8, 4);
        lemma_concat_ascii(x2, s);
        lemma_concat_ascii(x2 + s, eccentricity_col(t.eccentricity));
        lemma_concat_ascii(x2 + s + eccentricity_col(t.eccentricity), s);
    }
    assert(all_ascii(line2_motion(t))) by {
        let x4 = real_col(t.argument_of_perigee, 8, 4);
        lemma_concat_ascii(x4, s);
        lemma_concat_ascii(x4 + s, real_col(t.mean_anomaly, 8, 4));
        let x5 = x4 + s + real_col(t.mean_anomaly, 8, 4);
        lemma_concat_ascii(x5, s);
        lemma_concat_ascii(x5 + s, real_col(t.mean_motion, 11, 8));
        let x6 = x5 + s + real_col(t.mean_motion, 11, 8);
        lemma_concat_ascii(x6, count_col(t.revolution_number_at_epoch as nat, 5));
    }
    lemma_concat_ascii(line2_head(t), line2_shape(t));
    lemma_concat_ascii(line2_head(t) + line2_shape(t), line2_motion(t));
    let b = line2_body(t);
    lemma_concat_ascii(b, seq![digit_byte(checksum_of(b))]);
    assert(with_checksum(b) =~= b + seq![digit_byte(checksum_of(b))]);
}

proof fn lemma_line1_tail_ascii(t: TleView)
    ensures
        all_ascii(line1_tail(t)),
{
    lemma_columns_ascii(t);
    let s = seq![0x20u8];
    let yy = padded_digits((t.epoch.year as int % 100) as nat, 2);
    lemma_padded_ascii((t.epoch.year as int % 100) as nat, 2);
    lemma_concat_ascii(s, yy);
    lemma_concat_ascii(s + yy, day_col(t.epoch.day_of_year));
    assert(all_ascii(line1_drag(t))) by {
        lemma_concat_ascii(s, signed_fraction_col(t.mean_motion_dot));
        let y3 = s + signed_fraction_col(t.mean_motion_dot);
        lemma_concat_ascii(y3, s);
        lemma_concat_ascii(y3 + s, assumed_col(t.mean_motion_ddot));
        let y4 = y3 + s + assumed_col(t.mean_motion_ddot);
        lemma_concat_ascii(y4, s);
        lemma_concat_ascii(y4 + s, assumed_col(t.bstar));
    }
    let z = seq![0x20u8, 0x30, 0x20];
    lemma_concat_ascii(line1_epoch(t), line1_drag(t));
    lemma_concat_ascii(line1_epoch(t) + line1_drag(t), z);
    lemma_concat_ascii(line1_epoch(t) + line1_drag(t) + z, count_col(t.element_set_number as nat, 4));
}

proof fn lemma_line1_valid(t: TleView)
    requires
        t.norad_id.0 < 340000,
    ensures
        valid_utf8(with_checksum(line1_body(t))),
{
    super::lemma_alpha5_ascii(t.norad_id.0 as nat);
    let p0 = seq![0x31u8, 0x20];
    let a = alpha5_text(t.norad_id.0 as nat);
    let c = seq![t.classification.char_of() as u8, 0x20];
    lemma_concat_ascii(p0, a);
    lemma_concat_ascii(p0 + a, c);
    let head = line1_head(t);
    let des = designator_col(t.international_designator);
    let tail = line1_tail(t);
    lemma_line1_tail_ascii(t);
    let body = line1_body(t);
    let ck = seq![digit_byte(checksum_of(body))];
    lemma_concat_ascii(tail, ck);
    lemma_ascii_decode(head);
    lemma_ascii_decode(tail + ck);
    encode_utf8_valid_utf8(t.international_designator);
    let sp = Seq::new((8 - t.international_designator.len()) as nat, |i: int| 0x20u8);
    assert(valid_utf8(des)) by {
        if t.international_designator.len() < 8 {
            assert(all_ascii(sp));
            lemma_ascii_decode(sp);
            valid_utf8_concat(encode_utf8(t.international_designator), sp);
        }
    }
    valid_utf8_concat(head, des);
    valid_utf8_concat(head + des, tail + ck);
    assert(with_checksum(body) =~= head + des + (tail + ck));
}


/// A body with its checksum digit appended passes the checksum check
/// whenever it makes a 69-byte line.
pub proof fn with_checksum_passes(body: Seq<u8>)
    requires
        body.len() == 68,
    ensures
        checksum_check(with_checksum(body)) == Some(Ok::<(), TleErrorView>(())),
{
    let l = with_checksum(body);
    assert(l.subrange(0, 68) =~= body);
    let c = checksum_of(body);
    assert(c < 10);
    assert(crate::text::is_digit(l[68]));
}

/// Each column of line 1 after the designator is at least as wide as its
/// field, so that part of the line has at least 51 bytes.
proof fn lemma_line1_tail_min_len(t: TleView)
    ensures
        line1_tail(t).len() >= 51,
{
    let yy = padded_digits((t.epoch.year as int % 100) as nat, 2);
    crate::text::lemma_padded_digits((t.epoch.year as int % 100) as nat, 2);
    assert(yy.len() == 2);
    let d = day_col(t.epoch.day_of_year);
    assert(d.len() >= 12);
    let f = signed_fraction_col(t.mean_motion_dot);
    assert(f.len() >= 10);
    lemma_assumed_min_len(t.mean_motion_ddot);
    lemma_assumed_min_len(t.bstar);
    assert(count_col(t.element_set_number as nat, 4).len() >= 4);
}

pub(crate) proof fn lemma_decimal_text_nonempty(n: nat)
    ensures
        decimal_text(n).len() >= 1,
    decreases n,
{
    if n >= 10 {
        lemma_decimal_text_nonempty(n / 10);
    }
}

proof fn lemma_assumed_min_len(d: DecimalValue)
    ensures
        assumed_col(d).len() >= 8,
{
    match d {
        DecimalValue::Finite { negative, mantissa, exponent } => {
            if mantissa != 0 {
                let x = assumed_exponent_of(mantissa as nat, exponent as int);
                let xa: nat = if x < 0 {
                    (-x) as nat
                } else {
                    x as nat
                };
                lemma_decimal_text_nonempty(xa);
                let scaled = assumed_digits_of(mantissa as nat);
                assert(pad_left(decimal_text(scaled), 5, 0x30).len() >= 5);
            }
        },
        _ => {},
    }
}

/// A 69-byte rendered line 1 is ASCII: its designator column can only be
/// eight bytes wide when every designator character is one byte.
proof fn lemma_line1_ascii(t: TleView)
    requires
        t.norad_id.0 < 340000,
        with_checksum(line1_body(t)).len() == 69,
    ensures
        all_ascii(with_checksum(line1_body(t))),
{
    let s = t.international_designator;
    let e = encode_utf8(s);
    let head = line1_head(t);
    let des = designator_col(s);
    let tail = line1_tail(t);
    let body = line1_body(t);
    super::lemma_alpha5_ascii(t.norad_id.0 as nat);
    lemma_line1_tail_min_len(t);
    lemma_line1_tail_ascii(t);
    assert(body =~= head + des + tail);
    assert(des.len() <= 8);
    crate::text::lemma_encode_len(s);
    if s.len() >= 8 {
        assert(des == e);
    } else {
        let sp = Seq::new((8 - s.len()) as nat, |i: int| 0x20u8);
        assert(des == e + sp);
        assert(all_ascii(sp));
        lemma_concat_ascii(e, sp);
    }
    assert(all_ascii(des));
    let p0 = seq![0x31u8, 0x20];
    let a = super::alpha5_text(t.norad_id.0 as nat);
    let c = seq![t.classification.char_of() as u8, 0x20];
    assert(all_ascii(c)) by {
        match t.classification {
            Classification::Unclassified => {},
            Classification::Classified => {},
            Classification::Secret => {},
        }
    }
    lemma_concat_ascii(p0, a);
    lemma_concat_ascii(p0 + a, c);
    lemma_concat_ascii(head, des);
    lemma_concat_ascii(head + des, tail);
    let ck = seq![digit_byte(checksum_of(body))];
    assert(checksum_of(body) < 10);
    assert(all_ascii(ck));
    lemma_concat_ascii(body, ck);
    assert(with_checksum(body) =~= body + ck);
}

/// The designator column is at least eight bytes wide.
proof fn lemma_designator_min_len(s: Seq<char>)
    ensures
        designator_col(s).len() >= 8,
{
    crate::text::lemma_encode_len(s);
}

/// A record the writer accepts has every column at exactly its width.
pub proof fn lemma_written_widths(t: TleView)
    requires
        format_spec(t) is Ok,
    ensures
        designator_col(t.international_designator).len() == 8,
        day_col(t.epoch.day_of_year).len() == 12,
        signed_fraction_col(t.mean_motion_dot).len() == 10,
        assumed_col(t.mean_motion_ddot).len() == 8,
        assumed_col(t.bstar).len() == 8,
        count_col(t.element_set_number as nat, 4).len() == 4,
        real_col(t.inclination, 8, 4).len() == 8,
        real_col(t.raan, 8, 4).len() == 8,
        eccentricity_col(t.eccentricity).len() == 7,
        real_col(t.argument_of_perigee, 8, 4).len() == 8,
        real_col(t.mean_anomaly, 8, 4).len() == 8,
        real_col(t.mean_motion, 11, 8).len() == 11,
        count_col(t.revolution_number_at_epoch as nat, 5).len() == 5,
{
    super::lemma_alpha5_ascii(t.norad_id.0 as nat);
    lemma_designator_min_len(t.international_designator);
    lemma_assumed_min_len(t.mean_motion_ddot);
    lemma_assumed_min_len(t.bstar);
    crate::text::lemma_padded_digits((t.epoch.year as int % 100) as nat, 2);
    assert(line1_head(t).len() == 9);
    assert(line2_head(t).len() == 8);
    assert(line1_body(t).len() == 68);
    assert(line2_body(t).len() == 68);
}

/// Every rendered pair of lines has two 69-byte ASCII lines that carry a
/// valid checksum and start with their line numbers.
pub proof fn formatted_lines_pass_checksum(t: TleView)
    requires
        format_spec(t) is Ok,
    ensures
        format_spec(t) matches Ok((l1, l2)) && l1.len() == 69 && l2.len() == 69 && all_ascii(l1)
            && all_ascii(l2) && checksum_check(l1) == Some(Ok::<(), TleErrorView>(()))
            && checksum_check(l2) == Some(Ok::<(), TleErrorView>(())) && l1[0] == 0x31 && l2[0]
            == 0x32,
{
    let b1 = line1_body(t);
    let b2 = line2_body(t);
    with_checksum_passes(b1);
    with_checksum_passes(b2);
    lemma_line1_ascii(t);
    lemma_line2_ascii(t);
}

} // verus!
