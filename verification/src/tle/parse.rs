//! Column-positional parser for the canonical NORAD 2LE / 3LE format.
//!
//! Columns are byte positions. A line is sliced at fixed byte offsets, so
//! an offset that falls inside a multi-byte character cannot be sliced; the
//! models below return `None` for such inputs and the parsers require that
//! this does not happen.

use vstd::prelude::*;
use vstd::string::StringSliceAdditionalSpecFns;
use vstd::utf8::{decode_utf8, valid_utf8, encode_utf8_valid_utf8};
use crate::decimal::{
    parse_decimal_at, parse_decimal_spec, day_of_year_floor, day_of_year_int, DecimalValue,
};
use crate::text::{
    all_digits, all_digits_at, cut_ok, digit_value, digits_value, digits_value_capped, is_digit,
    byte_is_digit, lemma_trim_valid, lemma_valid_utf8_drop_first, lemma_valid_utf8_range,
    parse_i32_at, parse_i32_spec, parse_i64_at, parse_i64_spec, string_of_range, trim, trim_at,
    trim_start, trim_start_at, pow10,
};
use super::{
    agrees, alpha5_value, Classification, EpochProblem, InternationalDesignator, SatelliteNumber,
    Tle, TleEpoch, TleError, TleErrorView, TleView,
};

verus! {

broadcast use vstd::seq::group_seq_axioms;

// ---------------------------------------------------------------------------
// Checksum
// ---------------------------------------------------------------------------

/// Contribution of one byte to the TLE checksum: its value for a digit,
/// one for a minus sign, nothing otherwise.
pub open spec fn checksum_weight(b: u8) -> nat {
    if is_digit(b) {
        digit_value(b)
    } else if b == 0x2d {
        1
    } else {
        0
    }
}

/// Sum of the checksum weights of a byte sequence.
pub open spec fn checksum_sum(s: Seq<u8>) -> nat
    decreases s.len(),
{
    if s.len() == 0 {
        0
    } else {
        checksum_sum(s.drop_last()) + checksum_weight(s.last())
    }
}

/// The TLE checksum digit of a byte sequence: the weight sum modulo ten.
pub open spec fn checksum_of(s: Seq<u8>) -> nat {
    checksum_sum(s) % 10
}

/// Checksum over the first `n` bytes of `b`.
pub(crate) fn checksum_of_prefix(b: &[u8], n: usize) -> (r: u8)
    requires
        n <= b@.len(),
    ensures
        r as nat == checksum_of(b@.subrange(0, n as int)),
        r < 10,
{
    let mut sum: u64 = 0;
    let mut i: usize = 0;
    while i < n
        invariant
            i <= n,
            n <= b@.len(),
            sum as nat == checksum_sum(b@.subrange(0, i as int)) % 10,
        decreases n - i,
    {
        let c = b[i];
        proof {
            assert(b@.subrange(0, i + 1).drop_last() =~= b@.subrange(0, i as int));
        }
        if byte_is_digit(c) {
            sum = (sum + (c - 0x30) as u64) % 10;
        } else if c == 0x2d {
            sum = (sum + 1) % 10;
        }
        i = i + 1;
    }
    sum as u8
}

/// Compute the canonical TLE checksum digit of a line prefix (normally its
/// first 68 columns): digits count their value, minus signs count one, and
/// the sum is taken modulo ten.
pub fn compute_tle_checksum(prefix_68: &str) -> (r: u8)
    ensures
        r as nat == checksum_of(prefix_68.spec_bytes()),
        r < 10,
{
    compute_checksum(prefix_68)
}

/// Same as [`compute_tle_checksum`]; the name used inside the crate.
pub fn compute_checksum(prefix_68: &str) -> (r: u8)
    ensures
        r as nat == checksum_of(prefix_68.spec_bytes()),
        r < 10,
{
    let b = prefix_68.as_bytes();
    proof {
        assert(b@.subrange(0, b@.len() as int) =~= b@);
    }
    checksum_of_prefix(b, b.len())
}

/// Line number reported by the checksum check: taken from the first
/// character (`1` or `2`), zero otherwise.
pub open spec fn line_number(b: Seq<u8>) -> u8 {
    if b.len() > 0 && b[0] == 0x31 {
        1
    } else if b.len() > 0 && b[0] == 0x32 {
        2
    } else {
        0
    }
}

/// Outcome of the checksum check of one line (`None` where the line cannot
/// be sliced before its checksum column).
pub open spec fn checksum_check(b: Seq<u8>) -> Option<Result<(), TleErrorView>> {
    let line = line_number(b);
    let computed = checksum_of(b.subrange(0, 68)) as u8;
    if b.len() != 69 {
        Some(Err(TleErrorView::BadLength { line, got: b.len() as usize }))
    } else if !is_digit(b[68]) {
        if cut_ok(b, 68) {
            Some(Err(TleErrorView::BadChecksum { line, stated: 0, computed }))
        } else {
            None
        }
    } else if digit_value(b[68]) != checksum_of(b.subrange(0, 68)) {
        Some(Err(TleErrorView::BadChecksum { line, stated: (b[68] - 0x30) as u8, computed }))
    } else {
        Some(Ok(()))
    }
}

/// A line passes the checksum check exactly when it has 69 bytes and its
/// last column is the digit that the checksum of the first 68 gives.
pub proof fn checksum_check_accepts(b: Seq<u8>)
    ensures
        checksum_check(b) == Some(Ok::<(), TleErrorView>(())) <==> (b.len() == 69 && is_digit(
            b[68],
        ) && digit_value(b[68]) == checksum_of(b.subrange(0, 68))),
{
}

fn checksum_check_bytes(b: &[u8]) -> (r: Result<(), TleError>)
    requires
        checksum_check(b@) is Some,
    ensures
        agrees(r, checksum_check(b@).unwrap()),
{
    let line_no: u8 = if b.len() > 0 && b[0] == 0x31 {
        1
    } else if b.len() > 0 && b[0] == 0x32 {
        2
    } else {
        0
    };
    if b.len() != 69 {
        return Err(TleError::BadLength { line: line_no, got: b.len() });
    }
    let stated_byte = b[68];
    let computed = checksum_of_prefix(b, 68);
    if !byte_is_digit(stated_byte) {
        return Err(TleError::BadChecksum { line: line_no, stated: 0, computed });
    }
    let stated = stated_byte - 0x30;
    if stated != computed {
        return Err(TleError::BadChecksum { line: line_no, stated, computed });
    }
    Ok(())
}

/// Validate the canonical TLE checksum (digits + minus signs, mod 10) of a
/// line: its length must be 69 bytes and its last column must hold the
/// checksum digit of the first 68.
pub fn validate_tle_checksum(line: &str) -> (r: Result<(), TleError>)
    requires
        checksum_check(line.spec_bytes()) is Some,
    ensures
        agrees(r, checksum_check(line.spec_bytes()).unwrap()),
        r is Ok <==> (line.spec_bytes().len() == 69 && is_digit(line.spec_bytes()[68])
            && digit_value(line.spec_bytes()[68]) == checksum_of(line.spec_bytes().subrange(0, 68))),
{
    checksum_check_bytes(line.as_bytes())
}

// ---------------------------------------------------------------------------
// Fields
// ---------------------------------------------------------------------------

/// An integer field: trimmed, then `i64::from_str`.
pub open spec fn int_field(raw: Seq<u8>, field: &'static str) -> Result<i64, TleErrorView> {
    match parse_i64_spec(trim(raw)) {
        Some(v) => Ok(v),
        None => Err(TleErrorView::InvalidNumber { field, raw: decode_utf8(raw) }),
    }
}

/// A real field: trimmed, then read with the `f64::from_str` syntax.
pub open spec fn float_field(raw: Seq<u8>, field: &'static str) -> Result<
    DecimalValue,
    TleErrorView,
> {
    match parse_decimal_spec(trim(raw)) {
        Some(v) => Ok(v),
        None => Err(TleErrorView::InvalidNumber { field, raw: decode_utf8(raw) }),
    }
}

/// Position of the last `+` or `-` in `s`, or -1.
pub open spec fn last_sign(s: Seq<u8>) -> int
    decreases s.len(),
{
    if s.len() == 0 {
        -1
    } else if s.last() == 0x2b || s.last() == 0x2d {
        s.len() - 1
    } else {
        last_sign(s.drop_last())
    }
}

/// The TLE assumed-decimal-with-exponent encoding of a trimmed field
/// (` 12345-3` is `0.12345e-3`): an optional sign, mantissa digits read
/// as a fraction, and a signed exponent. Empty text is zero.
pub open spec fn assumed_decimal_value(s: Seq<u8>) -> Option<DecimalValue> {
    if s.len() == 0 {
        Some(DecimalValue::zero())
    } else {
        let neg = s[0] == 0x2d;
        let rest = if s[0] == 0x2d || s[0] == 0x2b {
            s.subrange(1, s.len() as int)
        } else {
            s
        };
        let sep = last_sign(rest);
        if rest.len() < 2 || sep < 0 {
            None
        } else {
            let md = rest.subrange(0, sep);
            let es = rest.subrange(sep, rest.len() as int);
            if md.len() == 0 || !all_digits(md) || digits_value(md) > u64::MAX {
                None
            } else {
                match parse_i32_spec(es) {
                    Some(x) => Some(
                        DecimalValue::Finite {
                            negative: neg,
                            mantissa: digits_value(md) as u64,
                            exponent: (x - md.len()) as i64,
                        },
                    ),
                    None => None,
                }
            }
        }
    }
}

/// An assumed-decimal field.
pub open spec fn assumed_decimal_field(raw: Seq<u8>, field: &'static str) -> Result<
    DecimalValue,
    TleErrorView,
> {
    match assumed_decimal_value(trim(raw)) {
        Some(v) => Ok(v),
        None => Err(TleErrorView::InvalidNumber { field, raw: decode_utf8(raw) }),
    }
}

/// The eccentricity field: digits with an assumed leading decimal point.
pub open spec fn eccentricity_field(raw: Seq<u8>) -> Result<DecimalValue, TleErrorView> {
    let t = trim(raw);
    if t.len() == 0 || !all_digits(t) {
        Err(TleErrorView::InvalidNumber { field: "eccentricity", raw: decode_utf8(t) })
    } else {
        Ok(
            DecimalValue::Finite {
                negative: false,
                mantissa: digits_value(t) as u64,
                exponent: -(t.len() as int) as i64,
            },
        )
    }
}

/// TLE two-digit year convention: 57..99 are 1957..1999, below 57 is 20xx.
pub open spec fn expand_year(yy: int) -> int {
    if yy >= 57 {
        1900 + yy
    } else {
        2000 + yy
    }
}

/// TLE 2-digit year convention: 57..99 → 1957..1999, 00..56 → 2000..2056.
pub fn expand_two_digit_year(yy: i32) -> (r: i32)
    requires
        yy <= i32::MAX - 1900,
    ensures
        r == expand_year(yy as int),
{
    if yy >= 57 {
        1900 + yy
    } else {
        2000 + yy
    }
}

/// Every two-digit year expands into 1957..=2056, keeping its last two digits.
pub proof fn expand_year_range(yy: int)
    requires
        0 <= yy <= 99,
    ensures
        1957 <= expand_year(yy) <= 2056,
        expand_year(yy) % 100 == yy,
{
}

/// A Gregorian leap year.
pub open spec fn is_leap_year(y: int) -> bool {
    y % 4 == 0 && (y % 100 != 0 || y % 400 == 0)
}

/// Days in a Gregorian year.
pub open spec fn days_in_year(y: int) -> int {
    if is_leap_year(y) {
        366
    } else {
        365
    }
}

/// Years that `chrono::NaiveDate` represents.
pub open spec fn chrono_year_in_range(y: int) -> bool {
    -262143 <= y <= 262142
}

/// Calls `chrono::NaiveDate::from_yo_opt` and reports whether it gives a
/// date. Per chrono's source, it does exactly when the year is within
/// `NaiveDate`'s range and the ordinal is a day of that (proleptic
/// Gregorian) year.
#[verifier::external_body]
fn calendar_ordinal_exists(year: i32, ordinal: u32) -> (r: bool)
    ensures
        r == (chrono_year_in_range(year as int) && 1 <= ordinal <= days_in_year(year as int)),
{
    chrono::NaiveDate::from_yo_opt(year, ordinal).is_some()
}

/// The epoch check: a finite day-of-year in `[1, 367)` whose integer part
/// is a day of the (expanded) year.
pub open spec fn epoch_check(year: i32, day: DecimalValue) -> Result<TleEpoch, TleErrorView> {
    match day_of_year_int(day) {
        None => Err(
            TleErrorView::InvalidEpoch {
                year,
                day_of_year: day,
                reason: EpochProblem::DayOutOfRange,
            },
        ),
        Some(d) => if chrono_year_in_range(year as int) && 1 <= d <= days_in_year(year as int) {
            Ok(TleEpoch { year, day_of_year: day })
        } else {
            Err(
                TleErrorView::InvalidEpoch {
                    year,
                    day_of_year: day,
                    reason: EpochProblem::DateDoesNotExist,
                },
            )
        },
    }
}

/// Check a year and fractional day-of-year.
pub fn epoch_from_year_doy(year: i32, day_of_year: DecimalValue) -> (r: Result<TleEpoch, TleError>)
    ensures
        agrees(r, epoch_check(year, day_of_year)),
{
    match day_of_year_floor(day_of_year) {
        None => Err(
            TleError::InvalidEpoch { year, day_of_year, reason: EpochProblem::DayOutOfRange },
        ),
        Some(d) => {
            if calendar_ordinal_exists(year, d) {
                Ok(TleEpoch { year, day_of_year })
            } else {
                Err(
                    TleError::InvalidEpoch {
                        year,
                        day_of_year,
                        reason: EpochProblem::DateDoesNotExist,
                    },
                )
            }
        },
    }
}

/// Parse an integer field `b[lo..hi]`.
fn parse_int_field(b: &[u8], lo: usize, hi: usize, field: &'static str) -> (r: Result<
    i64,
    TleError,
>)
    requires
        lo <= hi <= b@.len(),
        valid_utf8(b@.subrange(lo as int, hi as int)),
    ensures
        agrees(r, int_field(b@.subrange(lo as int, hi as int), field)),
{
    let (i, j) = trim_at(b, lo, hi);
    match parse_i64_at(b, i, j) {
        Some(v) => Ok(v),
        None => Err(TleError::InvalidNumber { field, raw: string_of_range(b, lo, hi) }),
    }
}

/// Parse a real field `b[lo..hi]`.
fn parse_float_field(b: &[u8], lo: usize, hi: usize, field: &'static str) -> (r: Result<
    DecimalValue,
    TleError,
>)
    requires
        lo <= hi <= b@.len(),
        hi - lo <= 18,
        valid_utf8(b@.subrange(lo as int, hi as int)),
    ensures
        agrees(r, float_field(b@.subrange(lo as int, hi as int), field)),
{
    let (i, j) = trim_at(b, lo, hi);
    match parse_decimal_at(b, i, j) {
        Some(v) => Ok(v),
        None => Err(TleError::InvalidNumber { field, raw: string_of_range(b, lo, hi) }),
    }
}

/// Position of the last sign in `b[lo..hi]`, relative to `lo`, or `None`.
fn last_sign_at(b: &[u8], lo: usize, hi: usize) -> (r: Option<usize>)
    requires
        lo <= hi <= b@.len(),
    ensures
        r is None <==> last_sign(b@.subrange(lo as int, hi as int)) < 0,
        r matches Some(k) ==> k as int == last_sign(b@.subrange(lo as int, hi as int)),
        r matches Some(k) ==> k < hi - lo,
{
    let mut j = hi;
    while j > lo
        invariant
            lo <= j <= hi <= b@.len(),
            last_sign(b@.subrange(lo as int, hi as int)) == last_sign(
                b@.subrange(lo as int, j as int),
            ),
        decreases j - lo,
    {
        let c = b[j - 1];
        if c == 0x2b || c == 0x2d {
            return Some(j - 1 - lo);
        }
        proof {
            assert(b@.subrange(lo as int, j as int).drop_last() =~= b@.subrange(
                lo as int,
                j - 1,
            ));
        }
        j = j - 1;
    }
    None
}

/// The assumed-decimal value of the trimmed field `b[lo..hi]`.
fn assumed_decimal_at(b: &[u8], lo: usize, hi: usize) -> (r: Option<DecimalValue>)
    requires
        lo <= hi <= b@.len(),
    ensures
        r == assumed_decimal_value(b@.subrange(lo as int, hi as int)),
{
    let ghost s = b@.subrange(lo as int, hi as int);
    if lo == hi {
        return Some(DecimalValue::Finite { negative: false, mantissa: 0, exponent: 0 });
    }
    let neg = b[lo] == 0x2d;
    let start = if b[lo] == 0x2d || b[lo] == 0x2b {
        lo + 1
    } else {
        lo
    };
    let ghost rest = b@.subrange(start as int, hi as int);
    proof {
        if b[lo as int] == 0x2d || b[lo as int] == 0x2b {
            assert(s.subrange(1, s.len() as int) =~= rest);
        } else {
            assert(s =~= rest);
        }
    }
    let sep = match last_sign_at(b, start, hi) {
        Some(k) => k,
        None => {
            return None;
        },
    };
    if hi - start < 2 {
        return None;
    }
    let mid = start + sep;
    proof {
        assert(rest.subrange(0, sep as int) =~= b@.subrange(start as int, mid as int));
        assert(rest.subrange(sep as int, rest.len() as int) =~= b@.subrange(mid as int, hi as int));
    }
    if sep == 0 || !all_digits_at(b, start, mid) {
        return None;
    }
    let m = match digits_value_capped(b, start, mid, 18446744073709551615) {
        Some(v) => v,
        None => {
            return None;
        },
    };
    match parse_i32_at(b, mid, hi) {
        Some(x) => Some(
            DecimalValue::Finite {
                negative: neg,
                mantissa: m,
                exponent: (x as i128 - sep as i128) as i64,
            },
        ),
        None => None,
    }
}

proof fn lemma_pow10_le_18(n: nat)
    requires
        n <= 18,
    ensures
        pow10(n) <= 1000000000000000000,
    decreases n,
{
    if n > 0 {
        lemma_pow10_le_18((n - 1) as nat);
        if n < 18 {
            lemma_pow10_le_17((n - 1) as nat);
        }
        reveal_with_fuel(pow10, 19);
    }
}

proof fn lemma_pow10_le_17(n: nat)
    requires
        n <= 17,
    ensures
        pow10(n) <= 100000000000000000,
    decreases n,
{
    reveal_with_fuel(pow10, 18);
    if n > 0 && n < 17 {
        lemma_pow10_le_16((n - 1) as nat);
    }
}

proof fn lemma_pow10_le_16(n: nat)
    requires
        n <= 16,
    ensures
        pow10(n) <= 10000000000000000,
    decreases n,
{
    reveal_with_fuel(pow10, 17);
    if n > 0 {
        lemma_pow10_le_16((n - 1) as nat);
    }
}

/// Parse an assumed-decimal field `b[lo..hi]`.
fn parse_assumed_decimal_field(b: &[u8], lo: usize, hi: usize, field: &'static str) -> (r:
    Result<DecimalValue, TleError>)
    requires
        lo <= hi <= b@.len(),
        valid_utf8(b@.subrange(lo as int, hi as int)),
    ensures
        agrees(r, assumed_decimal_field(b@.subrange(lo as int, hi as int), field)),
{
    let (i, j) = trim_at(b, lo, hi);
    match assumed_decimal_at(b, i, j) {
        Some(v) => Ok(v),
        None => Err(TleError::InvalidNumber { field, raw: string_of_range(b, lo, hi) }),
    }
}

/// Parse an assumed-decimal field with exponent (`-11606-4` is
/// `-0.11606e-4`); blank text is zero. A mantissa whose digits exceed
/// `u64::MAX` is an invalid number, as `u64::from_str` makes it.
pub fn parse_assumed_decimal_exponent(raw: &str, field: &'static str) -> (r: Result<
    DecimalValue,
    TleError,
>)
    ensures
        agrees(r, assumed_decimal_field(raw.spec_bytes(), field)),
{
    let b = raw.as_bytes();
    proof {
        encode_utf8_valid_utf8(raw@);
        assert(b@.subrange(0, b@.len() as int) =~= b@);
    }
    parse_assumed_decimal_field(b, 0, b.len(), field)
}

/// Parse the eccentricity field `b[lo..hi]`.
fn parse_eccentricity_field(b: &[u8], lo: usize, hi: usize) -> (r: Result<
    DecimalValue,
    TleError,
>)
    requires
        lo <= hi <= b@.len(),
        hi - lo <= 18,
        valid_utf8(b@.subrange(lo as int, hi as int)),
    ensures
        agrees(r, eccentricity_field(b@.subrange(lo as int, hi as int))),
{
    let (i, j) = trim_at(b, lo, hi);
    proof {
        lemma_trim_valid(b@.subrange(lo as int, hi as int));
    }
    if i == j || !all_digits_at(b, i, j) {
        return Err(TleError::InvalidNumber { field: "eccentricity", raw: string_of_range(b, i, j) });
    }
    let m = match digits_value_capped(b, i, j, 999999999999999999) {
        Some(v) => v,
        None => {
            proof {
                crate::text::lemma_digits_value_bound(b@.subrange(i as int, j as int));
                lemma_pow10_le_18((j - i) as nat);
            }
            return Err(TleError::InvalidNumber { field: "eccentricity", raw: string_of_range(b, i, j) });
        },
    };
    Ok(DecimalValue::Finite { negative: false, mantissa: m, exponent: 0 - (j - i) as i64 })
}


// ---------------------------------------------------------------------------
// Lines
// ---------------------------------------------------------------------------

/// The fields of line 1 (`None` where a field cannot be sliced).
pub struct Line1View {
    pub norad_id: SatelliteNumber,
    pub classification: Classification,
    pub international_designator: Seq<char>,
    pub epoch_year: i64,
    pub epoch_day: DecimalValue,
    pub mean_motion_dot: DecimalValue,
    pub mean_motion_ddot: DecimalValue,
    pub bstar: DecimalValue,
    pub element_set_number: u16,
}

/// The fields of line 2.
pub struct Line2View {
    pub inclination: DecimalValue,
    pub raan: DecimalValue,
    pub eccentricity: DecimalValue,
    pub argument_of_perigee: DecimalValue,
    pub mean_anomaly: DecimalValue,
    pub mean_motion: DecimalValue,
    pub revolution_number_at_epoch: u32,
}

/// Bytes `lo..hi` of a line, when both ends can be sliced.
pub open spec fn sliceable(b: Seq<u8>, lo: int, hi: int) -> bool {
    cut_ok(b, lo) && cut_ok(b, hi)
}

/// The bytes of a field.
pub open spec fn col(b: Seq<u8>, lo: int, hi: int) -> Seq<u8> {
    b.subrange(lo, hi)
}

/// Line 1 from the element-set number on (columns 65–68).
pub open spec fn line1_tail(
    b: Seq<u8>,
    norad_id: SatelliteNumber,
    classification: Classification,
    designator: Seq<char>,
    epoch_year: i64,
    epoch_day: DecimalValue,
    ndot: DecimalValue,
    nddot: DecimalValue,
    bstar: DecimalValue,
) -> Option<Result<Line1View, TleErrorView>> {
    if !sliceable(b, 64, 68) {
        None
    } else {
        match int_field(trim_start(col(b, 64, 68)), "element_set_number") {
            Err(e) => Some(Err(e)),
            Ok(n) => Some(
                Ok(
                    Line1View {
                        norad_id,
                        classification,
                        international_designator: designator,
                        epoch_year,
                        epoch_day,
                        mean_motion_dot: ndot,
                        mean_motion_ddot: nddot,
                        bstar,
                        element_set_number: n as u16,
                    },
                ),
            ),
        }
    }
}

/// Line 1 from the epoch on.
pub open spec fn line1_elements(
    b: Seq<u8>,
    norad_id: SatelliteNumber,
    classification: Classification,
    designator: Seq<char>,
) -> Option<Result<Line1View, TleErrorView>> {
    match int_field(col(b, 18, 20), "epoch_year") {
        Err(e) => Some(Err(e)),
        Ok(yy) => if !sliceable(b, 20, 32) {
            None
        } else {
            match float_field(col(b, 20, 32), "epoch_day") {
                Err(e) => Some(Err(e)),
                Ok(day) => if !sliceable(b, 33, 43) {
                    None
                } else {
                    match float_field(col(b, 33, 43), "mean_motion_dot") {
                        Err(e) => Some(Err(e)),
                        Ok(ndot) => if !sliceable(b, 44, 52) {
                            None
                        } else {
                            match assumed_decimal_field(col(b, 44, 52), "mean_motion_ddot") {
                                Err(e) => Some(Err(e)),
                                Ok(nddot) => if !sliceable(b, 53, 61) {
                                    None
                                } else {
                                    match assumed_decimal_field(col(b, 53, 61), "bstar") {
                                        Err(e) => Some(Err(e)),
                                        Ok(bstar) => line1_tail(
                                            b,
                                            norad_id,
                                            classification,
                                            designator,
                                            yy,
                                            day,
                                            ndot,
                                            nddot,
                                            bstar,
                                        ),
                                    }
                                },
                            }
                        },
                    }
                },
            }
        },
    }
}

/// The fields of line 1, read in column order.
pub open spec fn line1_spec(b: Seq<u8>) -> Option<Result<Line1View, TleErrorView>> {
    if !sliceable(b, 2, 7) {
        None
    } else {
        match alpha5_value(col(b, 2, 7)) {
            None => Some(Err(TleErrorView::InvalidAlpha5 { raw: decode_utf8(col(b, 2, 7)) })),
            Some(n1) => match Classification::of_char(b[7] as char) {
                None => Some(Err(TleErrorView::InvalidClassification { found: b[7] as char })),
                Some(cls) => if !(sliceable(b, 9, 17) && sliceable(b, 18, 20)) {
                    None
                } else {
                    line1_elements(
                        b,
                        SatelliteNumber(n1 as u32),
                        cls,
                        decode_utf8(trim(col(b, 9, 17))),
                    )
                },
            },
        }
    }
}

/// Line 2 from the argument of perigee on.
pub open spec fn line2_tail(
    b: Seq<u8>,
    inc: DecimalValue,
    raan: DecimalValue,
    ecc: DecimalValue,
) -> Option<Result<Line2View, TleErrorView>> {
    if !sliceable(b, 34, 42) {
        None
    } else {
        match float_field(col(b, 34, 42), "argument_of_perigee") {
            Err(e) => Some(Err(e)),
            Ok(argp) => if !sliceable(b, 43, 51) {
                None
            } else {
                match float_field(col(b, 43, 51), "mean_anomaly") {
                    Err(e) => Some(Err(e)),
                    Ok(ma) => if !sliceable(b, 52, 63) {
                        None
                    } else {
                        match float_field(col(b, 52, 63), "mean_motion") {
                            Err(e) => Some(Err(e)),
                            Ok(mm) => if !sliceable(b, 63, 68) {
                                None
                            } else {
                                match int_field(
                                    trim_start(col(b, 63, 68)),
                                    "revolution_number",
                                ) {
                                    Err(e) => Some(Err(e)),
                                    Ok(rev) => Some(
                                        Ok(
                                            Line2View {
                                                inclination: inc,
                                                raan,
                                                eccentricity: ecc,
                                                argument_of_perigee: argp,
                                                mean_anomaly: ma,
                                                mean_motion: mm,
                                                revolution_number_at_epoch: rev as u32,
                                            },
                                        ),
                                    ),
                                }
                            },
                        }
                    },
                }
            },
        }
    }
}

/// The fields of line 2, read in column order; its catalogue number must
/// equal line 1's.
pub open spec fn line2_spec(b: Seq<u8>, n1: u32) -> Option<Result<Line2View, TleErrorView>> {
    if !sliceable(b, 2, 7) {
        None
    } else {
        match alpha5_value(col(b, 2, 7)) {
            None => Some(Err(TleErrorView::InvalidAlpha5 { raw: decode_utf8(col(b, 2, 7)) })),
            Some(n2) => if n1 != n2 {
                Some(Err(TleErrorView::MismatchedSatelliteNumber { l1: n1, l2: n2 as u32 }))
            } else if !sliceable(b, 8, 16) {
                None
            } else {
                match float_field(col(b, 8, 16), "inclination") {
                    Err(e) => Some(Err(e)),
                    Ok(inc) => if !sliceable(b, 17, 25) {
                        None
                    } else {
                        match float_field(col(b, 17, 25), "raan") {
                            Err(e) => Some(Err(e)),
                            Ok(raan) => if !sliceable(b, 26, 33) {
                                None
                            } else {
                                match eccentricity_field(col(b, 26, 33)) {
                                    Err(e) => Some(Err(e)),
                                    Ok(ecc) => line2_tail(b, inc, raan, ecc),
                                }
                            },
                        }
                    },
                }
            },
        }
    }
}

/// The record assembled from the two lines and the checked epoch.
pub open spec fn assemble(
    name: Option<Seq<char>>,
    l1: Line1View,
    l2: Line2View,
    epoch: TleEpoch,
) -> TleView {
    TleView {
        name,
        norad_id: l1.norad_id,
        classification: l1.classification,
        international_designator: l1.international_designator,
        epoch,
        mean_motion_dot: l1.mean_motion_dot,
        mean_motion_ddot: l1.mean_motion_ddot,
        bstar: l1.bstar,
        element_set_number: l1.element_set_number,
        revolution_number_at_epoch: l2.revolution_number_at_epoch,
        inclination: l2.inclination,
        raan: l2.raan,
        eccentricity: l2.eccentricity,
        argument_of_perigee: l2.argument_of_perigee,
        mean_anomaly: l2.mean_anomaly,
        mean_motion: l2.mean_motion,
    }
}

/// The outcome of parsing two element lines: lengths, leading line
/// numbers and checksums first, then line 1 and line 2 in column order,
/// then the epoch. `None` where a column boundary falls inside a UTF-8
/// character, where slicing the line is not defined.
pub open spec fn parse_lines_spec(name: Option<Seq<char>>, b1: Seq<u8>, b2: Seq<u8>) -> Option<
    Result<TleView, TleErrorView>,
> {
    if b1.len() != 69 {
        Some(Err(TleErrorView::BadLength { line: 1, got: b1.len() as usize }))
    } else if b2.len() != 69 {
        Some(Err(TleErrorView::BadLength { line: 2, got: b2.len() as usize }))
    } else if b1[0] != 0x31 {
        Some(Err(TleErrorView::BadLeadingChar { line: 1, expected: '1', found: b1[0] as char }))
    } else if b2[0] != 0x32 {
        Some(Err(TleErrorView::BadLeadingChar { line: 2, expected: '2', found: b2[0] as char }))
    } else {
        match checksum_check(b1) {
            None => None,
            Some(Err(e)) => Some(Err(e)),
            Some(Ok(_)) => match checksum_check(b2) {
                None => None,
                Some(Err(e)) => Some(Err(e)),
                Some(Ok(_)) => match line1_spec(b1) {
                    None => None,
                    Some(Err(e)) => Some(Err(e)),
                    Some(Ok(l1)) => match line2_spec(b2, l1.norad_id.0) {
                        None => None,
                        Some(Err(e)) => Some(Err(e)),
                        Some(Ok(l2)) => match epoch_check(
                            expand_year((l1.epoch_year as i32) as int) as i32,
                            l1.epoch_day,
                        ) {
                            Err(e) => Some(Err(e)),
                            Ok(epoch) => Some(Ok(assemble(name, l1, l2, epoch))),
                        },
                    },
                },
            },
        }
    }
}

/// A parsed record agrees with its model.
pub open spec fn agrees_tle(r: Result<Tle, TleError>, m: Result<TleView, TleErrorView>) -> bool {
    match r {
        Ok(t) => m == Ok::<TleView, TleErrorView>(t@),
        Err(e) => m == Err::<TleView, TleErrorView>(e@),
    }
}

/// Executable counterpart of [`Line1View`].
struct Line1 {
    norad_id: SatelliteNumber,
    classification: Classification,
    international_designator: String,
    epoch_year: i64,
    epoch_day: DecimalValue,
    mean_motion_dot: DecimalValue,
    mean_motion_ddot: DecimalValue,
    bstar: DecimalValue,
    element_set_number: u16,
}

impl Line1 {
    spec fn view(&self) -> Line1View {
        Line1View {
            norad_id: self.norad_id,
            classification: self.classification,
            international_designator: self.international_designator@,
            epoch_year: self.epoch_year,
            epoch_day: self.epoch_day,
            mean_motion_dot: self.mean_motion_dot,
            mean_motion_ddot: self.mean_motion_ddot,
            bstar: self.bstar,
            element_set_number: self.element_set_number,
        }
    }
}

/// Line 1 agrees with its model.
spec fn agrees_l1(r: Result<Line1, TleError>, m: Result<Line1View, TleErrorView>) -> bool {
    match r {
        Ok(t) => m == Ok::<Line1View, TleErrorView>(t.view()),
        Err(e) => m == Err::<Line1View, TleErrorView>(e@),
    }
}

/// Line 2 agrees with its model.
spec fn agrees_l2(r: Result<Line2View, TleError>, m: Result<Line2View, TleErrorView>) -> bool {
    match r {
        Ok(t) => m == Ok::<Line2View, TleErrorView>(t),
        Err(e) => m == Err::<Line2View, TleErrorView>(e@),
    }
}

/// Field `lo..hi` of a valid UTF-8 line is valid UTF-8.
proof fn lemma_col_valid(b: Seq<u8>, lo: int, hi: int)
    requires
        valid_utf8(b),
        0 <= lo <= hi <= b.len(),
        sliceable(b, lo, hi),
    ensures
        valid_utf8(col(b, lo, hi)),
{
    lemma_valid_utf8_range(b, lo, hi);
}

fn read_line1(b: &[u8]) -> (r: Result<Line1, TleError>)
    requires
        b@.len() == 69,
        valid_utf8(b@),
        line1_spec(b@) is Some,
    ensures
        agrees_l1(r, line1_spec(b@).unwrap()),
{
    let ghost s = b@;
    let norad = match SatelliteNumber::parse_bytes(b, 2, 7) {
        Some(n) => n,
        None => {
            proof {
                lemma_col_valid(s, 2, 7);
            }
            return Err(TleError::InvalidAlpha5 { raw: string_of_range(b, 2, 7) });
        },
    };
    let classification = Classification::from_char(b[7] as char)?;
    let (di, dj) = trim_at(b, 9, 17);
    proof {
        lemma_col_valid(s, 9, 17);
        lemma_trim_valid(col(s, 9, 17));
        lemma_col_valid(s, 18, 20);
    }
    let designator = string_of_range(b, di, dj);
    let epoch_year = parse_int_field(b, 18, 20, "epoch_year")?;
    proof {
        lemma_col_valid(s, 20, 32);
    }
    let epoch_day = parse_float_field(b, 20, 32, "epoch_day")?;
    proof {
        lemma_col_valid(s, 33, 43);
    }
    let ndot = parse_float_field(b, 33, 43, "mean_motion_dot")?;
    proof {
        lemma_col_valid(s, 44, 52);
    }
    let nddot = parse_assumed_decimal_field(b, 44, 52, "mean_motion_ddot")?;
    proof {
        lemma_col_valid(s, 53, 61);
    }
    let bstar = parse_assumed_decimal_field(b, 53, 61, "bstar")?;
    let ei = trim_start_at(b, 64, 68);
    proof {
        lemma_col_valid(s, 64, 68);
        crate::text::lemma_trim_start_valid(col(s, 64, 68));
    }
    let elset = parse_int_field(b, ei, 68, "element_set_number")?;
    Ok(
        Line1 {
            norad_id: norad,
            classification,
            international_designator: designator,
            epoch_year,
            epoch_day,
            mean_motion_dot: ndot,
            mean_motion_ddot: nddot,
            bstar,
            element_set_number: elset as u16,
        },
    )
}

fn read_line2(b: &[u8], n1: SatelliteNumber) -> (r: Result<Line2View, TleError>)
    requires
        b@.len() == 69,
        valid_utf8(b@),
        line2_spec(b@, n1.0) is Some,
    ensures
        agrees_l2(r, line2_spec(b@, n1.0).unwrap()),
{
    let ghost s = b@;
    let n2 = match SatelliteNumber::parse_bytes(b, 2, 7) {
        Some(n) => n,
        None => {
            proof {
                lemma_col_valid(s, 2, 7);
            }
            return Err(TleError::InvalidAlpha5 { raw: string_of_range(b, 2, 7) });
        },
    };
    if n1.0 != n2.0 {
        return Err(TleError::MismatchedSatelliteNumber { l1: n1.0, l2: n2.0 });
    }
    proof {
        lemma_col_valid(s, 8, 16);
    }
    let inc = parse_float_field(b, 8, 16, "inclination")?;
    proof {
        lemma_col_valid(s, 17, 25);
    }
    let raan = parse_float_field(b, 17, 25, "raan")?;
    proof {
        lemma_col_valid(s, 26, 33);
    }
    let ecc = parse_eccentricity_field(b, 26, 33)?;
    proof {
        lemma_col_valid(s, 34, 42);
    }
    let argp = parse_float_field(b, 34, 42, "argument_of_perigee")?;
    proof {
        lemma_col_valid(s, 43, 51);
    }
    let ma = parse_float_field(b, 43, 51, "mean_anomaly")?;
    proof {
        lemma_col_valid(s, 52, 63);
    }
    let mm = parse_float_field(b, 52, 63, "mean_motion")?;
    let ri = trim_start_at(b, 63, 68);
    proof {
        lemma_col_valid(s, 63, 68);
        crate::text::lemma_trim_start_valid(col(s, 63, 68));
    }
    let rev = parse_int_field(b, ri, 68, "revolution_number")?;
    Ok(
        Line2View {
            inclination: inc,
            raan,
            eccentricity: ecc,
            argument_of_perigee: argp,
            mean_anomaly: ma,
            mean_motion: mm,
            revolution_number_at_epoch: rev as u32,
        },
    )
}


/// Trimming never lengthens.
proof fn lemma_trim_start_len(s: Seq<u8>)
    ensures
        trim_start(s).len() <= s.len(),
    decreases s.len(),
{
    let k = crate::text::ws_prefix_len(s);
    if k > 0 {
        lemma_trim_start_len(s.subrange(k, s.len() as int));
    }
}

/// Trimming never lengthens.
proof fn lemma_trim_end_len(s: Seq<u8>)
    ensures
        crate::text::trim_end(s).len() <= s.len(),
    decreases s.len(),
{
    let k = crate::text::ws_suffix_len(s);
    if k > 0 {
        lemma_trim_end_len(s.subrange(0, s.len() - k));
    }
}

/// An integer field of at most two bytes holds a value of at most two digits.
proof fn lemma_two_column_int(raw: Seq<u8>, field: &'static str)
    requires
        raw.len() <= 2,
        int_field(raw, field) is Ok,
    ensures
        int_field(raw, field) matches Ok(v) && -99 <= v <= 99,
{
    let t = trim(raw);
    lemma_trim_start_len(raw);
    lemma_trim_end_len(trim_start(raw));
    let u = crate::text::unsigned_part(t);
    crate::text::lemma_digits_value_bound(u);
    assert(u.len() <= 2);
    lemma_pow10_le_2(u.len());
}

proof fn lemma_pow10_le_2(n: nat)
    requires
        n <= 2,
    ensures
        pow10(n) <= 100,
{
    reveal_with_fuel(pow10, 3);
}

fn parse_tle_inner(name: Option<String>, line1: &str, line2: &str) -> (r: Result<Tle, TleError>)
    requires
        parse_lines_spec(super::opt_view(name), line1.spec_bytes(), line2.spec_bytes()) is Some,
    ensures
        agrees_tle(
            r,
            parse_lines_spec(super::opt_view(name), line1.spec_bytes(), line2.spec_bytes()).unwrap(),
        ),
{
    let b1 = line1.as_bytes();
    let b2 = line2.as_bytes();
    proof {
        encode_utf8_valid_utf8(line1@);
        encode_utf8_valid_utf8(line2@);
    }
    if b1.len() != 69 {
        return Err(TleError::BadLength { line: 1, got: b1.len() });
    }
    if b2.len() != 69 {
        return Err(TleError::BadLength { line: 2, got: b2.len() });
    }
    if b1[0] != 0x31 {
        return Err(TleError::BadLeadingChar { line: 1, expected: '1', found: b1[0] as char });
    }
    if b2[0] != 0x32 {
        return Err(TleError::BadLeadingChar { line: 2, expected: '2', found: b2[0] as char });
    }
    checksum_check_bytes(b1)?;
    checksum_check_bytes(b2)?;
    let l1 = read_line1(b1)?;
    let l2 = read_line2(b2, l1.norad_id)?;
    proof {
        lemma_two_column_int(col(b1@, 18, 20), "epoch_year");
    }
    let year = expand_two_digit_year(l1.epoch_year as i32);
    let epoch = epoch_from_year_doy(year, l1.epoch_day)?;
    Ok(
        Tle {
            name,
            norad_id: l1.norad_id,
            classification: l1.classification,
            international_designator: InternationalDesignator(l1.international_designator),
            epoch,
            mean_motion_dot: l1.mean_motion_dot,
            mean_motion_ddot: l1.mean_motion_ddot,
            bstar: l1.bstar,
            element_set_number: l1.element_set_number,
            revolution_number_at_epoch: l2.revolution_number_at_epoch,
            inclination: l2.inclination,
            raan: l2.raan,
            eccentricity: l2.eccentricity,
            argument_of_perigee: l2.argument_of_perigee,
            mean_anomaly: l2.mean_anomaly,
            mean_motion: l2.mean_motion,
        },
    )
}

/// Parse a classic two-line element set. The record has no name.
///
/// Checks, in order: both lines are 69 bytes, start with `1` and `2`,
/// and carry valid checksums; then the columns of line 1 and line 2 are
/// read, the catalogue numbers must agree, and the epoch must be a day of
/// its year.
pub fn parse_tle(line1: &str, line2: &str) -> (r: Result<Tle, TleError>)
    requires
        parse_lines_spec(None, line1.spec_bytes(), line2.spec_bytes()) is Some,
    ensures
        agrees_tle(r, parse_lines_spec(None, line1.spec_bytes(), line2.spec_bytes()).unwrap()),
{
    parse_tle_inner(None, line1, line2)
}

/// Strip one leading `"0 "` pair (the 3LE name-line marker).
pub open spec fn strip_zero_prefix(n: Seq<u8>) -> Seq<u8> {
    if n.len() >= 2 && n[0] == 0x30 && n[1] == 0x20 {
        n.subrange(2, n.len() as int)
    } else {
        n
    }
}

/// The satellite name of a 3LE name line: one leading `"0 "` marker
/// removed, then trimmed; empty names are absent.
pub open spec fn name_spec(n: Seq<u8>) -> Option<Seq<char>> {
    let t = trim(strip_zero_prefix(n));
    if t.len() == 0 {
        None
    } else {
        Some(decode_utf8(t))
    }
}

fn name_of_line(name: &str) -> (r: Option<String>)
    ensures
        super::opt_view(r) == name_spec(name.spec_bytes()),
{
    let b = name.as_bytes();
    proof {
        encode_utf8_valid_utf8(name@);
    }
    let n = b.len();
    proof {
        assert(b@.subrange(0, n as int) =~= b@);
    }
    let i: usize = if n >= 2 && b[0] == 0x30 && b[1] == 0x20 {
        proof {
            let t = b@;
            lemma_valid_utf8_drop_first(t, 1);
            let u = t.subrange(1, t.len() as int);
            lemma_valid_utf8_drop_first(u, 1);
            assert(u.subrange(1, u.len() as int) =~= b@.subrange(2, n as int));
        }
        2
    } else {
        0
    };
    proof {
        let t = b@.subrange(i as int, n as int);
        assert(strip_zero_prefix(b@) == t);
        lemma_trim_valid(t);
    }
    let (lo, hi) = trim_at(b, i, n);
    if lo == hi {
        None
    } else {
        Some(string_of_range(b, lo, hi))
    }
}

/// Parse a three-line element set (name line + classic two lines). One
/// leading `"0 "` of the name line is removed (the 3LE convention used by
/// Celestrak), the rest is trimmed, and an empty name is absent.
pub fn parse_3le(name: &str, line1: &str, line2: &str) -> (r: Result<Tle, TleError>)
    requires
        parse_lines_spec(None, line1.spec_bytes(), line2.spec_bytes()) is Some,
    ensures
        agrees_tle(
            r,
            parse_lines_spec(name_spec(name.spec_bytes()), line1.spec_bytes(), line2.spec_bytes()).unwrap(),
        ),
{
    let owned = name_of_line(name);
    proof {
        lemma_name_irrelevant_to_slicing(
            None,
            name_spec(name.spec_bytes()),
            line1.spec_bytes(),
            line2.spec_bytes(),
        );
    }
    parse_tle_inner(owned, line1, line2)
}

/// Whether the lines can be sliced does not depend on the name.
pub proof fn lemma_name_irrelevant_to_slicing(
    n1: Option<Seq<char>>,
    n2: Option<Seq<char>>,
    b1: Seq<u8>,
    b2: Seq<u8>,
)
    ensures
        parse_lines_spec(n1, b1, b2) is Some <==> parse_lines_spec(n2, b1, b2) is Some,
{
}

/// A parse outcome with the record's name replaced by `n`.
pub open spec fn named(
    r: Option<Result<TleView, TleErrorView>>,
    n: Option<Seq<char>>,
) -> Option<Result<TleView, TleErrorView>> {
    match r {
        Some(Ok(t)) => Some(Ok(TleView { name: n, ..t })),
        other => other,
    }
}

/// A three-line set reads as its two lines with the name attached: the
/// same error, or the same record with the name line's name.
pub proof fn three_line_is_two_line_with_name(n: Option<Seq<char>>, b1: Seq<u8>, b2: Seq<u8>)
    ensures
        parse_lines_spec(n, b1, b2) == named(parse_lines_spec(None, b1, b2), n),
{
}

/// The checks of a two-line set come in order: the length of line 1, then
/// of line 2, the leading digit of line 1, then of line 2, the checksum of
/// line 1, then of line 2; the first that fails gives the error.
pub proof fn parse_checks_in_order(n: Option<Seq<char>>, b1: Seq<u8>, b2: Seq<u8>)
    ensures
        b1.len() != 69 ==> parse_lines_spec(n, b1, b2) == Some(
            Err::<TleView, TleErrorView>(TleErrorView::BadLength { line: 1, got: b1.len() as usize }),
        ),
        b1.len() == 69 && b2.len() != 69 ==> parse_lines_spec(n, b1, b2) == Some(
            Err::<TleView, TleErrorView>(TleErrorView::BadLength { line: 2, got: b2.len() as usize }),
        ),
        b1.len() == 69 && b2.len() == 69 && b1[0] != 0x31 ==> parse_lines_spec(n, b1, b2) == Some(
            Err::<TleView, TleErrorView>(
                TleErrorView::BadLeadingChar { line: 1, expected: '1', found: b1[0] as char },
            ),
        ),
        b1.len() == 69 && b2.len() == 69 && b1[0] == 0x31 && b2[0] != 0x32 ==> parse_lines_spec(
            n,
            b1,
            b2,
        ) == Some(
            Err::<TleView, TleErrorView>(
                TleErrorView::BadLeadingChar { line: 2, expected: '2', found: b2[0] as char },
            ),
        ),
        b1.len() == 69 && b2.len() == 69 && b1[0] == 0x31 && b2[0] == 0x32 ==> (
        checksum_check(b1) matches Some(Err(e)) ==> parse_lines_spec(n, b1, b2) == Some(
            Err::<TleView, TleErrorView>(e),
        )),
        b1.len() == 69 && b2.len() == 69 && b1[0] == 0x31 && b2[0] == 0x32 && checksum_check(b1)
            == Some(Ok::<(), TleErrorView>(())) ==> (checksum_check(b2) matches Some(Err(e))
            ==> parse_lines_spec(n, b1, b2) == Some(Err::<TleView, TleErrorView>(e))),
{
}

/// A two-line set that parses agrees with its columns: it has no name,
/// its lines start with `1` and `2` and pass the checksum check, both
/// catalogue-number columns denote its catalogue number, and its
/// eccentricity is what the eccentricity column reads as.
pub proof fn parsed_set_agrees_with_columns(b1: Seq<u8>, b2: Seq<u8>)
    requires
        parse_lines_spec(None, b1, b2) matches Some(Ok(_)),
    ensures
        parse_lines_spec(None, b1, b2) matches Some(Ok(t)) && {
            &&& t.name is None
            &&& b1.len() == 69 && b2.len() == 69
            &&& b1[0] == 0x31 && b2[0] == 0x32
            &&& checksum_check(b1) == Some(Ok::<(), TleErrorView>(()))
            &&& checksum_check(b2) == Some(Ok::<(), TleErrorView>(()))
            &&& alpha5_value(col(b1, 2, 7)) == Some(t.norad_id.0 as nat)
            &&& alpha5_value(col(b2, 2, 7)) == Some(t.norad_id.0 as nat)
            &&& eccentricity_field(col(b2, 26, 33)) == Ok::<DecimalValue, TleErrorView>(
                t.eccentricity,
            )
            &&& sliceable(b1, 9, 17)
            &&& t.international_designator == decode_utf8(trim(col(b1, 9, 17)))
            &&& 1957 <= t.epoch.year <= 2056
        },
{
    let l1 = line1_spec(b1)->0->Ok_0;
    let n1 = alpha5_value(col(b1, 2, 7))->0;
    super::lemma_alpha5_small(col(b1, 2, 7));
    assert(l1.norad_id.0 == n1);
    assert(int_field(col(b1, 18, 20), "epoch_year") == Ok::<i64, TleErrorView>(l1.epoch_year));
    lemma_two_byte_int(col(b1, 18, 20), l1.epoch_year);
}

/// A two-byte integer column holds a value in `-9..=99`.
proof fn lemma_two_byte_int(s: Seq<u8>, v: i64)
    requires
        s.len() == 2,
        parse_i64_spec(trim(s)) == Some(v),
    ensures
        -9 <= v <= 99,
{
    let t = trim(s);
    crate::text::lemma_trim_shorter_start(s);
    crate::text::lemma_trim_shorter_end(crate::text::trim_start(s));
    let u = crate::text::unsigned_part(t);
    crate::text::lemma_digits_value_bound(u);
    if crate::text::starts_negative(t) {
        assert(u.len() <= 1);
        reveal_with_fuel(pow10, 2);
    } else {
        assert(u.len() <= 2);
        crate::decimal::lemma_pow10_mono(u.len(), 2);
        reveal_with_fuel(pow10, 3);
    }
}

} // verus!
