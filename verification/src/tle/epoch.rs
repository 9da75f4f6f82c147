//! The calendar instant of an element-set epoch and its ISO-8601 text
//! `YYYY-MM-DDTHH:MM:SS.ffffff`, as OMM messages write it.
//!
//! The day-of-year's fraction becomes nanoseconds of the day, rounded half
//! away from zero; a fraction that rounds to a whole day moves the instant
//! to the next midnight. The text keeps whole microseconds (the
//! nanoseconds are truncated).
//!
//! Reading the ISO-8601 epoch of an OMM message goes the other way: the
//! text is cut to its date and time, and chrono's `NaiveDateTime` parser
//! reads that into a calendar instant ([`IsoInstant`]).

use vstd::prelude::*;
use crate::decimal::{day_of_year_int, pow10_u128, DecimalValue};
use crate::text::{
    all_ascii, all_digits, ascii_chars, decimal_text, lemma_decimal_text, lemma_digits_ascii,
    lemma_padded_digits, padded_digits, pow10, push_decimal, push_padded_digits,
};
use chrono::format::ParseErrorKind;
use chrono::{Datelike, Timelike};
use vstd::string::StringSliceAdditionalSpecFns;
use vstd::utf8::{decode_utf8, encode_utf8, encode_utf8_valid_utf8};
use super::kvn::{first_of, first_of_at, lemma_first_of_bounds};
use crate::text::{lemma_trim_valid, lemma_valid_utf8_range, string_of_range, trim, trim_at};
use super::parse::{chrono_year_in_range, days_in_year, epoch_check, epoch_from_year_doy, is_leap_year};
use super::{TleEpoch, TleError, TleErrorView};

verus! {

broadcast use vstd::seq::group_seq_axioms;

/// Days in month `m` (1 to 12).
pub open spec fn month_len(leap: bool, m: nat) -> nat {
    if m == 2 {
        if leap {
            29
        } else {
            28
        }
    } else if m == 4 || m == 6 || m == 9 || m == 11 {
        30
    } else {
        31
    }
}

/// Days of the year before month `m` begins.
pub open spec fn days_before(leap: bool, m: nat) -> nat
    decreases m,
{
    if m <= 1 {
        0
    } else {
        days_before(leap, (m - 1) as nat) + month_len(leap, (m - 1) as nat)
    }
}

/// The month, from `m` on, in which day `ordinal` of the year falls.
pub open spec fn month_from(leap: bool, ordinal: nat, m: nat) -> nat
    decreases 12 - m,
{
    if m >= 12 || ordinal <= days_before(leap, m) + month_len(leap, m) {
        m
    } else {
        month_from(leap, ordinal, m + 1)
    }
}

/// The month of day `ordinal` of a year.
pub open spec fn month_of(leap: bool, ordinal: nat) -> nat {
    month_from(leap, ordinal, 1)
}

/// The day of the month of day `ordinal` of a year.
pub open spec fn day_of_month(leap: bool, ordinal: nat) -> nat {
    (ordinal - days_before(leap, month_of(leap, ordinal))) as nat
}

proof fn lemma_month_from(leap: bool, ordinal: nat, m: nat)
    requires
        1 <= m <= 12,
        1 <= ordinal <= (if leap { 366nat } else { 365nat }),
        days_before(leap, m) < ordinal,
    ensures
        m <= month_from(leap, ordinal, m) <= 12,
        days_before(leap, month_from(leap, ordinal, m)) < ordinal <= days_before(
            leap,
            month_from(leap, ordinal, m),
        ) + month_len(leap, month_from(leap, ordinal, m)),
    decreases 12 - m,
{
    reveal_with_fuel(days_before, 13);
    if !(m >= 12 || ordinal <= days_before(leap, m) + month_len(leap, m)) {
        lemma_month_from(leap, ordinal, m + 1);
    }
}

/// The month and day of a day of the year: the month is `1..=12`, the day
/// lies in the month, and the days before the month plus the day give the
/// day of the year back.
pub proof fn month_and_day_of_ordinal(leap: bool, ordinal: nat)
    requires
        1 <= ordinal <= (if leap { 366nat } else { 365nat }),
    ensures
        1 <= month_of(leap, ordinal) <= 12,
        1 <= day_of_month(leap, ordinal) <= month_len(leap, month_of(leap, ordinal)),
        days_before(leap, month_of(leap, ordinal)) + day_of_month(leap, ordinal) == ordinal,
{
    lemma_month_from(leap, ordinal, 1);
}

/// Calls `chrono::NaiveDate::from_yo_opt` and reads the month and day of
/// the date it gives (`Datelike::month`, `Datelike::day`). For a year in
/// `NaiveDate`'s range and a day of that year the date exists, and its month
/// and day are those of the proleptic Gregorian calendar, as [`month_of`]
/// and [`day_of_month`] count them.
#[verifier::external_body]
fn calendar_month_day(year: i32, ordinal: u32) -> (r: (u32, u32))
    requires
        chrono_year_in_range(year as int),
        1 <= ordinal <= days_in_year(year as int),
    ensures
        r.0 as nat == month_of(is_leap_year(year as int), ordinal as nat),
        r.1 as nat == day_of_month(is_leap_year(year as int), ordinal as nat),
{
    let date = chrono::NaiveDate::from_yo_opt(year, ordinal).unwrap_or_default();
    (date.month(), date.day())
}

/// Nanoseconds in a day.
pub open spec fn nanos_per_day() -> nat {
    86_400_000_000_000
}

/// The fraction of a day-of-year as nanoseconds of the day, rounded half
/// away from zero.
pub open spec fn day_nanos(d: DecimalValue) -> nat {
    match d {
        DecimalValue::Finite { mantissa, exponent, .. } => if exponent >= 0 {
            0
        } else {
            let p = pow10((-exponent) as nat);
            let num = (mantissa as nat % p) * nanos_per_day();
            num / p + (if 2 * (num % p) >= p {
                1nat
            } else {
                0nat
            })
        },
        _ => 0,
    }
}

/// The instant of a calendar epoch as year, day of the year and
/// nanoseconds of the day; a fraction rounded up to a whole day is the
/// next midnight.
pub open spec fn instant(e: TleEpoch) -> (int, nat, nat) {
    let ord = day_of_year_int(e.day_of_year).unwrap();
    let ns = day_nanos(e.day_of_year);
    if ns < nanos_per_day() {
        (e.year as int, ord, ns)
    } else if ord < days_in_year(e.year as int) {
        (e.year as int, ord + 1, 0)
    } else {
        (e.year + 1, 1, 0)
    }
}

/// A year as `{:04}` writes it: zero-padded to four columns, a minus sign
/// counting as one.
pub open spec fn year_text(y: int) -> Seq<u8> {
    if y < 0 {
        seq![0x2du8] + crate::render::pad_left(decimal_text((-y) as nat), 3, 0x30)
    } else {
        crate::render::pad_left(decimal_text(y as nat), 4, 0x30)
    }
}

/// The ISO-8601 text of an instant given as year, day of the year and
/// nanoseconds of the day, with microseconds.
pub open spec fn instant_text(y: int, ord: nat, ns: nat) -> Seq<u8> {
    let leap = is_leap_year(y);
    let secs = ns / 1_000_000_000;
    year_text(y) + seq![0x2du8] + padded_digits(month_of(leap, ord), 2) + seq![0x2du8]
        + padded_digits(day_of_month(leap, ord), 2) + seq![0x54u8] + padded_digits(secs / 3600, 2)
        + seq![0x3au8] + padded_digits((secs % 3600) / 60, 2) + seq![0x3au8] + padded_digits(
        secs % 60,
        2,
    ) + seq![0x2eu8] + padded_digits((ns % 1_000_000_000) / 1000, 6)
}

/// An epoch is a calendar instant whose year (after a rounded-up day rolls
/// over) a chrono date still holds.
pub open spec fn epoch_renders(e: TleEpoch) -> bool {
    epoch_check(e.year, e.day_of_year) is Ok && chrono_year_in_range(instant(e).0)
}

/// The ISO-8601 text of an epoch with microseconds.
pub open spec fn epoch_text(e: TleEpoch) -> Seq<u8> {
    instant_text(instant(e).0, instant(e).1, instant(e).2)
}

/// Nanoseconds of the day of a checked epoch's fraction.
fn nanos_of_day(d: DecimalValue, ord: u32) -> (ns: u64)
    requires
        day_of_year_int(d) == Some(ord as nat),
    ensures
        ns as nat == day_nanos(d),
        ns as nat <= nanos_per_day(),
{
    match d {
        DecimalValue::Finite { negative, mantissa, exponent } => {
            if exponent >= 0 {
                return 0;
            }
            proof {
                let q = pow10((-exponent) as nat);
                assert(mantissa as nat >= q);
                if -exponent > 19 {
                    crate::decimal::lemma_pow10_mono(20, (-exponent) as nat);
                    reveal_with_fuel(pow10, 21);
                    assert(false);
                }
            }
            let k = 0 - exponent;
            let p = pow10_u128(k as u32);
            proof {
                crate::text::lemma_pow10_positive(k as nat);
                crate::decimal::lemma_pow10_mono(k as nat, 19);
                reveal_with_fuel(pow10, 20);
            }
            let r = (mantissa as u128) % p;
            let num = r * 86_400_000_000_000u128;
            let mut ns = num / p;
            if 2 * (num % p) >= p {
                ns = ns + 1;
            }
            proof {
                assert(num / p <= 86_400_000_000_000) by (nonlinear_arith)
                    requires
                        r < p,
                        num == r * 86_400_000_000_000,
                        p > 0,
                ;
                assert(num / p < 86_400_000_000_000 || num % p == 0) by (nonlinear_arith)
                    requires
                        r < p,
                        num == r * 86_400_000_000_000,
                        p > 0,
                ;
            }
            ns as u64
        },
        _ => 0,
    }
}

/// Append `padded_digits(n, w)` and keep the text ASCII.
fn push_field(out: &mut Vec<u8>, n: u64, w: usize)
    requires
        all_ascii(old(out)@),
        w <= 20,
    ensures
        final(out)@ == old(out)@ + padded_digits(n as nat, w as nat),
        all_ascii(final(out)@),
{
    let ghost start = out@;
    push_padded_digits(out, n, w);
    proof {
        lemma_padded_digits(n as nat, w as nat);
        lemma_digits_ascii(padded_digits(n as nat, w as nat));
        lemma_concat_ascii(start, padded_digits(n as nat, w as nat));
    }
}

/// Append one ASCII byte.
fn push_byte(out: &mut Vec<u8>, b: u8)
    requires
        all_ascii(old(out)@),
        b < 0x80,
    ensures
        final(out)@ == old(out)@ + seq![b],
        all_ascii(final(out)@),
{
    let ghost start = out@;
    out.push(b);
    proof {
        assert(out@ =~= start + seq![b]);
        lemma_concat_ascii(start, seq![b]);
    }
}

proof fn lemma_concat_ascii(a: Seq<u8>, b: Seq<u8>)
    requires
        all_ascii(a),
        all_ascii(b),
    ensures
        all_ascii(a + b),
{
    assert forall|i: int| 0 <= i < a.len() + b.len() implies #[trigger] (a + b)[i] < 0x80 by {
        if i < a.len() {
            assert((a + b)[i] == a[i]);
        } else {
            assert((a + b)[i] == b[i - a.len()]);
        }
    }
}

/// Append the year as `{:04}` writes it.
fn push_year(out: &mut Vec<u8>, y: i32)
    requires
        all_ascii(old(out)@),
    ensures
        final(out)@ == old(out)@ + year_text(y as int),
        all_ascii(final(out)@),
{
    let ghost start = out@;
    let mut digits: Vec<u8> = Vec::new();
    let mag: u64 = if y < 0 {
        (0 - (y as i64)) as u64
    } else {
        y as u64
    };
    push_decimal(&mut digits, mag);
    proof {
        lemma_decimal_text(mag as nat);
        lemma_digits_ascii(digits@);
    }
    if y < 0 {
        push_byte(out, 0x2d);
        let ghost mid = out@;
        crate::render::push_padded_left(out, &digits, 3, 0x30);
        proof {
            let pl = crate::render::pad_left(digits@, 3, 0x30);
            assert(all_ascii(pl)) by {
                assert forall|i: int| 0 <= i < pl.len() implies #[trigger] pl[i] < 0x80 by {
                    if digits@.len() < 3 && i >= 3 - digits@.len() {
                        assert(pl[i] == digits@[i - (3 - digits@.len())]);
                    }
                }
            }
            lemma_concat_ascii(mid, pl);
            assert(out@ =~= start + year_text(y as int));
        }
    } else {
        crate::render::push_padded_left(out, &digits, 4, 0x30);
        proof {
            let pl = crate::render::pad_left(digits@, 4, 0x30);
            assert(all_ascii(pl)) by {
                assert forall|i: int| 0 <= i < pl.len() implies #[trigger] pl[i] < 0x80 by {
                    if digits@.len() < 4 && i >= 4 - digits@.len() {
                        assert(pl[i] == digits@[i - (4 - digits@.len())]);
                    }
                }
            }
            lemma_concat_ascii(start, pl);
        }
    }
}

/// The text of an instant: year, day of the year (a day of that year) and
/// nanoseconds of the day.
fn render_instant(y: i32, o: u32, n: u64) -> (out: Vec<u8>)
    requires
        chrono_year_in_range(y as int),
        1 <= o <= days_in_year(y as int),
    ensures
        out@ == instant_text(y as int, o as nat, n as nat),
        all_ascii(out@),
{
    let (month, dom) = calendar_month_day(y, o);
    proof {
        month_and_day_of_ordinal(is_leap_year(y as int), o as nat);
    }
    let secs = n / 1_000_000_000;
    let mut out: Vec<u8> = Vec::new();
    push_year(&mut out, y);
    push_byte(&mut out, 0x2d);
    push_field(&mut out, month as u64, 2);
    push_byte(&mut out, 0x2d);
    push_field(&mut out, dom as u64, 2);
    push_byte(&mut out, 0x54);
    let ghost date = out@;
    push_field(&mut out, secs / 3600, 2);
    push_byte(&mut out, 0x3a);
    push_field(&mut out, (secs % 3600) / 60, 2);
    push_byte(&mut out, 0x3a);
    push_field(&mut out, secs % 60, 2);
    push_byte(&mut out, 0x2e);
    push_field(&mut out, (n % 1_000_000_000) / 1000, 6);
    proof {
        assert(out@ =~= instant_text(y as int, o as nat, n as nat));
    }
    out
}

/// The instant of a checked epoch.
fn instant_of(e: TleEpoch) -> (r: (i32, u32, u64))
    requires
        epoch_check(e.year, e.day_of_year) is Ok,
    ensures
        (r.0 as int, r.1 as nat, r.2 as nat) == instant(e),
        1 <= r.1 <= days_in_year(r.0 as int),
{
    let ord = match crate::decimal::day_of_year_floor(e.day_of_year) {
        Some(o) => o,
        None => {
            proof {
                assert(false);
            }
            1
        },
    };
    let ns = nanos_of_day(e.day_of_year, ord);
    let leap0 = (e.year % 4 == 0) && (e.year % 100 != 0 || e.year % 400 == 0);
    proof {
        assert(leap0 == is_leap_year(e.year as int));
    }
    let days: u32 = if leap0 {
        366
    } else {
        365
    };
    if ns < 86_400_000_000_000 {
        (e.year, ord, ns)
    } else if ord < days {
        (e.year, ord + 1, 0)
    } else {
        (e.year + 1, 1, 0)
    }
}

/// The ISO-8601 text (`YYYY-MM-DDTHH:MM:SS.ffffff`) of an epoch; an epoch
/// that is not a calendar instant, or whose instant falls after the last
/// year a chrono date holds, gives [`TleError::EpochConversion`].
pub fn format_epoch(e: TleEpoch) -> (r: Result<String, TleError>)
    ensures
        epoch_renders(e) ==> (r matches Ok(s) && s@ == ascii_chars(epoch_text(e))),
        !epoch_renders(e) ==> (r matches Err(TleError::EpochConversion(m))
            && m@ == "epoch is not a calendar instant"@),
{
    if epoch_from_year_doy(e.year, e.day_of_year).is_err() {
        return Err(TleError::EpochConversion(String::from_str("epoch is not a calendar instant")));
    }
    let (y, o, n) = instant_of(e);
    if y > 262142 || y < -262143 {
        return Err(TleError::EpochConversion(String::from_str("epoch is not a calendar instant")));
    }
    let out = render_instant(y, o, n);
    Ok(crate::text::string_of_ascii(out))
}

// ---------------------------------------------------------------------------
// Reading an ISO-8601 epoch
// ---------------------------------------------------------------------------

/// A calendar instant as chrono's `NaiveDateTime` reads it: the year, the
/// day of the year, the seconds since midnight and the nanoseconds within
/// the second (at least 10^9 on a leap second).
#[derive(Clone, Copy, Debug, PartialEq, Eq, Structural)]
pub struct IsoInstant {
    pub year: i32,
    pub ordinal: u32,
    pub second_of_day: u32,
    pub nanosecond: u32,
}

/// Why chrono's parser refused a text (its `ParseErrorKind`).
#[derive(Clone, Copy, Debug, PartialEq, Eq, Structural)]
pub enum DateTimeParseError {
    OutOfRange,
    Impossible,
    NotEnough,
    Invalid,
    TooShort,
    TooLong,
    BadFormat,
    Unknown,
}

/// What `chrono::NaiveDateTime::parse_from_str(text, format)` gives: the
/// instant it reads, or the kind of its error.
pub uninterp spec fn chrono_datetime_parse(text: Seq<char>, format: Seq<char>) -> Result<
    IsoInstant,
    DateTimeParseError,
>;

/// Calls `chrono::NaiveDateTime::parse_from_str` and reads the date-time's
/// year, ordinal, seconds from midnight and nanosecond, or the kind of the
/// parse error. The contract names the result ([`chrono_datetime_parse`])
/// and states nothing more of it.
#[verifier::external_body]
fn naive_datetime_parse(text: &str, format: &str) -> (r: Result<IsoInstant, DateTimeParseError>)
    ensures
        r == chrono_datetime_parse(text@, format@),
{
    match chrono::NaiveDateTime::parse_from_str(text, format) {
        Ok(t) => Ok(IsoInstant { year: t.year(), ordinal: t.ordinal(), second_of_day: t.num_seconds_from_midnight(), nanosecond: t.nanosecond() }),
        Err(e) => Err(match e.kind() {
            ParseErrorKind::OutOfRange => DateTimeParseError::OutOfRange,
            ParseErrorKind::Impossible => DateTimeParseError::Impossible,
            ParseErrorKind::NotEnough => DateTimeParseError::NotEnough,
            ParseErrorKind::Invalid => DateTimeParseError::Invalid,
            ParseErrorKind::TooShort => DateTimeParseError::TooShort,
            ParseErrorKind::TooLong => DateTimeParseError::TooLong,
            ParseErrorKind::BadFormat => DateTimeParseError::BadFormat,
            ParseErrorKind::__Nonexhaustive => DateTimeParseError::Unknown,
        }),
    }
}

/// `s` without its trailing `Z` characters.
pub open spec fn strip_trailing_z(s: Seq<u8>) -> Seq<u8>
    decreases s.len(),
{
    if s.len() > 0 && s.last() == 0x5a {
        strip_trailing_z(s.drop_last())
    } else {
        s
    }
}

/// The date-and-time part of an epoch text: trimmed, trailing `Z`s
/// removed, and cut before the first `+` (a `+00:00` zone).
pub open spec fn epoch_date_time(raw: Seq<char>) -> Seq<u8> {
    let z = strip_trailing_z(trim(encode_utf8(raw)));
    z.subrange(0, first_of(z, 0x2b))
}

/// The reason given for an epoch chrono cannot read.
pub open spec fn epoch_reason(k: DateTimeParseError) -> &'static str {
    match k {
        DateTimeParseError::Invalid => "invalid component",
        DateTimeParseError::OutOfRange => "out of range",
        _ => "malformed ISO-8601",
    }
}

/// The instant an OMM epoch text denotes: its date-and-time part read
/// with fractional seconds (`%Y-%m-%dT%H:%M:%S%.f`), else without
/// (`%Y-%m-%dT%H:%M:%S`); when both fail, the reason of the second failure.
pub open spec fn epoch_fields_spec(raw: Seq<char>) -> Result<IsoInstant, TleErrorView> {
    let text = decode_utf8(epoch_date_time(raw));
    match chrono_datetime_parse(text, "%Y-%m-%dT%H:%M:%S%.f"@) {
        Ok(i) => Ok(i),
        Err(_) => match chrono_datetime_parse(text, "%Y-%m-%dT%H:%M:%S"@) {
            Ok(i) => Ok(i),
            Err(k) => Err(TleErrorView::OmmInvalidEpoch { raw, reason: epoch_reason(k) }),
        },
    }
}

proof fn lemma_strip_trailing_z(s: Seq<u8>)
    ensures
        strip_trailing_z(s).len() <= s.len(),
        strip_trailing_z(s) == s.subrange(0, strip_trailing_z(s).len() as int),
        strip_trailing_z(s).len() < s.len() ==> s[strip_trailing_z(s).len() as int] == 0x5a,
    decreases s.len(),
{
    if s.len() > 0 && s.last() == 0x5a {
        let t = s.drop_last();
        lemma_strip_trailing_z(t);
        let k = strip_trailing_z(t).len() as int;
        assert(t.subrange(0, k) =~= s.subrange(0, k));
        if k < t.len() {
            assert(s[k] == t[k]);
        }
    } else {
        assert(s.subrange(0, s.len() as int) =~= s);
    }
}

/// Read the instant of an OMM epoch text (ISO-8601, optional fraction,
/// optional `Z` or `+00:00`), as [`epoch_fields_spec`] states; a text chrono
/// cannot read gives [`TleError::OmmInvalidEpoch`] with the raw text.
pub fn parse_epoch_fields(raw: &str) -> (r: Result<IsoInstant, TleError>)
    ensures
        match epoch_fields_spec(raw@) {
            Ok(i) => r == Ok::<IsoInstant, TleError>(i),
            Err(e) => r matches Err(f) && f@ == e,
        },
{
    let text = date_time_text(raw);
    match naive_datetime_parse(text.as_str(), "%Y-%m-%dT%H:%M:%S%.f") {
        Ok(i) => Ok(i),
        Err(_) => match naive_datetime_parse(text.as_str(), "%Y-%m-%dT%H:%M:%S") {
            Ok(i) => Ok(i),
            Err(k) => {
                let reason = match k {
                    DateTimeParseError::Invalid => "invalid component",
                    DateTimeParseError::OutOfRange => "out of range",
                    _ => "malformed ISO-8601",
                };
                Err(TleError::OmmInvalidEpoch { raw: raw.to_owned(), reason })
            },
        },
    }
}

/// The date-and-time part of an epoch text, as [`epoch_date_time`] states.
fn date_time_text(raw: &str) -> (s: String)
    ensures
        s@ == decode_utf8(epoch_date_time(raw@)),
{
    let b = raw.as_bytes();
    let n = b.len();
    proof {
        encode_utf8_valid_utf8(raw@);
        assert(b@.subrange(0, n as int) =~= b@);
    }
    let (lo, hi) = trim_at(b, 0, n);
    let ghost l = b@.subrange(lo as int, hi as int);
    proof {
        lemma_trim_valid(b@);
    }
    let mut e = hi;
    while e > lo && b[e - 1] == 0x5a
        invariant
            lo <= e <= hi <= b@.len(),
            strip_trailing_z(l) == strip_trailing_z(b@.subrange(lo as int, e as int)),
        decreases e - lo,
    {
        proof {
            assert(b@.subrange(lo as int, e as int).drop_last() =~= b@.subrange(lo as int, e - 1));
        }
        e = e - 1;
    }
    let ghost z = b@.subrange(lo as int, e as int);
    proof {
        assert(strip_trailing_z(z) == z);
        lemma_strip_trailing_z(l);
        assert(z =~= l.subrange(0, (e - lo) as int));
        if e < hi {
            assert(l[(e - lo) as int] == 0x5a);
        }
        lemma_valid_utf8_range(l, 0, (e - lo) as int);
    }
    let p = first_of_at(b, lo, e, 0x2b);
    proof {
        lemma_first_of_bounds(z, 0x2b);
        assert(z.subrange(0, (p - lo) as int) =~= b@.subrange(lo as int, p as int));
        lemma_valid_utf8_range(z, 0, (p - lo) as int);
    }
    string_of_range(b, lo, p)
}

} // verus!
