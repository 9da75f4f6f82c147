//! NORAD two-line / three-line element sets (TLE / 3LE): the record type,
//! its error type, the Alpha-5 catalogue numbers and the security
//! classification.
//!
//! Real-valued elements are kept as exact decimals ([`DecimalValue`]) and
//! the epoch as the year and fractional day-of-year written in the record
//! ([`TleEpoch`]).

pub mod parse;
pub mod format;
pub mod builder;
pub mod omm;
pub mod round_trip;
pub mod kvn;
pub mod kvn_read;
pub mod epoch;

pub use parse::{compute_tle_checksum, compute_checksum, parse_tle, parse_3le, validate_tle_checksum};
pub use format::format_tle;
pub use builder::TleBuilder;

use vstd::prelude::*;
use vstd::string::StringSliceAdditionalSpecFns;
use crate::decimal::DecimalValue;
use crate::text::{
    all_digits, all_digits_at, decimal_text, digits_value,
    digits_value_capped, is_digit, lemma_decimal_text, lemma_padded_digits,
    padded_digits, pow10, push_decimal, push_padded_digits, trim, trim_at,
};

verus! {

broadcast use vstd::seq::group_seq_axioms;

/// Security classification of an element set (`U`, `C` or `S`).
#[derive(Clone, Copy, Debug, PartialEq, Eq, Structural)]
pub enum Classification {
    /// `U`.
    Unclassified,
    /// `C`.
    Classified,
    /// `S`.
    Secret,
}

impl Classification {
    /// The classification a character denotes, if any.
    pub open spec fn of_char(c: char) -> Option<Classification> {
        if c == 'U' {
            Some(Classification::Unclassified)
        } else if c == 'C' {
            Some(Classification::Classified)
        } else if c == 'S' {
            Some(Classification::Secret)
        } else {
            None
        }
    }

    /// The character that denotes a classification.
    pub open spec fn char_of(self) -> char {
        match self {
            Classification::Unclassified => 'U',
            Classification::Classified => 'C',
            Classification::Secret => 'S',
        }
    }

    /// Decode the classification character; anything but `U`, `C`, `S`
    /// is rejected with [`TleError::InvalidClassification`].
    pub fn from_char(c: char) -> (r: Result<Classification, TleError>)
        ensures
            Classification::of_char(c) matches Some(k) ==> r == Ok::<Classification, TleError>(k),
            Classification::of_char(c) is None ==> r == Err::<Classification, TleError>(
                TleError::InvalidClassification { found: c },
            ),
    {
        if c == 'U' {
            Ok(Classification::Unclassified)
        } else if c == 'C' {
            Ok(Classification::Classified)
        } else if c == 'S' {
            Ok(Classification::Secret)
        } else {
            Err(TleError::InvalidClassification { found: c })
        }
    }

    /// The classification character.
    pub fn as_char(&self) -> (c: char)
        ensures
            c == self.char_of(),
    {
        match self {
            Classification::Unclassified => 'U',
            Classification::Classified => 'C',
            Classification::Secret => 'S',
        }
    }
}

/// Decoding the character of a classification gives it back, and a
/// character that decodes is the character of what it decodes to.
pub proof fn classification_round_trip(k: Classification, c: char)
    ensures
        Classification::of_char(k.char_of()) == Some(k),
        Classification::of_char(c) matches Some(j) ==> j.char_of() == c,
{
}

/// NORAD catalogue number. Numbers from 100000 to 339999 are written in
/// the five-column field in the Alpha-5 scheme: a letter (A–Z without I and
/// O, standing for 10–33) followed by four digits.
#[derive(Clone, Copy, Debug, PartialEq, Eq, Hash, Structural)]
pub struct SatelliteNumber(pub u32);

/// Value of an Alpha-5 leading letter.
pub open spec fn alpha5_letter_value(b: u8) -> Option<nat> {
    if 0x41 <= b <= 0x48 {
        Some((b - 0x41 + 10) as nat)
    } else if 0x4a <= b <= 0x4e {
        Some((b - 0x4a + 18) as nat)
    } else if 0x50 <= b <= 0x5a {
        Some((b - 0x50 + 23) as nat)
    } else {
        None
    }
}

/// Alpha-5 leading letter for a value in `10..=33`.
pub open spec fn alpha5_letter(v: nat) -> u8 {
    if v <= 17 {
        (0x41 + (v - 10)) as u8
    } else if v <= 22 {
        (0x4a + (v - 18)) as u8
    } else {
        (0x50 + (v - 23)) as u8
    }
}

/// The catalogue number an Alpha-5 field denotes. Surrounding whitespace
/// is ignored; what remains is one to five digits, or a letter followed by
/// exactly four digits.
pub open spec fn alpha5_value(s: Seq<u8>) -> Option<nat> {
    let t = trim(s);
    if t.len() == 0 || t.len() > 5 {
        None
    } else if is_digit(t[0]) {
        if all_digits(t) {
            Some(digits_value(t))
        } else {
            None
        }
    } else {
        match alpha5_letter_value(t[0]) {
            Some(v) => if t.len() == 5 && all_digits(t.subrange(1, 5)) {
                Some(v * 10000 + digits_value(t.subrange(1, 5)))
            } else {
                None
            },
            None => None,
        }
    }
}

/// An Alpha-5 field denotes a number below 340000.
pub proof fn lemma_alpha5_small(s: Seq<u8>)
    ensures
        alpha5_value(s) matches Some(v) ==> v < 340000,
{
    let t = trim(s);
    if t.len() > 0 && t.len() <= 5 {
        if is_digit(t[0]) {
            if all_digits(t) {
                crate::text::lemma_digits_value_bound(t);
                crate::decimal::lemma_pow10_mono(t.len(), 5);
                reveal_with_fuel(pow10, 6);
            }
        } else if t.len() == 5 && all_digits(t.subrange(1, 5)) {
            crate::text::lemma_digits_value_bound(t.subrange(1, 5));
            reveal_with_fuel(pow10, 5);
            if let Some(v) = alpha5_letter_value(t[0]) {
                assert(v <= 33);
            }
        }
    }
}

/// The five-column Alpha-5 rendering of a catalogue number below 340000.
pub open spec fn alpha5_text(n: nat) -> Seq<u8> {
    if n < 100000 {
        padded_digits(n, 5)
    } else {
        seq![alpha5_letter(n / 10000)] + padded_digits(n % 10000, 4)
    }
}

impl SatelliteNumber {
    /// Decode a catalogue-number field (plain digits or Alpha-5).
    /// Anything else is rejected with [`TleError::InvalidAlpha5`].
    pub fn parse(raw: &str) -> (r: Result<SatelliteNumber, TleError>)
        ensures
            alpha5_value(raw.spec_bytes()) matches Some(v) ==> (r matches Ok(n) && n.0 == v),
            alpha5_value(raw.spec_bytes()) is None ==> (r matches Err(
                TleError::InvalidAlpha5 { raw: t },
            ) && t@ == raw@),
    {
        let b = raw.as_bytes();
        let r = Self::parse_bytes(b, 0, b.len());
        proof {
            assert(b@.subrange(0, b@.len() as int) =~= b@);
        }
        match r {
            Some(n) => Ok(n),
            None => Err(TleError::InvalidAlpha5 { raw: raw.to_owned() }),
        }
    }

    /// Decode the catalogue-number field `b[lo..hi]`.
    pub fn parse_bytes(b: &[u8], lo: usize, hi: usize) -> (r: Option<SatelliteNumber>)
        requires
            lo <= hi <= b@.len(),
        ensures
            alpha5_value(b@.subrange(lo as int, hi as int)) matches Some(v) ==> (r matches Some(n)
                && n.0 == v),
            alpha5_value(b@.subrange(lo as int, hi as int)) is None ==> r is None,
    {
        let (i, j) = trim_at(b, lo, hi);
        let ghost t = b@.subrange(i as int, j as int);
        if i == j || j - i > 5 {
            return None;
        }
        if b[i] >= 0x30 && b[i] <= 0x39 {
            if all_digits_at(b, i, j) {
                proof {
                    crate::text::lemma_digits_value_bound(t);
                    reveal_with_fuel(pow10, 6);
                }
                match digits_value_capped(b, i, j, 99999) {
                    Some(v) => {
                        return Some(SatelliteNumber(v as u32));
                    },
                    None => {
                        return None;
                    },
                }
            } else {
                return None;
            }
        }
        let c = b[i];
        let v: u32 = if c >= 0x41 && c <= 0x48 {
            (c - 0x41 + 10) as u32
        } else if c >= 0x4a && c <= 0x4e {
            (c - 0x4a + 18) as u32
        } else if c >= 0x50 && c <= 0x5a {
            (c - 0x50 + 23) as u32
        } else {
            return None;
        };
        if j - i != 5 || !all_digits_at(b, i + 1, j) {
            proof {
                if j - i == 5 {
                    assert(t.subrange(1, 5) =~= b@.subrange(i + 1, j as int));
                }
            }
            return None;
        }
        proof {
            assert(t.subrange(1, 5) =~= b@.subrange(i + 1, j as int));
            crate::text::lemma_digits_value_bound(t.subrange(1, 5));
            reveal_with_fuel(pow10, 5);
        }
        match digits_value_capped(b, i + 1, j, 9999) {
            Some(d) => Some(SatelliteNumber(v * 10000 + d as u32)),
            None => None,
        }
    }

    /// Render the number in the five-column field: zero-padded digits below
    /// 100000, Alpha-5 up to 339999. Larger numbers cannot be written and
    /// give [`TleError::InvalidAlpha5`] carrying the decimal numeral.
    pub fn format_alpha5(&self) -> (r: Result<String, TleError>)
        ensures
            self.0 < 340000 ==> (r matches Ok(s) && s@ == crate::text::ascii_chars(
                alpha5_text(self.0 as nat),
            )),
            self.0 >= 340000 ==> (r matches Err(TleError::InvalidAlpha5 { raw: t }) && t@
                == crate::text::ascii_chars(decimal_text(self.0 as nat))),
    {
        let mut out: Vec<u8> = Vec::new();
        let n = self.0;
        if n >= 340000 {
            push_decimal(&mut out, n as u64);
            proof {
                lemma_decimal_text(n as nat);
                crate::text::lemma_digits_ascii(out@);
            }
            return Err(TleError::InvalidAlpha5 { raw: crate::text::string_of_ascii(out) });
        }
        push_alpha5(&mut out, n);
        proof {
            assert(out@ =~= alpha5_text(n as nat));
            lemma_alpha5_ascii(n as nat);
        }
        Ok(crate::text::string_of_ascii(out))
    }
}

/// The Alpha-5 rendering is ASCII.
pub proof fn lemma_alpha5_ascii(n: nat)
    requires
        n < 340000,
    ensures
        crate::text::all_ascii(alpha5_text(n)),
        alpha5_text(n).len() == 5,
{
    if n < 100000 {
        lemma_padded_digits(n, 5);
        crate::text::lemma_digits_ascii(padded_digits(n, 5));
    } else {
        let p = padded_digits(n % 10000, 4);
        lemma_padded_digits(n % 10000, 4);
        let t = alpha5_text(n);
        assert forall|k: int| 0 <= k < t.len() implies #[trigger] t[k] < 0x80 by {
            if k > 0 {
                assert(t[k] == p[k - 1]);
                assert(is_digit(p[k - 1]));
            }
        }
    }
}

/// Append the Alpha-5 rendering of a catalogue number below 340000.
pub(crate) fn push_alpha5(out: &mut Vec<u8>, n: u32)
    requires
        n < 340000,
    ensures
        final(out)@ == old(out)@ + alpha5_text(n as nat),
{
    let ghost start = out@;
    if n < 100000 {
        push_padded_digits(out, n as u64, 5);
    } else {
        let hi = n / 10000;
        let letter: u8 = if hi <= 17 {
            0x41 + (hi - 10) as u8
        } else if hi <= 22 {
            0x4a + (hi - 18) as u8
        } else {
            0x50 + (hi - 23) as u8
        };
        out.push(letter);
        push_padded_digits(out, (n % 10000) as u64, 4);
        proof {
            assert(out@ =~= start + alpha5_text(n as nat));
        }
    }
}

/// International (COSPAR) designator as written in the TLE, e.g. `98067A`.
#[derive(Clone, Debug, PartialEq, Eq)]
pub struct InternationalDesignator(pub String);

/// Epoch of an element set: the calendar year and the fractional
/// day-of-year (1.0 is 00:00 UTC on January 1st) as written.
#[derive(Clone, Copy, Debug, PartialEq, Eq, Structural)]
pub struct TleEpoch {
    /// Four-digit year.
    pub year: i32,
    /// Day of the year with its fraction.
    pub day_of_year: DecimalValue,
}

/// Why an epoch was rejected.
#[derive(Clone, Copy, Debug, PartialEq, Eq, Structural)]
pub enum EpochProblem {
    /// The day-of-year is not finite or not in `[1, 367)`.
    DayOutOfRange,
    /// The day does not exist in that year (366 in a common year).
    DateDoesNotExist,
}

/// A parsed element set.
#[derive(Clone, Debug)]
pub struct Tle {
    /// Satellite name (line 0 of a 3LE), if any.
    pub name: Option<String>,
    /// Catalogue number.
    pub norad_id: SatelliteNumber,
    /// Security classification.
    pub classification: Classification,
    /// International designator.
    pub international_designator: InternationalDesignator,
    /// Epoch.
    pub epoch: TleEpoch,
    /// First derivative of mean motion / 2 (revolutions per day²).
    pub mean_motion_dot: DecimalValue,
    /// Second derivative of mean motion / 6 (revolutions per day³).
    pub mean_motion_ddot: DecimalValue,
    /// SGP4 drag term (1 / Earth radii).
    pub bstar: DecimalValue,
    /// Element-set number.
    pub element_set_number: u16,
    /// Revolution number at epoch.
    pub revolution_number_at_epoch: u32,
    /// Inclination (degrees).
    pub inclination: DecimalValue,
    /// Right ascension of the ascending node (degrees).
    pub raan: DecimalValue,
    /// Eccentricity.
    pub eccentricity: DecimalValue,
    /// Argument of perigee (degrees).
    pub argument_of_perigee: DecimalValue,
    /// Mean anomaly (degrees).
    pub mean_anomaly: DecimalValue,
    /// Mean motion (revolutions per day).
    pub mean_motion: DecimalValue,
}

/// Errors of the element-set parsers, writers and converters.
#[derive(Clone, Debug)]
pub enum TleError {
    /// A line does not have 69 bytes.
    BadLength { line: u8, got: usize },
    /// The checksum column does not match the line.
    BadChecksum { line: u8, stated: u8, computed: u8 },
    /// A line does not start with its line number.
    BadLeadingChar { line: u8, expected: char, found: char },
    /// A catalogue-number field is not plain digits or Alpha-5.
    InvalidAlpha5 { raw: String },
    /// The classification column is not `U`, `C` or `S`.
    InvalidClassification { found: char },
    /// A numeric field does not parse.
    InvalidNumber { field: &'static str, raw: String },
    /// The two lines carry different catalogue numbers.
    MismatchedSatelliteNumber { l1: u32, l2: u32 },
    /// The epoch is not a calendar instant.
    InvalidEpoch { year: i32, day_of_year: DecimalValue, reason: EpochProblem },
    /// The epoch could not be converted to or from a time scale.
    EpochConversion(String),
    /// A builder was finalised without a mandatory field.
    BuilderMissingField(&'static str),
    /// An OMM names a mean-element theory other than SGP4.
    OmmUnsupportedTheory(String),
    /// An OMM lacks a mandatory keyword.
    OmmMissingField(&'static str),
    /// An OMM value does not parse.
    OmmMalformed { format: &'static str, reason: String },
    /// An OMM JSON document does not parse.
    OmmJson(String),
    /// An OMM epoch does not parse.
    OmmInvalidEpoch { raw: String, reason: &'static str },
}

/// Decoding the Alpha-5 rendering of a representable catalogue number
/// gives the number back; numbers from 340000 up have no rendering.
pub proof fn alpha5_round_trip(n: nat)
    requires
        n < 340000,
    ensures
        alpha5_value(alpha5_text(n)) == Some(n),
{
    let t = alpha5_text(n);
    if n < 100000 {
        lemma_padded_digits(n, 5);
        reveal_with_fuel(pow10, 6);
        assert(is_digit(t[0]));
        assert(is_digit(t[4]));
        assert(pow10(5) == 100000);
        assert(n % 100000 == n);
        assert(digits_value(t) == n % pow10(5));
        crate::text::lemma_trim_no_ws(t);
    } else {
        let p = padded_digits(n % 10000, 4);
        lemma_padded_digits(n % 10000, 4);
        reveal_with_fuel(pow10, 5);
        assert(t.subrange(1, 5) =~= p);
        assert(t[4] == p[3]);
        assert(is_digit(p[3]));
        let v = n / 10000;
        assert(10 <= v <= 33);
        assert(alpha5_letter_value(alpha5_letter(v)) == Some(v));
        assert(!is_digit(t[0]));
        assert(pow10(4) == 10000);
        assert(digits_value(p) == n % 10000);
        assert(v * 10000 + n % 10000 == n) by {
            vstd::arithmetic::div_mod::lemma_fundamental_div_mod(n as int, 10000);
        }
        crate::text::lemma_trim_no_ws(t);
    }
}


/// Mathematical model of a [`Tle`]: strings as character sequences.
pub struct TleView {
    pub name: Option<Seq<char>>,
    pub norad_id: SatelliteNumber,
    pub classification: Classification,
    pub international_designator: Seq<char>,
    pub epoch: TleEpoch,
    pub mean_motion_dot: DecimalValue,
    pub mean_motion_ddot: DecimalValue,
    pub bstar: DecimalValue,
    pub element_set_number: u16,
    pub revolution_number_at_epoch: u32,
    pub inclination: DecimalValue,
    pub raan: DecimalValue,
    pub eccentricity: DecimalValue,
    pub argument_of_perigee: DecimalValue,
    pub mean_anomaly: DecimalValue,
    pub mean_motion: DecimalValue,
}

/// The characters of an optional string.
pub open spec fn opt_view(s: Option<String>) -> Option<Seq<char>> {
    match s {
        Some(t) => Some(t@),
        None => None,
    }
}

impl View for Tle {
    type V = TleView;

    open spec fn view(&self) -> TleView {
        TleView {
            name: opt_view(self.name),
            norad_id: self.norad_id,
            classification: self.classification,
            international_designator: self.international_designator.0@,
            epoch: self.epoch,
            mean_motion_dot: self.mean_motion_dot,
            mean_motion_ddot: self.mean_motion_ddot,
            bstar: self.bstar,
            element_set_number: self.element_set_number,
            revolution_number_at_epoch: self.revolution_number_at_epoch,
            inclination: self.inclination,
            raan: self.raan,
            eccentricity: self.eccentricity,
            argument_of_perigee: self.argument_of_perigee,
            mean_anomaly: self.mean_anomaly,
            mean_motion: self.mean_motion,
        }
    }
}

/// Mathematical model of a [`TleError`]: strings as character sequences.
pub enum TleErrorView {
    BadLength { line: u8, got: usize },
    BadChecksum { line: u8, stated: u8, computed: u8 },
    BadLeadingChar { line: u8, expected: char, found: char },
    InvalidAlpha5 { raw: Seq<char> },
    InvalidClassification { found: char },
    InvalidNumber { field: &'static str, raw: Seq<char> },
    MismatchedSatelliteNumber { l1: u32, l2: u32 },
    InvalidEpoch { year: i32, day_of_year: DecimalValue, reason: EpochProblem },
    EpochConversion(Seq<char>),
    BuilderMissingField(&'static str),
    OmmUnsupportedTheory(Seq<char>),
    OmmMissingField(&'static str),
    OmmMalformed { format: &'static str, reason: Seq<char> },
    OmmJson(Seq<char>),
    OmmInvalidEpoch { raw: Seq<char>, reason: &'static str },
}

impl View for TleError {
    type V = TleErrorView;

    open spec fn view(&self) -> TleErrorView {
        match *self {
            TleError::BadLength { line, got } => TleErrorView::BadLength { line, got },
            TleError::BadChecksum { line, stated, computed } => TleErrorView::BadChecksum {
                line,
                stated,
                computed,
            },
            TleError::BadLeadingChar { line, expected, found } => TleErrorView::BadLeadingChar {
                line,
                expected,
                found,
            },
            TleError::InvalidAlpha5 { raw } => TleErrorView::InvalidAlpha5 { raw: raw@ },
            TleError::InvalidClassification { found } => TleErrorView::InvalidClassification {
                found,
            },
            TleError::InvalidNumber { field, raw } => TleErrorView::InvalidNumber {
                field,
                raw: raw@,
            },
            TleError::MismatchedSatelliteNumber { l1, l2 } =>
                TleErrorView::MismatchedSatelliteNumber { l1, l2 },
            TleError::InvalidEpoch { year, day_of_year, reason } => TleErrorView::InvalidEpoch {
                year,
                day_of_year,
                reason,
            },
            TleError::EpochConversion(m) => TleErrorView::EpochConversion(m@),
            TleError::BuilderMissingField(f) => TleErrorView::BuilderMissingField(f),
            TleError::OmmUnsupportedTheory(t) => TleErrorView::OmmUnsupportedTheory(t@),
            TleError::OmmMissingField(f) => TleErrorView::OmmMissingField(f),
            TleError::OmmMalformed { format, reason } => TleErrorView::OmmMalformed {
                format,
                reason: reason@,
            },
            TleError::OmmJson(m) => TleErrorView::OmmJson(m@),
            TleError::OmmInvalidEpoch { raw, reason } => TleErrorView::OmmInvalidEpoch {
                raw: raw@,
                reason,
            },
        }
    }
}

/// A result with a [`TleError`] agrees with a modelled result.
pub open spec fn agrees<T>(r: Result<T, TleError>, m: Result<T, TleErrorView>) -> bool {
    match r {
        Ok(v) => m == Ok::<T, TleErrorView>(v),
        Err(e) => m == Err::<T, TleErrorView>(e@),
    }
}

} // verus!
