//! CCSDS Orbit Mean-elements Message (OMM) records and their conversion
//! from and to element sets.
//!
//! The OMM `OBJECT_ID` writes the international designator as `YYYY-NNNP`
//! (e.g. `1998-067A`) where the TLE writes `YYNNNP` (`98067A`); the
//! conversion expands and contracts the launch year with the same 1957/2000
//! cut-over as the TLE epoch.

use vstd::prelude::*;
use vstd::string::StringSliceAdditionalSpecFns;
use vstd::utf8::{decode_utf8, encode_utf8, valid_utf8, encode_utf8_valid_utf8, valid_utf8_concat};
use crate::decimal::DecimalValue;
use crate::text::{
    all_ascii, all_digits, ascii_chars, decimal_text, digit_byte, digit_value, digits_value, is_digit,
    lemma_ascii_decode, lemma_trim_valid, lemma_valid_utf8_drop_first, lemma_valid_utf8_range,
    padded_digits, push_decimal, push_padded_digits, string_of_bytes, trim, trim_at, trim_end,
    trim_start, ws_suffix_len, };
use super::{
    Classification, InternationalDesignator, SatelliteNumber, Tle, TleEpoch, TleView,
};

verus! {

broadcast use vstd::seq::group_seq_axioms;

/// An OMM record.
#[derive(Clone, Debug)]
pub struct Omm {
    /// `OBJECT_NAME`.
    pub object_name: String,
    /// `OBJECT_ID`, e.g. `1998-067A`.
    pub object_id: String,
    /// `EPOCH`.
    pub epoch: TleEpoch,
    /// `MEAN_MOTION` (revolutions per day).
    pub mean_motion: DecimalValue,
    /// `ECCENTRICITY`.
    pub eccentricity: DecimalValue,
    /// `INCLINATION` (degrees).
    pub inclination: DecimalValue,
    /// `RA_OF_ASC_NODE` (degrees).
    pub ra_of_asc_node: DecimalValue,
    /// `ARG_OF_PERICENTER` (degrees).
    pub arg_of_pericenter: DecimalValue,
    /// `MEAN_ANOMALY` (degrees).
    pub mean_anomaly: DecimalValue,
    /// `EPHEMERIS_TYPE`, 0 for SGP4.
    pub ephemeris_type: u8,
    /// `CLASSIFICATION_TYPE`.
    pub classification: Classification,
    /// `NORAD_CAT_ID`.
    pub norad_id: SatelliteNumber,
    /// `ELEMENT_SET_NO`.
    pub element_set_no: u16,
    /// `REV_AT_EPOCH`.
    pub rev_at_epoch: u32,
    /// `BSTAR` (1 / Earth radii).
    pub bstar: DecimalValue,
    /// `MEAN_MOTION_DOT` (revolutions per day²).
    pub mean_motion_dot: DecimalValue,
    /// `MEAN_MOTION_DDOT` (revolutions per day³).
    pub mean_motion_ddot: DecimalValue,
}

/// Mathematical model of an [`Omm`].
pub struct OmmView {
    pub object_name: Seq<char>,
    pub object_id: Seq<char>,
    pub epoch: TleEpoch,
    pub mean_motion: DecimalValue,
    pub eccentricity: DecimalValue,
    pub inclination: DecimalValue,
    pub ra_of_asc_node: DecimalValue,
    pub arg_of_pericenter: DecimalValue,
    pub mean_anomaly: DecimalValue,
    pub ephemeris_type: u8,
    pub classification: Classification,
    pub norad_id: SatelliteNumber,
    pub element_set_no: u16,
    pub rev_at_epoch: u32,
    pub bstar: DecimalValue,
    pub mean_motion_dot: DecimalValue,
    pub mean_motion_ddot: DecimalValue,
}

impl View for Omm {
    type V = OmmView;

    open spec fn view(&self) -> OmmView {
        OmmView {
            object_name: self.object_name@,
            object_id: self.object_id@,
            epoch: self.epoch,
            mean_motion: self.mean_motion,
            eccentricity: self.eccentricity,
            inclination: self.inclination,
            ra_of_asc_node: self.ra_of_asc_node,
            arg_of_pericenter: self.arg_of_pericenter,
            mean_anomaly: self.mean_anomaly,
            ephemeris_type: self.ephemeris_type,
            classification: self.classification,
            norad_id: self.norad_id,
            element_set_no: self.element_set_no,
            rev_at_epoch: self.rev_at_epoch,
            bstar: self.bstar,
            mean_motion_dot: self.mean_motion_dot,
            mean_motion_ddot: self.mean_motion_ddot,
        }
    }
}

// ---------------------------------------------------------------------------
// Designators
// ---------------------------------------------------------------------------

/// The TLE designator has the expandable shape: after trimming, at least
/// five ASCII bytes starting with two digits.
pub open spec fn expandable(s: Seq<u8>) -> bool {
    s.len() >= 5 && all_ascii(s) && is_digit(s[0]) && is_digit(s[1])
}

/// Four-digit launch year of a two-digit one (57..99 → 19xx, else 20xx).
pub open spec fn launch_year(yy: nat) -> nat {
    if yy >= 57 {
        1900 + yy
    } else {
        2000 + yy
    }
}

/// The launch year of a two-digit year is the one year of 1957..=2056
/// that ends in those two digits: the window of the TLE epoch year.
pub proof fn launch_year_window(yy: nat)
    requires
        yy < 100,
    ensures
        1957 <= launch_year(yy) <= 2056,
        launch_year(yy) % 100 == yy,
        launch_year(yy) == super::parse::expand_year(yy as int),
{
}

/// The year an expanded designator starts with is a year of 1957..=2056
/// ending in the designator's two leading digits.
pub proof fn expanded_designator_year(field: Seq<u8>)
    requires
        expandable(trim(field)),
    ensures
        ({
            let e = expand_spec(field);
            let y = digits_value(e.subrange(0, 4));
            &&& all_digits(e.subrange(0, 4))
            &&& e[4] == 0x2d
            &&& e.len() == trim(field).len() + 3
            &&& e.subrange(5, e.len() as int) == trim(field).subrange(2, trim(field).len() as int)
            &&& 1957 <= y <= 2056
            &&& y % 100 == digits_value(trim(field).subrange(0, 2))
        }),
{
    let s = trim(field);
    let yy = digits_value(s.subrange(0, 2));
    let t = s.subrange(0, 2);
    assert(all_digits(t)) by {
        assert forall|i: int| 0 <= i < 2 implies #[trigger] is_digit(t[i]) by {
            assert(t[i] == s[i]);
        }
    }
    crate::text::lemma_digits_value_bound(t);
    reveal_with_fuel(crate::text::pow10, 3);
    assert(yy < 100);
    launch_year_window(yy);
    let p = padded_digits(launch_year(yy), 4);
    crate::text::lemma_padded_digits(launch_year(yy), 4);
    reveal_with_fuel(crate::text::pow10, 5);
    let e = expand_spec(field);
    assert(e.subrange(0, 4) =~= p);
    assert(launch_year(yy) % 10000 == launch_year(yy));
    assert(e[4] == 0x2d);
    assert(e.subrange(5, e.len() as int) =~= s.subrange(2, s.len() as int));
}

/// Contracting an OMM designator `YYYY-rest` (four digits, a dash, after
/// trimming) drops the century digits and the dash: `YY` then `rest`.
pub proof fn contracted_designator_drops_century(field: Seq<u8>)
    requires
        trim(field).len() >= 5,
        all_digits(trim(field).subrange(0, 4)),
        trim(field)[4] == 0x2d,
    ensures
        contract_spec(field) == trim(field).subrange(2, 4) + trim(field).subrange(
            5,
            trim(field).len() as int,
        ),
{
    let s = trim(field);
    assert(first_dash(s) == 4) by {
        let d = s.subrange(0, 4);
        assert(is_digit(d[0]) && is_digit(d[1]) && is_digit(d[2]) && is_digit(d[3]));
        reveal_with_fuel(first_dash, 6);
        assert(s.subrange(1, s.len() as int)[3] == s[4]);
        assert(s.subrange(1, s.len() as int).subrange(1, s.len() - 1)[2] == s[4]);
    }
}

/// `YYNNNP` → `YYYY-NNNP` (bytes); anything else is returned trimmed.
pub open spec fn expand_spec(field: Seq<u8>) -> Seq<u8> {
    let s = trim(field);
    if expandable(s) {
        padded_digits(launch_year(digits_value(s.subrange(0, 2))), 4) + seq![0x2du8] + s.subrange(
            2,
            s.len() as int,
        )
    } else {
        s
    }
}

/// Position of the first `-` in `s`, or its length.
pub open spec fn first_dash(s: Seq<u8>) -> int
    decreases s.len(),
{
    if s.len() == 0 {
        0
    } else if s[0] == 0x2d {
        0
    } else {
        1 + first_dash(s.subrange(1, s.len() as int))
    }
}

/// `YYYY-NNNP` → `YYNNNP` (bytes); anything else is returned trimmed.
pub open spec fn contract_spec(field: Seq<u8>) -> Seq<u8> {
    let s = trim(field);
    if first_dash(s) == 4 && 4 < s.len() && all_digits(s.subrange(0, 4)) {
        s.subrange(2, 4) + s.subrange(5, s.len() as int)
    } else {
        s
    }
}

/// Bytes of a valid UTF-8 sequence after an ASCII byte form valid UTF-8.
pub(crate) proof fn lemma_valid_after_ascii(s: Seq<u8>, i: int)
    requires
        valid_utf8(s),
        0 <= i < s.len(),
        s[i] < 0x80,
    ensures
        valid_utf8(s.subrange(i + 1, s.len() as int)),
{
    lemma_valid_utf8_range(s, i, s.len() as int);
    let t = s.subrange(i, s.len() as int);
    lemma_valid_utf8_drop_first(t, 1);
    assert(t.subrange(1, t.len() as int) =~= s.subrange(i + 1, s.len() as int));
}

/// Convert a TLE international designator (`98067A`) into the OMM form
/// (`1998-067A`). Text that does not have the TLE shape is returned
/// trimmed.
pub fn expand_intl_designator(field: &str) -> (r: String)
    ensures
        r@ == decode_utf8(expand_spec(field.spec_bytes())),
{
    let b = field.as_bytes();
    proof {
        encode_utf8_valid_utf8(field@);
        assert(b@.subrange(0, b@.len() as int) =~= b@);
        lemma_trim_valid(b@);
    }
    let (i, j) = trim_at(b, 0, b.len());
    let ghost s = b@.subrange(i as int, j as int);
    let mut ascii = true;
    let mut k = i;
    while k < j
        invariant
            i <= k <= j <= b@.len(),
            ascii == forall|q: int| i <= q < k ==> b@[q] < 0x80,
        decreases j - k,
    {
        if b[k] >= 0x80 {
            ascii = false;
        }
        k = k + 1;
    }
    proof {
        assert(ascii == all_ascii(s)) by {
            if ascii {
                assert forall|q: int| 0 <= q < s.len() implies #[trigger] s[q] < 0x80 by {
                    assert(s[q] == b@[i + q]);
                }
            } else {
                let q = choose|q: int| i <= q < j && !(b@[q] < 0x80);
                assert(s[q - i] == b@[q]);
            }
        }
    }
    if j - i < 5 || !ascii || !(b[i] >= 0x30 && b[i] <= 0x39) || !(b[i + 1] >= 0x30 && b[i + 1]
        <= 0x39) {
        return crate::text::string_of_range(b, i, j);
    }
    let yy = ((b[i] - 0x30) as u64) * 10 + (b[i + 1] - 0x30) as u64;
    proof {
        let t = s.subrange(0, 2);
        let t1 = s.subrange(0, 1);
        assert(t.drop_last() =~= t1);
        assert(t.last() == s[1]);
        assert(t1.drop_last() =~= Seq::<u8>::empty());
        assert(t1.last() == s[0]);
        assert(digits_value(Seq::<u8>::empty()) == 0);
        assert(digits_value(t1) == digit_value(s[0]));
        assert(digits_value(t) == digit_value(s[0]) * 10 + digit_value(s[1]));
        assert(s[0] == b@[i as int] && s[1] == b@[i + 1]);
        assert(digits_value(t) == yy);
    }
    let yyyy: u64 = if yy >= 57 {
        1900 + yy
    } else {
        2000 + yy
    };
    let mut out: Vec<u8> = Vec::new();
    push_padded_digits(&mut out, yyyy, 4);
    out.push(0x2d);
    let mut q = i + 2;
    while q < j
        invariant
            i + 2 <= q <= j <= b@.len(),
            out@ == padded_digits(yyyy as nat, 4) + seq![0x2du8] + b@.subrange(i + 2, q as int),
        decreases j - q,
    {
        out.push(b[q]);
        proof {
            assert(out@ =~= padded_digits(yyyy as nat, 4) + seq![0x2du8] + b@.subrange(
                i + 2,
                q + 1,
            ));
        }
        q = q + 1;
    }
    proof {
        assert(s.subrange(2, s.len() as int) =~= b@.subrange(i + 2, j as int));
        assert(out@ =~= expand_spec(field.spec_bytes()));
        crate::text::lemma_padded_digits(yyyy as nat, 4);
        crate::text::lemma_digits_ascii(padded_digits(yyyy as nat, 4));
        assert(all_ascii(out@)) by {
            assert forall|k: int| 0 <= k < out@.len() implies #[trigger] out@[k] < 0x80 by {
                if k < 4 {
                    assert(out@[k] == padded_digits(yyyy as nat, 4)[k]);
                } else if k > 4 {
                    assert(out@[k] == s[k - 5 + 2]);
                }
            }
        }
        lemma_ascii_decode(out@);
    }
    string_of_bytes(out)
}

/// Position of the first `-` in `b[lo..hi]`, as an index into `b`.
fn first_dash_at(b: &[u8], lo: usize, hi: usize) -> (p: usize)
    requires
        lo <= hi <= b@.len(),
    ensures
        lo <= p <= hi,
        p - lo == first_dash(b@.subrange(lo as int, hi as int)),
        p < hi ==> b@[p as int] == 0x2d,
{
    let mut i = lo;
    while i < hi
        invariant
            lo <= i <= hi <= b@.len(),
            first_dash(b@.subrange(lo as int, hi as int)) == (i - lo) + first_dash(
                b@.subrange(i as int, hi as int),
            ),
        ensures
            lo <= i <= hi,
            first_dash(b@.subrange(lo as int, hi as int)) == (i - lo) + first_dash(
                b@.subrange(i as int, hi as int),
            ),
            i < hi ==> b@[i as int] == 0x2d,
        decreases hi - i,
    {
        if b[i] == 0x2d {
            break ;
        }
        proof {
            let t = b@.subrange(i as int, hi as int);
            assert(t.subrange(1, t.len() as int) =~= b@.subrange(i + 1, hi as int));
        }
        i = i + 1;
    }
    i
}

/// Convert an OMM `OBJECT_ID` (`1998-067A`) back into the TLE form
/// (`98067A`). Text that does not have the OMM shape is returned trimmed.
pub fn contract_intl_designator(field: &str) -> (r: String)
    ensures
        r@ == decode_utf8(contract_spec(field.spec_bytes())),
{
    let b = field.as_bytes();
    proof {
        encode_utf8_valid_utf8(field@);
        assert(b@.subrange(0, b@.len() as int) =~= b@);
        lemma_trim_valid(b@);
    }
    let (i, j) = trim_at(b, 0, b.len());
    let ghost s = b@.subrange(i as int, j as int);
    let d = first_dash_at(b, i, j);
    proof {
        if d - i == 4 {
            assert(s.subrange(0, 4) =~= b@.subrange(i as int, d as int));
        }
    }
    if d - i == 4 && d < j && crate::text::all_digits_at(b, i, d) {
        let mut out: Vec<u8> = Vec::new();
        out.push(b[i + 2]);
        out.push(b[i + 3]);
        let mut q = d + 1;
        while q < j
            invariant
                d + 1 <= q <= j <= b@.len(),
                out@ == b@.subrange(i + 2, i + 4) + b@.subrange(d + 1, q as int),
            decreases j - q,
        {
            out.push(b[q]);
            proof {
                assert(out@ =~= b@.subrange(i + 2, i + 4) + b@.subrange(d + 1, q + 1));
            }
            q = q + 1;
        }
        proof {
            assert(s.subrange(0, 4) =~= b@.subrange(i as int, d as int));
            assert(s.subrange(2, 4) =~= b@.subrange(i + 2, i + 4));
            assert(s.subrange(5, s.len() as int) =~= b@.subrange(d + 1, j as int));
            assert(out@ =~= contract_spec(field.spec_bytes()));
            let two = s.subrange(2, 4);
            assert(all_ascii(two)) by {
                assert forall|k: int| 0 <= k < two.len() implies #[trigger] two[k] < 0x80 by {
                    assert(two[k] == s.subrange(0, 4)[k + 2]);
                    assert(is_digit(s.subrange(0, 4)[k + 2]));
                }
            }
            lemma_ascii_decode(two);
            lemma_valid_after_ascii(s, 4);
            valid_utf8_concat(two, s.subrange(5, s.len() as int));
        }
        return string_of_bytes(out);
    }
    crate::text::string_of_range(b, i, j)
}

/// What `trim_end` leaves does not end in whitespace.
proof fn lemma_trim_end_no_suffix(s: Seq<u8>)
    ensures
        ws_suffix_len(trim_end(s)) == 0,
    decreases s.len(),
{
    let k = ws_suffix_len(s);
    if k > 0 {
        lemma_trim_end_no_suffix(s.subrange(0, s.len() - k));
    }
}

/// The first dash sits at `k` when `s[k]` is one and none comes before it.
proof fn lemma_first_dash_at(s: Seq<u8>, k: int)
    requires
        0 <= k < s.len(),
        s[k] == 0x2d,
        forall|i: int| 0 <= i < k ==> s[i] != 0x2d,
    ensures
        first_dash(s) == k,
    decreases k,
{
    if k > 0 {
        let t = s.subrange(1, s.len() as int);
        assert(s[0] != 0x2d);
        assert forall|i: int| 0 <= i < k - 1 implies t[i] != 0x2d by {
            assert(t[i] == s[i + 1]);
        }
        lemma_first_dash_at(t, k - 1);
    }
}

/// Byte-level round trip: contracting an expanded designator gives back
/// the trimmed field.
proof fn lemma_contract_expand(field: Seq<u8>)
    requires
        expandable(trim(field)),
    ensures
        contract_spec(expand_spec(field)) == trim(field),
        all_ascii(expand_spec(field)),
{
    let s = trim(field);
    let yy = digits_value(s.subrange(0, 2));
    let t = s.subrange(0, 2);
    let t1 = s.subrange(0, 1);
    assert(t.drop_last() =~= t1);
    assert(t1.drop_last() =~= Seq::<u8>::empty());
    assert(t.last() == s[1]);
    assert(t1.last() == s[0]);
    assert(digits_value(Seq::<u8>::empty()) == 0);
    assert(digits_value(t1) == digit_value(s[0]));
    assert(yy == digit_value(s[0]) * 10 + digit_value(s[1]));
    let n = launch_year(yy);
    let p = padded_digits(n, 4);
    crate::text::lemma_padded_digits(n, 4);
    let e = p + seq![0x2du8] + s.subrange(2, s.len() as int);
    assert(e == expand_spec(field));
    // the expanded text is ASCII with a digit first and `s`'s last byte last
    assert(all_ascii(e)) by {
        crate::text::lemma_digits_ascii(p);
        assert forall|k: int| 0 <= k < e.len() implies #[trigger] e[k] < 0x80 by {
            if k < 4 {
                assert(e[k] == p[k]);
            } else if k > 4 {
                assert(e[k] == s[k - 5 + 2]);
            }
        }
    }
    lemma_trim_end_no_suffix(trim_start(field));
    let m = e.len() as int;
    assert(e[m - 1] == s[s.len() - 1]);
    assert(ws_suffix_len(e) == 0) by {
        assert(e[m - 1] < 0x80 && e[m - 2] < 0x80 && e[m - 3] < 0x80);
        assert(ws_suffix_len(s) == 0);
    }
    assert(is_digit(e[0])) by {
        assert(e[0] == p[0]);
    }
    crate::text::lemma_trim_no_ws(e);
    assert(trim(e) == e);
    assert forall|i: int| 0 <= i < 4 implies e[i] != 0x2d by {
        assert(e[i] == p[i]);
        assert(is_digit(p[i]));
    }
    lemma_first_dash_at(e, 4);
    assert(e.subrange(0, 4) =~= p);
    // the last two digits of the four-digit year are the two digits read
    reveal_with_fuel(padded_digits, 5);
    assert(p[2] == digit_byte((n / 10) % 10));
    assert(p[3] == digit_byte(n % 10));
    assert(n % 10 == yy % 10 && (n / 10) % 10 == yy / 10);
    assert(digit_byte(yy / 10) == s[0]);
    assert(digit_byte(yy % 10) == s[1]);
    assert(e.subrange(2, 4) + e.subrange(5, e.len() as int) =~= s);
}

/// `contract_intl_designator` undoes `expand_intl_designator`: on a field
/// whose trimmed text is ASCII, contracting the expanded form gives back the
/// trimmed field (fields without the TLE shape pass through both unchanged
/// but for the trimming).
pub proof fn designator_round_trip(field: Seq<char>)
    requires
        all_ascii(trim(encode_utf8(field))),
    ensures
        decode_utf8(contract_spec(encode_utf8(decode_utf8(expand_spec(encode_utf8(field))))))
            == decode_utf8(trim(encode_utf8(field))),
{
    let t = trim(encode_utf8(field));
    if expandable(t) {
        let e = expand_spec(encode_utf8(field));
        lemma_contract_expand(encode_utf8(field));
        crate::text::lemma_ascii_valid_utf8(e);
        vstd::utf8::decode_utf8_encode_utf8(e);
    } else {
        assert(expand_spec(encode_utf8(field)) == t);
        crate::text::lemma_ascii_valid_utf8(t);
        vstd::utf8::decode_utf8_encode_utf8(t);
        crate::text::lemma_trim_idempotent(encode_utf8(field));
        assert(trim(t) == t);
        if first_dash(t) == 4 && 4 < t.len() && all_digits(t.subrange(0, 4)) {
            assert(is_digit(t.subrange(0, 4)[0]));
            assert(is_digit(t.subrange(0, 4)[1]));
            assert(expandable(t));
        }
        assert(contract_spec(t) == t);
    }
}

// ---------------------------------------------------------------------------
// Conversions
// ---------------------------------------------------------------------------

/// `OBJECT_NAME` of a record: its name, or `NORAD <number>`.
pub open spec fn object_name_of(t: TleView) -> Seq<char> {
    match t.name {
        Some(n) => n,
        None => ascii_chars(seq![0x4eu8, 0x4f, 0x52, 0x41, 0x44, 0x20] + decimal_text(
            t.norad_id.0 as nat,
        )),
    }
}

/// The OMM record of an element set.
pub open spec fn omm_of_tle(t: TleView) -> OmmView {
    OmmView {
        object_name: object_name_of(t),
        object_id: decode_utf8(expand_spec(encode_utf8(t.international_designator))),
        epoch: t.epoch,
        mean_motion: t.mean_motion,
        eccentricity: t.eccentricity,
        inclination: t.inclination,
        ra_of_asc_node: t.raan,
        arg_of_pericenter: t.argument_of_perigee,
        mean_anomaly: t.mean_anomaly,
        ephemeris_type: 0,
        classification: t.classification,
        norad_id: t.norad_id,
        element_set_no: t.element_set_number,
        rev_at_epoch: t.revolution_number_at_epoch,
        bstar: t.bstar,
        mean_motion_dot: t.mean_motion_dot,
        mean_motion_ddot: t.mean_motion_ddot,
    }
}

/// The element set of an OMM record.
pub open spec fn tle_of_omm(o: OmmView) -> TleView {
    TleView {
        name: Some(o.object_name),
        norad_id: o.norad_id,
        classification: o.classification,
        international_designator: decode_utf8(contract_spec(encode_utf8(o.object_id))),
        epoch: o.epoch,
        mean_motion_dot: o.mean_motion_dot,
        mean_motion_ddot: o.mean_motion_ddot,
        bstar: o.bstar,
        element_set_number: o.element_set_no,
        revolution_number_at_epoch: o.rev_at_epoch,
        inclination: o.inclination,
        raan: o.ra_of_asc_node,
        eccentricity: o.eccentricity,
        argument_of_perigee: o.arg_of_pericenter,
        mean_anomaly: o.mean_anomaly,
        mean_motion: o.mean_motion,
    }
}

/// Converting an element set to an OMM record and back keeps every orbital
/// and catalogue field; the name becomes `OBJECT_NAME`, and a designator
/// with the TLE shape comes back trimmed.
pub proof fn omm_round_trip(t: TleView)
    ensures
        ({
            let u = tle_of_omm(omm_of_tle(t));
            &&& u.name == Some(object_name_of(t))
            &&& u.norad_id == t.norad_id
            &&& u.classification == t.classification
            &&& u.epoch == t.epoch
            &&& u.mean_motion_dot == t.mean_motion_dot
            &&& u.mean_motion_ddot == t.mean_motion_ddot
            &&& u.bstar == t.bstar
            &&& u.element_set_number == t.element_set_number
            &&& u.revolution_number_at_epoch == t.revolution_number_at_epoch
            &&& u.inclination == t.inclination
            &&& u.raan == t.raan
            &&& u.eccentricity == t.eccentricity
            &&& u.argument_of_perigee == t.argument_of_perigee
            &&& u.mean_anomaly == t.mean_anomaly
            &&& u.mean_motion == t.mean_motion
            &&& expandable(trim(encode_utf8(t.international_designator)))
                ==> u.international_designator == decode_utf8(
                trim(encode_utf8(t.international_designator)),
            )
        }),
{
    if expandable(trim(encode_utf8(t.international_designator))) {
        designator_round_trip(t.international_designator);
    }
}

/// Each element of an OMM record is the element of the same meaning in
/// the element set, both ways: the right ascension of the ascending node is
/// the TLE's RAAN, the argument of pericenter the TLE's argument of
/// perigee, and so on for every orbital, drag and catalogue field.
pub proof fn omm_fields_mean_tle_fields(t: TleView, o: OmmView)
    ensures
        ({
            let m = omm_of_tle(t);
            &&& (t.name matches Some(n) ==> m.object_name == n)
            &&& (t.name is None ==> m.object_name == "NORAD "@ + ascii_chars(
                decimal_text(t.norad_id.0 as nat),
            ))
            &&& m.epoch == t.epoch
            &&& m.mean_motion == t.mean_motion
            &&& m.eccentricity == t.eccentricity
            &&& m.inclination == t.inclination
            &&& m.ra_of_asc_node == t.raan
            &&& m.arg_of_pericenter == t.argument_of_perigee
            &&& m.mean_anomaly == t.mean_anomaly
            &&& m.classification == t.classification
            &&& m.norad_id == t.norad_id
            &&& m.element_set_no == t.element_set_number
            &&& m.rev_at_epoch == t.revolution_number_at_epoch
            &&& m.bstar == t.bstar
            &&& m.mean_motion_dot == t.mean_motion_dot
            &&& m.mean_motion_ddot == t.mean_motion_ddot
        }),
        ({
            let u = tle_of_omm(o);
            &&& u.name == Some(o.object_name)
            &&& u.epoch == o.epoch
            &&& u.mean_motion == o.mean_motion
            &&& u.eccentricity == o.eccentricity
            &&& u.inclination == o.inclination
            &&& u.raan == o.ra_of_asc_node
            &&& u.argument_of_perigee == o.arg_of_pericenter
            &&& u.mean_anomaly == o.mean_anomaly
            &&& u.classification == o.classification
            &&& u.norad_id == o.norad_id
            &&& u.element_set_number == o.element_set_no
            &&& u.revolution_number_at_epoch == o.rev_at_epoch
            &&& u.bstar == o.bstar
            &&& u.mean_motion_dot == o.mean_motion_dot
            &&& u.mean_motion_ddot == o.mean_motion_ddot
        }),
{
    reveal_strlit("NORAD ");
    if t.name is None {
        let d = decimal_text(t.norad_id.0 as nat);
        assert(ascii_chars(seq![0x4eu8, 0x4f, 0x52, 0x41, 0x44, 0x20] + d) =~= "NORAD "@
            + ascii_chars(d));
    }
}

impl Omm {
    /// Build an OMM record from an element set. `OBJECT_NAME` falls back to
    /// `NORAD <number>` when the element set has no name; `OBJECT_ID` is
    /// the expanded designator.
    pub fn from_tle(tle: &Tle) -> (o: Omm)
        ensures
            o@ == omm_of_tle(tle@),
            o.epoch == tle.epoch,
            o.mean_motion == tle.mean_motion,
            o.eccentricity == tle.eccentricity,
            o.inclination == tle.inclination,
            o.ra_of_asc_node == tle.raan,
            o.arg_of_pericenter == tle.argument_of_perigee,
            o.mean_anomaly == tle.mean_anomaly,
            o.ephemeris_type == 0,
            o.classification == tle.classification,
            o.norad_id == tle.norad_id,
            o.element_set_no == tle.element_set_number,
            o.rev_at_epoch == tle.revolution_number_at_epoch,
            o.bstar == tle.bstar,
            o.mean_motion_dot == tle.mean_motion_dot,
            o.mean_motion_ddot == tle.mean_motion_ddot,
    {
        let object_name = match &tle.name {
            Some(n) => n.clone(),
            None => {
                let mut v: Vec<u8> = Vec::new();
                v.push(0x4e);
                v.push(0x4f);
                v.push(0x52);
                v.push(0x41);
                v.push(0x44);
                v.push(0x20);
                push_decimal(&mut v, tle.norad_id.0 as u64);
                proof {
                    let d = decimal_text(tle.norad_id.0 as nat);
                    crate::text::lemma_decimal_text(tle.norad_id.0 as nat);
                    crate::text::lemma_digits_ascii(d);
                    assert(all_ascii(v@)) by {
                        assert forall|k: int| 0 <= k < v@.len() implies #[trigger] v@[k] < 0x80 by {
                            if k >= 6 {
                                assert(v@[k] == d[k - 6]);
                            }
                        }
                    }
                }
                proof {
                    assert(v@ =~= seq![0x4eu8, 0x4f, 0x52, 0x41, 0x44, 0x20] + decimal_text(
                        tle.norad_id.0 as nat,
                    ));
                }
                crate::text::string_of_ascii(v)
            },
        };
        let object_id = expand_intl_designator(tle.international_designator.0.as_str());
        Omm {
            object_name,
            object_id,
            epoch: tle.epoch,
            mean_motion: tle.mean_motion,
            eccentricity: tle.eccentricity,
            inclination: tle.inclination,
            ra_of_asc_node: tle.raan,
            arg_of_pericenter: tle.argument_of_perigee,
            mean_anomaly: tle.mean_anomaly,
            ephemeris_type: 0,
            classification: tle.classification,
            norad_id: tle.norad_id,
            element_set_no: tle.element_set_number,
            rev_at_epoch: tle.revolution_number_at_epoch,
            bstar: tle.bstar,
            mean_motion_dot: tle.mean_motion_dot,
            mean_motion_ddot: tle.mean_motion_ddot,
        }
    }

    /// Convert the record into an element set named after `OBJECT_NAME`,
    /// with the designator contracted back to the TLE form.
    pub fn to_tle(&self) -> (t: Tle)
        ensures
            t@ == tle_of_omm(self@),
            t.name == Some(self.object_name),
            t.epoch == self.epoch,
            t.mean_motion == self.mean_motion,
            t.eccentricity == self.eccentricity,
            t.inclination == self.inclination,
            t.raan == self.ra_of_asc_node,
            t.argument_of_perigee == self.arg_of_pericenter,
            t.mean_anomaly == self.mean_anomaly,
            t.classification == self.classification,
            t.norad_id == self.norad_id,
            t.element_set_number == self.element_set_no,
            t.revolution_number_at_epoch == self.rev_at_epoch,
            t.bstar == self.bstar,
            t.mean_motion_dot == self.mean_motion_dot,
            t.mean_motion_ddot == self.mean_motion_ddot,
    {
        Tle {
            name: Some(self.object_name.clone()),
            norad_id: self.norad_id,
            classification: self.classification,
            international_designator: InternationalDesignator(
                contract_intl_designator(self.object_id.as_str()),
            ),
            epoch: self.epoch,
            mean_motion_dot: self.mean_motion_dot,
            mean_motion_ddot: self.mean_motion_ddot,
            bstar: self.bstar,
            element_set_number: self.element_set_no,
            revolution_number_at_epoch: self.rev_at_epoch,
            inclination: self.inclination,
            raan: self.ra_of_asc_node,
            eccentricity: self.eccentricity,
            argument_of_perigee: self.arg_of_pericenter,
            mean_anomaly: self.mean_anomaly,
            mean_motion: self.mean_motion,
        }
    }
}

/// The `CLASSIFICATION_TYPE` assumed when a JSON OMM omits it: `U`.
pub fn default_classification() -> (s: String)
    ensures
        s@ == seq!['U'],
{
    let mut v: Vec<u8> = Vec::new();
    v.push(0x55);
    proof {
        assert(all_ascii(v@));
        assert(ascii_chars(v@) =~= seq!['U']);
    }
    crate::text::string_of_ascii(v)
}

} // verus!
