//! Reading an OMM record from the keyword/value pairs of a KVN message,
//! and the checks of an OMM record read from JSON.
//!
//! The reader is tolerant of what it does not know (comments, unknown
//! keys) and strict on what it needs: the object's name and identifier,
//! the epoch, the catalogue number and the six mean elements must be
//! present and readable, and an optional number that is present must
//! read. The epoch and the real-valued elements are read as binary
//! floating-point numbers by the caller; this module takes those readings
//! as arguments and decides everything else.

use vstd::prelude::*;
use vstd::string::StringSliceAdditionalSpecFns;
use vstd::utf8::encode_utf8;
use crate::decimal::{matches_word, DecimalValue};
use crate::text::{char_count, concat_str, parse_uint_at, parse_uint_spec};
use super::kvn::{fields_view, is_sgp4_theory, kvn_value, last_value, sgp4_word};
use super::omm::{Omm, OmmView};
use super::{
    alpha5_value, Classification, SatelliteNumber, TleEpoch, TleError, TleErrorView,
};

verus! {

broadcast use vstd::seq::group_seq_axioms;

/// Index of the last pair with key `k`.
pub open spec fn last_index(ps: Seq<(Seq<char>, Seq<char>)>, k: Seq<char>) -> Option<int>
    decreases ps.len(),
{
    if ps.len() == 0 {
        None
    } else if ps.last().0 == k {
        Some(ps.len() - 1)
    } else {
        last_index(ps.drop_last(), k)
    }
}

/// What `format!("{:?}", s)` writes for a string `s`: the string between
/// double quotes, with quotes, backslashes and unprintable characters
/// escaped.
pub uninterp spec fn debug_text(s: Seq<char>) -> Seq<char>;

/// The `Debug` rendering of a string slice, by `format!("{:?}", s)`. The
/// contract names the result ([`debug_text`]) and states nothing more of it.
#[verifier::external_body]
fn debug_quoted(s: &str) -> (r: String)
    ensures
        r@ == debug_text(s@),
{
    format!("{:?}", s)
}

/// The reason given for a real-valued keyword whose value is no number.
pub open spec fn not_a_float_reason(key: Seq<char>, value: Seq<char>) -> Seq<char> {
    key + "="@ + debug_text(value) + " is not a float"@
}

/// A mandatory real-valued keyword: missing, malformed, or its reading.
/// `reals[i]` is the floating-point reading of the `i`-th value.
pub open spec fn kvn_real(
    ps: Seq<(Seq<char>, Seq<char>)>,
    reals: Seq<Option<DecimalValue>>,
    key: &'static str,
) -> Result<DecimalValue, TleErrorView> {
    match last_index(ps, key@) {
        None => Err(TleErrorView::OmmMissingField(key)),
        Some(i) => match reals[i] {
            Some(x) => Ok(x),
            None => Err(
                TleErrorView::OmmMalformed {
                    format: "KVN",
                    reason: not_a_float_reason(key@, ps[i].1),
                },
            ),
        },
    }
}

/// An optional real-valued keyword: zero when missing, otherwise as for a
/// mandatory one (a present value that is no number is malformed).
pub open spec fn kvn_real_opt(
    ps: Seq<(Seq<char>, Seq<char>)>,
    reals: Seq<Option<DecimalValue>>,
    key: &'static str,
) -> Result<DecimalValue, TleErrorView> {
    if last_index(ps, key@) is None {
        Ok(DecimalValue::zero())
    } else {
        kvn_real(ps, reals, key)
    }
}

/// The reason given for an unsigned keyword whose value does not read.
pub open spec fn not_a_uint_reason(key: Seq<char>, value: Seq<char>) -> Seq<char> {
    key + "="@ + debug_text(value) + " is not an unsigned integer"@
}

/// An optional unsigned keyword read with the unsigned `from_str` of a type
/// whose largest value is `max`: zero when missing, malformed when present
/// and unreadable.
pub open spec fn kvn_uint_opt(ps: Seq<(Seq<char>, Seq<char>)>, key: &'static str, max: nat) -> Result<nat, TleErrorView> {
    match last_value(ps, key@) {
        Some(v) => match parse_uint_spec(encode_utf8(v), max) {
            Some(n) => Ok(n),
            None => Err(
                TleErrorView::OmmMalformed { format: "KVN", reason: not_a_uint_reason(key@, v) },
            ),
        },
        None => Ok(0),
    }
}

/// The classification character: the first character of
/// `CLASSIFICATION_TYPE`, `U` when the keyword or its value is empty.
pub open spec fn kvn_class_char(ps: Seq<(Seq<char>, Seq<char>)>) -> char {
    match last_value(ps, "CLASSIFICATION_TYPE"@) {
        Some(v) => if v.len() > 0 {
            v[0]
        } else {
            'U'
        },
        None => 'U',
    }
}

/// The catalogue number of `NORAD_CAT_ID`.
pub open spec fn kvn_norad(ps: Seq<(Seq<char>, Seq<char>)>) -> Result<SatelliteNumber, TleErrorView> {
    match last_value(ps, "NORAD_CAT_ID"@) {
        None => Err(TleErrorView::OmmMissingField("NORAD_CAT_ID")),
        Some(v) => match alpha5_value(encode_utf8(v)) {
            Some(n) => Ok(SatelliteNumber(n as u32)),
            None => Err(TleErrorView::InvalidAlpha5 { raw: v }),
        },
    }
}

/// A `MEAN_ELEMENT_THEORY` other than SGP4 (ignoring ASCII case), if any.
pub open spec fn kvn_foreign_theory(ps: Seq<(Seq<char>, Seq<char>)>) -> Option<Seq<char>> {
    match last_value(ps, "MEAN_ELEMENT_THEORY"@) {
        Some(t) => if matches_word(encode_utf8(t), sgp4_word()) {
            None
        } else {
            Some(t)
        },
        None => None,
    }
}

/// The record once the mandatory text fields, the epoch, the
/// classification and the catalogue number are known: the six mean
/// elements are checked in order, the rest take their defaults.
pub open spec fn kvn_elements(
    ps: Seq<(Seq<char>, Seq<char>)>,
    reals: Seq<Option<DecimalValue>>,
    name: Seq<char>,
    id: Seq<char>,
    epoch: TleEpoch,
    cls: Classification,
    norad: SatelliteNumber,
) -> Result<OmmView, TleErrorView> {
    let mm = kvn_real(ps, reals, "MEAN_MOTION");
    let ecc = kvn_real(ps, reals, "ECCENTRICITY");
    let inc = kvn_real(ps, reals, "INCLINATION");
    let raan = kvn_real(ps, reals, "RA_OF_ASC_NODE");
    let argp = kvn_real(ps, reals, "ARG_OF_PERICENTER");
    let ma = kvn_real(ps, reals, "MEAN_ANOMALY");
    let eph = kvn_uint_opt(ps, "EPHEMERIS_TYPE", 255);
    let esn = kvn_uint_opt(ps, "ELEMENT_SET_NO", 65535);
    let rev = kvn_uint_opt(ps, "REV_AT_EPOCH", 4294967295);
    let bstar = kvn_real_opt(ps, reals, "BSTAR");
    let ndot = kvn_real_opt(ps, reals, "MEAN_MOTION_DOT");
    let nddot = kvn_real_opt(ps, reals, "MEAN_MOTION_DDOT");
    if mm is Err {
        Err(mm->Err_0)
    } else if ecc is Err {
        Err(ecc->Err_0)
    } else if inc is Err {
        Err(inc->Err_0)
    } else if raan is Err {
        Err(raan->Err_0)
    } else if argp is Err {
        Err(argp->Err_0)
    } else if ma is Err {
        Err(ma->Err_0)
    } else if eph is Err {
        Err(eph->Err_0)
    } else if esn is Err {
        Err(esn->Err_0)
    } else if rev is Err {
        Err(rev->Err_0)
    } else if bstar is Err {
        Err(bstar->Err_0)
    } else if ndot is Err {
        Err(ndot->Err_0)
    } else if nddot is Err {
        Err(nddot->Err_0)
    } else {
        Ok(
            OmmView {
                object_name: name,
                object_id: id,
                epoch,
                mean_motion: mm->Ok_0,
                eccentricity: ecc->Ok_0,
                inclination: inc->Ok_0,
                ra_of_asc_node: raan->Ok_0,
                arg_of_pericenter: argp->Ok_0,
                mean_anomaly: ma->Ok_0,
                ephemeris_type: (eph->Ok_0) as u8,
                classification: cls,
                norad_id: norad,
                element_set_no: (esn->Ok_0) as u16,
                rev_at_epoch: (rev->Ok_0) as u32,
                bstar: bstar->Ok_0,
                mean_motion_dot: ndot->Ok_0,
                mean_motion_ddot: nddot->Ok_0,
            },
        )
    }
}

/// The OMM record that a KVN message denotes, or the first problem met.
/// `reals[i]` is the floating-point reading of the `i`-th value and
/// `epoch` the outcome of reading the `EPOCH` value as an instant.
pub open spec fn omm_from_kvn_spec(
    ps: Seq<(Seq<char>, Seq<char>)>,
    reals: Seq<Option<DecimalValue>>,
    epoch: Result<TleEpoch, TleErrorView>,
) -> Result<OmmView, TleErrorView> {
    if kvn_foreign_theory(ps) is Some {
        Err(TleErrorView::OmmUnsupportedTheory(kvn_foreign_theory(ps)->0))
    } else if last_value(ps, "OBJECT_NAME"@) is None {
        Err(TleErrorView::OmmMissingField("OBJECT_NAME"))
    } else if last_value(ps, "OBJECT_ID"@) is None {
        Err(TleErrorView::OmmMissingField("OBJECT_ID"))
    } else if last_value(ps, "EPOCH"@) is None {
        Err(TleErrorView::OmmMissingField("EPOCH"))
    } else if epoch is Err {
        Err(epoch->Err_0)
    } else if Classification::of_char(kvn_class_char(ps)) is None {
        Err(TleErrorView::InvalidClassification { found: kvn_class_char(ps) })
    } else if kvn_norad(ps) is Err {
        Err(kvn_norad(ps)->Err_0)
    } else {
        kvn_elements(
            ps,
            reals,
            last_value(ps, "OBJECT_NAME"@)->0,
            last_value(ps, "OBJECT_ID"@)->0,
            epoch->Ok_0,
            Classification::of_char(kvn_class_char(ps))->0,
            kvn_norad(ps)->Ok_0,
        )
    }
}

/// The value of the last pair with key `k` is that at its last index.
proof fn lemma_last_index(ps: Seq<(Seq<char>, Seq<char>)>, k: Seq<char>)
    ensures
        match last_index(ps, k) {
            None => last_value(ps, k) is None,
            Some(i) => 0 <= i < ps.len() && last_value(ps, k) == Some(ps[i].1),
        },
    decreases ps.len(),
{
    if ps.len() > 0 && ps.last().0 != k {
        lemma_last_index(ps.drop_last(), k);
    }
}

/// Index of the last field with key `key`.
fn kvn_index(fields: &Vec<(String, String)>, key: &str) -> (r: Option<usize>)
    ensures
        match r {
            None => last_index(fields_view(fields@), key@) is None,
            Some(i) => last_index(fields_view(fields@), key@) == Some(i as int),
        },
{
    let mut i = fields.len();
    proof {
        assert(fields@.subrange(0, i as int) =~= fields@);
    }
    while i > 0
        invariant
            i <= fields@.len(),
            last_index(fields_view(fields@), key@) == last_index(
                fields_view(fields@.subrange(0, i as int)),
                key@,
            ),
        decreases i,
    {
        let ghost ps = fields_view(fields@.subrange(0, i as int));
        proof {
            assert(ps.last() == (fields@[i - 1].0@, fields@[i - 1].1@));
            assert(ps.drop_last() =~= fields_view(fields@.subrange(0, i - 1)));
        }
        if super::kvn::same_text(fields[i - 1].0.as_str(), key) {
            return Some(i - 1);
        }
        i = i - 1;
    }
    proof {
        assert(fields_view(fields@.subrange(0, 0)) =~= Seq::<(Seq<char>, Seq<char>)>::empty());
    }
    None
}

/// A mandatory real-valued keyword, as [`kvn_real`] states it.
fn kvn_real_field(
    fields: &Vec<(String, String)>,
    reals: &Vec<Option<DecimalValue>>,
    key: &'static str,
) -> (r: Result<DecimalValue, TleError>)
    requires
        reals@.len() == fields@.len(),
    ensures
        match kvn_real(fields_view(fields@), reals@, key) {
            Ok(x) => r == Ok::<DecimalValue, TleError>(x),
            Err(e) => r matches Err(f) && f@ == e,
        },
{
    let idx = kvn_index(fields, key);
    proof {
        lemma_last_index(fields_view(fields@), key@);
    }
    match idx {
        None => Err(TleError::OmmMissingField(key)),
        Some(i) => match reals[i] {
            Some(x) => {
                Ok(x)
            },
            None => {
                let shown = debug_quoted(fields[i].1.as_str());
                let a = concat_str(key, "=");
                let b = concat_str(a.as_str(), shown.as_str());
                let reason = concat_str(b.as_str(), " is not a float");
                Err(TleError::OmmMalformed { format: "KVN", reason })
            },
        },
    }
}

/// An optional real-valued keyword, as [`kvn_real_opt`] states it.
fn kvn_real_opt_field(
    fields: &Vec<(String, String)>,
    reals: &Vec<Option<DecimalValue>>,
    key: &'static str,
) -> (r: Result<DecimalValue, TleError>)
    requires
        reals@.len() == fields@.len(),
    ensures
        match kvn_real_opt(fields_view(fields@), reals@, key) {
            Ok(x) => r == Ok::<DecimalValue, TleError>(x),
            Err(e) => r matches Err(f) && f@ == e,
        },
{
    if kvn_index(fields, key).is_none() {
        return Ok(DecimalValue::Finite { negative: false, mantissa: 0, exponent: 0 });
    }
    kvn_real_field(fields, reals, key)
}

/// An optional unsigned keyword, as [`kvn_uint_opt`] states it.
fn kvn_uint_field(fields: &Vec<(String, String)>, key: &'static str, cap: u64) -> (r: Result<u64, TleError>)
    ensures
        match kvn_uint_opt(fields_view(fields@), key, cap as nat) {
            Ok(n) => r matches Ok(m) && m as nat == n,
            Err(e) => r matches Err(f) && f@ == e,
        },
{
    match kvn_value(fields, key) {
        None => Ok(0),
        Some(v) => {
            let b = v.as_str().as_bytes();
            proof {
                assert(b@.subrange(0, b@.len() as int) =~= b@);
            }
            match parse_uint_at(b, 0, b.len(), cap) {
                Some(n) => Ok(n),
                None => {
                    let shown = debug_quoted(v.as_str());
                    let a = concat_str(key, "=");
                    let c = concat_str(a.as_str(), shown.as_str());
                    let reason = concat_str(c.as_str(), " is not an unsigned integer");
                    Err(TleError::OmmMalformed { format: "KVN", reason })
                },
            }
        },
    }
}

/// Read an OMM record from the fields of a KVN message (see
/// [`kvn_fields`](super::kvn::kvn_fields)).
///
/// `reals[i]` is the reading of the `i`-th value as a binary
/// floating-point number (`f64::from_str`), kept as the decimal it equals,
/// or `None` where the text is no number; `epoch` is the outcome of reading
/// the `EPOCH` value as an ISO-8601 instant, consulted only when that key
/// is present. The checks come in this order: the mean-element theory must
/// be SGP4 (ignoring ASCII case; absent counts as SGP4); `OBJECT_NAME`,
/// `OBJECT_ID` and `EPOCH` must be present; the epoch must read; the
/// classification (first character of `CLASSIFICATION_TYPE`, `U` by
/// default) must be `U`, `C` or `S`; `NORAD_CAT_ID` must be present and a
/// catalogue number; the six mean elements must be present and numbers.
/// `EPHEMERIS_TYPE`, `ELEMENT_SET_NO`, `REV_AT_EPOCH`, `BSTAR`,
/// `MEAN_MOTION_DOT` and `MEAN_MOTION_DDOT` are zero when missing and,
/// checked in that order, malformed when present and unreadable.
pub fn omm_from_kvn(
    fields: &Vec<(String, String)>,
    reals: &Vec<Option<DecimalValue>>,
    epoch: Result<TleEpoch, TleError>,
) -> (r: Result<Omm, TleError>)
    requires
        reals@.len() == fields@.len(),
    ensures
        match omm_from_kvn_spec(
            fields_view(fields@),
            reals@,
            match epoch {
                Ok(t) => Ok(t),
                Err(e) => Err(e@),
            },
        ) {
            Ok(o) => r matches Ok(x) && x@ == o,
            Err(e) => r matches Err(f) && f@ == e,
        },
{
    let ghost ps = fields_view(fields@);
    if let Some(theory) = kvn_value(fields, "MEAN_ELEMENT_THEORY") {
        if !is_sgp4_theory(theory.as_str()) {
            return Err(TleError::OmmUnsupportedTheory(theory));
        }
    }
    let object_name = match kvn_value(fields, "OBJECT_NAME") {
        Some(v) => v,
        None => {
            return Err(TleError::OmmMissingField("OBJECT_NAME"));
        },
    };
    let object_id = match kvn_value(fields, "OBJECT_ID") {
        Some(v) => v,
        None => {
            return Err(TleError::OmmMissingField("OBJECT_ID"));
        },
    };
    if kvn_index(fields, "EPOCH").is_none() {
        proof {
            lemma_last_index(ps, "EPOCH"@);
        }
        return Err(TleError::OmmMissingField("EPOCH"));
    }
    proof {
        lemma_last_index(ps, "EPOCH"@);
    }
    let epoch = match epoch {
        Ok(t) => t,
        Err(e) => {
            return Err(e);
        },
    };
    let cls_char = match kvn_value(fields, "CLASSIFICATION_TYPE") {
        Some(v) => {
            if char_count(v.as_str()) == 0 {
                'U'
            } else {
                v.as_str().get_char(0)
            }
        },
        None => 'U',
    };
    let classification = match Classification::from_char(cls_char) {
        Ok(c) => c,
        Err(e) => {
            return Err(e);
        },
    };
    let norad_id = match kvn_value(fields, "NORAD_CAT_ID") {
        Some(v) => match SatelliteNumber::parse(v.as_str()) {
            Ok(n) => n,
            Err(e) => {
                return Err(e);
            },
        },
        None => {
            return Err(TleError::OmmMissingField("NORAD_CAT_ID"));
        },
    };
    let mean_motion = match kvn_real_field(fields, reals, "MEAN_MOTION") {
        Ok(x) => x,
        Err(e) => {
            return Err(e);
        },
    };
    let eccentricity = match kvn_real_field(fields, reals, "ECCENTRICITY") {
        Ok(x) => x,
        Err(e) => {
            return Err(e);
        },
    };
    let inclination = match kvn_real_field(fields, reals, "INCLINATION") {
        Ok(x) => x,
        Err(e) => {
            return Err(e);
        },
    };
    let ra_of_asc_node = match kvn_real_field(fields, reals, "RA_OF_ASC_NODE") {
        Ok(x) => x,
        Err(e) => {
            return Err(e);
        },
    };
    let arg_of_pericenter = match kvn_real_field(fields, reals, "ARG_OF_PERICENTER") {
        Ok(x) => x,
        Err(e) => {
            return Err(e);
        },
    };
    let mean_anomaly = match kvn_real_field(fields, reals, "MEAN_ANOMALY") {
        Ok(x) => x,
        Err(e) => {
            return Err(e);
        },
    };
    let ephemeris_type = match kvn_uint_field(fields, "EPHEMERIS_TYPE", 255) {
        Ok(x) => x as u8,
        Err(e) => {
            return Err(e);
        },
    };
    let element_set_no = match kvn_uint_field(fields, "ELEMENT_SET_NO", 65535) {
        Ok(x) => x as u16,
        Err(e) => {
            return Err(e);
        },
    };
    let rev_at_epoch = match kvn_uint_field(fields, "REV_AT_EPOCH", 4294967295) {
        Ok(x) => x as u32,
        Err(e) => {
            return Err(e);
        },
    };
    let bstar = match kvn_real_opt_field(fields, reals, "BSTAR") {
        Ok(x) => x,
        Err(e) => {
            return Err(e);
        },
    };
    let mean_motion_dot = match kvn_real_opt_field(fields, reals, "MEAN_MOTION_DOT") {
        Ok(x) => x,
        Err(e) => {
            return Err(e);
        },
    };
    let mean_motion_ddot = match kvn_real_opt_field(fields, reals, "MEAN_MOTION_DDOT") {
        Ok(x) => x,
        Err(e) => {
            return Err(e);
        },
    };
    Ok(
        Omm {
            object_name,
            object_id,
            epoch,
            mean_motion,
            eccentricity,
            inclination,
            ra_of_asc_node,
            arg_of_pericenter,
            mean_anomaly,
            ephemeris_type,
            classification,
            norad_id,
            element_set_no,
            rev_at_epoch,
            bstar,
            mean_motion_dot,
            mean_motion_ddot,
        },
    )
}

/// The first character of a classification text, `U` when it is empty.
pub open spec fn class_char_of(text: Seq<char>) -> char {
    if text.len() > 0 {
        text[0]
    } else {
        'U'
    }
}

/// The decisions of a JSON OMM record: a `MEAN_ELEMENT_THEORY`, when
/// given, must be SGP4 (ignoring ASCII case); then the epoch must read;
/// then the classification (first character of `CLASSIFICATION_TYPE`, `U`
/// when empty) must be `U`, `C` or `S`.
pub open spec fn json_checks_spec(
    theory: Option<Seq<char>>,
    classification: Seq<char>,
    epoch: Result<TleEpoch, TleErrorView>,
) -> Result<(TleEpoch, Classification), TleErrorView> {
    if theory is Some && !matches_word(encode_utf8(theory->0), sgp4_word()) {
        Err(TleErrorView::OmmUnsupportedTheory(theory->0))
    } else if epoch is Err {
        Err(epoch->Err_0)
    } else if Classification::of_char(class_char_of(classification)) is None {
        Err(TleErrorView::InvalidClassification { found: class_char_of(classification) })
    } else {
        Ok((epoch->Ok_0, Classification::of_char(class_char_of(classification))->0))
    }
}

/// Check the theory, epoch and classification of a JSON OMM record, as
/// [`json_checks_spec`] states; `epoch` is the outcome of reading its
/// `EPOCH` text as an ISO-8601 instant. Gives the epoch and classification
/// of the record.
pub fn json_omm_checks(
    theory: &Option<String>,
    classification: &str,
    epoch: Result<TleEpoch, TleError>,
) -> (r: Result<(TleEpoch, Classification), TleError>)
    ensures
        match json_checks_spec(
            match theory {
                Some(t) => Some(t@),
                None => None,
            },
            classification@,
            match epoch {
                Ok(t) => Ok(t),
                Err(e) => Err(e@),
            },
        ) {
            Ok(v) => r == Ok::<(TleEpoch, Classification), TleError>(v),
            Err(e) => r matches Err(f) && f@ == e,
        },
{
    if let Some(t) = theory {
        if !is_sgp4_theory(t.as_str()) {
            return Err(TleError::OmmUnsupportedTheory(t.clone()));
        }
    }
    let epoch = match epoch {
        Ok(t) => t,
        Err(e) => {
            return Err(e);
        },
    };
    let c = if char_count(classification) == 0 {
        'U'
    } else {
        classification.get_char(0)
    };
    match Classification::from_char(c) {
        Ok(k) => Ok((epoch, k)),
        Err(e) => Err(e),
    }
}

} // verus!
