use siderust_pod::products::ResidualCsvWriter;
use siderust_pod::decimal::{parse_decimal_at, DecimalValue};
use siderust_pod::tle::kvn::{is_sgp4_theory, kvn_fields, kvn_line, kvn_value};
use siderust_pod::tle::kvn_read::{json_omm_checks, omm_from_kvn};
use siderust_pod::tle::omm::Omm;
use siderust_pod::tle::{Classification, TleEpoch, TleError};

const ISS_KVN: &str = "CCSDS_OMM_VERS = 2.0\nOBJECT_NAME = TEST\nOBJECT_ID = 1998-067A\n\
MEAN_ELEMENT_THEORY = SGP4\nEPOCH = 2008-09-20T12:25:40.104192\n\
MEAN_MOTION = 15.72125391\nECCENTRICITY = 0.0006703\n\
INCLINATION = 51.6416\nRA_OF_ASC_NODE = 247.4627\n\
ARG_OF_PERICENTER = 130.5360\nMEAN_ANOMALY = 325.0288\n\
EPHEMERIS_TYPE = 0\nCLASSIFICATION_TYPE = U\nNORAD_CAT_ID = 25544\n\
ELEMENT_SET_NO = 292\nREV_AT_EPOCH = 56353\n\
BSTAR = -1.1606e-5\nMEAN_MOTION_DOT = -2.182e-5\n\
MEAN_MOTION_DDOT = 0.0\n";

#[test]
fn kvn_fields_reads_every_line() {
    let f = kvn_fields(ISS_KVN);
    assert_eq!(f.len(), 19);
    assert_eq!(f[0], ("CCSDS_OMM_VERS".to_string(), "2.0".to_string()));
    assert_eq!(kvn_value(&f, "NORAD_CAT_ID").as_deref(), Some("25544"));
    assert_eq!(kvn_value(&f, "EPOCH").as_deref(), Some("2008-09-20T12:25:40.104192"));
    assert_eq!(kvn_value(&f, "BSTAR").as_deref(), Some("-1.1606e-5"));
    assert_eq!(kvn_value(&f, "COMMENT"), None);
    assert_eq!(kvn_value(&f, "norad_cat_id"), None);
}

#[test]
fn kvn_skips_comments_blank_lines_and_lines_without_equals() {
    let text = "COMMENT generated = by hand\n\n   \nNO EQUALS HERE\n  KEY  =  value with spaces  \r\n";
    let f = kvn_fields(text);
    assert_eq!(f, vec![("KEY".to_string(), "value with spaces".to_string())]);
}

#[test]
fn kvn_last_value_wins_and_splits_at_first_equals() {
    let f = kvn_fields("A = 1\nB = x=y\nA = 2");
    assert_eq!(kvn_value(&f, "A").as_deref(), Some("2"));
    assert_eq!(kvn_value(&f, "B").as_deref(), Some("x=y"));
    assert_eq!(kvn_fields("").len(), 0);
    assert_eq!(kvn_fields("= empty key").len(), 1);
    assert_eq!(kvn_value(&kvn_fields("= empty key"), "").as_deref(), Some("empty key"));
}

#[test]
fn theory_names_ignore_ascii_case() {
    assert!(is_sgp4_theory("SGP4"));
    assert!(is_sgp4_theory("sgp4"));
    assert!(is_sgp4_theory("SgP4"));
    assert!(!is_sgp4_theory("SDP4"));
    assert!(!is_sgp4_theory("SGP4 "));
    assert!(!is_sgp4_theory(""));
}

#[test]
fn residual_writer_hands_out_its_bytes() {
    let mut w = ResidualCsvWriter::new(Vec::new()).unwrap();
    let header = w.take_bytes();
    assert_eq!(header, b"epoch_jd_tt,obs_type,satellite,residual_m,sigma_m,rejected\n".to_vec());
    w.write_row("1.0", "C1C", "G01", "0.5", "1.0", false).unwrap();
    assert_eq!(w.take_bytes(), b"1.0,C1C,G01,0.5,1.0,false\n".to_vec());
    assert!(w.take_bytes().is_empty());
}

#[test]
fn kvn_lines_read_back() {
    let mut text = String::new();
    text.push_str(&kvn_line("OBJECT_NAME", "ISS (ZARYA)"));
    text.push_str(&kvn_line("OBJECT_ID", "1998-067A"));
    text.push_str(&kvn_line("EMPTY", ""));
    assert_eq!(text, "OBJECT_NAME = ISS (ZARYA)\nOBJECT_ID = 1998-067A\nEMPTY = \n");
    let f = kvn_fields(&text);
    assert_eq!(
        f,
        vec![
            ("OBJECT_NAME".to_string(), "ISS (ZARYA)".to_string()),
            ("OBJECT_ID".to_string(), "1998-067A".to_string()),
            ("EMPTY".to_string(), "".to_string()),
        ]
    );
}

fn dec(negative: bool, mantissa: u64, exponent: i64) -> DecimalValue {
    DecimalValue::Finite { negative, mantissa, exponent }
}

fn epoch_2008() -> TleEpoch {
    TleEpoch { year: 2008, day_of_year: dec(false, 26451782528, -8) }
}

/// Reads every value of `text` as the decimal it denotes and the epoch as
/// the fixed 2008 instant.
fn read(text: &str) -> Result<Omm, TleError> {
    let fields = kvn_fields(text);
    let reals = readings(&fields);
    omm_from_kvn(&fields, &reals, Ok(epoch_2008()))
}

/// The decimal each short value denotes; longer values are left unread.
fn readings(fields: &[(String, String)]) -> Vec<Option<DecimalValue>> {
    fields
        .iter()
        .map(|(_, v)| if v.len() <= 18 { parse_decimal_at(v.as_bytes(), 0, v.len()) } else { None })
        .collect()
}

#[test]
fn kvn_record_reads_every_field() {
    let o = read(ISS_KVN).unwrap();
    assert_eq!(o.object_name, "TEST");
    assert_eq!(o.object_id, "1998-067A");
    assert_eq!(o.epoch, epoch_2008());
    assert_eq!(o.mean_motion, dec(false, 1572125391, -8));
    assert_eq!(o.eccentricity, dec(false, 6703, -7));
    assert_eq!(o.inclination, dec(false, 516416, -4));
    assert_eq!(o.ra_of_asc_node, dec(false, 2474627, -4));
    assert_eq!(o.arg_of_pericenter, dec(false, 1305360, -4));
    assert_eq!(o.mean_anomaly, dec(false, 3250288, -4));
    assert_eq!(o.ephemeris_type, 0);
    assert_eq!(o.classification, Classification::Unclassified);
    assert_eq!(o.norad_id.0, 25544);
    assert_eq!(o.element_set_no, 292);
    assert_eq!(o.rev_at_epoch, 56353);
    assert_eq!(o.bstar, dec(true, 11606, -9));
    assert_eq!(o.mean_motion_dot, dec(true, 2182, -8));
    assert_eq!(o.mean_motion_ddot, dec(false, 0, -1));
}

#[test]
fn kvn_record_rejects_other_theories() {
    let text = ISS_KVN.replace("MEAN_ELEMENT_THEORY = SGP4", "MEAN_ELEMENT_THEORY = SDP4");
    assert!(matches!(read(&text), Err(TleError::OmmUnsupportedTheory(t)) if t == "SDP4"));
    let lower = ISS_KVN.replace("MEAN_ELEMENT_THEORY = SGP4", "MEAN_ELEMENT_THEORY = sgp4");
    assert!(read(&lower).is_ok());
    let absent = ISS_KVN.replace("MEAN_ELEMENT_THEORY = SGP4\n", "");
    assert!(read(&absent).is_ok());
}

#[test]
fn kvn_record_reports_missing_fields_in_order() {
    let no_id = ISS_KVN.replace("OBJECT_ID = 1998-067A\n", "");
    assert!(matches!(read(&no_id), Err(TleError::OmmMissingField("OBJECT_ID"))));
    let no_epoch = ISS_KVN.replace("EPOCH = 2008-09-20T12:25:40.104192\n", "");
    assert!(matches!(read(&no_epoch), Err(TleError::OmmMissingField("EPOCH"))));
    let no_norad = ISS_KVN.replace("NORAD_CAT_ID = 25544\n", "");
    assert!(matches!(read(&no_norad), Err(TleError::OmmMissingField("NORAD_CAT_ID"))));
    let no_incl = ISS_KVN.replace("INCLINATION = 51.6416\n", "");
    assert!(matches!(read(&no_incl), Err(TleError::OmmMissingField("INCLINATION"))));
    let no_name_no_id = no_id.replace("OBJECT_NAME = TEST\n", "");
    assert!(matches!(read(&no_name_no_id), Err(TleError::OmmMissingField("OBJECT_NAME"))));
}

#[test]
fn kvn_record_names_a_malformed_real() {
    let text = ISS_KVN.replace("MEAN_MOTION = 15.72125391", "MEAN_MOTION = abc");
    match read(&text) {
        Err(TleError::OmmMalformed { format, reason }) => {
            assert_eq!(format, "KVN");
            assert_eq!(reason, "MEAN_MOTION=\"abc\" is not a float");
        }
        other => panic!("unexpected {other:?}"),
    }
}

#[test]
fn kvn_record_defaults_missing_optional_fields() {
    let text = ISS_KVN
        .replace("BSTAR = -1.1606e-5\n", "")
        .replace("REV_AT_EPOCH = 56353\n", "")
        .replace("EPHEMERIS_TYPE = 0\n", "")
        .replace("ELEMENT_SET_NO = 292", "ELEMENT_SET_NO = +292")
        .replace("MEAN_MOTION_DOT = -2.182e-5\n", "");
    let o = read(&text).unwrap();
    assert_eq!(o.bstar, dec(false, 0, 0));
    assert_eq!(o.rev_at_epoch, 0);
    assert_eq!(o.ephemeris_type, 0);
    assert_eq!(o.element_set_no, 292);
    assert_eq!(o.mean_motion_dot, dec(false, 0, 0));
}

fn malformed_reason(text: &str) -> String {
    match read(text) {
        Err(TleError::OmmMalformed { format, reason }) => {
            assert_eq!(format, "KVN");
            reason
        }
        other => panic!("unexpected {other:?}"),
    }
}

#[test]
fn kvn_record_rejects_malformed_optional_fields() {
    let bstar = ISS_KVN.replace("BSTAR = -1.1606e-5", "BSTAR = abc");
    assert_eq!(malformed_reason(&bstar), "BSTAR=\"abc\" is not a float");
    let rev = ISS_KVN.replace("REV_AT_EPOCH = 56353", "REV_AT_EPOCH = x");
    assert_eq!(malformed_reason(&rev), "REV_AT_EPOCH=\"x\" is not an unsigned integer");
    let eph = ISS_KVN.replace("EPHEMERIS_TYPE = 0", "EPHEMERIS_TYPE = 300");
    assert_eq!(malformed_reason(&eph), "EPHEMERIS_TYPE=\"300\" is not an unsigned integer");
    let esn = ISS_KVN.replace("ELEMENT_SET_NO = 292", "ELEMENT_SET_NO = -1");
    assert_eq!(malformed_reason(&esn), "ELEMENT_SET_NO=\"-1\" is not an unsigned integer");
    let nddot = ISS_KVN.replace("MEAN_MOTION_DDOT = 0.0", "MEAN_MOTION_DDOT = fast");
    assert_eq!(malformed_reason(&nddot), "MEAN_MOTION_DDOT=\"fast\" is not a float");
    let both = eph.replace("BSTAR = -1.1606e-5", "BSTAR = abc");
    assert_eq!(malformed_reason(&both), "EPHEMERIS_TYPE=\"300\" is not an unsigned integer");
}

#[test]
fn kvn_record_classification_and_catalogue_number() {
    let empty = ISS_KVN.replace("CLASSIFICATION_TYPE = U", "CLASSIFICATION_TYPE =");
    assert_eq!(read(&empty).unwrap().classification, Classification::Unclassified);
    let secret = ISS_KVN.replace("CLASSIFICATION_TYPE = U", "CLASSIFICATION_TYPE = Secret");
    assert_eq!(read(&secret).unwrap().classification, Classification::Secret);
    let bad = ISS_KVN.replace("CLASSIFICATION_TYPE = U", "CLASSIFICATION_TYPE = X");
    assert!(matches!(read(&bad), Err(TleError::InvalidClassification { found: 'X' })));
    let alpha5 = ISS_KVN.replace("NORAD_CAT_ID = 25544", "NORAD_CAT_ID = A0001");
    assert_eq!(read(&alpha5).unwrap().norad_id.0, 100001);
    let junk = ISS_KVN.replace("NORAD_CAT_ID = 25544", "NORAD_CAT_ID = 25-44");
    assert!(matches!(read(&junk), Err(TleError::InvalidAlpha5 { raw }) if raw == "25-44"));
}

#[test]
fn kvn_record_passes_on_the_epoch_outcome() {
    let fields = kvn_fields(ISS_KVN);
    let reals = readings(&fields);
    let failed = Err(TleError::OmmInvalidEpoch { raw: "x".to_string(), reason: "malformed ISO-8601" });
    assert!(matches!(
        omm_from_kvn(&fields, &reals, failed),
        Err(TleError::OmmInvalidEpoch { reason: "malformed ISO-8601", .. })
    ));
}

#[test]
fn json_record_checks_theory_epoch_and_classification() {
    let ok = json_omm_checks(&None, "C", Ok(epoch_2008())).unwrap();
    assert_eq!(ok, (epoch_2008(), Classification::Classified));
    let empty = json_omm_checks(&Some("sgp4".to_string()), "", Ok(epoch_2008())).unwrap();
    assert_eq!(empty.1, Classification::Unclassified);
    let theory = json_omm_checks(&Some("SDP4".to_string()), "X", Err(TleError::OmmMissingField("EPOCH")));
    assert!(matches!(theory, Err(TleError::OmmUnsupportedTheory(t)) if t == "SDP4"));
    let epoch = json_omm_checks(&None, "X", Err(TleError::OmmMissingField("EPOCH")));
    assert!(matches!(epoch, Err(TleError::OmmMissingField("EPOCH"))));
    let class = json_omm_checks(&None, "X", Ok(epoch_2008()));
    assert!(matches!(class, Err(TleError::InvalidClassification { found: 'X' })));
}
