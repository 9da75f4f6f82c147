use siderust_pod::decimal::DecimalValue;
use siderust_pod::sgp4::{tle_to_elements, Sgp4Classification, Sgp4Error};
use siderust_pod::tle::builder::TleBuilder;
use siderust_pod::tle::epoch::{format_epoch, parse_epoch_fields, IsoInstant};
use siderust_pod::tle::omm::{contract_intl_designator, default_classification, expand_intl_designator, Omm};
use siderust_pod::tle::parse::{epoch_from_year_doy, expand_two_digit_year, parse_assumed_decimal_exponent};
use siderust_pod::tle::{
    compute_checksum, compute_tle_checksum, format_tle, parse_3le, parse_tle, validate_tle_checksum,
    Classification, InternationalDesignator, SatelliteNumber, TleEpoch, TleError,
};

const ISS_NAME: &str = "ISS (ZARYA)";
const ISS_L1: &str = "1 25544U 98067A   08264.51782528 -.00002182  00000-0 -11606-4 0  2927";
const ISS_L2: &str = "2 25544  51.6416 247.4627 0006703 130.5360 325.0288 15.72125391563537";

const VAN_L1: &str = "1 00005U 58002B   00179.78495062  .00000023  00000-0  28098-4 0  4753";
const VAN_L2: &str = "2 00005  34.2682 348.7242 1859667 331.7664  19.3264 10.82419157413667";

fn value(d: DecimalValue) -> f64 {
    match d {
        DecimalValue::Finite { negative, mantissa, exponent } => {
            let v: f64 = format!("{}e{}", mantissa, exponent).parse().unwrap();
            if negative {
                -v
            } else {
                v
            }
        }
        DecimalValue::Infinite { negative } => {
            if negative {
                f64::NEG_INFINITY
            } else {
                f64::INFINITY
            }
        }
        DecimalValue::NotANumber { .. } => f64::NAN,
    }
}

fn dec(negative: bool, mantissa: u64, exponent: i64) -> DecimalValue {
    DecimalValue::Finite { negative, mantissa, exponent }
}

#[test]
fn checksum_of_canonical_lines_validates() {
    validate_tle_checksum(ISS_L1).unwrap();
    validate_tle_checksum(ISS_L2).unwrap();
    validate_tle_checksum(VAN_L1).unwrap();
    validate_tle_checksum(VAN_L2).unwrap();
}

#[test]
fn parse_iss_returns_expected_fields() {
    let tle = parse_3le(ISS_NAME, ISS_L1, ISS_L2).unwrap();
    assert_eq!(tle.name.as_deref(), Some("ISS (ZARYA)"));
    assert_eq!(tle.norad_id, SatelliteNumber(25544));
    assert_eq!(tle.classification, Classification::Unclassified);
    assert_eq!(tle.international_designator.0, "98067A");
    assert!((value(tle.inclination) - 51.6416).abs() < 1e-6);
    assert!((value(tle.raan) - 247.4627).abs() < 1e-6);
    assert!((value(tle.eccentricity) - 0.0006703).abs() < 1e-9);
    assert!((value(tle.argument_of_perigee) - 130.5360).abs() < 1e-6);
    assert!((value(tle.mean_anomaly) - 325.0288).abs() < 1e-6);
    assert!((value(tle.mean_motion) - 15.72125391).abs() < 1e-8);
    assert!((value(tle.bstar) - -0.11606e-4).abs() < 1e-12);
    assert_eq!(tle.element_set_number, 292);
    assert_eq!(tle.revolution_number_at_epoch, 56353);
}

#[test]
fn parse_3le_strips_zero_prefix() {
    let with_prefix = parse_3le("0 ISS (ZARYA)", ISS_L1, ISS_L2).unwrap();
    assert_eq!(with_prefix.name.as_deref(), Some("ISS (ZARYA)"));
    let empty = parse_3le("   ", ISS_L1, ISS_L2).unwrap();
    assert!(empty.name.is_none());
}

#[test]
fn parse_3le_strips_only_one_zero_prefix() {
    let twice = parse_3le("0 0 SAT", ISS_L1, ISS_L2).unwrap();
    assert_eq!(twice.name.as_deref(), Some("0 SAT"));
    let no_name = parse_3le("", ISS_L1, ISS_L2).unwrap();
    assert!(no_name.name.is_none());
    let marker_only = parse_3le("0 ", ISS_L1, ISS_L2).unwrap();
    assert!(marker_only.name.is_none());
}

#[test]
fn invalid_checksum_is_rejected() {
    let mut bad = ISS_L1.to_string();
    let n = bad.len();
    bad.replace_range(n - 1..n, "0");
    match validate_tle_checksum(&bad) {
        Err(TleError::BadChecksum { line: 1, .. }) => {}
        other => panic!("expected BadChecksum on line 1, got {other:?}"),
    }
}

#[test]
fn non_digit_checksum_is_rejected() {
    let mut bad = ISS_L1.to_string();
    let n = bad.len();
    bad.replace_range(n - 1..n, "X");
    assert!(matches!(validate_tle_checksum(&bad), Err(TleError::BadChecksum { .. })));
}

#[test]
fn bad_length_is_rejected() {
    let short = &ISS_L1[..68];
    assert!(matches!(validate_tle_checksum(short), Err(TleError::BadLength { .. })));
    let short = &ISS_L1[..50];
    assert!(matches!(parse_tle(short, ISS_L2), Err(TleError::BadLength { line: 1, .. })));
    assert!(matches!(
        parse_tle(ISS_L1, &ISS_L2[..50]),
        Err(TleError::BadLength { line: 2, .. })
    ));
}

#[test]
fn bad_leading_char_is_rejected() {
    let mut bad1 = ISS_L1.to_string();
    bad1.replace_range(0..1, "9");
    let cs = compute_tle_checksum(&bad1[..68]);
    bad1.replace_range(68..69, &cs.to_string());
    assert!(matches!(parse_tle(&bad1, ISS_L2), Err(TleError::BadLeadingChar { line: 1, .. })));

    let mut bad2 = ISS_L2.to_string();
    bad2.replace_range(0..1, "9");
    let cs = compute_tle_checksum(&bad2[..68]);
    bad2.replace_range(68..69, &cs.to_string());
    assert!(matches!(parse_tle(ISS_L1, &bad2), Err(TleError::BadLeadingChar { line: 2, .. })));
}

#[test]
fn alpha5_decoding_full_table() {
    assert_eq!(SatelliteNumber::parse("25544").unwrap(), SatelliteNumber(25_544));
    assert_eq!(SatelliteNumber::parse("A0000").unwrap(), SatelliteNumber(100_000));
    assert_eq!(SatelliteNumber::parse("H9999").unwrap(), SatelliteNumber(179_999));
    assert_eq!(SatelliteNumber::parse("J0000").unwrap(), SatelliteNumber(180_000));
    assert_eq!(SatelliteNumber::parse("N9999").unwrap(), SatelliteNumber(229_999));
    assert_eq!(SatelliteNumber::parse("P0000").unwrap(), SatelliteNumber(230_000));
    assert_eq!(SatelliteNumber::parse("T0001").unwrap(), SatelliteNumber(270_001));
    assert_eq!(SatelliteNumber::parse("Z9999").unwrap(), SatelliteNumber(339_999));

    assert!(matches!(SatelliteNumber::parse("I0001"), Err(TleError::InvalidAlpha5 { .. })));
    assert!(matches!(SatelliteNumber::parse("O0001"), Err(TleError::InvalidAlpha5 { .. })));
    assert!(matches!(SatelliteNumber::parse(""), Err(TleError::InvalidAlpha5 { .. })));
    assert!(matches!(SatelliteNumber::parse("A001"), Err(TleError::InvalidAlpha5 { .. })));
    assert!(matches!(SatelliteNumber::parse("A00X1"), Err(TleError::InvalidAlpha5 { .. })));
    assert!(matches!(SatelliteNumber::parse("aaaaa"), Err(TleError::InvalidAlpha5 { .. })));
    assert!(matches!(
        SatelliteNumber::parse("9".repeat(6).as_str()),
        Err(TleError::InvalidAlpha5 { .. })
    ));
}

#[test]
fn alpha5_format_round_trip() {
    for n in [0u32, 5, 25_544, 99_999, 100_000, 179_999, 180_000, 270_001, 339_999] {
        let s = SatelliteNumber(n).format_alpha5().unwrap();
        assert_eq!(SatelliteNumber::parse(&s).unwrap(), SatelliteNumber(n), "round-trip {n}");
    }
    assert!(SatelliteNumber(340_000).format_alpha5().is_err());
}

#[test]
fn classification_round_trip() {
    for &c in &['U', 'C', 'S'] {
        let parsed = Classification::from_char(c).unwrap();
        assert_eq!(parsed.as_char(), c);
    }
    assert!(matches!(Classification::from_char('Z'), Err(TleError::InvalidClassification { .. })));
}

#[test]
fn assumed_decimal_with_exponent_branches() {
    assert!((value(parse_assumed_decimal_exponent(" 12345-3", "x").unwrap()) - 0.12345e-3).abs() < 1e-12);
    assert!((value(parse_assumed_decimal_exponent("-11606-4", "x").unwrap()) - -0.11606e-4).abs() < 1e-15);
    assert!((value(parse_assumed_decimal_exponent("+12345+2", "x").unwrap()) - 12.345).abs() < 1e-12);
    assert_eq!(value(parse_assumed_decimal_exponent("00000-0", "x").unwrap()), 0.0);
    assert_eq!(value(parse_assumed_decimal_exponent("        ", "x").unwrap()), 0.0);

    assert!(parse_assumed_decimal_exponent("-", "x").is_err());
    assert!(parse_assumed_decimal_exponent("ab", "x").is_err());
    assert!(parse_assumed_decimal_exponent("abcde-3", "x").is_err());
    assert!(parse_assumed_decimal_exponent("1234567", "x").is_err());
}

#[test]
fn assumed_decimal_takes_long_text() {
    let long = parse_assumed_decimal_exponent("0000000000000000000012345-3", "x").unwrap();
    assert_eq!(long, dec(false, 12345, -28));
    let big = parse_assumed_decimal_exponent("18446744073709551615-1", "x").unwrap();
    assert_eq!(big, dec(false, u64::MAX, -21));
    assert!(matches!(
        parse_assumed_decimal_exponent("18446744073709551616-1", "bstar"),
        Err(TleError::InvalidNumber { field: "bstar", .. })
    ));
}

#[test]
fn checksum_helper_matches_bytes() {
    assert_eq!(compute_checksum(&ISS_L1[..68]), b'7' - b'0');
    assert_eq!(compute_checksum(&ISS_L2[..68]), b'7' - b'0');
    assert_eq!(compute_tle_checksum(&VAN_L1[..68]), b'3' - b'0');
}

#[test]
fn epoch_year_expansion_and_invalid_epoch() {
    assert_eq!(expand_two_digit_year(57), 1957);
    assert_eq!(expand_two_digit_year(99), 1999);
    assert_eq!(expand_two_digit_year(00), 2000);
    assert_eq!(expand_two_digit_year(56), 2056);

    assert!(matches!(epoch_from_year_doy(2024, dec(false, 0, 0)), Err(TleError::InvalidEpoch { .. })));
    assert!(matches!(epoch_from_year_doy(2024, dec(false, 3675, -1)), Err(TleError::InvalidEpoch { .. })));
    assert!(matches!(epoch_from_year_doy(2023, dec(false, 366, 0)), Err(TleError::InvalidEpoch { .. })));
    assert!(matches!(
        epoch_from_year_doy(2024, DecimalValue::NotANumber { negative: false }),
        Err(TleError::InvalidEpoch { .. })
    ));
    epoch_from_year_doy(2024, dec(false, 3665, -1)).unwrap();
}

#[test]
fn mismatched_norad_id_is_rejected() {
    let l2_other = "2 25545  51.6416 247.4627 0006703 130.5360 325.0288 15.72125391563530";
    let computed = compute_tle_checksum(&l2_other[..68]);
    let mut forged = l2_other.to_string();
    forged.replace_range(68..69, &computed.to_string());
    assert!(matches!(parse_tle(ISS_L1, &forged), Err(TleError::MismatchedSatelliteNumber { .. })));
}

#[test]
fn invalid_classification_field_is_rejected() {
    let mut bad = ISS_L1.to_string();
    bad.replace_range(7..8, "Z");
    let cs = compute_tle_checksum(&bad[..68]);
    bad.replace_range(68..69, &cs.to_string());
    assert!(matches!(parse_tle(&bad, ISS_L2), Err(TleError::InvalidClassification { .. })));
}

#[test]
fn invalid_eccentricity_field_is_rejected() {
    let mut bad = ISS_L2.to_string();
    bad.replace_range(26..33, "ABCDEFG");
    let cs = compute_tle_checksum(&bad[..68]);
    bad.replace_range(68..69, &cs.to_string());
    assert!(matches!(
        parse_tle(ISS_L1, &bad),
        Err(TleError::InvalidNumber { field: "eccentricity", .. })
    ));
}

#[test]
fn builder_round_trip_to_format_tle() {
    let tle = parse_3le(ISS_NAME, ISS_L1, ISS_L2).unwrap();
    let (l1, l2) = format_tle(&tle).unwrap();
    assert_eq!(l1.len(), 69);
    assert_eq!(l2.len(), 69);
    let tle2 = parse_tle(&l1, &l2).unwrap();
    assert_eq!(tle.norad_id, tle2.norad_id);
    assert_eq!(tle.classification, tle2.classification);
    assert_eq!(tle.international_designator, tle2.international_designator);
    assert!((value(tle.inclination) - value(tle2.inclination)).abs() < 1e-4);
    assert!((value(tle.mean_motion) - value(tle2.mean_motion)).abs() < 1e-8);
    assert!((value(tle.bstar) - value(tle2.bstar)).abs() < 1e-9);
    assert_eq!(tle.element_set_number, tle2.element_set_number);
    assert_eq!(tle.revolution_number_at_epoch, tle2.revolution_number_at_epoch);
}

#[test]
fn builder_missing_field_errors() {
    let err = TleBuilder::new().build().unwrap_err();
    assert!(matches!(err, TleError::BuilderMissingField(_)));
}

#[test]
fn omm_round_trip_to_tle() {
    let tle1 = parse_3le(ISS_NAME, ISS_L1, ISS_L2).unwrap();
    let omm = Omm::from_tle(&tle1);
    let tle2 = omm.to_tle();
    assert_eq!(tle1.norad_id, tle2.norad_id);
    assert_eq!(tle1.international_designator, tle2.international_designator);
    assert!((value(tle1.inclination) - value(tle2.inclination)).abs() < 1e-9);
    assert!((value(tle1.mean_motion) - value(tle2.mean_motion)).abs() < 1e-12);
}

#[test]
fn omm_intl_designator_helpers() {
    assert_eq!(expand_intl_designator("98067A"), "1998-067A");
    assert_eq!(expand_intl_designator("00179B"), "2000-179B");
    assert_eq!(contract_intl_designator("1998-067A"), "98067A");
    assert_eq!(contract_intl_designator("2000-179B"), "00179B");
    assert_eq!(expand_intl_designator("FOO"), "FOO");
    assert_eq!(contract_intl_designator("NOPE"), "NOPE");
}

// ---------------------------------------------------------------------------
// Further cases
// ---------------------------------------------------------------------------

#[test]
fn omm_object_name_falls_back_to_catalogue_number() {
    let tle = parse_tle(ISS_L1, ISS_L2).unwrap();
    let omm = Omm::from_tle(&tle);
    assert_eq!(omm.object_name, "NORAD 25544");
    assert_eq!(omm.object_id, "1998-067A");
    assert_eq!(omm.ephemeris_type, 0);
    assert_eq!(omm.to_tle().name.as_deref(), Some("NORAD 25544"));
}

#[test]
fn designator_round_trip_trims_padding() {
    let padded = "  98067A  ";
    assert_eq!(contract_intl_designator(&expand_intl_designator(padded)), "98067A");
    assert_eq!(expand_intl_designator("57001A"), "1957-001A");
    assert_eq!(expand_intl_designator("56001A"), "2056-001A");
    assert_eq!(contract_intl_designator("98-067A"), "98-067A");
    assert_eq!(expand_intl_designator("9806"), "9806");
}

#[test]
fn default_classification_is_unclassified() {
    assert_eq!(default_classification(), "U");
}

#[test]
fn checksum_counts_minus_signs_as_one() {
    // digits sum plus one per '-'
    assert_eq!(compute_checksum("1-2-3"), 8);
    assert_eq!(compute_checksum("abc"), 0);
}

#[test]
fn formatted_vanguard_lines_validate_and_reparse() {
    let tle = parse_tle(VAN_L1, VAN_L2).unwrap();
    let (l1, l2) = format_tle(&tle).unwrap();
    validate_tle_checksum(&l1).unwrap();
    validate_tle_checksum(&l2).unwrap();
    let again = parse_tle(&l1, &l2).unwrap();
    assert_eq!(again.norad_id, SatelliteNumber(5));
    assert_eq!(again.international_designator.0, "58002B");
    assert_eq!(again.epoch.year, 2000);
    assert_eq!(again.revolution_number_at_epoch, tle.revolution_number_at_epoch);
}

#[test]
fn builder_sets_each_field() {
    let epoch = TleEpoch { year: 2008, day_of_year: dec(false, 26451782528, -8) };
    let tle = TleBuilder::new()
        .name("TEST")
        .norad_id(SatelliteNumber(25544))
        .international_designator(InternationalDesignator("98067A".to_string()))
        .epoch(epoch)
        .inclination(dec(false, 516416, -4))
        .raan(dec(false, 2474627, -4))
        .eccentricity(dec(false, 6703, -7))
        .argument_of_perigee(dec(false, 1305360, -4))
        .mean_anomaly(dec(false, 3250288, -4))
        .mean_motion(dec(false, 1572125391, -8))
        .build()
        .unwrap();
    assert_eq!(tle.name.as_deref(), Some("TEST"));
    assert_eq!(tle.epoch, epoch);
    assert_eq!(tle.classification, Classification::Unclassified);
    assert_eq!(tle.bstar, dec(false, 0, 0));
}

#[test]
fn epoch_day_366_is_valid_only_in_leap_years() {
    assert!(epoch_from_year_doy(2024, dec(false, 366, 0)).is_ok());
    assert!(epoch_from_year_doy(2100, dec(false, 366, 0)).is_err());
    assert!(epoch_from_year_doy(2000, dec(false, 366, 0)).is_ok());
}

#[test]
fn sgp4_elements_carry_the_element_set() {
    let tle = parse_3le(ISS_NAME, ISS_L1, ISS_L2).unwrap();
    let e = tle_to_elements(&tle).unwrap();
    assert_eq!(e.norad_id, 25544);
    assert_eq!(e.classification, Sgp4Classification::Unclassified);
    assert_eq!(e.international_designator.as_deref(), Some("98067A"));
    assert_eq!(e.element_set_number, 292);
    assert_eq!(e.revolution_number, 56353);
    assert_eq!(e.drag_term, tle.bstar);
    assert_eq!(e.ephemeris_type, 0);

    let mut old = tle.clone();
    old.epoch = TleEpoch { year: 1949, day_of_year: dec(false, 100, 0) };
    assert_eq!(
        tle_to_elements(&old).unwrap_err(),
        Sgp4Error::InvalidEpoch("year < 1950 not representable")
    );
    let mut bad = tle.clone();
    bad.epoch = TleEpoch { year: 2023, day_of_year: dec(false, 366, 0) };
    assert!(matches!(tle_to_elements(&bad), Err(Sgp4Error::TimeConversion(_))));
}

#[test]
fn format_rejects_unwritable_records() {
    let tle = parse_tle(ISS_L1, ISS_L2).unwrap();
    let mut big = tle.clone();
    big.norad_id = SatelliteNumber(340_000);
    assert!(matches!(format_tle(&big), Err(TleError::InvalidAlpha5 { raw }) if raw == "340000"));
    let mut bad = tle.clone();
    bad.epoch = TleEpoch { year: 2023, day_of_year: dec(false, 3665, -1) };
    assert!(matches!(format_tle(&bad), Err(TleError::EpochConversion(_))));
    let mut wide = tle.clone();
    wide.element_set_number = 10000;
    assert!(matches!(format_tle(&wide), Err(TleError::BadLength { line: 1, got: 70 })));
    let mut revs = tle.clone();
    revs.revolution_number_at_epoch = 100000;
    assert!(matches!(format_tle(&revs), Err(TleError::BadLength { line: 2, got: 70 })));
    let mut steep = tle.clone();
    steep.inclination = dec(false, 10000, 0);
    assert!(matches!(format_tle(&steep), Err(TleError::BadLength { line: 2, got: 71 })));
}

#[test]
fn assumed_decimal_rounding_carries_into_the_exponent() {
    let mut tle = parse_tle(ISS_L1, ISS_L2).unwrap();
    tle.bstar = dec(false, 999999, -9);
    let (l1, l2) = format_tle(&tle).unwrap();
    assert_eq!(l1.len(), 69);
    assert_eq!(&l1[53..61], " 10000-2");
    assert!(validate_tle_checksum(&l1).is_ok());
    let back = parse_tle(&l1, &l2).unwrap();
    assert_eq!(back.bstar, dec(false, 10000, -7));
    tle.mean_motion_ddot = dec(true, 999996, -6);
    let (l1, _) = format_tle(&tle).unwrap();
    assert_eq!(&l1[44..52], "-10000+1");
}

#[test]
fn valid_epochs_from_1950_convert_to_sgp4_elements() {
    let mut tle = parse_tle(ISS_L1, ISS_L2).unwrap();
    tle.epoch = TleEpoch { year: 1950, day_of_year: dec(false, 1, 0) };
    assert!(tle_to_elements(&tle).is_ok());
    tle.epoch = TleEpoch { year: 2024, day_of_year: dec(false, 3665, -1) };
    assert!(tle_to_elements(&tle).is_ok());
}

#[test]
fn reparsed_fields_are_rounded_as_their_columns_round() {
    let epoch = TleEpoch { year: 2008, day_of_year: dec(false, 264517825284, -9) };
    let tle = TleBuilder::new()
        .norad_id(SatelliteNumber(25544))
        .international_designator(InternationalDesignator("98067A".to_string()))
        .epoch(epoch)
        .inclination(dec(false, 1234565, -5))
        .raan(dec(true, 25, -1))
        .eccentricity(dec(false, 67035, -8))
        .argument_of_perigee(dec(false, 1305360, -4))
        .mean_anomaly(dec(false, 3250288, -4))
        .mean_motion(dec(false, 15721253915, -9))
        .bstar(dec(false, 123456, -9))
        .mean_motion_dot(dec(true, 2182, -8))
        .element_set_number(292)
        .revolution_number_at_epoch(56353)
        .build()
        .unwrap();
    let (l1, l2) = format_tle(&tle).unwrap();
    let back = parse_tle(&l1, &l2).unwrap();
    assert_eq!(back.norad_id, SatelliteNumber(25544));
    assert_eq!(back.international_designator.0, "98067A");
    assert_eq!(back.epoch.year, 2008);
    assert_eq!(back.epoch.day_of_year, dec(false, 26451782528, -8));
    assert_eq!(back.inclination, dec(false, 123456, -4));
    assert_eq!(back.raan, dec(true, 25000, -4));
    assert_eq!(back.eccentricity, dec(false, 6704, -7));
    assert_eq!(back.mean_motion, dec(false, 1572125392, -8));
    assert_eq!(back.bstar, dec(false, 12346, -8));
    assert_eq!(back.mean_motion_dot, dec(true, 2182, -8));
    assert_eq!(back.mean_motion_ddot, dec(false, 0, -5));
    assert_eq!(back.element_set_number, 292);
    assert_eq!(back.revolution_number_at_epoch, 56353);
    assert!(back.name.is_none());
}

#[test]
fn empty_builder_reports_the_catalogue_number_first() {
    assert!(matches!(TleBuilder::new().build(), Err(TleError::BuilderMissingField("norad_id"))));
    let partial = TleBuilder::new().norad_id(SatelliteNumber(1)).build();
    assert!(matches!(partial, Err(TleError::BuilderMissingField("international_designator"))));
}

#[test]
fn epoch_text_of_the_iss_element_set() {
    let tle = parse_tle(ISS_L1, ISS_L2).unwrap();
    assert_eq!(format_epoch(tle.epoch).unwrap(), "2008-09-20T12:25:40.104192");
    let van = parse_tle(VAN_L1, VAN_L2).unwrap();
    // day 179.78495062 of 2000: June 27th, 18:50:19.733568
    assert_eq!(format_epoch(van.epoch).unwrap(), "2000-06-27T18:50:19.733568");
}

#[test]
fn epoch_text_beyond_the_last_calendar_year_is_refused() {
    let last = TleEpoch { year: 262142, day_of_year: dec(false, 365999999999999999, -15) };
    assert!(matches!(format_epoch(last), Err(TleError::EpochConversion(_))));
    let before = TleEpoch { year: 262142, day_of_year: dec(false, 365, 0) };
    assert_eq!(format_epoch(before).unwrap(), "262142-12-31T00:00:00.000000");
}

#[test]
fn epoch_text_edges() {
    // a fraction that rounds to a whole day is the next midnight, here of the next year
    let e = TleEpoch { year: 2023, day_of_year: dec(false, 3659999999999999999, -16) };
    assert_eq!(format_epoch(e).unwrap(), "2024-01-01T00:00:00.000000");
    // the last day of a leap year
    let e = TleEpoch { year: 2024, day_of_year: dec(false, 3665, -1) };
    assert_eq!(format_epoch(e).unwrap(), "2024-12-31T12:00:00.000000");
    // years below 1000 and before year 0 keep four columns
    let e = TleEpoch { year: 5, day_of_year: dec(false, 60, 0) };
    assert_eq!(format_epoch(e).unwrap(), "0005-03-01T00:00:00.000000");
    let e = TleEpoch { year: -5, day_of_year: dec(false, 1, 0) };
    assert_eq!(format_epoch(e).unwrap(), "-005-01-01T00:00:00.000000");
    let e = TleEpoch { year: 2023, day_of_year: dec(false, 366, 0) };
    assert!(matches!(format_epoch(e), Err(TleError::EpochConversion(_))));
}

#[test]
fn epoch_text_keeps_whole_microseconds() {
    let e = TleEpoch { year: 2023, day_of_year: dec(false, 3659999999999999, -13) };
    assert_eq!(format_epoch(e).unwrap(), "2023-12-31T23:59:59.999999");
}

#[test]
fn formatting_parsed_canonical_lines_gives_them_back() {
    for (a, b) in [(ISS_L1, ISS_L2), (VAN_L1, VAN_L2)] {
        let tle = parse_tle(a, b).unwrap();
        let (l1, l2) = format_tle(&tle).unwrap();
        assert_eq!(l1, a);
        assert_eq!(l2, b);
    }
}

#[test]
fn epoch_text_reads_as_a_calendar_instant() {
    let iss = IsoInstant { year: 2008, ordinal: 264, second_of_day: 44740, nanosecond: 104192000 };
    assert_eq!(parse_epoch_fields("2008-09-20T12:25:40.104192").unwrap(), iss);
    let whole = IsoInstant { nanosecond: 0, ..iss };
    assert_eq!(parse_epoch_fields("  2008-09-20T12:25:40Z ").unwrap(), whole);
    assert_eq!(parse_epoch_fields("2008-09-20T12:25:40+00:00").unwrap(), whole);
    assert_eq!(parse_epoch_fields("2008-09-20T12:25:40.5ZZ").unwrap().nanosecond, 500000000);
}

#[test]
fn unreadable_epoch_text_keeps_the_raw_text() {
    assert!(matches!(
        parse_epoch_fields("2008-13-20T12:25:40"),
        Err(TleError::OmmInvalidEpoch { raw, reason: "out of range" }) if raw == "2008-13-20T12:25:40"
    ));
    assert!(matches!(
        parse_epoch_fields("2008-09-20Tab:00:00"),
        Err(TleError::OmmInvalidEpoch { reason: "invalid component", .. })
    ));
    assert!(matches!(
        parse_epoch_fields(" 2008-09-20 "),
        Err(TleError::OmmInvalidEpoch { raw, reason: "malformed ISO-8601" }) if raw == " 2008-09-20 "
    ));
}

#[test]
fn three_line_sets_fail_as_their_two_lines_do() {
    let short = &ISS_L1[..68];
    assert!(matches!(parse_3le("ISS", short, ISS_L2), Err(TleError::BadLength { line: 1, got: 68 })));
    assert!(matches!(parse_tle(short, ISS_L2), Err(TleError::BadLength { line: 1, got: 68 })));
    let named = parse_3le("", ISS_L1, ISS_L2).unwrap();
    let plain = parse_tle(ISS_L1, ISS_L2).unwrap();
    assert!(named.name.is_none());
    assert_eq!(named.norad_id, plain.norad_id);
    assert_eq!(named.epoch, plain.epoch);
}
