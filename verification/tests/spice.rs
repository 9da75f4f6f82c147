use siderust_pod::spice::naif_id_for_name;
use siderust_pod::spice::segment::{
    check_trailer, components_for_data_type, data_window, record_index, record_layout,
    SegmentLayoutError,
};
use siderust_pod::spice::well_known;

#[test]
fn name_lookup_handles_common_aliases() {
    assert_eq!(naif_id_for_name("SSB"), Some(0));
    assert_eq!(naif_id_for_name("Sun"), Some(10));
    assert_eq!(naif_id_for_name("  earth "), Some(399));
    assert_eq!(naif_id_for_name("emb"), Some(3));
    assert_eq!(naif_id_for_name("MoOn"), Some(301));
    assert_eq!(naif_id_for_name("notabody"), None);
}

#[test]
fn well_known_ids_are_consistent_with_lookup() {
    assert_eq!(naif_id_for_name("EARTH"), Some(well_known::EARTH));
    assert_eq!(naif_id_for_name("MOON"), Some(well_known::MOON));
    assert_eq!(naif_id_for_name("SUN"), Some(well_known::SUN));
    assert_eq!(naif_id_for_name("EMB"), Some(well_known::EARTH_MOON_BARYCENTER));
}

#[test]
fn name_lookup_documented_examples() {
    assert_eq!(naif_id_for_name("EARTH"), Some(399));
    assert_eq!(naif_id_for_name("solar system barycenter"), Some(0));
    assert_eq!(naif_id_for_name("Pluto"), Some(9));
    assert_eq!(naif_id_for_name("Andromeda"), None);
}

#[test]
fn name_lookup_covers_the_table() {
    assert_eq!(naif_id_for_name("mercury barycenter"), Some(1));
    assert_eq!(naif_id_for_name("Venus Barycenter"), Some(2));
    assert_eq!(naif_id_for_name("earth moon barycenter"), Some(3));
    assert_eq!(naif_id_for_name("EARTH BARYCENTER"), Some(3));
    assert_eq!(naif_id_for_name("mars barycenter"), Some(well_known::MARS_BARYCENTER));
    assert_eq!(naif_id_for_name("jupiter barycenter"), Some(well_known::JUPITER_BARYCENTER));
    assert_eq!(naif_id_for_name("saturn barycenter"), Some(6));
    assert_eq!(naif_id_for_name("uranus barycenter"), Some(7));
    assert_eq!(naif_id_for_name("neptune barycenter"), Some(8));
    assert_eq!(naif_id_for_name("pluto barycenter"), Some(9));
    assert_eq!(naif_id_for_name("mercury"), Some(199));
    assert_eq!(naif_id_for_name("venus"), Some(299));
    assert_eq!(naif_id_for_name("mars"), Some(well_known::MARS));
    assert_eq!(naif_id_for_name("jupiter"), Some(599));
    assert_eq!(naif_id_for_name("saturn"), Some(699));
    assert_eq!(naif_id_for_name("uranus"), Some(799));
    assert_eq!(naif_id_for_name("neptune"), Some(899));
    assert_eq!(naif_id_for_name("\tssb\n"), Some(well_known::SSB));
    assert_eq!(naif_id_for_name("earth  moon barycenter"), None);
    assert_eq!(naif_id_for_name(""), None);
}

#[test]
fn unsupported_data_type_rejected() {
    assert_eq!(
        components_for_data_type(13),
        Err(SegmentLayoutError::UnsupportedDataType { data_type: 13 })
    );
    assert_eq!(components_for_data_type(2), Ok(3));
    assert_eq!(components_for_data_type(3), Ok(6));
}

#[test]
fn rsize_not_divisible_by_components_rejected() {
    // rsize=6 with components=3 → (6-2)%3=1 → reject
    assert_eq!(
        record_layout(6, 1, 3),
        Err(SegmentLayoutError::RecordSizeNotMultiple { rsize: 6, components: 3 })
    );
}

#[test]
fn record_layout_checks_in_order() {
    assert_eq!(record_layout(5, 1, 3), Ok(1));
    assert_eq!(record_layout(8, 1, 6), Ok(1));
    assert_eq!(record_layout(8, 1, 3), Ok(2));
    assert_eq!(record_layout(4, 1, 3), Err(SegmentLayoutError::ImplausibleRecordSize { rsize: 4 }));
    assert_eq!(
        record_layout(4097, 1, 3),
        Err(SegmentLayoutError::ImplausibleRecordSize { rsize: 4097 })
    );
    assert_eq!(
        record_layout(5, 0, 3),
        Err(SegmentLayoutError::ImplausibleRecordCount { n_records: 0 })
    );
    assert_eq!(
        record_layout(5, 10_000_001, 3),
        Err(SegmentLayoutError::ImplausibleRecordCount { n_records: 10_000_001 })
    );
}

#[test]
fn trailer_and_window_checks() {
    assert_eq!(check_trailer(3), Err(SegmentLayoutError::TrailerTooSmall { end_word: 3 }));
    assert_eq!(check_trailer(9), Ok(()));
    // One record of five words at words 1..=5, trailer at 6..=9.
    assert_eq!(data_window(1, 9, 1, 5), Ok(5));
    assert_eq!(data_window(1, 5, 1, 5), Ok(5));
    assert_eq!(
        data_window(1, 4, 1, 5),
        Err(SegmentLayoutError::WindowOutsideSummary { start_word: 1, total: 5, end_word: 4 })
    );
    assert_eq!(
        data_window(1, 9, usize::MAX, 5),
        Err(SegmentLayoutError::RecordCountOverflow { n_records: usize::MAX, rsize: 5 })
    );
}

#[test]
fn record_index_clamps_into_the_segment() {
    assert_eq!(record_index(-3, 4, 8), (0, 0));
    assert_eq!(record_index(2, 4, 8), (2, 16));
    assert_eq!(record_index(4, 4, 8), (3, 24));
    assert_eq!(record_index(100, 4, 8), (3, 24));
}
