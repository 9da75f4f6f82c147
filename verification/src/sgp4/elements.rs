//! The mean elements an SGP4 propagator is initialised from, taken from an
//! element set: the epoch is checked, catalogue and counter fields are
//! widened and the classification carried over.

use vstd::prelude::*;
use crate::decimal::DecimalValue;
use crate::tle::{Classification, Tle, TleEpoch};
use crate::tle::parse::{epoch_check, epoch_from_year_doy};

verus! {

/// Errors of the conversion.
#[derive(Debug, Clone, PartialEq, Eq)]
pub enum Sgp4Error {
    /// The epoch is not a date of the calendar.
    TimeConversion(String),
    /// The epoch lies before what the element encoding can represent.
    InvalidEpoch(&'static str),
}

/// Security classification as SGP4 records it.
#[derive(Debug, Clone, Copy, PartialEq, Eq, Structural)]
pub enum Sgp4Classification {
    /// `U`.
    Unclassified,
    /// `C`.
    Classified,
    /// `S`.
    Secret,
}

/// Mean elements for SGP4.
#[derive(Debug, Clone)]
pub struct Elements {
    /// Satellite name, if any.
    pub object_name: Option<String>,
    /// International designator.
    pub international_designator: Option<String>,
    /// Catalogue number.
    pub norad_id: u64,
    /// Security classification.
    pub classification: Sgp4Classification,
    /// Epoch (UTC).
    pub epoch: TleEpoch,
    /// First derivative of mean motion / 2 (revolutions per day²).
    pub mean_motion_dot: DecimalValue,
    /// Second derivative of mean motion / 6 (revolutions per day³).
    pub mean_motion_ddot: DecimalValue,
    /// Drag term (1 / Earth radii).
    pub drag_term: DecimalValue,
    /// Element-set number.
    pub element_set_number: u64,
    /// Inclination (degrees).
    pub inclination: DecimalValue,
    /// Right ascension of the ascending node (degrees).
    pub right_ascension: DecimalValue,
    /// Eccentricity.
    pub eccentricity: DecimalValue,
    /// Argument of perigee (degrees).
    pub argument_of_perigee: DecimalValue,
    /// Mean anomaly (degrees).
    pub mean_anomaly: DecimalValue,
    /// Mean motion (revolutions per day).
    pub mean_motion: DecimalValue,
    /// Revolution number at epoch.
    pub revolution_number: u64,
    /// Ephemeris type (0 for SGP4).
    pub ephemeris_type: u8,
}

/// The SGP4 classification of an element-set classification.
pub open spec fn sgp4_class(c: Classification) -> Sgp4Classification {
    match c {
        Classification::Unclassified => Sgp4Classification::Unclassified,
        Classification::Classified => Sgp4Classification::Classified,
        Classification::Secret => Sgp4Classification::Secret,
    }
}

/// Convert an element set into SGP4 mean elements. An epoch that is not a
/// calendar date is a [`Sgp4Error::TimeConversion`]; one before 1950 an
/// [`Sgp4Error::InvalidEpoch`]; otherwise every field is carried over.
pub fn tle_to_elements(tle: &Tle) -> (r: Result<Elements, Sgp4Error>)
    ensures
        epoch_check(tle.epoch.year, tle.epoch.day_of_year) is Err <==> r matches Err(
            Sgp4Error::TimeConversion(_),
        ),
        r matches Err(Sgp4Error::TimeConversion(m)) ==> m@ == "TLE epoch → chrono failed"@,
        epoch_check(tle.epoch.year, tle.epoch.day_of_year) is Ok && tle.epoch.year >= 1950 ==> r is Ok,
        epoch_check(tle.epoch.year, tle.epoch.day_of_year) is Ok && tle.epoch.year < 1950 <==> r
            == Err::<Elements, Sgp4Error>(
            Sgp4Error::InvalidEpoch("year < 1950 not representable"),
        ),
        r matches Ok(e) ==> {
            &&& e.object_name == tle.name
            &&& e.international_designator == Some(tle.international_designator.0)
            &&& e.norad_id == tle.norad_id.0
            &&& e.classification == sgp4_class(tle.classification)
            &&& e.epoch == tle.epoch
            &&& e.mean_motion_dot == tle.mean_motion_dot
            &&& e.mean_motion_ddot == tle.mean_motion_ddot
            &&& e.drag_term == tle.bstar
            &&& e.element_set_number == tle.element_set_number
            &&& e.inclination == tle.inclination
            &&& e.right_ascension == tle.raan
            &&& e.eccentricity == tle.eccentricity
            &&& e.argument_of_perigee == tle.argument_of_perigee
            &&& e.mean_anomaly == tle.mean_anomaly
            &&& e.mean_motion == tle.mean_motion
            &&& e.revolution_number == tle.revolution_number_at_epoch
            &&& e.ephemeris_type == 0
        },
{
    if epoch_from_year_doy(tle.epoch.year, tle.epoch.day_of_year).is_err() {
        return Err(Sgp4Error::TimeConversion(String::from_str("TLE epoch → chrono failed")));
    }
    if tle.epoch.year < 1950 {
        return Err(Sgp4Error::InvalidEpoch("year < 1950 not representable"));
    }
    let classification = match tle.classification {
        Classification::Unclassified => Sgp4Classification::Unclassified,
        Classification::Classified => Sgp4Classification::Classified,
        Classification::Secret => Sgp4Classification::Secret,
    };
    Ok(
        Elements {
            object_name: tle.name.clone(),
            international_designator: Some(tle.international_designator.0.clone()),
            norad_id: tle.norad_id.0 as u64,
            classification,
            epoch: tle.epoch,
            mean_motion_dot: tle.mean_motion_dot,
            mean_motion_ddot: tle.mean_motion_ddot,
            drag_term: tle.bstar,
            element_set_number: tle.element_set_number as u64,
            inclination: tle.inclination,
            right_ascension: tle.raan,
            eccentricity: tle.eccentricity,
            argument_of_perigee: tle.argument_of_perigee,
            mean_anomaly: tle.mean_anomaly,
            mean_motion: tle.mean_motion,
            revolution_number: tle.revolution_number_at_epoch as u64,
            ephemeris_type: 0,
        },
    )
}

} // verus!
