//! Programmatic constructor for element sets.
//!
//! Required fields are the catalogue number, the international designator,
//! the epoch and the six mean elements. Optional fields default to an
//! unclassified record with zero drag terms, zero element-set and
//! revolution counters, and no name.

use vstd::prelude::*;
use crate::decimal::DecimalValue;
use super::parse::epoch_check;
use super::{
    opt_view, Classification, InternationalDesignator, SatelliteNumber, Tle, TleEpoch, TleError,
    TleErrorView, TleView,
};

verus! {

/// Builder for [`Tle`].
#[derive(Clone, Debug)]
pub struct TleBuilder {
    name: Option<String>,
    norad_id: Option<SatelliteNumber>,
    classification: Option<Classification>,
    international_designator: Option<InternationalDesignator>,
    epoch: Option<TleEpoch>,
    mean_motion_dot: DecimalValue,
    mean_motion_ddot: DecimalValue,
    bstar: DecimalValue,
    element_set_number: u16,
    revolution_number_at_epoch: u32,
    inclination: Option<DecimalValue>,
    raan: Option<DecimalValue>,
    eccentricity: Option<DecimalValue>,
    argument_of_perigee: Option<DecimalValue>,
    mean_anomaly: Option<DecimalValue>,
    mean_motion: Option<DecimalValue>,
}

/// Mathematical model of a [`TleBuilder`].
pub struct TleBuilderView {
    pub name: Option<Seq<char>>,
    pub norad_id: Option<SatelliteNumber>,
    pub classification: Option<Classification>,
    pub international_designator: Option<Seq<char>>,
    pub epoch: Option<TleEpoch>,
    pub mean_motion_dot: DecimalValue,
    pub mean_motion_ddot: DecimalValue,
    pub bstar: DecimalValue,
    pub element_set_number: u16,
    pub revolution_number_at_epoch: u32,
    pub inclination: Option<DecimalValue>,
    pub raan: Option<DecimalValue>,
    pub eccentricity: Option<DecimalValue>,
    pub argument_of_perigee: Option<DecimalValue>,
    pub mean_anomaly: Option<DecimalValue>,
    pub mean_motion: Option<DecimalValue>,
}

/// The characters of an optional designator.
pub open spec fn designator_view(d: Option<InternationalDesignator>) -> Option<Seq<char>> {
    match d {
        Some(x) => Some(x.0@),
        None => None,
    }
}

impl View for TleBuilder {
    type V = TleBuilderView;

    closed spec fn view(&self) -> TleBuilderView {
        TleBuilderView {
            name: opt_view(self.name),
            norad_id: self.norad_id,
            classification: self.classification,
            international_designator: designator_view(self.international_designator),
            epoch: self.epoch,
            mean_motion_dot: self.mean_motion_dot,
            mean_motion_ddot: self.mean_motion_ddot,
            bstar: self.bstar,
            element_set_number: self.element_set_number,
            revolution_number_at_epoch: self.revolution_number_at_epoch,
            inclination: self.inclination,
            raan: self.raan,
            eccentricity: self.eccentricity,
            argument_of_perigee: self.argument_of_perigee,
            mean_anomaly: self.mean_anomaly,
            mean_motion: self.mean_motion,
        }
    }
}

/// The empty builder: nothing set, optional fields at their defaults.
pub open spec fn empty_builder() -> TleBuilderView {
    TleBuilderView {
        name: None,
        norad_id: None,
        classification: None,
        international_designator: None,
        epoch: None,
        mean_motion_dot: DecimalValue::zero(),
        mean_motion_ddot: DecimalValue::zero(),
        bstar: DecimalValue::zero(),
        element_set_number: 0,
        revolution_number_at_epoch: 0,
        inclination: None,
        raan: None,
        eccentricity: None,
        argument_of_perigee: None,
        mean_anomaly: None,
        mean_motion: None,
    }
}

/// What [`TleBuilder::build`] gives: the record, or the first mandatory
/// field (in the order catalogue number, designator, epoch, inclination,
/// node, eccentricity, perigee, anomaly, mean motion) that is unset.
pub open spec fn build_spec(v: TleBuilderView) -> Result<TleView, TleErrorView> {
    if v.norad_id is None {
        Err(TleErrorView::BuilderMissingField("norad_id"))
    } else if v.international_designator is None {
        Err(TleErrorView::BuilderMissingField("international_designator"))
    } else if v.epoch is None {
        Err(TleErrorView::BuilderMissingField("epoch"))
    } else if v.inclination is None {
        Err(TleErrorView::BuilderMissingField("inclination"))
    } else if v.raan is None {
        Err(TleErrorView::BuilderMissingField("raan"))
    } else if v.eccentricity is None {
        Err(TleErrorView::BuilderMissingField("eccentricity"))
    } else if v.argument_of_perigee is None {
        Err(TleErrorView::BuilderMissingField("argument_of_perigee"))
    } else if v.mean_anomaly is None {
        Err(TleErrorView::BuilderMissingField("mean_anomaly"))
    } else if v.mean_motion is None {
        Err(TleErrorView::BuilderMissingField("mean_motion"))
    } else {
        Ok(
            TleView {
                name: v.name,
                norad_id: v.norad_id.unwrap(),
                classification: match v.classification {
                    Some(c) => c,
                    None => Classification::Unclassified,
                },
                international_designator: v.international_designator.unwrap(),
                epoch: v.epoch.unwrap(),
                mean_motion_dot: v.mean_motion_dot,
                mean_motion_ddot: v.mean_motion_ddot,
                bstar: v.bstar,
                element_set_number: v.element_set_number,
                revolution_number_at_epoch: v.revolution_number_at_epoch,
                inclination: v.inclination.unwrap(),
                raan: v.raan.unwrap(),
                eccentricity: v.eccentricity.unwrap(),
                argument_of_perigee: v.argument_of_perigee.unwrap(),
                mean_anomaly: v.mean_anomaly.unwrap(),
                mean_motion: v.mean_motion.unwrap(),
            },
        )
    }
}

impl TleBuilder {
    /// Construct an empty builder.
    pub fn new() -> (b: Self)
        ensures
            b@ == empty_builder(),
    {
        TleBuilder {
            name: None,
            norad_id: None,
            classification: None,
            international_designator: None,
            epoch: None,
            mean_motion_dot: DecimalValue::Finite { negative: false, mantissa: 0, exponent: 0 },
            mean_motion_ddot: DecimalValue::Finite { negative: false, mantissa: 0, exponent: 0 },
            bstar: DecimalValue::Finite { negative: false, mantissa: 0, exponent: 0 },
            element_set_number: 0,
            revolution_number_at_epoch: 0,
            inclination: None,
            raan: None,
            eccentricity: None,
            argument_of_perigee: None,
            mean_anomaly: None,
            mean_motion: None,
        }
    }

    /// Set the optional satellite name (line 0 of a 3LE).
    pub fn name(self, name: &str) -> (b: Self)
        ensures
            b@ == (TleBuilderView { name: Some(name@), ..self@ }),
    {
        let mut b = self;
        b.name = Some(name.to_owned());
        b
    }

    /// Set the catalogue number.
    pub fn norad_id(self, n: SatelliteNumber) -> (b: Self)
        ensures
            b@ == (TleBuilderView { norad_id: Some(n), ..self@ }),
    {
        let mut b = self;
        b.norad_id = Some(n);
        b
    }

    /// Set the classification.
    pub fn classification(self, c: Classification) -> (b: Self)
        ensures
            b@ == (TleBuilderView { classification: Some(c), ..self@ }),
    {
        let mut b = self;
        b.classification = Some(c);
        b
    }

    /// Set the international designator.
    pub fn international_designator(self, d: InternationalDesignator) -> (b: Self)
        ensures
            b@ == (TleBuilderView { international_designator: Some(d.0@), ..self@ }),
    {
        let mut b = self;
        b.international_designator = Some(d);
        b
    }

    /// Set the epoch (a calendar instant).
    pub fn epoch(self, t: TleEpoch) -> (b: Self)
        requires
            epoch_check(t.year, t.day_of_year) is Ok,
        ensures
            b@ == (TleBuilderView { epoch: Some(t), ..self@ }),
    {
        let mut b = self;
        b.epoch = Some(t);
        b
    }

    /// Set the first time derivative of mean motion (revolutions per day²).
    pub fn mean_motion_dot(self, v: DecimalValue) -> (b: Self)
        ensures
            b@ == (TleBuilderView { mean_motion_dot: v, ..self@ }),
    {
        let mut b = self;
        b.mean_motion_dot = v;
        b
    }

    /// Set the second time derivative of mean motion (revolutions per day³).
    pub fn mean_motion_ddot(self, v: DecimalValue) -> (b: Self)
        ensures
            b@ == (TleBuilderView { mean_motion_ddot: v, ..self@ }),
    {
        let mut b = self;
        b.mean_motion_ddot = v;
        b
    }

    /// Set the SGP4 drag term (1 / Earth radii).
    pub fn bstar(self, v: DecimalValue) -> (b: Self)
        ensures
            b@ == (TleBuilderView { bstar: v, ..self@ }),
    {
        let mut b = self;
        b.bstar = v;
        b
    }

    /// Set the element-set number.
    pub fn element_set_number(self, v: u16) -> (b: Self)
        ensures
            b@ == (TleBuilderView { element_set_number: v, ..self@ }),
    {
        let mut b = self;
        b.element_set_number = v;
        b
    }

    /// Set the revolution number at epoch.
    pub fn revolution_number_at_epoch(self, v: u32) -> (b: Self)
        ensures
            b@ == (TleBuilderView { revolution_number_at_epoch: v, ..self@ }),
    {
        let mut b = self;
        b.revolution_number_at_epoch = v;
        b
    }

    /// Set the inclination (degrees).
    pub fn inclination(self, v: DecimalValue) -> (b: Self)
        ensures
            b@ == (TleBuilderView { inclination: Some(v), ..self@ }),
    {
        let mut b = self;
        b.inclination = Some(v);
        b
    }

    /// Set the right ascension of the ascending node (degrees).
    pub fn raan(self, v: DecimalValue) -> (b: Self)
        ensures
            b@ == (TleBuilderView { raan: Some(v), ..self@ }),
    {
        let mut b = self;
        b.raan = Some(v);
        b
    }

    /// Set the eccentricity.
    pub fn eccentricity(self, v: DecimalValue) -> (b: Self)
        ensures
            b@ == (TleBuilderView { eccentricity: Some(v), ..self@ }),
    {
        let mut b = self;
        b.eccentricity = Some(v);
        b
    }

    /// Set the argument of perigee (degrees).
    pub fn argument_of_perigee(self, v: DecimalValue) -> (b: Self)
        ensures
            b@ == (TleBuilderView { argument_of_perigee: Some(v), ..self@ }),
    {
        let mut b = self;
        b.argument_of_perigee = Some(v);
        b
    }

    /// Set the mean anomaly (degrees).
    pub fn mean_anomaly(self, v: DecimalValue) -> (b: Self)
        ensures
            b@ == (TleBuilderView { mean_anomaly: Some(v), ..self@ }),
    {
        let mut b = self;
        b.mean_anomaly = Some(v);
        b
    }

    /// Set the mean motion (revolutions per day).
    pub fn mean_motion(self, v: DecimalValue) -> (b: Self)
        ensures
            b@ == (TleBuilderView { mean_motion: Some(v), ..self@ }),
    {
        let mut b = self;
        b.mean_motion = Some(v);
        b
    }

    /// Finalise the builder. Returns [`TleError::BuilderMissingField`]
    /// naming the first mandatory field left unset.
    pub fn build(self) -> (r: Result<Tle, TleError>)
        ensures
            match r {
                Ok(t) => build_spec(self@) == Ok::<TleView, TleErrorView>(t@),
                Err(e) => build_spec(self@) == Err::<TleView, TleErrorView>(e@),
            },
            r matches Ok(t) ==> (match self@.classification {
                Some(c) => t.classification == c,
                None => t.classification == Classification::Unclassified,
            }),
    {
        let norad_id = match self.norad_id {
            Some(v) => v,
            None => {
                return Err(TleError::BuilderMissingField("norad_id"));
            },
        };
        let classification = match self.classification {
            Some(c) => c,
            None => Classification::Unclassified,
        };
        let international_designator = match self.international_designator {
            Some(v) => v,
            None => {
                return Err(TleError::BuilderMissingField("international_designator"));
            },
        };
        let epoch = match self.epoch {
            Some(v) => v,
            None => {
                return Err(TleError::BuilderMissingField("epoch"));
            },
        };
        let inclination = match self.inclination {
            Some(v) => v,
            None => {
                return Err(TleError::BuilderMissingField("inclination"));
            },
        };
        let raan = match self.raan {
            Some(v) => v,
            None => {
                return Err(TleError::BuilderMissingField("raan"));
            },
        };
        let eccentricity = match self.eccentricity {
            Some(v) => v,
            None => {
                return Err(TleError::BuilderMissingField("eccentricity"));
            },
        };
        let argument_of_perigee = match self.argument_of_perigee {
            Some(v) => v,
            None => {
                return Err(TleError::BuilderMissingField("argument_of_perigee"));
            },
        };
        let mean_anomaly = match self.mean_anomaly {
            Some(v) => v,
            None => {
                return Err(TleError::BuilderMissingField("mean_anomaly"));
            },
        };
        let mean_motion = match self.mean_motion {
            Some(v) => v,
            None => {
                return Err(TleError::BuilderMissingField("mean_motion"));
            },
        };
        Ok(
            Tle {
                name: self.name,
                norad_id,
                classification,
                international_designator,
                epoch,
                mean_motion_dot: self.mean_motion_dot,
                mean_motion_ddot: self.mean_motion_ddot,
                bstar: self.bstar,
                element_set_number: self.element_set_number,
                revolution_number_at_epoch: self.revolution_number_at_epoch,
                inclination,
                raan,
                eccentricity,
                argument_of_perigee,
                mean_anomaly,
                mean_motion,
            },
        )
    }
}

/// Building succeeds exactly when every mandatory field has been set, and
/// the record then carries the values that were set.
pub proof fn build_succeeds_iff_complete(v: TleBuilderView)
    ensures
        build_spec(v) is Ok <==> (v.norad_id is Some && v.international_designator is Some
            && v.epoch is Some && v.inclination is Some && v.raan is Some && v.eccentricity is Some
            && v.argument_of_perigee is Some && v.mean_anomaly is Some && v.mean_motion is Some),
        build_spec(v) matches Ok(t) ==> t.name == v.name && Some(t.norad_id) == v.norad_id
            && Some(t.epoch) == v.epoch && Some(t.inclination) == v.inclination && Some(t.mean_motion)
            == v.mean_motion && t.bstar == v.bstar,
{
}

/// A built record carries every field that was set, the optional ones
/// included: a set classification is the record's classification (only an
/// unset one defaults to unclassified), and a set name, drag term,
/// derivative or counter is the record's.
pub proof fn set_fields_are_carried(v: TleBuilderView, c: Classification)
    ensures
        build_spec(v) matches Ok(t) ==> {
            &&& (v.classification == Some(c) ==> t.classification == c)
            &&& (v.classification is None ==> t.classification == Classification::Unclassified)
            &&& t.name == v.name
            &&& Some(t.norad_id) == v.norad_id
            &&& Some(t.international_designator) == v.international_designator
            &&& Some(t.epoch) == v.epoch
            &&& t.mean_motion_dot == v.mean_motion_dot
            &&& t.mean_motion_ddot == v.mean_motion_ddot
            &&& t.bstar == v.bstar
            &&& t.element_set_number == v.element_set_number
            &&& t.revolution_number_at_epoch == v.revolution_number_at_epoch
            &&& Some(t.inclination) == v.inclination
            &&& Some(t.raan) == v.raan
            &&& Some(t.eccentricity) == v.eccentricity
            &&& Some(t.argument_of_perigee) == v.argument_of_perigee
            &&& Some(t.mean_anomaly) == v.mean_anomaly
            &&& Some(t.mean_motion) == v.mean_motion
        },
{
}

/// A new builder fails on the catalogue number first.
pub proof fn empty_builder_misses_norad_id()
    ensures
        build_spec(empty_builder()) == Err::<TleView, TleErrorView>(
            TleErrorView::BuilderMissingField("norad_id"),
        ),
{
}

/// A builder given only the mandatory fields builds the record with the
/// documented defaults: unclassified, zero drag terms, zero element-set
/// and revolution numbers, and no name.
pub proof fn required_fields_take_defaults(
    norad_id: SatelliteNumber,
    designator: Seq<char>,
    epoch: TleEpoch,
    inclination: DecimalValue,
    raan: DecimalValue,
    eccentricity: DecimalValue,
    argument_of_perigee: DecimalValue,
    mean_anomaly: DecimalValue,
    mean_motion: DecimalValue,
)
    ensures
        build_spec(
            TleBuilderView {
                norad_id: Some(norad_id),
                international_designator: Some(designator),
                epoch: Some(epoch),
                inclination: Some(inclination),
                raan: Some(raan),
                eccentricity: Some(eccentricity),
                argument_of_perigee: Some(argument_of_perigee),
                mean_anomaly: Some(mean_anomaly),
                mean_motion: Some(mean_motion),
                ..empty_builder()
            },
        ) == Ok::<TleView, TleErrorView>(
            TleView {
                name: None,
                norad_id,
                classification: Classification::Unclassified,
                international_designator: designator,
                epoch,
                mean_motion_dot: DecimalValue::zero(),
                mean_motion_ddot: DecimalValue::zero(),
                bstar: DecimalValue::zero(),
                element_set_number: 0,
                revolution_number_at_epoch: 0,
                inclination,
                raan,
                eccentricity,
                argument_of_perigee,
                mean_anomaly,
                mean_motion,
            },
        ),
{
}

} // verus!
