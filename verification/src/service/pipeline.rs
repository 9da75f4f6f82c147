//! Bookkeeping of the synthetic GNSS batch pipeline: the satellites and
//! epochs of an arc, the labels of its post-fit residuals and how a label
//! is grouped for statistics.
//!
//! The measurements themselves (ranges, sigmas) are real numbers and stay
//! with the caller; an epoch refers to them by index.

use vstd::prelude::*;
use vstd::string::StringSliceAdditionalSpecFns;

verus! {

/// A simulated GPS satellite.
#[derive(Debug, Clone)]
pub struct GpsSatellite {
    /// Three-character ID (e.g. `G01`).
    pub id: String,
    /// Slot index used by the synthetic ephemeris.
    pub slot: usize,
}

/// The observations of one epoch of an arc.
#[derive(Debug, Clone)]
pub struct ArcEpoch {
    /// Index of the corresponding state in the propagated series.
    pub state_index: usize,
    /// Code observations: the satellite and the index of the measurement.
    pub code: Vec<(GpsSatellite, usize)>,
    /// Carrier observations: the satellite and the index of the measurement.
    pub carrier: Vec<(GpsSatellite, usize)>,
}

/// A synthetic arc: the satellites in view and the epochs observed.
#[derive(Debug, Clone)]
pub struct SyntheticArc {
    /// The simulated GPS satellites.
    pub gps_sats: Vec<GpsSatellite>,
    /// The observed epochs.
    pub epochs: Vec<ArcEpoch>,
}

impl SyntheticArc {
    /// Number of GPS satellites of the arc (one float ambiguity each).
    pub fn gss_count(&self) -> (n: usize)
        ensures
            n == self.gps_sats@.len(),
    {
        self.gps_sats.len()
    }
}

/// Errors of the pipeline. Each carries the message of the failure it
/// reports.
#[derive(Debug, Clone, PartialEq, Eq)]
pub enum PipelineError {
    /// I/O failure.
    Io(String),
    /// Estimation failure.
    Estimation(String),
    /// SP3 write failure.
    Sp3(String),
    /// I/O umbrella errors from products.
    PodIo(String),
}

impl PipelineError {
    /// The error's message: a prefix naming the stage, then the cause.
    pub fn message(&self) -> (s: String)
        ensures
            s@ == match self {
                PipelineError::Io(m) => "I/O error: "@ + m@,
                PipelineError::Estimation(m) => "estimation: "@ + m@,
                PipelineError::Sp3(m) => "sp3: "@ + m@,
                PipelineError::PodIo(m) => "io: "@ + m@,
            },
    {
        let (mut s, m) = match self {
            PipelineError::Io(m) => (String::from_str("I/O error: "), m),
            PipelineError::Estimation(m) => (String::from_str("estimation: "), m),
            PipelineError::Sp3(m) => (String::from_str("sp3: "), m),
            PipelineError::PodIo(m) => (String::from_str("io: "), m),
        };
        s.append(m.as_str());
        s
    }
}

/// The group of a residual label: `code` for `code-…`, `phase` for
/// `phase-…`, `other` otherwise.
pub open spec fn kind_of(name: Seq<char>) -> Seq<char> {
    if "code-"@.is_prefix_of(name) {
        "code"@
    } else if "phase-"@.is_prefix_of(name) {
        "phase"@
    } else {
        "other"@
    }
}

/// Whether `name` begins with `prefix`.
fn has_prefix(name: &str, prefix: &str) -> (r: bool)
    ensures
        r == prefix@.is_prefix_of(name@),
{
    let n = crate::text::char_count(name);
    let p = crate::text::char_count(prefix);
    if p > n {
        return false;
    }
    let mut i: usize = 0;
    while i < p
        invariant
            p == prefix@.len(),
            n == name@.len(),
            p <= n,
            i <= p,
            forall|k: int| 0 <= k < i ==> prefix@[k] == name@[k],
        decreases p - i,
    {
        if prefix.get_char(i) != name.get_char(i) {
            return false;
        }
        i = i + 1;
    }
    true
}

/// The group a post-fit residual label belongs to.
pub fn residual_kind(name: &str) -> (r: &'static str)
    ensures
        r@ == kind_of(name@),
{
    if has_prefix(name, "code-") {
        "code"
    } else if has_prefix(name, "phase-") {
        "phase"
    } else {
        "other"
    }
}

/// Label of the post-fit residual of a code observation: `code-<id>`.
pub fn code_label(sat: &GpsSatellite) -> (s: String)
    ensures
        s@ == "code-"@ + sat.id@,
{
    let mut s = String::from_str("code-");
    s.append(sat.id.as_str());
    s
}

/// Label of the post-fit residual of a carrier observation: `phase-<id>`.
pub fn phase_label(sat: &GpsSatellite) -> (s: String)
    ensures
        s@ == "phase-"@ + sat.id@,
{
    let mut s = String::from_str("phase-");
    s.append(sat.id.as_str());
    s
}

/// Residual labels fall in the group of their observation: every code
/// label is grouped as `code` and every carrier label as `phase`, whatever
/// the satellite's id.
pub proof fn labels_group_by_observation(id: Seq<char>)
    ensures
        kind_of("code-"@ + id) == "code"@,
        kind_of("phase-"@ + id) == "phase"@,
{
    reveal_strlit("code-");
    reveal_strlit("phase-");
    assert(("code-"@ + id).subrange(0, 5) =~= "code-"@);
    assert(("phase-"@ + id).subrange(0, 6) =~= "phase-"@);
    assert(!"code-"@.is_prefix_of("phase-"@ + id)) by {
        assert(("phase-"@ + id)[0] == 'p');
        assert("code-"@[0] == 'c');
    }
}

} // verus!
