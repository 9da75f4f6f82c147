//! Kinds of observation handled by the estimator.

use vstd::prelude::*;

verus! {

/// The kind of an observation.
#[derive(Debug, Clone, Copy, PartialEq, Eq, Structural, Hash)]
pub enum ObsType {
    /// GNSS pseudorange (code-based one-way range, metres).
    GnssPseudorange,
    /// GNSS carrier-phase range (phase-based, metres + integer ambiguity).
    GnssCarrierPhase,
    /// SLR two-way normal-point range (metres).
    SlrNormalPoint,
    /// Inter-satellite range (metres), e.g. LISA arm lengths.
    InterSatRange,
    /// Doppler/range-rate (m/s).
    Doppler,
}

} // verus!
