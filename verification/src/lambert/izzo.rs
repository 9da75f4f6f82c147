//! Branch selectors of Izzo's Lambert solver.

use vstd::prelude::*;

verus! {

/// Transfer direction. A *prograde* transfer has its angular momentum along
/// `+z`; a *retrograde* one flips that sign.
#[derive(Debug, Clone, Copy, PartialEq, Eq, Structural)]
pub enum LambertBranch {
    /// Prograde (counter-clockwise as seen from `+z`).
    Prograde,
    /// Retrograde (clockwise as seen from `+z`).
    Retrograde,
}

/// Side of a multi-revolution solution: for `N ≥ 1` the problem has a
/// *left* (low-energy, short-period) and a *right* (high-energy,
/// long-period) root on either side of the time-of-flight minimum.
#[derive(Debug, Clone, Copy, PartialEq, Eq, Structural)]
pub enum NRevBranch {
    /// Low-energy / short-period side (smaller semi-major axis).
    Left,
    /// High-energy / long-period side (larger semi-major axis).
    Right,
}

} // verus!
