//! NAIF ids of the bodies exercised by POD workflows.

use vstd::prelude::*;

verus! {

/// Solar System Barycenter.
pub const SSB: i32 = 0;

/// Earth-Moon Barycenter.
pub const EARTH_MOON_BARYCENTER: i32 = 3;

/// Mars-system Barycenter.
pub const MARS_BARYCENTER: i32 = 4;

/// Jupiter-system Barycenter.
pub const JUPITER_BARYCENTER: i32 = 5;

/// Sun.
pub const SUN: i32 = 10;

/// Earth (planet, NAIF id 399).
pub const EARTH: i32 = 399;

/// Moon (NAIF id 301).
pub const MOON: i32 = 301;

/// Mars (planet, NAIF id 499).
pub const MARS: i32 = 499;

} // verus!
