//! Conversion of element sets into the mean elements that SGP4 takes.

pub mod elements;

pub use elements::{tle_to_elements, Elements, Sgp4Classification, Sgp4Error};
