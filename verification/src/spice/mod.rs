//! SPICE support: NAIF body identifiers and the layout of SPK Chebyshev
//! segments.

pub mod naif;
pub mod segment;
pub mod well_known;

pub use naif::naif_id_for_name;
