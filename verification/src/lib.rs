//! Verified core of a precise-orbit-determination toolkit: the NORAD
//! two-/three-line element format, its checksum and Alpha-5 catalogue
//! numbers, CCSDS OMM designator handling, NAIF body lookup and the
//! integer bookkeeping of SPK Chebyshev segments.

pub mod text;
pub mod decimal;
pub mod render;
pub mod tle;
pub mod spice;
pub mod lambert;
pub mod observations;
pub mod products;
pub mod service;
pub mod sgp4;
