//! The synthetic batch orbit-determination pipeline: its arc description,
//! errors and residual labelling.

pub mod pipeline;

pub use pipeline::{ArcEpoch, GpsSatellite, PipelineError, SyntheticArc};
