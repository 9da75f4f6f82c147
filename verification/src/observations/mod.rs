//! Observation kinds and frame-transform errors.

pub mod obs_trait;
pub mod frame_transform;

pub use obs_trait::ObsType;
pub use frame_transform::FrameTransformError;
