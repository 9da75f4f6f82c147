//! Errors of the terrestrial/celestial frame-transform providers.

use vstd::prelude::*;

verus! {

/// A frame-transform provider could not compute a rotation.
#[derive(Debug, Clone, PartialEq, Eq)]
pub enum FrameTransformError {
    /// The provider could not compute the rotation at the requested epoch;
    /// the text says why.
    Failed(String),
}

impl FrameTransformError {
    /// The error's message: `frame transform failed: <reason>`.
    pub fn message(&self) -> (s: String)
        ensures
            self matches FrameTransformError::Failed(r) ==> s@ == "frame transform failed: "@ + r@,
    {
        match self {
            FrameTransformError::Failed(r) => {
                let mut s = String::from_str("frame transform failed: ");
                s.append(r.as_str());
                s
            },
        }
    }
}

} // verus!
