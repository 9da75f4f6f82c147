//! Branch selectors of the Lambert boundary-value problem.

pub mod izzo;

pub use izzo::{LambertBranch, NRevBranch};
