//! Orbit and residual products: the SP3/OEM writer settings, the SP3 header
//! and the streaming residual CSV writer.

pub mod orbit;
pub mod residuals_csv;

pub use orbit::{OemProductWriter, Sp3ProductWriter};
pub use residuals_csv::{PodProductsError, ResidualCsvWriter};
