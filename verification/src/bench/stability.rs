//! How far engines agree with themselves under different seeds.
pub use crate::bench::aggregate::{aggregate_stability, StabilityGroup};
