//! Compiles raw per-card review histories into training items for a
//! memory-model optimizer, and fixes the decision logic of the cancellable,
//! progress-reporting pipeline that runs the optimizer's long computations.

pub mod convert;
pub mod evaluate;
pub mod model;
pub mod progress;
pub mod task;
