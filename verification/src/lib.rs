//! Pricing of path-dependent, option-embedded instruments across a Monte
//! Carlo ensemble of scenarios: a flat 3-D scenario store with
//! interpolated lookup, a dense linear-algebra and regression kernel, a
//! correlated-variate simulator, and the least-squares backward-induction
//! engine that turns path-wise exercise and continuation values into priced
//! instruments under a single-exercise-per-path constraint.
//!
//! Every quantity is carried in fixed point: an `i64` scaled by
//! `fixnum::SCALE`.

pub mod curve;
pub mod data_cube;
pub mod fixnum;
pub mod linear_regressor;
pub mod logger;
pub mod lsm;
pub mod math;
pub mod matrix;
