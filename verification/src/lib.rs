//! A small signal-processing pipeline over fixed-point scalars:
//! sampling a scalar function on a uniform grid, denoising the sampled
//! sequence with a piecewise-mean stochastic filter of a given order,
//! and computing a padded bounding box for diagnostic coordinate pairs.

pub mod bounds;
pub mod error;
pub mod filter;
pub mod fixed;
pub mod sampler;
