//! Point-cloud preparation for Gaussian splatting: density-aware subsampling
//! of point clouds, the initialisation settings of random splat clouds, and
//! the integer layout rules of spherical-harmonics coefficient buffers.

pub mod config;
pub mod order;
pub mod budget;
pub mod voxel;
pub mod sampling;
pub mod subsample;
pub mod splat_layout;
