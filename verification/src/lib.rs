//! Lloyd's k-means clustering of planar grid points in exact arithmetic.
//!
//! Points lie on an integer grid. A centroid is a pair of fractions over one
//! denominator, so the mean of a cluster is held without rounding, and every
//! comparison of distances is decided exactly. Contracts speak of positions
//! and distances as real numbers.
//!
//! - `geometry`, `ratio`: points, centroids, thresholds and exact fractions.
//! - `cluster`: a centroid with its member list, its mean and squared error.
//! - `assign`: nearest-centroid selection and the assignment pass.
//! - `engine`: the clustering loop and what it refuses.
//! - `spread`, `descent`, `rest`: what holds of every run.
//! - `records`, `report`: rows of delimited text in, report records out.

pub mod ratio;
pub mod geometry;
pub mod cluster;
pub mod assign;
pub mod engine;
pub mod spread;
pub mod descent;
pub mod rest;
pub mod records;
pub mod report;
