//! Colour segmentation by k-means clustering over integer feature vectors.
//!
//! Samples are rows of channel values (`u8`). Centroid coordinates are fixed-point
//! numbers: a coordinate `c` stands for the real value `c / SCALE` on the channel
//! scale, so the arithmetic mean of a cluster is kept to a thousandth of a channel
//! step, rounded to nearest.
//!
//! - `model`: the mathematical model (distances, labels, clusters, means, the run).
//! - `assign`: the assignment step.
//! - `update`: the centroid update step.
//! - `kmeans`: the driver loop and the seeded initialisation.
//! - `sums`, `laws`, `descent`: properties of assignments and runs.

pub mod model;
pub mod assign;
pub mod update;
pub mod kmeans;
pub mod sums;
pub mod laws;
pub mod descent;
