//! Greedy radius-coverage clustering of geographic points.
//!
//! The library covers a batch of latitude/longitude points with a small set of
//! fixed-radius circular clusters: candidate centers are generated from the
//! point cloud, scored by how many points they cover, selected greedily, and
//! finally deduplicated.  Coordinates are held as integer microdegrees, so a
//! point's identity is its coordinate pair rounded to six decimal places, and
//! all distances are exact integer arithmetic over a small-angle spherical
//! approximation.
//!
//! The pipeline lives in [`greedy::Greedy`] and runs through [`geo`]
//! (distances and interpolation), [`pointset`] (deduplication),
//! [`spatial`] (the R-tree radius queries), [`candidates`], [`clusters`],
//! [`selection`], and [`dedupe`].  The [`api`], [`text`], and [`utils`]
//! modules hold the surrounding request utilities.

pub mod api;
pub mod candidates;
pub mod clusters;
pub mod dedupe;
pub mod geo;
pub mod greedy;
pub mod plugin;
pub mod pointset;
pub mod selection;
pub mod spatial;
pub mod text;
pub mod utils;
