//! A 2-D particle-simulation core: an ordered collection of points with
//! fixed-point integer coordinates, and an alternating-axis binary spatial
//! tree over a snapshot of such a collection, supporting exact
//! radius-bounded neighbor queries.
//!
//! Coordinates are plain `i64` values; a caller that works in real units
//! chooses a scale and embeds its coordinates as scaled integers. All
//! comparisons and distance tests are exact integer arithmetic, so the
//! neighbor search is proved to return exactly the points whose squared
//! distance to the query is below the squared radius.

pub mod gen_grid2d;
pub mod kd_tree;
