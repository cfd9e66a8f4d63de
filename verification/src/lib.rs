//! Exact shortest closed tours over small sets of grid points.
//!
//! Cities are points with whole coordinates. Their distances are Euclidean,
//! held in fixed point and rounded up: whole numbers add up without error,
//! so the length of a tour does not depend on the order in which its edges
//! are summed, and rounding up keeps the triangle inequality exact. The
//! search walks every ordering of the cities behind a fixed anchor, city 0,
//! and keeps the first shortest tour it meets.
//!
//! - [`point`]: cities, and drawing them at random;
//! - [`root`]: square roots rounded up;
//! - [`grid`]: distances and the table of all pairwise distances;
//! - [`tour`]: tours and their lengths;
//! - [`order`]: the order in which the search evaluates the tours;
//! - [`search`]: the search itself;
//! - [`plot`]: placing cities on a coarse plot.

pub mod grid;
pub mod order;
pub mod plot;
pub mod point;
pub mod root;
pub mod search;
pub mod tour;
