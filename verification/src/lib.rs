//! Grid-based shortest-path search: a 2D integer vector type, a family of
//! distance metrics, a map capability trait, and an A* pathfinder, together
//! with random-sampling helpers built on the `rand` crate.
//!
//! Distances and step costs are integers in units of one thousandth of an
//! orthogonal step, so that metrics involving a diagonal (`sqrt(2)`) factor
//! stay exact enough for search while remaining fully verifiable.

pub mod point;
pub mod distance;
pub mod random;
pub mod pmap;
pub mod basemap;
pub mod grid;
pub mod pathfinding;
