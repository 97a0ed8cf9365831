//! A point-in-polygon query engine: a coarse bounding-box index over a
//! polygon set, followed by an exact crossing-number containment test.
//!
//! Coordinates are fixed-point integers (`i64`); a host working in floating
//! point scales its coordinates to this grid before loading or querying.

pub mod geometry;
pub mod bbox;
pub mod containment;
pub mod index;
pub mod engine;
pub mod clock;
pub mod store;

pub use geometry::Point;
pub use geometry::Polygon;
pub use geometry::GeoError;
pub use store::IndexStore;
pub use store::rocket;
