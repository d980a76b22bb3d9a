//! Poisson-disk ("blue noise") sampling over an axis-aligned rectangle.
//!
//! Points are generated with a grid-accelerated dart-throwing active-list
//! algorithm so that no two accepted points are closer than a caller-chosen
//! radius, and every accepted point lies strictly inside the domain.
//! Coordinates are fixed-point: callers pick a unit (say, 1/1000 of a world
//! unit) and pass all positions and radii as `i64` multiples of it.

pub mod vec2;
pub mod rng;
pub mod distributions;
pub mod grid;
pub mod poisson;
