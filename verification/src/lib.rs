//! A grid-based raycasting and projection engine.
//!
//! The engine renders a first-person pseudo-3D view of a 2D tile grid:
//! a DDA (digital differential analyzer) traversal finds, for a given
//! origin and angle, the first blocking tile and the exact crossing
//! point and travel distance; an entity motion model keeps the viewer's
//! pose; a projection module turns ray distances into screen-space wall
//! heights with fisheye correction.
//!
//! All world-space quantities are fixed-point numbers: an `i64` counts
//! units of `1 / 65536` of a world unit. Direction components are the
//! sine and cosine of the ray angle in the same representation, so they
//! lie in `[-65536, 65536]`; the platform layer computes them. Windowing,
//! input polling and pixel drawing are platform concerns and stay outside
//! this crate.

pub mod entity;
pub mod fixed;
pub mod grid;
pub mod project;
pub mod raycast;
