//! Geometry engine of a small first-person wall demo: points and wall
//! segments in integer fixed-point coordinates, distances, circle-versus-wall
//! collision, world transforms, near-plane clipping and screen projection.

pub mod laws;
pub mod math;
pub mod player;
pub mod walls;
