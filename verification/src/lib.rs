//! Collision core of a 2D rigid-body physics engine, on
//! fixed-point coordinates.
//!
//! The broad phase keeps a bounding-volume tree of fattened boxes in a slot
//! arena; the narrow phase turns overlapping shape pairs into contacts. Every
//! function carries a contract that Verus proves.

pub mod collision;
pub mod math;
pub mod shapes;
pub mod util;
pub mod world;

pub use math::{Bounds, Vec2};
pub use world::debug;
pub use world::{Body, BodyId, Transform};
