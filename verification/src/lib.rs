//! A 2D simulation of bouncing, splitting circular bodies confined to a
//! rectangular arena, together with a software rasterizer that paints the
//! bodies into an RGBA pixel buffer.
//!
//! All geometry is carried in fixed-point milli-pixel units (`ball::SCALE`
//! units per pixel), so the physics step and the rasterizer are plain
//! integer arithmetic and are verified end to end.  Randomness enters only
//! through a small wrapper around the `rand` crate; everything that is done
//! with a random value once it is drawn is verified for every value it could
//! take.

pub mod ball;
pub mod render;
pub mod rng;
pub mod world;
