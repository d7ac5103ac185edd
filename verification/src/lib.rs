//! A hierarchical 2D scene-graph node ("sprite"): a texture region with a
//! local affine transform, a tint/opacity model, and a frame-based animation
//! state machine, composed recursively into trees.
//!
//! All geometric and temporal quantities are fixed-point integers: a scalar
//! value of `1000` stands for `1.0` (see [`scalar`]). Rendering is modelled
//! as the production of an ordered list of textured-quad commands; replaying
//! those commands against a concrete rasterizer is left to the embedding
//! application.

pub mod frameset;
pub mod geom;
pub mod laws;
pub mod model;
pub mod scalar;
pub mod sprite;
mod ids;

pub use crate::frameset::FrameSet;
pub use crate::geom::{Quad, Rect, Rgb, Texture, Transform, TransformOp};
pub use crate::sprite::Sprite;
