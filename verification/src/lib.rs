//! Procedural surface and foliage texture synthesis support library.
//!
//! The crate centres on byte-level pixel work that can be stated and proved
//! exactly: dimension validation, colorspace-aware mipmap generation,
//! height-field to tangent-space-normal conversion in fixed-point arithmetic,
//! phyllotaxis attachment planning for twig cards, and a bounded worker pool
//! with cancellable, non-blocking-pollable texture requests.

pub mod arith;
pub mod async_gen;
pub mod generator;
pub mod mipmap;
pub mod normal;
pub mod srgb;
pub mod twig;

pub use generator::{
    validate_dimensions, TextureError, TextureGenerator, TextureMap, MAX_DIMENSION,
};
