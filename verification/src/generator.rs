//! Core trait and data types shared by all texture generators.

use vstd::prelude::*;

verus! {

/// Maximum allowed texture dimension (per side).
///
/// Capped at 4096 to bound peak memory usage of a single synthesis job.
pub const MAX_DIMENSION: u32 = 4096;

/// Error returned when texture dimensions are invalid.
#[derive(Clone, Copy, Debug, PartialEq, Eq, Structural)]
pub enum TextureError {
    /// Either `width` or `height` was zero, which is not a valid texture size.
    ZeroDimension { width: u32, height: u32 },
    /// One or both dimensions exceeded [`MAX_DIMENSION`].
    DimensionTooLarge { width: u32, height: u32, max: u32 },
}

impl TextureError {
    /// Short human-readable description of the error.
    pub fn message(&self) -> (m: &'static str)
        ensures
            self is ZeroDimension ==> m@ == "texture dimensions must be non-zero"@,
            self is DimensionTooLarge ==> m@ == "texture dimensions exceed MAX_DIMENSION"@,
    {
        proof {
            reveal_strlit("texture dimensions must be non-zero");
            reveal_strlit("texture dimensions exceed MAX_DIMENSION");
        }
        match self {
            TextureError::ZeroDimension { .. } => "texture dimensions must be non-zero",
            TextureError::DimensionTooLarge { .. } => "texture dimensions exceed MAX_DIMENSION",
        }
    }
}

/// Raw pixel buffers produced by a [`TextureGenerator`].
pub struct TextureMap {
    /// RGBA8 sRGB-encoded colour (albedo) pixels, row-major.
    pub albedo: Vec<u8>,
    /// RGBA8 linear tangent-space normal map pixels, row-major.
    pub normal: Vec<u8>,
    /// RGBA8 ORM (Occlusion/Roughness/Metallic) pixels, row-major.
    pub roughness: Vec<u8>,
    /// Texture width in texels.
    pub width: u32,
    /// Texture height in texels.
    pub height: u32,
}

impl TextureMap {
    /// Every buffer holds exactly `width * height` RGBA8 pixels.
    pub open spec fn is_well_formed(self) -> bool {
        &&& self.albedo@.len() == self.width * self.height * 4
        &&& self.normal@.len() == self.width * self.height * 4
        &&& self.roughness@.len() == self.width * self.height * 4
    }

    /// Assemble a map from its three pixel buffers, exactly when every
    /// buffer holds `width * height` RGBA8 pixels.
    pub fn new(
        albedo: Vec<u8>,
        normal: Vec<u8>,
        roughness: Vec<u8>,
        width: u32,
        height: u32,
    ) -> (r: Option<TextureMap>)
        ensures
            r is Some <==> albedo@.len() == width * height * 4 && normal@.len() == width * height
                * 4 && roughness@.len() == width * height * 4,
            r matches Some(m) ==> m.is_well_formed() && m.albedo@ == albedo@ && m.normal@
                == normal@ && m.roughness@ == roughness@ && m.width == width && m.height == height,
    {
        assert((width as u128) * (height as u128) * 4 <= 0xFFFF_FFFFu128 * 0xFFFF_FFFF * 4)
            by (nonlinear_arith)
            requires
                width <= 0xFFFF_FFFFu32,
                height <= 0xFFFF_FFFFu32,
        ;
        let expected: u128 = (width as u128) * (height as u128) * 4;
        if albedo.len() as u128 == expected && normal.len() as u128 == expected
            && roughness.len() as u128 == expected {
            Some(TextureMap { albedo, normal, roughness, width, height })
        } else {
            None
        }
    }
}

/// Trait for procedural texture generators.
///
/// Each configuration struct that drives a specific material type should
/// provide an implementation that turns the configuration into a
/// fully-populated [`TextureMap`].
pub trait TextureGenerator {
    /// Generate albedo, normal, and roughness pixel buffers at the given size.
    ///
    /// Returns [`TextureError`] if `width` or `height` is zero or exceeds
    /// [`MAX_DIMENSION`].
    fn generate(&self, width: u32, height: u32) -> Result<TextureMap, TextureError>;
}

/// Dimension guard for texture generators.
///
/// Call at the top of every [`TextureGenerator::generate`] implementation.
/// Accepts exactly the sizes in `(0, MAX_DIMENSION]` on both axes; rejects
/// zero-sized textures and dimensions above [`MAX_DIMENSION`], each with its
/// own error, before any allocation happens.
pub fn validate_dimensions(width: u32, height: u32) -> (r: Result<(), TextureError>)
    ensures
        r is Ok <==> 0 < width <= MAX_DIMENSION && 0 < height <= MAX_DIMENSION,
        (width == 0 || height == 0) ==> r == Err::<(), TextureError>(
            TextureError::ZeroDimension { width, height },
        ),
        (width > 0 && height > 0 && (width > MAX_DIMENSION || height > MAX_DIMENSION)) ==> r
            == Err::<(), TextureError>(
            TextureError::DimensionTooLarge { width, height, max: MAX_DIMENSION },
        ),
{
    if width == 0 || height == 0 {
        return Err(TextureError::ZeroDimension { width, height });
    }
    if width > MAX_DIMENSION || height > MAX_DIMENSION {
        return Err(TextureError::DimensionTooLarge { width, height, max: MAX_DIMENSION });
    }
    Ok(())
}

} // verus!
