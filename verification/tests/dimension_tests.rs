use symbios_texture::{validate_dimensions, TextureError, MAX_DIMENSION};

#[test]
fn zero_width_fails() {
    assert_eq!(
        validate_dimensions(0, 7),
        Err(TextureError::ZeroDimension { width: 0, height: 7 })
    );
}

#[test]
fn zero_height_fails() {
    assert_eq!(
        validate_dimensions(512, 0),
        Err(TextureError::ZeroDimension { width: 512, height: 0 })
    );
}

#[test]
fn zero_both_fails() {
    assert_eq!(
        validate_dimensions(0, 0),
        Err(TextureError::ZeroDimension { width: 0, height: 0 })
    );
}

#[test]
fn too_large_width_fails() {
    assert_eq!(
        validate_dimensions(MAX_DIMENSION + 1, 16),
        Err(TextureError::DimensionTooLarge {
            width: MAX_DIMENSION + 1,
            height: 16,
            max: MAX_DIMENSION
        })
    );
}

#[test]
fn too_large_height_fails() {
    assert_eq!(
        validate_dimensions(16, MAX_DIMENSION + 1),
        Err(TextureError::DimensionTooLarge {
            width: 16,
            height: MAX_DIMENSION + 1,
            max: MAX_DIMENSION
        })
    );
}

#[test]
fn valid_dimensions_pass() {
    assert_eq!(validate_dimensions(1, 1), Ok(()));
    assert_eq!(validate_dimensions(512, 512), Ok(()));
    assert_eq!(validate_dimensions(MAX_DIMENSION, MAX_DIMENSION), Ok(()));
}

#[test]
fn error_messages_describe_the_failure() {
    let zero = TextureError::ZeroDimension { width: 0, height: 4 };
    let large = TextureError::DimensionTooLarge { width: 9000, height: 4, max: MAX_DIMENSION };
    assert_eq!(zero.message(), "texture dimensions must be non-zero");
    assert_eq!(large.message(), "texture dimensions exceed MAX_DIMENSION");
}

#[test]
fn texture_map_new_accepts_matching_buffers() {
    let map = symbios_texture::TextureMap::new(vec![0; 24], vec![0; 24], vec![0; 24], 3, 2)
        .expect("matching buffers");
    assert_eq!(map.width, 3);
    assert_eq!(map.height, 2);
    assert_eq!(map.albedo.len(), 3 * 2 * 4);
}

#[test]
fn texture_map_new_rejects_short_buffers() {
    assert!(symbios_texture::TextureMap::new(vec![0; 23], vec![0; 24], vec![0; 24], 3, 2).is_none());
    assert!(symbios_texture::TextureMap::new(vec![0; 24], vec![0; 4], vec![0; 24], 3, 2).is_none());
    assert!(symbios_texture::TextureMap::new(vec![0; 24], vec![0; 24], vec![], 3, 2).is_none());
}
