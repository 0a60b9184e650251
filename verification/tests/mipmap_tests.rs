use symbios_texture::mipmap::{average_block, generate_mipmaps, MipmapMode};
use symbios_texture::srgb::{linear_to_srgb, srgb_to_linear, LINEAR_ONE};

fn uniform_image(w: u32, h: u32, pixel: [u8; 4]) -> Vec<u8> {
    let mut data = Vec::new();
    for _ in 0..(w * h) {
        data.extend_from_slice(&pixel);
    }
    data
}

#[test]
fn srgb_round_trip_is_identity_for_every_byte() {
    for v in 0..=255u8 {
        let lin = srgb_to_linear(v);
        assert!(lin <= LINEAR_ONE);
        assert_eq!(linear_to_srgb(lin), v, "round trip broke at {v}");
    }
}

#[test]
fn srgb_decode_endpoints_are_exact() {
    assert_eq!(srgb_to_linear(0), 0);
    assert_eq!(srgb_to_linear(255), LINEAR_ONE);
}

#[test]
fn srgb_decode_is_strictly_increasing() {
    let mut prev = srgb_to_linear(0);
    for v in 1..=255u8 {
        let cur = srgb_to_linear(v);
        assert!(cur > prev, "decode not increasing at {v}: {prev} vs {cur}");
        prev = cur;
    }
}

#[test]
fn average_block_linear_uses_exact_byte_average() {
    let pixels = [[0u8, 0, 0, 0], [1, 3, 5, 255]];
    assert_eq!(average_block(&pixels, MipmapMode::Linear), [0, 1, 2, 127]);
    let quad = [[10u8, 20, 30, 40]; 4];
    assert_eq!(average_block(&quad, MipmapMode::Linear), [10, 20, 30, 40]);
    let single = [[200u8, 100, 50, 25]];
    assert_eq!(average_block(&single, MipmapMode::Linear), [200, 100, 50, 25]);
}

#[test]
fn average_block_srgb_keeps_uniform_color() {
    let quad = [[200u8, 100, 50, 255]; 4];
    assert_eq!(average_block(&quad, MipmapMode::Srgb), [200, 100, 50, 255]);
}

#[test]
fn average_block_srgb_averages_in_linear_light() {
    // Black and white average to linear 0.5, which encodes near 188 —
    // far brighter than the encoded-space average of 127.
    let pixels = [[0u8, 0, 0, 255], [255, 255, 255, 255]];
    let avg = average_block(&pixels, MipmapMode::Srgb);
    assert_eq!(avg, [188, 188, 188, 255]);
}

#[test]
fn average_block_normal_renormalizes() {
    // Decoded vectors (0, 1, 1) and (0, 1, 1): the sum renormalizes to
    // (0, 0.707, 0.707), not to the raw byte average.
    let pixels = [[255u8, 128, 128, 255], [0, 128, 128, 255]];
    let avg = average_block(&pixels, MipmapMode::Normal);
    assert_eq!(avg, [128, 218, 218, 255]);
}

#[test]
fn average_block_normal_exact_cancellation_is_flat() {
    // (+1, 1/255, 1/255) plus (-1, -1/255, -1/255) is the zero vector.
    let pixels = [[255u8, 128, 128, 255], [0, 127, 127, 255]];
    let avg = average_block(&pixels, MipmapMode::Normal);
    assert_eq!(avg, [128, 128, 128, 255]);
}

#[test]
fn average_block_normal_output_has_unit_length() {
    let blocks = [
        [[255u8, 128, 128, 255], [0, 128, 128, 255]],
        [[30u8, 200, 190, 255], [128, 128, 255, 255]],
        [[1u8, 254, 128, 255], [128, 128, 129, 255]],
    ];
    for pixels in blocks.iter() {
        let avg = average_block(pixels, MipmapMode::Normal);
        let d0 = 2 * avg[0] as i64 - 255;
        let d1 = 2 * avg[1] as i64 - 255;
        let d2 = 2 * avg[2] as i64 - 255;
        let len_sq = d0 * d0 + d1 * d1 + d2 * d2;
        assert!(
            (63489..=66567).contains(&len_sq),
            "length^2 {len_sq} outside the unit band"
        );
    }
}

#[test]
fn mip_chain_has_expected_shape() {
    // 5x3 halves to 2x1 and then 1x1: three levels.
    let base = uniform_image(5, 3, [9, 9, 9, 9]);
    let (data, levels) = generate_mipmaps(base, 5, 3, MipmapMode::Linear);
    assert_eq!(levels, 3);
    assert_eq!(data.len(), (15 + 2 + 1) * 4);
}

#[test]
fn mip_chain_keeps_base_level() {
    let mut base = Vec::new();
    for i in 0..(4 * 4 * 4) {
        base.push((i * 7 % 256) as u8);
    }
    let (data, _) = generate_mipmaps(base.clone(), 4, 4, MipmapMode::Linear);
    assert_eq!(&data[..base.len()], &base[..]);
}

#[test]
fn mip_first_level_is_block_average() {
    // A 2x2 base has one extra 1x1 level: exactly the linear average.
    let base = vec![
        0u8, 0, 0, 0, //
        10, 20, 30, 40, //
        20, 40, 60, 80, //
        30, 60, 90, 120,
    ];
    let (data, levels) = generate_mipmaps(base, 2, 2, MipmapMode::Linear);
    assert_eq!(levels, 2);
    assert_eq!(&data[16..20], &[15, 30, 45, 60]);
}

#[test]
fn mip_uniform_linear_stays_exact_at_every_level() {
    let pixel = [10u8, 200, 30, 255];
    let base = uniform_image(8, 8, pixel);
    let (data, levels) = generate_mipmaps(base, 8, 8, MipmapMode::Linear);
    assert_eq!(levels, 4);
    assert_eq!(data.len(), (64 + 16 + 4 + 1) * 4);
    for (i, b) in data.iter().enumerate() {
        assert_eq!(*b, pixel[i % 4], "byte {i} changed in the chain");
    }
}

#[test]
fn mip_uniform_srgb_stays_within_one_count() {
    let pixel = [200u8, 100, 50, 255];
    let base = uniform_image(8, 8, pixel);
    let (data, levels) = generate_mipmaps(base, 8, 8, MipmapMode::Srgb);
    assert_eq!(levels, 4);
    for (i, b) in data.iter().enumerate() {
        let expected = pixel[i % 4] as i32;
        let got = *b as i32;
        assert!(
            (got - expected).abs() <= 1,
            "byte {i}: {got} drifted from {expected}"
        );
    }
}

#[test]
fn mip_uniform_srgb_dark_color_stays_within_one_count() {
    // The dark end of the transfer curve is where naive averaging drifts.
    let pixel = [3u8, 7, 13, 255];
    let base = uniform_image(16, 4, pixel);
    let (data, _) = generate_mipmaps(base, 16, 4, MipmapMode::Srgb);
    for (i, b) in data.iter().enumerate() {
        let expected = pixel[i % 4] as i32;
        let got = *b as i32;
        assert!((got - expected).abs() <= 1);
    }
}

#[test]
fn mip_one_pixel_image_is_its_own_chain() {
    let base = vec![1u8, 2, 3, 4];
    let (data, levels) = generate_mipmaps(base.clone(), 1, 1, MipmapMode::Srgb);
    assert_eq!(levels, 1);
    assert_eq!(data, base);
}
