use symbios_texture::normal::{
    dilate_heights, encode_direction, height_to_normal, BoundaryMode, HEIGHT_ONE, NORM_ONE,
    STRENGTH_ONE,
};

fn decoded_length_sq(pixel: &[u8]) -> i64 {
    let d0 = 2 * pixel[0] as i64 - 255;
    let d1 = 2 * pixel[1] as i64 - 255;
    let d2 = 2 * pixel[2] as i64 - 255;
    d0 * d0 + d1 * d1 + d2 * d2
}

#[test]
fn flat_heights_give_flat_normals() {
    let heights = vec![HEIGHT_ONE / 2; 6 * 4];
    let out = height_to_normal(&heights, 6, 4, 3 * STRENGTH_ONE, BoundaryMode::Wrap);
    assert_eq!(out.len(), 6 * 4 * 4);
    for px in out.chunks(4) {
        assert_eq!(px, &[128, 128, 255, 255]);
    }
}

#[test]
fn normal_buffer_has_pixel_count_times_four_bytes() {
    let heights = vec![0u32; 7 * 5];
    let out = height_to_normal(&heights, 7, 5, STRENGTH_ONE, BoundaryMode::Clamp);
    assert_eq!(out.len(), 7 * 5 * 4);
    for px in out.chunks(4) {
        assert_eq!(px[3], 255);
    }
}

#[test]
fn every_output_normal_has_unit_length() {
    // A rough pseudo-random height field.
    let w = 9u32;
    let h = 7u32;
    let mut heights = Vec::new();
    let mut v: u64 = 0x12345;
    for _ in 0..(w * h) {
        v = v.wrapping_mul(6364136223846793005).wrapping_add(1442695040888963407);
        heights.push((v % (HEIGHT_ONE as u64 + 1)) as u32);
    }
    for boundary in [BoundaryMode::Wrap, BoundaryMode::Clamp] {
        let out = height_to_normal(&heights, w, h, 4 * STRENGTH_ONE, boundary);
        for px in out.chunks(4) {
            let len_sq = decoded_length_sq(px);
            assert!(
                (63489..=66567).contains(&len_sq),
                "pixel {px:?} has length^2 {len_sq}"
            );
        }
    }
}

#[test]
fn rightward_slope_tilts_normal_left() {
    // Heights rise with x; the X channel must drop below 128 (normal
    // leans away from the slope) and Z stays positive.
    let heights: Vec<u32> = (0..8u32).map(|x| x * (HEIGHT_ONE / 8)).collect();
    let out = height_to_normal(&heights, 8, 1, 2 * STRENGTH_ONE, BoundaryMode::Clamp);
    let center = &out[3 * 4..3 * 4 + 4];
    assert!(center[0] < 128, "X channel {} should lean negative", center[0]);
    assert_eq!(center[1], 128);
    assert!(center[2] >= 128);
}

#[test]
fn one_pixel_axis_is_flat_not_a_crash() {
    let heights = vec![HEIGHT_ONE; 1];
    let out = height_to_normal(&heights, 1, 1, 8 * STRENGTH_ONE, BoundaryMode::Clamp);
    assert_eq!(out, vec![128, 128, 255, 255]);
}

#[test]
fn zero_dimension_gives_empty_normal_map() {
    let heights: Vec<u32> = Vec::new();
    let out = height_to_normal(&heights, 0, 5, STRENGTH_ONE, BoundaryMode::Wrap);
    assert!(out.is_empty());
}

#[test]
fn wrap_sees_the_far_edge_and_clamp_does_not() {
    // A single bright column: under Wrap the opposite edge neighbours it,
    // under Clamp the edge pixel uses a one-sided difference.
    let mut heights = vec![0u32; 4];
    heights[0] = HEIGHT_ONE;
    let wrap = height_to_normal(&heights, 4, 1, STRENGTH_ONE, BoundaryMode::Wrap);
    let clamp = height_to_normal(&heights, 4, 1, STRENGTH_ONE, BoundaryMode::Clamp);
    // Pixel 3 has the bright column as its right wrap-neighbour but not
    // as its clamp-neighbour.
    assert_ne!(&wrap[12..16], &clamp[12..16]);
}

#[test]
fn encode_direction_axes() {
    assert_eq!(encode_direction(0, 0, NORM_ONE), [128, 128, 255, 255]);
    assert_eq!(encode_direction(NORM_ONE, 0, 0), [255, 128, 128, 255]);
    assert_eq!(encode_direction(-NORM_ONE, 0, 0), [0, 128, 128, 255]);
    assert_eq!(encode_direction(0, 0, 0), [128, 128, 128, 255]);
}

#[test]
fn encode_direction_is_scale_invariant() {
    assert_eq!(encode_direction(3, 4, 12), encode_direction(300, 400, 1200));
}

#[test]
fn dilation_averages_opaque_neighbours() {
    // Row of three: opaque(1/4), transparent(0), opaque(3/4); the middle
    // becomes the average of its two opaque neighbours.
    let mut heights = vec![HEIGHT_ONE / 4, 0, 3 * (HEIGHT_ONE / 4)];
    let albedo = vec![
        0, 0, 0, 255, //
        0, 0, 0, 0, //
        0, 0, 0, 255,
    ];
    dilate_heights(&mut heights, &albedo, 3, 1);
    assert_eq!(
        heights,
        vec![HEIGHT_ONE / 4, HEIGHT_ONE / 2, 3 * (HEIGHT_ONE / 4)]
    );
}

#[test]
fn dilation_leaves_isolated_transparency_alone() {
    // All transparent: nothing has an opaque neighbour, heights stay put.
    let mut heights = vec![123u32, 456, 789, 1011];
    let albedo = vec![0u8; 16];
    dilate_heights(&mut heights, &albedo, 2, 2);
    assert_eq!(heights, vec![123, 456, 789, 1011]);
}

#[test]
fn dilation_does_not_cascade() {
    // Opaque at the left end only; the second pixel takes its height,
    // the third still sees only transparent pre-pass values around it.
    let mut heights = vec![HEIGHT_ONE, 0, 0];
    let albedo = vec![
        0, 0, 0, 255, //
        0, 0, 0, 0, //
        0, 0, 0, 0,
    ];
    dilate_heights(&mut heights, &albedo, 3, 1);
    assert_eq!(heights, vec![HEIGHT_ONE, HEIGHT_ONE, 0]);
}
