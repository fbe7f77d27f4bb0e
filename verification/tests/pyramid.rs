use webarkit_kpm::pyramid::{downsample, downsample_scalar, ImageU8, Pyramid, PyramidError};

/// Synthetic gradient image: pixel (r, c) = (r * cols + c) as u8.
fn gradient(rows: usize, cols: usize) -> ImageU8 {
    let data: Vec<u8> = (0..rows * cols).map(|i| (i & 0xFF) as u8).collect();
    ImageU8 { rows, cols, channels: 1, data }
}

fn two() -> u32 {
    2.0f32.to_bits()
}

#[test]
fn test_pyramid_level_count() {
    let img = gradient(64, 64);
    let mut p = Pyramid::new(4, two());
    p.build(&img).expect("build should succeed");
    assert_eq!(p.num_levels(), 4);
}

#[test]
fn test_pyramid_level_dimensions_shrink() {
    let img = gradient(64, 64);
    let mut p = Pyramid::new(3, two());
    p.build(&img).unwrap();
    assert_eq!(p.level(0).rows, 64);
    assert_eq!(p.level(0).cols, 64);
    assert_eq!(p.level(1).rows, 32);
    assert_eq!(p.level(1).cols, 32);
    assert_eq!(p.level(2).rows, 16);
    assert_eq!(p.level(2).cols, 16);
}

#[test]
fn test_pyramid_pixel_values_in_range() {
    let img = gradient(32, 32);
    let mut p = Pyramid::new(3, two());
    p.build(&img).unwrap();
    for k in 0..p.num_levels() {
        let lvl = p.level(k);
        assert!(lvl.rows > 0 && lvl.cols > 0);
        assert_eq!(lvl.data.len(), lvl.rows * lvl.cols);
    }
}

#[test]
fn test_pyramid_box_filter_known_values() {
    let data = vec![10, 20, 30, 40, 50, 60, 70, 80, 90, 100, 110, 120, 130, 140, 150, 160];
    let src = ImageU8 { rows: 4, cols: 4, channels: 1, data };
    let mut p = Pyramid::new(2, two());
    p.build(&src).unwrap();
    assert_eq!(p.level(1).data.as_slice(), &[35, 55, 115, 135]);
}

#[test]
fn test_pyramid_build_is_idempotent() {
    let img1 = gradient(32, 32);
    let img2 = gradient(16, 16);
    let mut p = Pyramid::new(2, two());
    p.build(&img1).unwrap();
    p.build(&img2).unwrap();
    assert_eq!(p.num_levels(), 2);
    assert_eq!(p.level(0).rows, 16);
    assert_eq!(p.level(0).cols, 16);
}

#[test]
fn test_pyramid_empty_image_returns_error() {
    let img = ImageU8 { rows: 0, cols: 0, channels: 1, data: Vec::new() };
    let mut p = Pyramid::new(2, two());
    assert_eq!(p.build(&img), Err(PyramidError::EmptyImage));
}

#[test]
fn test_pyramid_invalid_scale_returns_error() {
    let img = gradient(16, 16);
    let mut p = Pyramid::new(2, 1.5f32.to_bits());
    assert!(matches!(p.build(&img), Err(PyramidError::InvalidScaleFactor(_))));
}

#[test]
fn test_pyramid_zero_levels_returns_error() {
    let img = gradient(16, 16);
    let mut p = Pyramid::new(0, two());
    assert_eq!(p.build(&img), Err(PyramidError::ZeroLevels));
}

#[test]
fn test_pyramid_level_too_small_returns_error() {
    let img = gradient(4, 4);
    let mut p = Pyramid::new(5, two());
    assert!(matches!(p.build(&img), Err(PyramidError::LevelTooSmall { .. })));
    // levels 0..2 were built before level 3 came out empty
    assert_eq!(p.build(&img), Err(PyramidError::LevelTooSmall { level: 3 }));
    assert_eq!(p.num_levels(), 3);
}

#[test]
fn only_scale_factor_two_is_accepted() {
    // two itself builds; its neighbours, NaNs, infinities and a coarse sweep
    // of all other patterns are refused
    let mut patterns: Vec<u32> = (0x3FFF_FF00u32..=0x4000_0100).collect();
    patterns.extend([0, 0x8000_0000, 0x7F80_0000, 0xFF80_0000, 0x7FC0_0000, 0x7F80_0001, 0xFFC0_0000]);
    patterns.extend((0..=u32::MAX).step_by(65_537));
    let img = gradient(8, 8);
    for bits in patterns {
        let mut p = Pyramid::new(1, bits);
        let r = p.build(&img);
        if bits == 2.0f32.to_bits() {
            assert_eq!(r, Ok(()));
        } else {
            assert_eq!(r, Err(PyramidError::InvalidScaleFactor(bits)), "bits {:#x}", bits);
        }
    }
}

#[test]
fn downsample_odd_sizes() {
    let img = gradient(5, 3);
    let d = downsample(&img);
    assert_eq!((d.rows, d.cols, d.channels), (2, 1, 1));
    // (0 + 1 + 3 + 4 + 2) >> 2 = 2 ; (6 + 7 + 9 + 10 + 2) >> 2 = 8
    assert_eq!(d.data, vec![2, 8]);
    assert_eq!(downsample_scalar(&img), d);
}
