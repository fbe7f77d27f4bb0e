use webarkit_kpm::gaussian_pyramid::{
    binomial_h_borders_u8, binomial_h_interior_u8, binomial_sums_u8, binomial_v_borders_u8,
    binomial_v_interior_u8, check_pyramid_dims, num_octaves_for,
    GaussianPyramidError,
};

#[test]
fn test_num_octaves_for() {
    assert_eq!(num_octaves_for(64, 64, 8), 4);
    assert_eq!(num_octaves_for(100, 50, 16), 2);
}

#[test]
fn num_octaves_for_small_and_exact_sizes() {
    assert_eq!(num_octaves_for(7, 100, 8), 0);
    assert_eq!(num_octaves_for(8, 8, 8), 1);
    assert_eq!(num_octaves_for(640, 480, 1), 9);
}

#[test]
fn pyramid_dims_errors() {
    assert_eq!(check_pyramid_dims(16, 16, 0), Err(GaussianPyramidError::ZeroOctaves));
    assert_eq!(check_pyramid_dims(0, 16, 2), Err(GaussianPyramidError::EmptyImage));
    assert_eq!(check_pyramid_dims(4, 16, 2), Err(GaussianPyramidError::ImageTooSmall { rows: 4, cols: 16 }));
    assert_eq!(
        check_pyramid_dims(16, 40, 3),
        Err(GaussianPyramidError::OctaveTooSmall { octave: 2, rows: 4, cols: 10 })
    );
    assert_eq!(check_pyramid_dims(16, 40, 2), Ok(()));
    assert_eq!(check_pyramid_dims(5, 5, 1), Ok(()));
}

/// The filter with edge pixels repeated beyond the borders.
fn reference_tap(s: &[u8], c: usize) -> u16 {
    let w = s.len() as isize;
    let at = |i: isize| s[i.clamp(0, w - 1) as usize] as u16;
    let c = c as isize;
    6 * at(c) + 4 * (at(c - 1) + at(c + 1)) + at(c - 2) + at(c + 2)
}

#[test]
fn binomial_horizontal_pass_matches_replicated_borders() {
    let s: Vec<u8> = vec![3, 250, 17, 0, 255, 255, 90, 12, 1];
    let w = s.len();
    let mut t = vec![0u16; w];
    binomial_h_borders_u8(&s, &mut t, w);
    binomial_h_interior_u8(&s, &mut t, 2, w - 2);
    for c in 0..w {
        assert_eq!(t[c], reference_tap(&s, c), "column {}", c);
    }
}

#[test]
fn binomial_borders_leave_interior_and_max_value() {
    let s = vec![255u8; 6];
    let mut t = vec![7u16; 6];
    binomial_h_borders_u8(&s, &mut t, 6);
    assert_eq!(t, vec![4080, 4080, 7, 7, 4080, 4080]);
    let mut u = vec![1u16; 6];
    binomial_h_interior_u8(&s, &mut u, 3, 3);
    assert_eq!(u, vec![1u16; 6]);
}

fn reference_vtap(t: &[u16], w: usize, h: usize, r: usize, c: usize) -> u32 {
    let at = |rr: i64| -> u32 {
        let rr = rr.clamp(0, h as i64 - 1) as usize;
        t[rr * w + c] as u32
    };
    let r = r as i64;
    6 * at(r) + 4 * (at(r - 1) + at(r + 1)) + at(r - 2) + at(r + 2)
}

#[test]
fn binomial_vertical_pass_matches_replicated_borders() {
    let (w, h) = (3usize, 7usize);
    let t: Vec<u16> = (0..w * h).map(|i| ((i * 97 + 13) % 4081) as u16).collect();
    let mut d = vec![0u32; w * h];
    binomial_v_borders_u8(&t, &mut d, w, h);
    for row in 2..h - 2 {
        binomial_v_interior_u8(&t, &mut d, row, w, 0, w);
    }
    for r in 0..h {
        for c in 0..w {
            assert_eq!(d[r * w + c], reference_vtap(&t, w, h, r, c), "row {} col {}", r, c);
        }
    }
}

#[test]
fn binomial_vertical_pass_writes_only_its_rows() {
    let (w, h) = (2usize, 6usize);
    let t = vec![4080u16; w * h];
    let mut d = vec![1u32; w * h + 3];
    binomial_v_borders_u8(&t, &mut d, w, h);
    // Border rows hold the largest sum; the middle rows and the tail are untouched.
    assert_eq!(&d[0..4], &[65280, 65280, 65280, 65280]);
    assert_eq!(&d[4..8], &[1, 1, 1, 1]);
    assert_eq!(&d[8..12], &[65280, 65280, 65280, 65280]);
    assert_eq!(&d[12..], &[1, 1, 1]);
    binomial_v_interior_u8(&t, &mut d, 2, w, 1, 2);
    assert_eq!(&d[4..8], &[1, 65280, 1, 1]);
}

#[test]
fn binomial_whole_image_sums_match_replicated_borders() {
    let (w, h) = (7usize, 6usize);
    let src: Vec<u8> = (0..w * h).map(|i| ((i * 37 + 11) % 256) as u8).collect();
    let sums = binomial_sums_u8(&src, w, h);
    assert_eq!(sums.len(), w * h);
    let px = |r: i64, c: i64| -> u32 {
        let r = r.clamp(0, h as i64 - 1) as usize;
        let c = c.clamp(0, w as i64 - 1) as usize;
        src[r * w + c] as u32
    };
    let k = [1u32, 4, 6, 4, 1];
    for r in 0..h as i64 {
        for c in 0..w as i64 {
            let mut expected = 0u32;
            for (dr, kr) in k.iter().enumerate() {
                for (dc, kc) in k.iter().enumerate() {
                    expected += kr * kc * px(r + dr as i64 - 2, c + dc as i64 - 2);
                }
            }
            assert_eq!(sums[r as usize * w + c as usize], expected, "row {} col {}", r, c);
        }
    }
    // a constant image sums to 256 times its value
    let flat = vec![255u8; 25];
    assert!(binomial_sums_u8(&flat, 5, 5).iter().all(|&v| v == 65280));
}
