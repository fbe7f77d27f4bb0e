use webarkit_kpm::image_resize::{compress_y, resize_image, KpmCompMode, KpmProcMode};

fn ramp(w: usize, h: usize) -> Vec<u8> {
    (0..w * h).map(|i| ((i * 37 + i / w * 11) % 256) as u8).collect()
}

#[test]
fn resize_full_size_copies_prefix() {
    let img = ramp(4, 3);
    let mut longer = img.clone();
    longer.extend_from_slice(&[9, 9, 9]);
    let (out, w, h) = resize_image(&longer, 4, 3, KpmProcMode::FullSize);
    assert_eq!((w, h), (4, 3));
    assert_eq!(out, img);
}

fn box_mean(img: &[u8], xs: usize, j: usize, i: usize, n: usize) -> u8 {
    let mut sum = 0u32;
    for dy in 0..n {
        for dx in 0..n {
            sum += img[(n * j + dy) * xs + n * i + dx] as u32;
        }
    }
    (sum / (n * n) as u32) as u8
}

#[test]
fn resize_box_filters() {
    let (xs, ys) = (13, 10);
    let img = ramp(xs, ys);
    for (mode, n) in [(KpmProcMode::HalfSize, 2), (KpmProcMode::OneThirdSize, 3), (KpmProcMode::QuarterSize, 4)] {
        let (out, w, h) = resize_image(&img, xs, ys, mode);
        assert_eq!((w, h), (xs / n, ys / n));
        assert_eq!(out.len(), w * h);
        for j in 0..h {
            for i in 0..w {
                assert_eq!(out[j * w + i], box_mean(&img, xs, j, i, n));
            }
        }
    }
}

#[test]
fn resize_half_known_values() {
    let img = vec![0u8, 4, 8, 12, 1, 3, 5, 7];
    let (out, w, h) = resize_image(&img, 4, 2, KpmProcMode::HalfSize);
    assert_eq!((w, h), (2, 1));
    assert_eq!(out, vec![2, 8]);
}

#[test]
fn resize_two_thirds_known_block() {
    // one 3x3 block
    let img = vec![90u8, 60, 30, 60, 40, 20, 30, 20, 10];
    let (out, w, h) = resize_image(&img, 3, 3, KpmProcMode::TwoThirdSize);
    assert_eq!((w, h), (2, 2));
    // top-left: (90 + 60/2 + 60/2 + 40/4) * 4 / 9 = 160 * 4 / 9 = 71
    // top-right: (60/2 + 30 + 40/4 + 20/2) * 4 / 9 = 80 * 4 / 9 = 35
    // bottom-left: (60/2 + 40/4 + 30 + 20/2) * 4 / 9 = 80 * 4 / 9 = 35
    // bottom-right: (40/4 + 20/2 + 20/2 + 10) * 4 / 9 = 40 * 4 / 9 = 17
    assert_eq!(out, vec![71, 35, 35, 17]);
}

#[test]
fn resize_two_thirds_size() {
    let img = ramp(10, 7);
    let (out, w, h) = resize_image(&img, 10, 7, KpmProcMode::TwoThirdSize);
    assert_eq!((w, h), (6, 4));
    assert_eq!(out.len(), 24);
}

#[test]
fn compress_rows_in_pairs() {
    let img = vec![10u8, 20, 30, 40, 0, 1, 255, 255, 9];
    let out = compress_y(&img, 2, 4);
    assert_eq!(out, vec![20, 30, 127, 128]);
    assert_eq!(compress_y(&img, 3, 3), vec![25, 10, 15]);
    assert!(KpmCompMode::CompY != KpmCompMode::Uncompressed);
}
