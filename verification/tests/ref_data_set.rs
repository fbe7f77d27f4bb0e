use webarkit_kpm::hough::FeaturePoint;
use webarkit_kpm::ref_data_set::{
    assemble_ref_data_set, parse_ref_data_set, FreakFeature, KpmCoord2D, KpmImageInfo, KpmPageInfo, KpmRefData,
    KpmRefDataSet, LoadError, ParseOutcome, RefDataSet, RefImage, KPM_CHANGE_PAGE_NO_ALL_PAGES,
};

fn coord(x: f32, y: f32) -> KpmCoord2D {
    KpmCoord2D { x_bits: x.to_bits(), y_bits: y.to_bits() }
}

/// A small data set of `num_points` features, all on page `page_no`.
fn make_test_dataset(page_no: i32, num_points: usize) -> KpmRefDataSet {
    let mut ref_point = Vec::with_capacity(num_points);
    for i in 0..num_points {
        let mut feat = FreakFeature::default();
        feat.v[0] = i as u8;
        feat.angle_bits = (i as f32 * 0.1).to_bits();
        feat.scale_bits = 1.0f32.to_bits();
        feat.maxima = 1;

        ref_point.push(KpmRefData {
            coord2d: coord(i as f32, i as f32 * 2.0),
            coord3d: coord(i as f32 * 0.5, i as f32 * 0.25),
            feature_vec: feat,
            page_no,
            ref_image_no: 0,
        });
    }

    KpmRefDataSet {
        num: num_points as i32,
        ref_point,
        page_num: 1,
        page_info: vec![KpmPageInfo {
            page_no,
            image_num: 1,
            image_info: vec![KpmImageInfo { image_no: 0, width: 640, height: 480 }],
        }],
    }
}

#[test]
fn test_ref_data_merge() {
    let mut ds1 = make_test_dataset(1, 3);
    let ds2 = make_test_dataset(2, 5);

    ds1.merge(ds2);

    assert_eq!(ds1.num, 8);
    assert_eq!(ds1.ref_point.len(), 8);
    assert_eq!(ds1.page_num, 2);
    assert_eq!(ds1.page_info.len(), 2);
}

#[test]
fn test_ref_data_merge_same_page() {
    let mut ds1 = make_test_dataset(1, 2);
    let ds2 = make_test_dataset(1, 3);

    ds1.merge(ds2);

    assert_eq!(ds1.num, 5);
    assert_eq!(ds1.page_num, 1);
    assert_eq!(ds1.page_info[0].image_num, 2);
}

#[test]
fn test_change_page_no() {
    let mut ds = make_test_dataset(1, 4);

    ds.change_page_no(1, 5);

    for rp in &ds.ref_point {
        assert_eq!(rp.page_no, 5);
    }
    for pi in &ds.page_info {
        assert_eq!(pi.page_no, 5);
    }
}

#[test]
fn test_change_page_no_all_pages() {
    let mut ds = make_test_dataset(1, 2);
    let ds2 = make_test_dataset(2, 2);
    ds.merge(ds2);

    ds.change_page_no(KPM_CHANGE_PAGE_NO_ALL_PAGES, 99);

    for rp in &ds.ref_point {
        assert_eq!(rp.page_no, 99);
    }
    for pi in &ds.page_info {
        assert_eq!(pi.page_no, 99);
    }
}

// ===== Binary format =====

#[test]
fn ref_data_bytes_roundtrip() {
    let mut ds = make_test_dataset(1, 2);
    ds.merge(make_test_dataset(4, 3));
    let bytes = ds.save_to_bytes();
    assert_eq!(bytes.len(), 4 + 132 * 5 + 4 + 2 * (8 + 12));
    let loaded = KpmRefDataSet::load_from_bytes(&bytes).expect("load_from_bytes failed");
    assert_eq!(loaded, ds);
    assert_eq!(loaded.ref_point[1].coord2d, coord(1.0, 2.0));
    assert_eq!(f32::from_bits(loaded.ref_point[1].coord3d.x_bits), 0.5);
}

#[test]
fn ref_data_bytes_layout() {
    let ds = make_test_dataset(7, 1);
    let b = ds.save_to_bytes();
    // num
    assert_eq!(&b[0..4], &1i32.to_le_bytes());
    // coord2d.x of point 0 is 0.0, coord2d.y is 0.0
    assert_eq!(&b[4..8], &0.0f32.to_le_bytes());
    // descriptor starts after the four coordinates
    assert_eq!(b[20], 0);
    // scale after the 96 descriptor bytes and the angle
    assert_eq!(&b[20 + 96 + 4..20 + 96 + 8], &1.0f32.to_le_bytes());
    // page_no of the point
    assert_eq!(&b[128..132], &7i32.to_le_bytes());
    // page count, then page 7 with one image 640 x 480 numbered 0
    assert_eq!(&b[136..140], &1i32.to_le_bytes());
    assert_eq!(&b[140..144], &7i32.to_le_bytes());
    assert_eq!(&b[144..148], &1i32.to_le_bytes());
    assert_eq!(&b[148..152], &640i32.to_le_bytes());
    assert_eq!(&b[152..156], &480i32.to_le_bytes());
    assert_eq!(&b[156..160], &0i32.to_le_bytes());
    assert_eq!(b.len(), 160);
}

#[test]
fn ref_data_load_errors() {
    // too short for the point count
    assert_eq!(KpmRefDataSet::load_from_bytes(&[1, 0]), Err(LoadError::UnexpectedEof));
    // non-positive point count
    assert_eq!(KpmRefDataSet::load_from_bytes(&0i32.to_le_bytes()), Err(LoadError::NonPositiveNum));
    assert_eq!(KpmRefDataSet::load_from_bytes(&(-3i32).to_le_bytes()), Err(LoadError::NonPositiveNum));
    // a point announced but missing
    assert_eq!(KpmRefDataSet::load_from_bytes(&1i32.to_le_bytes()), Err(LoadError::UnexpectedEof));
    // non-positive page count
    let ds = make_test_dataset(1, 1);
    let mut b = ds.save_to_bytes();
    b[136..140].copy_from_slice(&0i32.to_le_bytes());
    b.truncate(140);
    assert_eq!(KpmRefDataSet::load_from_bytes(&b), Err(LoadError::NonPositivePageNum));
    // truncated page list
    let full = ds.save_to_bytes();
    assert_eq!(KpmRefDataSet::load_from_bytes(&full[..full.len() - 1]), Err(LoadError::UnexpectedEof));
}

#[test]
fn ref_data_negative_image_count_is_reported() {
    let ds = make_test_dataset(1, 1);
    let mut b = ds.save_to_bytes();
    b[144..148].copy_from_slice(&(-1i32).to_le_bytes());
    assert!(matches!(parse_ref_data_set(&b), ParseOutcome::NegativeImageCount));
}

#[test]
fn ref_data_merge_keeps_order_and_combines_images() {
    let mut ds1 = make_test_dataset(1, 1);
    let mut ds2 = make_test_dataset(1, 2);
    ds2.page_info[0].image_info[0].image_no = 3;
    ds2.page_info.push(KpmPageInfo {
        page_no: 2,
        image_num: 1,
        image_info: vec![KpmImageInfo { image_no: 9, width: 10, height: 20 }],
    });
    ds1.merge(ds2);
    assert_eq!(ds1.num, 3);
    assert_eq!(ds1.page_num, 2);
    assert_eq!(ds1.page_info[0].page_no, 1);
    assert_eq!(ds1.page_info[0].image_num, 2);
    assert_eq!(ds1.page_info[0].image_info[1].image_no, 3);
    assert_eq!(ds1.page_info[1].page_no, 2);
    assert_eq!(ds1.ref_point[2].feature_vec.v[0], 1);
}

#[test]
fn change_page_no_leaves_other_pages() {
    let mut ds = make_test_dataset(1, 1);
    ds.merge(make_test_dataset(2, 1));
    ds.merge(make_test_dataset(-4, 1));
    ds.change_page_no(2, 8);
    assert_eq!(ds.ref_point.iter().map(|p| p.page_no).collect::<Vec<_>>(), vec![1, 8, -4]);
    ds.change_page_no(KPM_CHANGE_PAGE_NO_ALL_PAGES, 0);
    assert_eq!(ds.ref_point.iter().map(|p| p.page_no).collect::<Vec<_>>(), vec![0, 0, -4]);
    assert_eq!(ds.page_info.iter().map(|p| p.page_no).collect::<Vec<_>>(), vec![0, 0, -4]);
}

// ===== Reference image collection =====

#[test]
fn ref_data_set_collects_images_in_order() {
    let mut set = RefDataSet::new();
    assert!(set.is_empty());
    assert_eq!(set.len(), 0);
    set.add(RefImage { width: 2, height: 1, pixels: vec![1, 2] });
    set.add(RefImage { width: 1, height: 1, pixels: vec![7] });
    assert!(!set.is_empty());
    assert_eq!(set.len(), 2);
    let widths: Vec<i32> = set.iter().iter().map(|i| i.width).collect();
    assert_eq!(widths, vec![2, 1]);
    let d = RefDataSet::default();
    assert_eq!(d.len(), 0);
}

#[test]
fn assemble_ref_data_set_pairs_points_with_descriptors() {
    let mut points = Vec::new();
    let mut descriptors = Vec::new();
    for i in 0..3u8 {
        let mut p = FeaturePoint::default();
        p.x_bits = (i as f32).to_bits();
        p.angle_bits = (0.5f32 * i as f32).to_bits();
        p.maxima = i != 1;
        points.push(p);
        descriptors.extend_from_slice(&[i + 10; 96]);
    }
    descriptors.push(99);
    let y_bits: Vec<u32> = (0..3).map(|i| (2.0f32 * i as f32).to_bits()).collect();
    let coords3d: Vec<KpmCoord2D> = (0..3).map(|i| coord(i as f32 * 3.0, -(i as f32))).collect();
    let ds = assemble_ref_data_set(&points, &y_bits, &coords3d, &descriptors, 7, 4, 320, 240);
    assert_eq!(ds.num, 3);
    assert_eq!(ds.page_num, 1);
    assert_eq!(ds.page_info.len(), 1);
    assert_eq!(ds.page_info[0].page_no, 7);
    assert_eq!(ds.page_info[0].image_num, 1);
    assert_eq!(ds.page_info[0].image_info, vec![KpmImageInfo { image_no: 4, width: 320, height: 240 }]);
    for i in 0..3usize {
        let r = &ds.ref_point[i];
        assert_eq!(r.coord2d, KpmCoord2D { x_bits: points[i].x_bits, y_bits: y_bits[i] });
        assert_eq!(r.coord3d, coords3d[i]);
        assert_eq!(r.feature_vec.v, [i as u8 + 10; 96]);
        assert_eq!(r.feature_vec.angle_bits, points[i].angle_bits);
        assert_eq!(r.feature_vec.maxima, if i == 1 { 0 } else { 1 });
        assert_eq!((r.page_no, r.ref_image_no), (7, 4));
    }
}
