use webarkit_kpm::clustering::KpmError;
use webarkit_kpm::hough::FeaturePoint;
use webarkit_kpm::matcher::{
    ensure_feature_size, nearest_two_all, nearest_two_among, FeatureStore, NearestTwo,
};

fn fp(x: f32, y: f32, maxima: bool) -> FeaturePoint {
    FeaturePoint {
        x_bits: x.to_bits(),
        y_bits: y.to_bits(),
        angle_bits: 0.0f32.to_bits(),
        scale_bits: 1.0f32.to_bits(),
        maxima,
    }
}

fn make_descriptor(seed: u8) -> [u8; 96] {
    let mut d = [0u8; 96];
    for (i, b) in d.iter_mut().enumerate() {
        *b = seed.wrapping_add(i as u8);
    }
    d
}

#[test]
fn test_feature_store_new_invalid_bytes() {
    assert!(FeatureStore::new(0).is_err());
}

#[test]
fn test_feature_store_add_and_retrieve() {
    let mut s = FeatureStore::new(96).unwrap();
    let d0 = make_descriptor(0);
    let d1 = make_descriptor(1);
    let d2 = make_descriptor(2);
    s.add(fp(0.0, 0.0, true), &d0).unwrap();
    s.add(fp(1.0, 1.0, true), &d1).unwrap();
    s.add(fp(2.0, 2.0, false), &d2).unwrap();

    assert_eq!(s.num_features(), 3);
    assert_eq!(s.descriptor(1), &d1[..]);
    assert!(!s.point(2).maxima);
}

#[test]
fn test_feature_store_add_wrong_size() {
    let mut s = FeatureStore::new(96).unwrap();
    assert!(s.add(fp(0.0, 0.0, true), &[0u8; 32]).is_err());
    assert_eq!(s.num_features(), 0);
}

#[test]
fn test_feature_store_empty() {
    let s = FeatureStore::new(96).unwrap();
    assert_eq!(s.num_features(), 0);
    assert_eq!(s.bytes_per_feature(), 96);
}

#[test]
fn feature_point_default_is_maximum_at_origin() {
    let p = FeaturePoint::default();
    assert!(p.maxima);
    assert_eq!(f32::from_bits(p.x_bits), 0.0);
    assert_eq!(f32::from_bits(p.scale_bits), 0.0);
}

fn stores(q: &[([u8; 96], bool)], r: &[([u8; 96], bool)]) -> (FeatureStore, FeatureStore) {
    let mut qs = FeatureStore::new(96).unwrap();
    let mut rs = FeatureStore::new(96).unwrap();
    for (d, m) in q {
        qs.add(fp(0.0, 0.0, *m), d).unwrap();
    }
    for (d, m) in r {
        rs.add(fp(0.0, 0.0, *m), d).unwrap();
    }
    (qs, rs)
}

fn with_bits(n: usize) -> [u8; 96] {
    let mut d = [0u8; 96];
    for k in 0..n {
        d[k / 8] |= 1 << (k % 8);
    }
    d
}

#[test]
fn nearest_two_finds_closest_and_runner_up() {
    let (q, r) = stores(
        &[(with_bits(0), true)],
        &[(with_bits(9), true), (with_bits(3), true), (with_bits(5), true), (with_bits(1), false)],
    );
    let t = nearest_two_all(&q, 0, &r);
    assert_eq!(t, NearestTwo { best_index: 1, first: 3, second: 5 });
}

#[test]
fn nearest_two_ties_keep_first_and_set_second() {
    let (q, r) = stores(&[(with_bits(0), true)], &[(with_bits(4), true), (with_bits(4), true)]);
    let t = nearest_two_all(&q, 0, &r);
    assert_eq!(t, NearestTwo { best_index: 0, first: 4, second: 4 });
}

#[test]
fn nearest_two_without_candidates_of_the_type() {
    let (q, r) = stores(&[(with_bits(0), true)], &[(with_bits(2), false)]);
    let t = nearest_two_all(&q, 0, &r);
    assert_eq!(t, NearestTwo { best_index: -1, first: u32::MAX, second: u32::MAX });
}

#[test]
fn nearest_two_among_candidates_only() {
    let (q, r) = stores(
        &[(with_bits(0), true)],
        &[(with_bits(1), true), (with_bits(7), true), (with_bits(2), true)],
    );
    let t = nearest_two_among(&q, 0, &r, &[2, 1]);
    assert_eq!(t, NearestTwo { best_index: 2, first: 2, second: 7 });
    let t = nearest_two_among(&q, 0, &r, &[]);
    assert_eq!(t.best_index, -1);
}

#[test]
fn feature_size_check() {
    let a = FeatureStore::new(96).unwrap();
    let b = FeatureStore::new(64).unwrap();
    assert!(ensure_feature_size(&a, &a).is_ok());
    assert!(matches!(ensure_feature_size(&a, &b), Err(KpmError::InvalidInput(_))));
    assert!(matches!(ensure_feature_size(&b, &a), Err(KpmError::InvalidInput(_))));
}
