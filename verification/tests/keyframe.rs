use webarkit_kpm::hough::FeaturePoint;
use webarkit_kpm::keyframe::{find_features, Keyframe};

#[test]
fn test_keyframe_new_stores_dimensions() {
    let kf = Keyframe::new(640, 480).unwrap();
    assert_eq!(kf.width, 640);
    assert_eq!(kf.height, 480);
    assert_eq!(kf.store.num_features(), 0);
}

#[test]
fn test_keyframe_index_is_none_before_build() {
    let kf = Keyframe::new(640, 480).unwrap();
    assert!(kf.index().is_none());
}

#[test]
fn test_keyframe_build_index_empty_store_errors() {
    let mut kf = Keyframe::new(640, 480).unwrap();
    assert!(kf.build_index().is_err());
    assert!(kf.index().is_none());
}

fn synth(i: usize) -> [u8; 96] {
    let mut d = [0u8; 96];
    for (j, byte) in d.iter_mut().enumerate() {
        *byte = (((i * 131 + j * 17) ^ (i << 3)) & 0xff) as u8;
    }
    d
}

#[test]
fn keyframe_build_index_finds_own_descriptors() {
    let mut kf = Keyframe::new(320, 240).unwrap();
    for i in 0..40 {
        kf.store.add(FeaturePoint::default(), &synth(i)).unwrap();
    }
    assert!(kf.index().is_none());
    kf.build_index().unwrap();
    kf.build_index().unwrap();
    let index = kf.index().expect("index built");
    for i in 0..40 {
        let r = index.query(&synth(i)).unwrap();
        assert!(r.contains(&i));
    }
}

#[test]
fn find_features_stores_points_with_their_descriptors() {
    let mut kf = Keyframe::new(64, 48).unwrap();
    let mut points = Vec::new();
    let mut buf = Vec::new();
    for i in 0..3 {
        let mut p = FeaturePoint::default();
        p.x_bits = (i as f32).to_bits();
        points.push(p);
        buf.extend_from_slice(&synth(i));
    }
    // Bytes past the last descriptor are not stored.
    buf.extend_from_slice(&[7u8; 10]);
    find_features(&mut kf, &points, &buf).unwrap();
    assert_eq!(kf.store.num_features(), 3);
    for i in 0..3 {
        assert_eq!(kf.store.descriptor(i), &synth(i)[..]);
        assert_eq!(f32::from_bits(kf.store.point(i).x_bits), i as f32);
    }
    assert!(kf.index().is_none());
}

#[test]
fn keyframe_rebuild_matches_fresh_build() {
    let mut once = Keyframe::new(320, 240).unwrap();
    let mut twice = Keyframe::new(320, 240).unwrap();
    for i in 0..50 {
        once.store.add(FeaturePoint::default(), &synth(i)).unwrap();
        twice.store.add(FeaturePoint::default(), &synth(i)).unwrap();
    }
    once.build_index().unwrap();
    twice.build_index().unwrap();
    twice.build_index().unwrap();
    let a = once.index().unwrap();
    let b = twice.index().unwrap();
    for i in 0..50 {
        assert_eq!(a.query(&synth(i)).unwrap(), b.query(&synth(i)).unwrap());
    }
}
