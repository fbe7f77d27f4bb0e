use webarkit_kpm::clustering::{
    array_shuffle, fast_random, hamming_distance_96, BinaryHierarchicalClustering, KMedoids,
    KpmError,
};

// ===== Generator and shuffle =====

#[test]
fn test_fast_random_first_call() {
    let mut seed: i32 = 1234;
    let r = fast_random(&mut seed);
    assert_eq!(seed, 266_623_053);
    assert_eq!(r, 4068);
}

#[test]
fn test_fast_random_deterministic() {
    let mut s1: i32 = 1234;
    let mut s2: i32 = 1234;
    let r1: Vec<i32> = (0..10).map(|_| fast_random(&mut s1)).collect();
    let r2: Vec<i32> = (0..10).map(|_| fast_random(&mut s2)).collect();
    assert_eq!(r1, r2);
    assert_eq!(s1, s2);
}

#[test]
fn test_fast_random_range() {
    let mut seed: i32 = 7;
    for _ in 0..1000 {
        let r = fast_random(&mut seed);
        assert!((0..=32767).contains(&r), "value {} out of range", r);
    }
}

#[test]
fn test_fast_random_negative_seed() {
    let mut seed: i32 = -1;
    let r = fast_random(&mut seed);
    assert!((0..=32767).contains(&r));
}

#[test]
fn test_array_shuffle_preserves_elements() {
    let mut v: Vec<usize> = (0..10).collect();
    let mut seed: i32 = 1234;
    array_shuffle(&mut v, 5, &mut seed);

    let mut sorted = v.clone();
    sorted.sort_unstable();
    assert_eq!(sorted, (0..10).collect::<Vec<_>>());
}

#[test]
fn clustering_test_array_shuffle_deterministic() {
    let mut v1: Vec<usize> = (0..20).collect();
    let mut v2: Vec<usize> = (0..20).collect();
    let mut s1: i32 = 1234;
    let mut s2: i32 = 1234;
    array_shuffle(&mut v1, 8, &mut s1);
    array_shuffle(&mut v2, 8, &mut s2);
    assert_eq!(v1, v2);
    assert_eq!(s1, s2);
}

#[test]
fn test_array_shuffle_empty_pop() {
    let mut v: Vec<usize> = Vec::new();
    let mut seed: i32 = 1234;
    array_shuffle(&mut v, 0, &mut seed);
    assert!(v.is_empty());
}

#[test]
fn test_array_shuffle_zero_sample() {
    let mut v: Vec<usize> = (0..10).collect();
    let original = v.clone();
    let mut seed: i32 = 1234;
    array_shuffle(&mut v, 0, &mut seed);
    assert_eq!(v, original);
}

#[test]
fn test_array_shuffle_seed_evolves() {
    let mut v: Vec<usize> = (0..10).collect();
    let mut seed: i32 = 1234;
    array_shuffle(&mut v, 5, &mut seed);
    let seed_after_first = seed;
    array_shuffle(&mut v, 5, &mut seed);
    assert_ne!(seed_after_first, seed, "seed must advance across calls");
}

// ===== Hamming distance =====

#[test]
fn test_hamming_distance_identical() {
    let desc = [0u8; 96];
    assert_eq!(hamming_distance_96(&desc, &desc), 0);
}

#[test]
fn test_hamming_distance_symmetric() {
    let a = [1u8; 96];
    let b = [2u8; 96];
    assert_eq!(hamming_distance_96(&a, &b), hamming_distance_96(&b, &a));
}

#[test]
fn test_hamming_distance_max() {
    let a = [0u8; 96];
    let b = [255u8; 96];
    assert_eq!(hamming_distance_96(&a, &b), 768);
}

#[test]
fn test_hamming_distance_known_values() {
    let mut a = [0u8; 96];
    let b = [0u8; 96];
    a[0] = 0xFF;
    assert_eq!(hamming_distance_96(&a, &b), 8);
}

// ===== K-medoids =====

#[test]
fn test_kmedoids_new_invalid_k() {
    assert!(KMedoids::new(0, 1).is_err());
}

#[test]
fn test_kmedoids_new_invalid_hypotheses() {
    assert!(KMedoids::new(2, 0).is_err());
}

#[test]
fn test_kmedoids_assign_empty() {
    let mut km = KMedoids::new(2, 1).unwrap();
    assert!(km.assign(&[]).is_err());
}

#[test]
fn test_kmedoids_assign_insufficient_features() {
    let mut km = KMedoids::new(5, 1).unwrap();
    let feat = [0u8; 96];
    let features = vec![&feat];
    assert!(km.assign(&features).is_err());
}

#[test]
fn test_kmedoids_single_cluster() {
    let mut km = KMedoids::new(1, 1).unwrap();
    let feat1 = [0u8; 96];
    let feat2 = [1u8; 96];
    let features = vec![&feat1, &feat2];
    km.assign(&features).unwrap();

    assert_eq!(km.assignment().len(), 2);
    assert!(km.assignment().iter().all(|&a| a == 0));
}

#[test]
fn test_kmedoids_deterministic() {
    let feat1 = [0u8; 96];
    let feat2 = [1u8; 96];
    let feat3 = [2u8; 96];
    let features = vec![&feat1, &feat2, &feat3];

    let mut km1 = KMedoids::new(2, 1).unwrap();
    km1.set_rand_seed(42);
    km1.assign(&features).unwrap();
    let assign1 = km1.assignment().to_vec();

    let mut km2 = KMedoids::new(2, 1).unwrap();
    km2.set_rand_seed(42);
    km2.assign(&features).unwrap();
    let assign2 = km2.assignment().to_vec();

    assert_eq!(assign1, assign2);
}

// ===== Hierarchical clustering =====

#[test]
fn test_bhc_new() {
    let bhc = BinaryHierarchicalClustering::new();
    assert!(bhc.is_ok());
}

#[test]
fn test_bhc_build_empty() {
    let mut bhc = BinaryHierarchicalClustering::new().unwrap();
    assert!(bhc.build(&[]).is_err());
}

#[test]
fn test_bhc_build_single() {
    let mut bhc = BinaryHierarchicalClustering::new().unwrap();
    let feat = [42u8; 96];
    let features = vec![&feat];
    assert!(bhc.build(&features).is_ok());
}

#[test]
fn test_bhc_query_unbuilt() {
    let bhc = BinaryHierarchicalClustering::new().unwrap();
    let feat = [0u8; 96];
    assert!(bhc.query(&feat).is_err());
}

#[test]
fn test_bhc_roundtrip() {
    let mut bhc = BinaryHierarchicalClustering::new().unwrap();
    let feat1 = [1u8; 96];
    let feat2 = [2u8; 96];
    let feat3 = [3u8; 96];
    let features = vec![&feat1, &feat2, &feat3];

    bhc.build(&features).unwrap();

    let result = bhc.query(&feat1).unwrap();
    assert!(!result.is_empty());
    assert!(result.contains(&0));
}

#[test]
fn test_bhc_query_valid_indices() {
    let mut bhc = BinaryHierarchicalClustering::new().unwrap();
    let mut features = Vec::new();
    for i in 0..20u8 {
        let mut desc = [0u8; 96];
        desc[0] = i;
        features.push(desc);
    }

    let feat_refs: Vec<&[u8; 96]> = features.iter().collect();
    bhc.build(&feat_refs).unwrap();

    let query = [5u8; 96];
    let result = bhc.query(&query).unwrap();

    assert!(result.iter().all(|&idx| idx < 20));
}

#[test]
fn test_bhc_deterministic() {
    let mut features = Vec::new();
    for i in 0..10u8 {
        let mut desc = [0u8; 96];
        desc[0] = i;
        features.push(desc);
    }

    let feat_refs: Vec<&[u8; 96]> = features.iter().collect();

    let mut bhc1 = BinaryHierarchicalClustering::new().unwrap();
    bhc1.build(&feat_refs).unwrap();
    let result1 = bhc1.query(&[0u8; 96]).unwrap();

    let mut bhc2 = BinaryHierarchicalClustering::new().unwrap();
    bhc2.build(&feat_refs).unwrap();
    let result2 = bhc2.query(&[0u8; 96]).unwrap();

    assert_eq!(result1, result2);
}

/// Deterministic, diverse 96-byte descriptors.
fn make_synth_descriptors(n: usize) -> Vec<[u8; 96]> {
    let mut out = Vec::with_capacity(n);
    for i in 0..n {
        let mut d = [0u8; 96];
        for (j, byte) in d.iter_mut().enumerate() {
            *byte = (((i * 131 + j * 17) ^ (i << 3)) & 0xff) as u8;
        }
        out.push(d);
    }
    out
}

#[test]
fn test_bhc_set_num_hypotheses_then_build() {
    let descs = make_synth_descriptors(80);
    let refs: Vec<&[u8; 96]> = descs.iter().collect();

    let mut bhc = BinaryHierarchicalClustering::new().unwrap();
    bhc.set_num_hypotheses(128).unwrap();
    bhc.build(&refs).unwrap();
    let result = bhc.query(&descs[0]).unwrap();
    assert!(!result.is_empty(), "query should find at least one candidate");
    assert!(result.iter().all(|&idx| idx < descs.len()));
}

#[test]
fn test_bhc_set_num_hypotheses_zero_errors() {
    let mut bhc = BinaryHierarchicalClustering::new().unwrap();
    assert!(bhc.set_num_hypotheses(0).is_err());
}

#[test]
fn test_bhc_set_num_centers_preserves_num_hypotheses() {
    let descs = make_synth_descriptors(80);
    let refs: Vec<&[u8; 96]> = descs.iter().collect();

    let mut bhc = BinaryHierarchicalClustering::new().unwrap();
    bhc.set_num_hypotheses(128).unwrap();
    bhc.set_num_centers(8).unwrap();
    bhc.set_max_nodes_to_pop(8);
    bhc.set_min_features_per_leaf(16).unwrap();
    bhc.build(&refs).unwrap();
    let _ = bhc.query(&descs[0]).unwrap();
}

#[test]
fn test_bhc_max_nodes_to_pop_zero_is_tied_min_only() {
    let descs = make_synth_descriptors(80);
    let refs: Vec<&[u8; 96]> = descs.iter().collect();

    let mut bhc = BinaryHierarchicalClustering::new().unwrap();
    bhc.set_max_nodes_to_pop(0);
    bhc.build(&refs).unwrap();

    let result = bhc.query(&descs[0]).unwrap();
    assert!(!result.is_empty());
}

#[test]
fn test_bhc_max_nodes_to_pop_widens_candidate_set() {
    let descs = make_synth_descriptors(200);
    let refs: Vec<&[u8; 96]> = descs.iter().collect();

    let mut bhc_default = BinaryHierarchicalClustering::new().unwrap();
    bhc_default.build(&refs).unwrap();
    let r_default = bhc_default.query(&descs[0]).unwrap();

    let mut bhc_wide = BinaryHierarchicalClustering::new().unwrap();
    bhc_wide.set_max_nodes_to_pop(8);
    bhc_wide.build(&refs).unwrap();
    let r_wide = bhc_wide.query(&descs[0]).unwrap();

    assert!(
        r_wide.len() >= r_default.len(),
        "max_nodes_to_pop=8 returned fewer candidates ({}) than =0 ({})",
        r_wide.len(),
        r_default.len()
    );
}

#[test]
fn bhc_pop_budget_only_adds_candidates() {
    let descs = make_synth_descriptors(120);
    let refs: Vec<&[u8; 96]> = descs.iter().collect();

    let mut narrow = BinaryHierarchicalClustering::new().unwrap();
    narrow.build(&refs).unwrap();
    let mut wide = BinaryHierarchicalClustering::new().unwrap();
    wide.set_max_nodes_to_pop(5);
    wide.build(&refs).unwrap();
    for q in [0usize, 7, 33, 119] {
        let r_narrow = narrow.query(&descs[q]).unwrap();
        let r_wide = wide.query(&descs[q]).unwrap();
        assert!(r_narrow.contains(&q));
        for x in &r_narrow {
            assert!(r_wide.contains(x), "index {} lost with a pop budget", x);
        }
    }
}

#[test]
fn bhc_same_build_same_answers() {
    let descs = make_synth_descriptors(90);
    let refs: Vec<&[u8; 96]> = descs.iter().collect();

    let mut a = BinaryHierarchicalClustering::new().unwrap();
    a.set_max_nodes_to_pop(3);
    a.build(&refs).unwrap();
    let mut b = BinaryHierarchicalClustering::new().unwrap();
    b.set_max_nodes_to_pop(3);
    b.build(&refs).unwrap();
    for q in 0..90 {
        assert_eq!(a.query(&descs[q]).unwrap(), b.query(&descs[q]).unwrap());
    }
}

// ===== Agreement with the reference generator =====
//
// `reference_fast_random` and `reference_array_shuffle` state the generator
// and the shuffle directly (wrapping 32-bit arithmetic, swaps with a
// position drawn from the whole array); the library must agree with them
// value for value.

fn reference_fast_random(seed: &mut i32) -> i32 {
    *seed = seed.wrapping_mul(214013).wrapping_add(2531011);
    (*seed >> 16) & 0x7FFF
}

fn reference_array_shuffle(v: &mut [i32], pop_size: usize, sample_size: usize, seed: &mut i32) {
    for i in 0..sample_size {
        let k = (reference_fast_random(seed) as usize) % pop_size;
        v.swap(i, k);
    }
}

#[test]
fn dual_mode_fast_random_byte_identical() {
    for &start in &[0i32, 1, 1234, -1, -1234, i32::MAX, i32::MIN, 7919, -7919] {
        let mut lib_seed = start;
        let mut ref_seed = start;
        for step in 0..1000 {
            let a = fast_random(&mut lib_seed);
            let b = reference_fast_random(&mut ref_seed);
            assert_eq!(a, b, "value mismatch at start={}, step={}", start, step);
            assert_eq!(lib_seed, ref_seed, "seed mismatch at start={}, step={}", start, step);
        }
    }
}

#[test]
fn dual_mode_array_shuffle_byte_identical() {
    let cases: &[(usize, usize, i32)] = &[
        (10, 5, 1234),
        (10, 10, 1234),
        (50, 8, 1234),
        (100, 16, 42),
        (1, 1, 999),
        (256, 32, -1),
        (200, 0, 7),
        (50, 50, 12345),
    ];

    for &(pop, sample, start_seed) in cases {
        let mut lib_v: Vec<i32> = (0..pop as i32).collect();
        let mut ref_v: Vec<i32> = (0..pop as i32).collect();
        let mut lib_seed = start_seed;
        let mut ref_seed = start_seed;

        array_shuffle(&mut lib_v, sample, &mut lib_seed);
        reference_array_shuffle(&mut ref_v, pop, sample, &mut ref_seed);

        assert_eq!(lib_v, ref_v, "permutation mismatch at pop={}, sample={}, seed={}", pop, sample, start_seed);
        assert_eq!(lib_seed, ref_seed, "seed mismatch at pop={}, sample={}, seed={}", pop, sample, start_seed);
    }
}

#[test]
fn dual_mode_array_shuffle_persistent_seed() {
    let mut lib_v: Vec<i32> = (0..100).collect();
    let mut ref_v: Vec<i32> = (0..100).collect();
    let mut lib_seed = 1234i32;
    let mut ref_seed = 1234i32;

    for round in 0..10 {
        array_shuffle(&mut lib_v, 8, &mut lib_seed);
        reference_array_shuffle(&mut ref_v, 100, 8, &mut ref_seed);
        assert_eq!(lib_v, ref_v, "permutation diverged at round {}", round);
        assert_eq!(lib_seed, ref_seed, "seed diverged at round {}", round);
    }
}

// ===== Further cases =====

#[test]
fn kmedoids_errors_name_the_cause() {
    assert!(matches!(KMedoids::new(0, 1), Err(KpmError::InvalidInput(_))));
    let mut km = KMedoids::new(3, 1).unwrap();
    let f = [0u8; 96];
    let features = vec![&f, &f];
    assert!(matches!(km.assign(&features), Err(KpmError::NotEnoughPoints { got: 2, need: 3 })));
}

#[test]
fn kmedoids_assigns_each_feature_its_nearest_center() {
    let a = [0u8; 96];
    let b = [255u8; 96];
    let features = vec![&a, &a, &b, &b];
    let mut km = KMedoids::new(2, 4).unwrap();
    km.assign(&features).unwrap();
    let asg = km.assignment().to_vec();
    let centers = km.centers().to_vec();
    assert_eq!(asg.len(), 4);
    for (i, &c) in asg.iter().enumerate() {
        let d = hamming_distance_96(features[i], features[centers[c]]);
        for &other in &centers {
            assert!(d <= hamming_distance_96(features[i], features[other]));
        }
    }
}

#[test]
fn bhc_query_finds_every_indexed_feature() {
    let descs = make_synth_descriptors(60);
    let refs: Vec<&[u8; 96]> = descs.iter().collect();
    let mut bhc = BinaryHierarchicalClustering::new().unwrap();
    bhc.build(&refs).unwrap();
    for (i, d) in descs.iter().enumerate() {
        let r = bhc.query(d).unwrap();
        assert!(r.contains(&i), "feature {} not found by its own query", i);
    }
}

#[test]
fn bhc_setter_errors() {
    let mut bhc = BinaryHierarchicalClustering::new().unwrap();
    assert!(bhc.set_num_centers(0).is_err());
    assert!(bhc.set_min_features_per_leaf(0).is_err());
}

#[test]
fn bhc_query_before_build_is_internal_error() {
    let bhc = BinaryHierarchicalClustering::new().unwrap();
    assert!(matches!(bhc.query(&[0u8; 96]), Err(KpmError::InternalError(_))));
}

#[test]
fn bhc_small_build_is_one_leaf() {
    let (a, b, c) = ([1u8; 96], [2u8; 96], [3u8; 96]);
    let mut bhc = BinaryHierarchicalClustering::new().unwrap();
    bhc.build(&[&a, &b, &c]).unwrap();
    assert_eq!(bhc.query(&[1u8; 96]).unwrap(), vec![0, 1, 2]);
    assert_eq!(bhc.query(&[200u8; 96]).unwrap(), vec![0, 1, 2]);
}

#[test]
fn bhc_setters_keep_the_built_tree() {
    let descs = make_synth_descriptors(100);
    let refs: Vec<&[u8; 96]> = descs.iter().collect();
    let mut bhc = BinaryHierarchicalClustering::new().unwrap();
    bhc.set_max_nodes_to_pop(4);
    bhc.build(&refs).unwrap();
    let before: Vec<Vec<usize>> = (0..100).map(|q| bhc.query(&descs[q]).unwrap()).collect();
    bhc.set_num_centers(3).unwrap();
    bhc.set_num_hypotheses(5).unwrap();
    bhc.set_min_features_per_leaf(2).unwrap();
    assert!(bhc.build(&[]).is_err());
    for q in 0..100 {
        assert_eq!(bhc.query(&descs[q]).unwrap(), before[q]);
    }
}

#[test]
fn bhc_query_has_no_duplicates_and_budgets_nest() {
    let descs = make_synth_descriptors(150);
    let refs: Vec<&[u8; 96]> = descs.iter().collect();
    let mut small = BinaryHierarchicalClustering::new().unwrap();
    small.set_max_nodes_to_pop(2);
    small.build(&refs).unwrap();
    let mut large = BinaryHierarchicalClustering::new().unwrap();
    large.set_max_nodes_to_pop(6);
    large.build(&refs).unwrap();
    for q in [0usize, 17, 80, 149] {
        let rs = small.query(&descs[q]).unwrap();
        let rl = large.query(&descs[q]).unwrap();
        for r in [&rs, &rl] {
            let mut sorted = r.clone();
            sorted.sort();
            sorted.dedup();
            assert_eq!(sorted.len(), r.len());
        }
        for x in &rs {
            assert!(rl.contains(x));
        }
    }
}
