use webarkit_kpm::homography::{
    array_shuffle, fast_random, lie_algebra_sum, multiply_3x3_3x3, FAST_RAND_MAX,
};

#[test]
fn test_lie_algebra_sum_zero_trace() {
    let mut a = [0i64; 9];
    let x = [1i64, 2, 3, 4, 5, 6, 7, 8];
    lie_algebra_sum(&mut a, &x);
    assert_eq!(a[0] + a[4] + a[8], 0);
    assert_eq!(a[0], 5);
    assert_eq!(a[1], 3);
    assert_eq!(a[2], 1);
    assert_eq!(a[3], 4);
    assert_eq!(a[4], -11);
    assert_eq!(a[5], 2);
    assert_eq!(a[6], 7);
    assert_eq!(a[7], 8);
    assert_eq!(a[8], 6);
}

#[test]
fn test_fast_random_first_5_with_seed_1234() {
    let mut seed: i32 = 1234;
    let v0 = fast_random(&mut seed);
    let v1 = fast_random(&mut seed);
    let v2 = fast_random(&mut seed);
    let v3 = fast_random(&mut seed);
    let v4 = fast_random(&mut seed);
    assert!((0..=FAST_RAND_MAX).contains(&v0));
    assert!((0..=FAST_RAND_MAX).contains(&v1));
    assert!((0..=FAST_RAND_MAX).contains(&v2));
    assert!((0..=FAST_RAND_MAX).contains(&v3));
    assert!((0..=FAST_RAND_MAX).contains(&v4));

    let mut seed2: i32 = 1234;
    assert_eq!(v0, fast_random(&mut seed2));
    assert_eq!(v1, fast_random(&mut seed2));
    assert_eq!(v2, fast_random(&mut seed2));
    assert_eq!(v3, fast_random(&mut seed2));
    assert_eq!(v4, fast_random(&mut seed2));
}

#[test]
fn homography_test_array_shuffle_deterministic() {
    let mut a = [0_i32, 1, 2, 3, 4, 5, 6, 7, 8, 9];
    let mut b = a;
    let mut seed_a: i32 = 42;
    let mut seed_b: i32 = 42;
    array_shuffle(&mut a, 10, 4, &mut seed_a);
    array_shuffle(&mut b, 10, 4, &mut seed_b);
    assert_eq!(a, b);
}

#[test]
fn test_multiply_3x3_3x3_identity() {
    let a = [1i64, 2, 3, 4, 5, 6, 7, 8, 9];
    let identity = [1i64, 0, 0, 0, 1, 0, 0, 0, 1];
    let mut c = [0i64; 9];
    multiply_3x3_3x3(&mut c, &a, &identity);
    assert_eq!(c, a);

    multiply_3x3_3x3(&mut c, &identity, &a);
    assert_eq!(c, a);
}

// ===== Further cases =====

#[test]
fn fast_random_known_value() {
    let mut seed: i32 = 1234;
    assert_eq!(fast_random(&mut seed), 4068);
    assert_eq!(seed, 266_623_053);
}

#[test]
fn array_shuffle_draws_from_population_prefix() {
    // Only the first `pop_size` positions can be drawn; the tail stays put
    // unless it lies within the first `sample_size` positions.
    let mut a = [10_i32, 11, 12, 13, 14, 15, 16, 17];
    let mut seed: i32 = 5;
    array_shuffle(&mut a, 3, 2, &mut seed);
    assert_eq!(&a[3..], &[13, 14, 15, 16, 17]);
    let mut head = a[..3].to_vec();
    head.sort();
    assert_eq!(head, vec![10, 11, 12]);
}

#[test]
fn array_shuffle_zero_sample_keeps_seed() {
    let mut a = [1_i32, 2, 3];
    let mut seed: i32 = 77;
    array_shuffle(&mut a, 0, 0, &mut seed);
    assert_eq!(a, [1, 2, 3]);
    assert_eq!(seed, 77);
}

#[test]
fn multiply_3x3_3x3_general() {
    let a = [1i64, 2, 3, 4, 5, 6, 7, 8, 9];
    let b = [9i64, 8, 7, 6, 5, 4, 3, 2, 1];
    let mut c = [0i64; 9];
    multiply_3x3_3x3(&mut c, &a, &b);
    assert_eq!(c, [30, 24, 18, 84, 69, 54, 138, 114, 90]);
}
