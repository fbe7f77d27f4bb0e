use webarkit_kpm::math::{
    accumulate_projection_9, accumulate_scaled_vector_9, add_scaled_vectors_4, bitstring_get_bit,
    bitstring_set_bit, cofactor_2x2, cofactor_2x2_sym, copy_vector, copy_vector_3, copy_vector_9,
    determinant_2x2, dot_product_4, dot_product_9, max2, max_index_2, max_index_3, max_index_9,
    min2, min3, min4, multiply_2x2_2x1, multiply_3x3_3x1, scale_vector_4, scale_vector_8,
    scale_vector_9, sequential_vector_i32, sqr, sum_squares_9, swap_9,
    update_gauss_newton_operations_2x2, update_outer_product_2x2, zero_vector, zero_vector_3,
};

#[test]
fn test_zero_vector_3() {
    let mut v: [i64; 3] = [1, 2, 3];
    zero_vector_3(&mut v);
    assert_eq!(v, [0, 0, 0]);
}

#[test]
fn test_zero_vector() {
    let mut v: [i64; 5] = [1, 2, 3, 4, 5];
    zero_vector(&mut v);
    for elem in &v {
        assert_eq!(*elem, 0);
    }
}

#[test]
fn test_max2() {
    assert_eq!(max2(3, 7), 7);
    assert_eq!(max2(7, 3), 7);
    assert_eq!(max2(5, 5), 5);
}

#[test]
fn test_min2() {
    assert_eq!(min2(3, 7), 3);
    assert_eq!(min2(7, 3), 3);
    assert_eq!(min2(5, 5), 5);
}

#[test]
fn test_min3() {
    assert_eq!(min3(3, 1, 5), 1);
    assert_eq!(min3(5, 3, 1), 1);
}

#[test]
fn test_min4() {
    assert_eq!(min4(3, 1, 5, 2), 1);
    assert_eq!(min4(5, 3, 1, 2), 1);
}

#[test]
fn test_max_index_2() {
    assert_eq!(max_index_2(&[3, 7]), 1);
    assert_eq!(max_index_2(&[7, 3]), 0);
}

#[test]
fn test_max_index_3() {
    assert_eq!(max_index_3(&[3, 7, 2]), 1);
    assert_eq!(max_index_3(&[7, 3, 2]), 0);
    assert_eq!(max_index_3(&[3, 2, 7]), 2);
}

#[test]
fn test_max_index_9() {
    let arr = [1, 2, 3, 9, 5, 6, 7, 8, 4];
    assert_eq!(max_index_9(&arr), 3);
}

#[test]
fn test_copy_vector_3() {
    let src = [1.0_f32, 2.0, 3.0];
    let mut dst = [0.0_f32, 0.0, 0.0];
    copy_vector_3(&mut dst, &src);
    assert_eq!(dst, src);
}

#[test]
fn test_copy_vector_9() {
    let src = [1.0_f32, 2.0, 3.0, 4.0, 5.0, 6.0, 7.0, 8.0, 9.0];
    let mut dst = [0.0_f32; 9];
    copy_vector_9(&mut dst, &src);
    assert_eq!(dst, src);
}

#[test]
fn test_swap_9() {
    let mut a = [1.0_f32, 2.0, 3.0, 4.0, 5.0, 6.0, 7.0, 8.0, 9.0];
    let mut b = [10.0_f32, 11.0, 12.0, 13.0, 14.0, 15.0, 16.0, 17.0, 18.0];
    let a_orig = a;
    let b_orig = b;
    swap_9(&mut a, &mut b);
    assert_eq!(a, b_orig);
    assert_eq!(b, a_orig);
}

#[test]
fn test_bitstring_set_get() {
    let mut bits = [0u8; 2];
    bitstring_set_bit(&mut bits, 3, 1);
    assert_eq!(bitstring_get_bit(&bits, 3), 1);
    assert_eq!(bitstring_get_bit(&bits, 4), 0);

    bitstring_set_bit(&mut bits, 3, 0);
    assert_eq!(bitstring_get_bit(&bits, 3), 0);
}

#[test]
fn test_sequential_vector_i32() {
    let mut v = [0; 5];
    sequential_vector_i32(&mut v, 10);
    assert_eq!(v, [10, 11, 12, 13, 14]);
}

#[test]
fn test_sqr() {
    assert_eq!(sqr(3), 9);
    assert_eq!(sqr(-5), 25);
    assert_eq!(sqr(0), 0);
}

#[test]
fn test_dot_product_4() {
    let a = [1, 2, 3, 4];
    let b = [5, 6, 7, 8];
    assert_eq!(dot_product_4(&a, &b), 70);
}

#[test]
fn test_dot_product_9() {
    let a = [1; 9];
    let b = [2; 9];
    assert_eq!(dot_product_9(&a, &b), 18);

    let a = [1, 2, 3, 4, 5, 6, 7, 8, 9];
    assert_eq!(dot_product_9(&a, &a), 285);
}

#[test]
fn test_sum_squares_9() {
    let x = [3, 4, 0, 0, 0, 0, 0, 0, 0];
    assert_eq!(sum_squares_9(&x), 25);
}

#[test]
fn test_scale_vector_4() {
    let mut dst = [0; 4];
    let src = [1, 2, 3, 4];
    scale_vector_4(&mut dst, &src, 2);
    assert_eq!(dst, [2, 4, 6, 8]);
}

#[test]
fn test_scale_vector_8() {
    let mut dst = [0; 8];
    let src = [1; 8];
    scale_vector_8(&mut dst, &src, 3);
    assert_eq!(dst, [3; 8]);
}

#[test]
fn test_scale_vector_9() {
    let mut dst = [0; 9];
    let src = [1, 2, 3, 4, 5, 6, 7, 8, 9];
    scale_vector_9(&mut dst, &src, -1);
    assert_eq!(dst, [-1, -2, -3, -4, -5, -6, -7, -8, -9]);
}

#[test]
fn test_accumulate_scaled_vector_9() {
    let mut dst = [10; 9];
    let src = [1; 9];
    accumulate_scaled_vector_9(&mut dst, &src, 2);
    assert_eq!(dst, [12; 9]);
}

#[test]
fn test_add_scaled_vectors_4() {
    let mut w = [0; 4];
    let u = [1, 2, 3, 4];
    let v = [10, 20, 30, 40];
    add_scaled_vectors_4(&mut w, &u, &v, 2, 3);
    assert_eq!(w, [32, 64, 96, 128]);
}

#[test]
fn test_update_outer_product_2x2() {
    let mut a = [0, 0, 99, 0];
    let x = [3, 4];
    update_outer_product_2x2(&mut a, &x);
    assert_eq!(a[0], 9);
    assert_eq!(a[1], 12);
    assert_eq!(a[2], 99);
    assert_eq!(a[3], 16);
}

#[test]
fn test_update_gauss_newton_operations_2x2() {
    let mut b = [10, 20];
    let j = [2, 3];
    update_gauss_newton_operations_2x2(&mut b, &j, 4);
    assert_eq!(b, [10 - 8, 20 - 12]);
}

#[test]
fn test_cofactor_2x2_4arg() {
    assert_eq!(cofactor_2x2(1, 2, 3, 4), -2);
}

#[test]
fn test_cofactor_2x2_sym_3arg() {
    assert_eq!(cofactor_2x2_sym(2, 1, 3), 5);
}

#[test]
fn test_determinant_2x2() {
    assert_eq!(determinant_2x2(&[1, 2, 3, 4]), -2);
    assert_eq!(determinant_2x2(&[2, 0, 0, 5]), 10);
}

#[test]
fn test_multiply_2x2_2x1() {
    let mut y = [0; 2];
    let a = [1, 2, 3, 4];
    let x = [5, 6];
    multiply_2x2_2x1(&mut y, &a, &x);
    assert_eq!(y, [1 * 5 + 2 * 6, 3 * 5 + 4 * 6]);
}

#[test]
fn test_multiply_3x3_3x1() {
    let mut y = [0; 3];
    let a = [1, 0, 0, 0, 1, 0, 0, 0, 1];
    let x = [7, 8, 9];
    multiply_3x3_3x1(&mut y, &a, &x);
    assert_eq!(y, x);
}

#[test]
fn test_accumulate_projection_9() {
    let e = [1, 0, 0, 0, 0, 0, 0, 0, 0];
    let a = [1, 2, 3, 4, 5, 6, 7, 8, 9];
    let mut x = a;
    accumulate_projection_9(&mut x, &e, &a);
    assert_eq!(x[0], 0);
    for i in 1..9 {
        assert_eq!(x[i], a[i]);
    }
}

// ===== Further cases =====

#[test]
fn max_index_prefers_first_maximum() {
    assert_eq!(max_index_3(&[4, 4, 1]), 0);
    assert_eq!(max_index_9(&[2, 9, 9, 0, 0, 0, 0, 0, 0]), 1);
}

#[test]
fn bitstring_set_leaves_other_bits() {
    let mut bits = [0b1010_1010u8, 0xFF];
    bitstring_set_bit(&mut bits, 0, 1);
    bitstring_set_bit(&mut bits, 9, 0);
    assert_eq!(bits, [0b1010_1011, 0b1111_1101]);
    for pos in 0..16 {
        let expect = (bits[pos / 8] >> (pos % 8)) & 1;
        assert_eq!(bitstring_get_bit(&bits, pos), expect);
    }
}

#[test]
fn copy_vector_copies_all_elements() {
    let src = [5i64, 6, 7, 8];
    let mut dst = [0i64; 4];
    copy_vector(&mut dst, &src);
    assert_eq!(dst, src);
}

#[test]
fn min3_min4_on_ties_and_negatives() {
    assert_eq!(min3(-2, -2, 0), -2);
    assert_eq!(min4(0, 0, -7, 3), -7);
    assert_eq!(max2(-1, -9), -1);
}
