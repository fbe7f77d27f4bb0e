//! Vector and small-matrix helpers on integer entries: zeroing, copying,
//! extrema, bit strings, dot products, scaling and 2x2 / 3x3 products.

use vstd::prelude::*;

verus! {

/// `x` is representable as an `i64`.
pub open spec fn in_i64(x: int) -> bool {
    i64::MIN <= x <= i64::MAX
}

/// Zeroes a 3-element vector.
pub fn zero_vector_3(v: &mut [i64; 3])
    ensures
        forall|i: int| 0 <= i < 3 ==> #[trigger] final(v)@[i] == 0,
{
    v[0] = 0;
    v[1] = 0;
    v[2] = 0;
}

/// Zeroes every element of a vector.
pub fn zero_vector(v: &mut [i64])
    ensures
        final(v)@.len() == old(v)@.len(),
        forall|i: int| 0 <= i < final(v)@.len() ==> #[trigger] final(v)@[i] == 0,
{
    let mut i: usize = 0;
    while i < v.len()
        invariant
            i <= v@.len(),
            v@.len() == old(v)@.len(),
            forall|j: int| 0 <= j < i ==> #[trigger] v@[j] == 0,
        decreases v@.len() - i,
    {
        v[i] = 0;
        i = i + 1;
    }
}

/// The larger of two values (`b` on ties).
pub fn max2(a: i64, b: i64) -> (r: i64)
    ensures
        r == if a > b { a } else { b },
{
    if a > b {
        a
    } else {
        b
    }
}

/// The smaller of two values (`b` on ties).
pub fn min2(a: i64, b: i64) -> (r: i64)
    ensures
        r == if a < b { a } else { b },
{
    if a < b {
        a
    } else {
        b
    }
}

/// The least of three values.
pub fn min3(a: i64, b: i64, c: i64) -> (r: i64)
    ensures
        r <= a && r <= b && r <= c,
        r == a || r == b || r == c,
{
    min2(min2(a, b), c)
}

/// The least of four values.
pub fn min4(a: i64, b: i64, c: i64, d: i64) -> (r: i64)
    ensures
        r <= a && r <= b && r <= c && r <= d,
        r == a || r == b || r == c || r == d,
{
    min2(min3(a, b, c), d)
}

/// Index of the first maximum among the first `n` elements of `s`.
pub open spec fn first_max_index(s: Seq<i64>, n: nat) -> nat
    decreases n,
{
    if n <= 1 {
        0
    } else {
        let p = first_max_index(s, (n - 1) as nat);
        if s[n - 1] > s[p as int] {
            (n - 1) as nat
        } else {
            p
        }
    }
}

/// Index of the maximum of a 2-element array (the later one on ties).
pub fn max_index_2(arr: &[i64; 2]) -> (r: usize)
    ensures
        r == if arr[0] > arr[1] { 0usize } else { 1usize },
{
    if arr[0] > arr[1] {
        0
    } else {
        1
    }
}

/// Index of the first maximum of a 3-element array.
pub fn max_index_3(arr: &[i64; 3]) -> (r: usize)
    ensures
        r == first_max_index(arr@, 3),
{
    assert(first_max_index(arr@, 1) == 0);
    assert(first_max_index(arr@, 2) == if arr@[1] > arr@[0] { 1nat } else { 0nat });
    let mut max_idx: usize = 0;
    if arr[1] > arr[max_idx] {
        max_idx = 1;
    }
    if arr[2] > arr[max_idx] {
        max_idx = 2;
    }
    max_idx
}

/// Index of the first maximum of a 4-element array.
pub fn max_index_4(arr: &[i64; 4]) -> (r: usize)
    ensures
        r == first_max_index(arr@, 4),
{
    let mut max_idx: usize = 0;
    let mut i: usize = 1;
    while i < 4
        invariant
            1 <= i <= 4,
            max_idx < i,
            max_idx == first_max_index(arr@, i as nat),
        decreases 4 - i,
    {
        if arr[i] > arr[max_idx] {
            max_idx = i;
        }
        i = i + 1;
    }
    max_idx
}

/// Index of the first maximum of a 5-element array.
pub fn max_index_5(arr: &[i64; 5]) -> (r: usize)
    ensures
        r == first_max_index(arr@, 5),
{
    let mut max_idx: usize = 0;
    let mut i: usize = 1;
    while i < 5
        invariant
            1 <= i <= 5,
            max_idx < i,
            max_idx == first_max_index(arr@, i as nat),
        decreases 5 - i,
    {
        if arr[i] > arr[max_idx] {
            max_idx = i;
        }
        i = i + 1;
    }
    max_idx
}

/// Index of the first maximum of a 6-element array.
pub fn max_index_6(arr: &[i64; 6]) -> (r: usize)
    ensures
        r == first_max_index(arr@, 6),
{
    let mut max_idx: usize = 0;
    let mut i: usize = 1;
    while i < 6
        invariant
            1 <= i <= 6,
            max_idx < i,
            max_idx == first_max_index(arr@, i as nat),
        decreases 6 - i,
    {
        if arr[i] > arr[max_idx] {
            max_idx = i;
        }
        i = i + 1;
    }
    max_idx
}

/// Index of the first maximum of a 7-element array.
pub fn max_index_7(arr: &[i64; 7]) -> (r: usize)
    ensures
        r == first_max_index(arr@, 7),
{
    let mut max_idx: usize = 0;
    let mut i: usize = 1;
    while i < 7
        invariant
            1 <= i <= 7,
            max_idx < i,
            max_idx == first_max_index(arr@, i as nat),
        decreases 7 - i,
    {
        if arr[i] > arr[max_idx] {
            max_idx = i;
        }
        i = i + 1;
    }
    max_idx
}

/// Index of the first maximum of a 8-element array.
pub fn max_index_8(arr: &[i64; 8]) -> (r: usize)
    ensures
        r == first_max_index(arr@, 8),
{
    let mut max_idx: usize = 0;
    let mut i: usize = 1;
    while i < 8
        invariant
            1 <= i <= 8,
            max_idx < i,
            max_idx == first_max_index(arr@, i as nat),
        decreases 8 - i,
    {
        if arr[i] > arr[max_idx] {
            max_idx = i;
        }
        i = i + 1;
    }
    max_idx
}

/// Index of the first maximum of a 9-element array.
pub fn max_index_9(arr: &[i64; 9]) -> (r: usize)
    ensures
        r == first_max_index(arr@, 9),
{
    let mut max_idx: usize = 0;
    let mut i: usize = 1;
    while i < 9
        invariant
            1 <= i <= 9,
            max_idx < i,
            max_idx == first_max_index(arr@, i as nat),
        decreases 9 - i,
    {
        if arr[i] > arr[max_idx] {
            max_idx = i;
        }
        i = i + 1;
    }
    max_idx
}

/// Copies a 2-element vector.
pub fn copy_vector_2<T: Copy>(dst: &mut [T; 2], src: &[T; 2])
    ensures
        final(dst)@ == src@,
{
    dst[0] = src[0];
    dst[1] = src[1];
    assert(dst@ =~= src@);
}

/// Copies a 3-element vector.
pub fn copy_vector_3<T: Copy>(dst: &mut [T; 3], src: &[T; 3])
    ensures
        final(dst)@ == src@,
{
    dst[0] = src[0];
    dst[1] = src[1];
    dst[2] = src[2];
    assert(dst@ =~= src@);
}

/// Copies a 4-element vector.
pub fn copy_vector_4<T: Copy>(dst: &mut [T; 4], src: &[T; 4])
    ensures
        final(dst)@ == src@,
{
    dst[0] = src[0];
    dst[1] = src[1];
    dst[2] = src[2];
    dst[3] = src[3];
    assert(dst@ =~= src@);
}

/// Copies a 5-element vector.
pub fn copy_vector_5<T: Copy>(dst: &mut [T; 5], src: &[T; 5])
    ensures
        final(dst)@ == src@,
{
    dst[0] = src[0];
    dst[1] = src[1];
    dst[2] = src[2];
    dst[3] = src[3];
    dst[4] = src[4];
    assert(dst@ =~= src@);
}

/// Copies a 6-element vector.
pub fn copy_vector_6<T: Copy>(dst: &mut [T; 6], src: &[T; 6])
    ensures
        final(dst)@ == src@,
{
    dst[0] = src[0];
    dst[1] = src[1];
    dst[2] = src[2];
    dst[3] = src[3];
    dst[4] = src[4];
    dst[5] = src[5];
    assert(dst@ =~= src@);
}

/// Copies a 7-element vector.
pub fn copy_vector_7<T: Copy>(dst: &mut [T; 7], src: &[T; 7])
    ensures
        final(dst)@ == src@,
{
    dst[0] = src[0];
    dst[1] = src[1];
    dst[2] = src[2];
    dst[3] = src[3];
    dst[4] = src[4];
    dst[5] = src[5];
    dst[6] = src[6];
    assert(dst@ =~= src@);
}

/// Copies a 8-element vector.
pub fn copy_vector_8<T: Copy>(dst: &mut [T; 8], src: &[T; 8])
    ensures
        final(dst)@ == src@,
{
    dst[0] = src[0];
    dst[1] = src[1];
    dst[2] = src[2];
    dst[3] = src[3];
    dst[4] = src[4];
    dst[5] = src[5];
    dst[6] = src[6];
    dst[7] = src[7];
    assert(dst@ =~= src@);
}

/// Copies a 9-element vector.
pub fn copy_vector_9<T: Copy>(dst: &mut [T; 9], src: &[T; 9])
    ensures
        final(dst)@ == src@,
{
    dst[0] = src[0];
    dst[1] = src[1];
    dst[2] = src[2];
    dst[3] = src[3];
    dst[4] = src[4];
    dst[5] = src[5];
    dst[6] = src[6];
    dst[7] = src[7];
    dst[8] = src[8];
    assert(dst@ =~= src@);
}

/// Copies `src` into `dst`; both have the same length.
pub fn copy_vector<T: Copy>(dst: &mut [T], src: &[T])
    requires
        old(dst)@.len() == src@.len(),
    ensures
        final(dst)@ == src@,
{
    let mut i: usize = 0;
    while i < src.len()
        invariant
            i <= src@.len(),
            dst@.len() == src@.len(),
            forall|j: int| 0 <= j < i ==> #[trigger] dst@[j] == src@[j],
        decreases src@.len() - i,
    {
        dst[i] = src[i];
        i = i + 1;
    }
    assert(dst@ =~= src@);
}

/// Exchanges two 9-element arrays.
pub fn swap_9<T>(a: &mut [T; 9], b: &mut [T; 9])
    ensures
        *final(a) == *old(b),
        *final(b) == *old(a),
{
    core::mem::swap(a, b);
}

/// The bit at `pos` of a bit string stored least-significant bit first.
pub open spec fn bit_at(s: Seq<u8>, pos: int) -> u8 {
    (s[pos / 8] >> ((pos % 8) as u8)) & 1
}

/// The byte `b` with bit `k` set (when `bit != 0`) or cleared.
pub open spec fn with_bit(b: u8, k: u8, bit: u8) -> u8 {
    if bit != 0 {
        b | (1u8 << k)
    } else {
        b & !(1u8 << k)
    }
}

/// Sets bit `pos` of `bitstring` to 1 when `bit != 0`, else to 0.
pub fn bitstring_set_bit(bitstring: &mut [u8], pos: usize, bit: u8)
    requires
        pos / 8 < old(bitstring)@.len(),
    ensures
        final(bitstring)@ == old(bitstring)@.update(
            (pos / 8) as int,
            with_bit(old(bitstring)@[(pos / 8) as int], (pos % 8) as u8, bit),
        ),
{
    let byte_idx = pos / 8;
    let bit_idx = (pos % 8) as u8;
    if bit != 0 {
        bitstring[byte_idx] = bitstring[byte_idx] | (1u8 << bit_idx);
    } else {
        bitstring[byte_idx] = bitstring[byte_idx] & !(1u8 << bit_idx);
    }
}

/// Returns bit `pos` of `bitstring` (0 or 1).
pub fn bitstring_get_bit(bitstring: &[u8], pos: usize) -> (r: u8)
    requires
        pos / 8 < bitstring@.len(),
    ensures
        r == bit_at(bitstring@, pos as int),
        r <= 1,
{
    let byte_idx = pos / 8;
    let bit_idx = (pos % 8) as u8;
    let b = bitstring[byte_idx];
    assert((b >> bit_idx) & 1 <= 1) by (bit_vector);
    (b >> bit_idx) & 1
}

proof fn lemma_with_bit(b: u8, k: u8, j: u8, bit: u8)
    by (bit_vector)
    requires
        k < 8,
        j < 8,
    ensures
        (with_bit(b, k, bit) >> k) & 1 == if bit != 0 { 1u8 } else { 0u8 },
        j != k ==> (with_bit(b, k, bit) >> j) & 1 == (b >> j) & 1,
{
}

/// Reading a bit gives back what was written there, and writing a bit
/// leaves every other bit unchanged.
pub proof fn lemma_bitstring_set_get(s: Seq<u8>, pos: int, bit: u8, other: int)
    requires
        0 <= pos,
        pos / 8 < s.len(),
        0 <= other,
        other / 8 < s.len(),
    ensures
        ({
            let t = s.update(pos / 8, with_bit(s[pos / 8], (pos % 8) as u8, bit));
            &&& bit_at(t, pos) == if bit != 0 { 1u8 } else { 0u8 }
            &&& other != pos ==> bit_at(t, other) == bit_at(s, other)
        }),
{
    let t = s.update(pos / 8, with_bit(s[pos / 8], (pos % 8) as u8, bit));
    lemma_with_bit(s[pos / 8], (pos % 8) as u8, (pos % 8) as u8, bit);
    if other / 8 == pos / 8 {
        lemma_with_bit(s[pos / 8], (pos % 8) as u8, (other % 8) as u8, bit);
    }
}

/// Fills `v` with `x0, x0 + 1, x0 + 2, ...`.
pub fn sequential_vector_i32(v: &mut [i32], x0: i32)
    requires
        x0 + old(v)@.len() < i32::MAX,
    ensures
        final(v)@.len() == old(v)@.len(),
        forall|i: int| 0 <= i < final(v)@.len() ==> #[trigger] final(v)@[i] == x0 + i,
{
    let mut i: usize = 0;
    let mut val: i32 = x0;
    while i < v.len()
        invariant
            i <= v@.len(),
            v@.len() == old(v)@.len(),
            x0 + v@.len() < i32::MAX,
            val == x0 + i,
            forall|j: int| 0 <= j < i ==> #[trigger] v@[j] == x0 + j,
        decreases v@.len() - i,
    {
        v[i] = val;
        val = val + 1;
        i = i + 1;
    }
}

/// The square of `x`.
pub fn sqr(x: i64) -> (r: i64)
    requires
        in_i64(x * x),
    ensures
        r == x * x,
{
    x * x
}

/// Dot product of two 4-element vectors.
pub fn dot_product_4(a: &[i64; 4], b: &[i64; 4]) -> (r: i64)
    requires
        in_i64(a[0] * b[0]),
        in_i64(a[1] * b[1]),
        in_i64(a[2] * b[2]),
        in_i64(a[3] * b[3]),
        in_i64(a[0] * b[0] + a[1] * b[1]),
        in_i64(a[0] * b[0] + a[1] * b[1] + a[2] * b[2]),
        in_i64(a[0] * b[0] + a[1] * b[1] + a[2] * b[2] + a[3] * b[3]),
    ensures
        r == a[0] * b[0] + a[1] * b[1] + a[2] * b[2] + a[3] * b[3],
{
    a[0] * b[0] + a[1] * b[1] + a[2] * b[2] + a[3] * b[3]
}

/// Dot product of two 9-element vectors.
pub fn dot_product_9(a: &[i64; 9], b: &[i64; 9]) -> (r: i64)
    requires
        in_i64(a[0] * b[0]),
        in_i64(a[1] * b[1]),
        in_i64(a[2] * b[2]),
        in_i64(a[3] * b[3]),
        in_i64(a[4] * b[4]),
        in_i64(a[5] * b[5]),
        in_i64(a[6] * b[6]),
        in_i64(a[7] * b[7]),
        in_i64(a[8] * b[8]),
        in_i64(a[0] * b[0] + a[1] * b[1]),
        in_i64(a[0] * b[0] + a[1] * b[1] + a[2] * b[2]),
        in_i64(a[0] * b[0] + a[1] * b[1] + a[2] * b[2] + a[3] * b[3]),
        in_i64(a[0] * b[0] + a[1] * b[1] + a[2] * b[2] + a[3] * b[3] + a[4] * b[4]),
        in_i64(a[0] * b[0] + a[1] * b[1] + a[2] * b[2] + a[3] * b[3] + a[4] * b[4] + a[5] * b[5]),
        in_i64(a[0] * b[0] + a[1] * b[1] + a[2] * b[2] + a[3] * b[3] + a[4] * b[4] + a[5] * b[5] + a[6] * b[6]),
        in_i64(a[0] * b[0] + a[1] * b[1] + a[2] * b[2] + a[3] * b[3] + a[4] * b[4] + a[5] * b[5] + a[6] * b[6] + a[7] * b[7]),
        in_i64(a[0] * b[0] + a[1] * b[1] + a[2] * b[2] + a[3] * b[3] + a[4] * b[4] + a[5] * b[5] + a[6] * b[6] + a[7] * b[7] + a[8] * b[8]),
    ensures
        r == a[0] * b[0] + a[1] * b[1] + a[2] * b[2] + a[3] * b[3] + a[4] * b[4] + a[5] * b[5] + a[6] * b[6] + a[7] * b[7] + a[8] * b[8],
{
    a[0] * b[0] + a[1] * b[1] + a[2] * b[2] + a[3] * b[3] + a[4] * b[4] + a[5] * b[5] + a[6] * b[6]
        + a[7] * b[7] + a[8] * b[8]
}

/// Sum of the squares of a 9-element vector.
pub fn sum_squares_9(x: &[i64; 9]) -> (r: i64)
    requires
        in_i64(x[0] * x[0]),
        in_i64(x[1] * x[1]),
        in_i64(x[2] * x[2]),
        in_i64(x[3] * x[3]),
        in_i64(x[4] * x[4]),
        in_i64(x[5] * x[5]),
        in_i64(x[6] * x[6]),
        in_i64(x[7] * x[7]),
        in_i64(x[8] * x[8]),
        in_i64(x[0] * x[0] + x[1] * x[1]),
        in_i64(x[0] * x[0] + x[1] * x[1] + x[2] * x[2]),
        in_i64(x[0] * x[0] + x[1] * x[1] + x[2] * x[2] + x[3] * x[3]),
        in_i64(x[0] * x[0] + x[1] * x[1] + x[2] * x[2] + x[3] * x[3] + x[4] * x[4]),
        in_i64(x[0] * x[0] + x[1] * x[1] + x[2] * x[2] + x[3] * x[3] + x[4] * x[4] + x[5] * x[5]),
        in_i64(x[0] * x[0] + x[1] * x[1] + x[2] * x[2] + x[3] * x[3] + x[4] * x[4] + x[5] * x[5] + x[6] * x[6]),
        in_i64(x[0] * x[0] + x[1] * x[1] + x[2] * x[2] + x[3] * x[3] + x[4] * x[4] + x[5] * x[5] + x[6] * x[6] + x[7] * x[7]),
        in_i64(x[0] * x[0] + x[1] * x[1] + x[2] * x[2] + x[3] * x[3] + x[4] * x[4] + x[5] * x[5] + x[6] * x[6] + x[7] * x[7] + x[8] * x[8]),
    ensures
        r == x[0] * x[0] + x[1] * x[1] + x[2] * x[2] + x[3] * x[3] + x[4] * x[4] + x[5] * x[5] + x[6] * x[6] + x[7] * x[7] + x[8] * x[8],
{
    dot_product_9(x, x)
}

/// Scales a 4-element vector: `dst = src * s`.
pub fn scale_vector_4(dst: &mut [i64; 4], src: &[i64; 4], s: i64)
    requires
        forall|i: int| 0 <= i < 4 ==> in_i64(#[trigger] src@[i] * s),
    ensures
        forall|i: int| 0 <= i < 4 ==> #[trigger] final(dst)@[i] == src@[i] * s,
{
    assert(in_i64(src@[0] * s));
    assert(in_i64(src@[1] * s));
    assert(in_i64(src@[2] * s));
    assert(in_i64(src@[3] * s));
    dst[0] = src[0] * s;
    dst[1] = src[1] * s;
    dst[2] = src[2] * s;
    dst[3] = src[3] * s;
}

/// Scales a 8-element vector: `dst = src * s`.
pub fn scale_vector_8(dst: &mut [i64; 8], src: &[i64; 8], s: i64)
    requires
        forall|i: int| 0 <= i < 8 ==> in_i64(#[trigger] src@[i] * s),
    ensures
        forall|i: int| 0 <= i < 8 ==> #[trigger] final(dst)@[i] == src@[i] * s,
{
    assert(in_i64(src@[0] * s));
    assert(in_i64(src@[1] * s));
    assert(in_i64(src@[2] * s));
    assert(in_i64(src@[3] * s));
    assert(in_i64(src@[4] * s));
    assert(in_i64(src@[5] * s));
    assert(in_i64(src@[6] * s));
    assert(in_i64(src@[7] * s));
    dst[0] = src[0] * s;
    dst[1] = src[1] * s;
    dst[2] = src[2] * s;
    dst[3] = src[3] * s;
    dst[4] = src[4] * s;
    dst[5] = src[5] * s;
    dst[6] = src[6] * s;
    dst[7] = src[7] * s;
}

/// Scales a 9-element vector: `dst = src * s`.
pub fn scale_vector_9(dst: &mut [i64; 9], src: &[i64; 9], s: i64)
    requires
        forall|i: int| 0 <= i < 9 ==> in_i64(#[trigger] src@[i] * s),
    ensures
        forall|i: int| 0 <= i < 9 ==> #[trigger] final(dst)@[i] == src@[i] * s,
{
    assert(in_i64(src@[0] * s));
    assert(in_i64(src@[1] * s));
    assert(in_i64(src@[2] * s));
    assert(in_i64(src@[3] * s));
    assert(in_i64(src@[4] * s));
    assert(in_i64(src@[5] * s));
    assert(in_i64(src@[6] * s));
    assert(in_i64(src@[7] * s));
    assert(in_i64(src@[8] * s));
    dst[0] = src[0] * s;
    dst[1] = src[1] * s;
    dst[2] = src[2] * s;
    dst[3] = src[3] * s;
    dst[4] = src[4] * s;
    dst[5] = src[5] * s;
    dst[6] = src[6] * s;
    dst[7] = src[7] * s;
    dst[8] = src[8] * s;
}

/// Accumulates a scaled 9-element vector: `dst += src * s`.
pub fn accumulate_scaled_vector_9(dst: &mut [i64; 9], src: &[i64; 9], s: i64)
    requires
        forall|i: int| 0 <= i < 9 ==> in_i64(#[trigger] src@[i] * s),
        forall|i: int| 0 <= i < 9 ==> in_i64(#[trigger] old(dst)@[i] + src@[i] * s),
    ensures
        forall|i: int| 0 <= i < 9 ==> #[trigger] final(dst)@[i] == old(dst)@[i] + src@[i] * s,
{
    assert(in_i64(src@[0] * s) && in_i64(old(dst)@[0] + src@[0] * s));
    assert(in_i64(src@[1] * s) && in_i64(old(dst)@[1] + src@[1] * s));
    assert(in_i64(src@[2] * s) && in_i64(old(dst)@[2] + src@[2] * s));
    assert(in_i64(src@[3] * s) && in_i64(old(dst)@[3] + src@[3] * s));
    assert(in_i64(src@[4] * s) && in_i64(old(dst)@[4] + src@[4] * s));
    assert(in_i64(src@[5] * s) && in_i64(old(dst)@[5] + src@[5] * s));
    assert(in_i64(src@[6] * s) && in_i64(old(dst)@[6] + src@[6] * s));
    assert(in_i64(src@[7] * s) && in_i64(old(dst)@[7] + src@[7] * s));
    assert(in_i64(src@[8] * s) && in_i64(old(dst)@[8] + src@[8] * s));
    dst[0] = dst[0] + src[0] * s;
    dst[1] = dst[1] + src[1] * s;
    dst[2] = dst[2] + src[2] * s;
    dst[3] = dst[3] + src[3] * s;
    dst[4] = dst[4] + src[4] * s;
    dst[5] = dst[5] + src[5] * s;
    dst[6] = dst[6] + src[6] * s;
    dst[7] = dst[7] + src[7] * s;
    dst[8] = dst[8] + src[8] * s;
}

/// Linear combination of two 4-element vectors: `w = u * a + v * b`.
pub fn add_scaled_vectors_4(w: &mut [i64; 4], u: &[i64; 4], v: &[i64; 4], a: i64, b: i64)
    requires
        forall|i: int| 0 <= i < 4 ==> in_i64(a * #[trigger] u@[i]),
        forall|i: int| 0 <= i < 4 ==> in_i64(b * #[trigger] v@[i]),
        forall|i: int| 0 <= i < 4 ==> in_i64(a * #[trigger] u@[i] + b * v@[i]),
    ensures
        forall|i: int| 0 <= i < 4 ==> #[trigger] final(w)@[i] == a * u@[i] + b * v@[i],
{
    assert(in_i64(a * u@[0]) && in_i64(b * v@[0]) && in_i64(a * u@[0] + b * v@[0]));
    assert(in_i64(a * u@[1]) && in_i64(b * v@[1]) && in_i64(a * u@[1] + b * v@[1]));
    assert(in_i64(a * u@[2]) && in_i64(b * v@[2]) && in_i64(a * u@[2] + b * v@[2]));
    assert(in_i64(a * u@[3]) && in_i64(b * v@[3]) && in_i64(a * u@[3] + b * v@[3]));
    w[0] = a * u[0] + b * v[0];
    w[1] = a * u[1] + b * v[1];
    w[2] = a * u[2] + b * v[2];
    w[3] = a * u[3] + b * v[3];
}

/// Adds the outer product `x * x^T` into the upper triangle of a symmetric
/// 2x2 matrix (`a[2]`, the mirror entry, is left as it is).
pub fn update_outer_product_2x2(a: &mut [i64; 4], x: &[i64; 2])
    requires
        in_i64(x[0] * x[0]),
        in_i64(x[0] * x[1]),
        in_i64(x[1] * x[1]),
        in_i64(old(a)[0] + x[0] * x[0]),
        in_i64(old(a)[1] + x[0] * x[1]),
        in_i64(old(a)[3] + x[1] * x[1]),
    ensures
        final(a)[0] == old(a)[0] + x[0] * x[0],
        final(a)[1] == old(a)[1] + x[0] * x[1],
        final(a)[2] == old(a)[2],
        final(a)[3] == old(a)[3] + x[1] * x[1],
{
    a[0] = a[0] + x[0] * x[0];
    a[1] = a[1] + x[0] * x[1];
    a[3] = a[3] + x[1] * x[1];
}

/// Gauss-Newton right-hand side update: `b -= j * residual`.
pub fn update_gauss_newton_operations_2x2(b: &mut [i64; 2], j: &[i64; 2], residual: i64)
    requires
        in_i64(j[0] * residual),
        in_i64(j[1] * residual),
        in_i64(old(b)[0] - j[0] * residual),
        in_i64(old(b)[1] - j[1] * residual),
    ensures
        final(b)[0] == old(b)[0] - j[0] * residual,
        final(b)[1] == old(b)[1] - j[1] * residual,
{
    b[0] = b[0] - j[0] * residual;
    b[1] = b[1] - j[1] * residual;
}

/// Cofactor of the 2x2 matrix `[[a, b], [c, d]]`: `a * d - b * c`.
pub fn cofactor_2x2(a: i64, b: i64, c: i64, d: i64) -> (r: i64)
    requires
        in_i64(a * d),
        in_i64(b * c),
        in_i64(a * d - b * c),
    ensures
        r == a * d - b * c,
{
    a * d - b * c
}

/// Cofactor of the symmetric 2x2 matrix `[[a, b], [b, c]]`: `a * c - b * b`.
pub fn cofactor_2x2_sym(a: i64, b: i64, c: i64) -> (r: i64)
    requires
        in_i64(a * c),
        in_i64(b * b),
        in_i64(a * c - b * b),
    ensures
        r == a * c - b * b,
{
    a * c - b * b
}

/// Determinant of the row-major 2x2 matrix `[a00, a01, a10, a11]`.
pub fn determinant_2x2(a: &[i64; 4]) -> (r: i64)
    requires
        in_i64(a[0] * a[3]),
        in_i64(a[1] * a[2]),
        in_i64(a[0] * a[3] - a[1] * a[2]),
    ensures
        r == a[0] * a[3] - a[1] * a[2],
{
    cofactor_2x2(a[0], a[1], a[2], a[3])
}

/// `y = A * x` for a row-major 2x2 matrix.
pub fn multiply_2x2_2x1(y: &mut [i64; 2], a: &[i64; 4], x: &[i64; 2])
    requires
        in_i64(a[0] * x[0]),
        in_i64(a[1] * x[1]),
        in_i64(a[2] * x[0]),
        in_i64(a[3] * x[1]),
        in_i64(a[0] * x[0] + a[1] * x[1]),
        in_i64(a[2] * x[0] + a[3] * x[1]),
    ensures
        final(y)[0] == a[0] * x[0] + a[1] * x[1],
        final(y)[1] == a[2] * x[0] + a[3] * x[1],
{
    y[0] = a[0] * x[0] + a[1] * x[1];
    y[1] = a[2] * x[0] + a[3] * x[1];
}

/// `y = A * x` for a row-major 3x3 matrix.
pub fn multiply_3x3_3x1(y: &mut [i64; 3], a: &[i64; 9], x: &[i64; 3])
    requires
        in_i64(a[0] * x[0]),
        in_i64(a[1] * x[1]),
        in_i64(a[2] * x[2]),
        in_i64(a[0] * x[0] + a[1] * x[1]),
        in_i64(a[0] * x[0] + a[1] * x[1] + a[2] * x[2]),
        in_i64(a[3] * x[0]),
        in_i64(a[4] * x[1]),
        in_i64(a[5] * x[2]),
        in_i64(a[3] * x[0] + a[4] * x[1]),
        in_i64(a[3] * x[0] + a[4] * x[1] + a[5] * x[2]),
        in_i64(a[6] * x[0]),
        in_i64(a[7] * x[1]),
        in_i64(a[8] * x[2]),
        in_i64(a[6] * x[0] + a[7] * x[1]),
        in_i64(a[6] * x[0] + a[7] * x[1] + a[8] * x[2]),
    ensures
        final(y)[0] == a[0] * x[0] + a[1] * x[1] + a[2] * x[2],
        final(y)[1] == a[3] * x[0] + a[4] * x[1] + a[5] * x[2],
        final(y)[2] == a[6] * x[0] + a[7] * x[1] + a[8] * x[2],
{
    y[0] = a[0] * x[0] + a[1] * x[1] + a[2] * x[2];
    y[1] = a[3] * x[0] + a[4] * x[1] + a[5] * x[2];
    y[2] = a[6] * x[0] + a[7] * x[1] + a[8] * x[2];
}

/// Projects out `e`: `x -= dot(a, e) * e`.
pub fn accumulate_projection_9(x: &mut [i64; 9], e: &[i64; 9], a: &[i64; 9])
    requires
        in_i64(a[0] * e[0]),
        in_i64(a[1] * e[1]),
        in_i64(a[2] * e[2]),
        in_i64(a[3] * e[3]),
        in_i64(a[4] * e[4]),
        in_i64(a[5] * e[5]),
        in_i64(a[6] * e[6]),
        in_i64(a[7] * e[7]),
        in_i64(a[8] * e[8]),
        in_i64(a[0] * e[0] + a[1] * e[1]),
        in_i64(a[0] * e[0] + a[1] * e[1] + a[2] * e[2]),
        in_i64(a[0] * e[0] + a[1] * e[1] + a[2] * e[2] + a[3] * e[3]),
        in_i64(a[0] * e[0] + a[1] * e[1] + a[2] * e[2] + a[3] * e[3] + a[4] * e[4]),
        in_i64(a[0] * e[0] + a[1] * e[1] + a[2] * e[2] + a[3] * e[3] + a[4] * e[4] + a[5] * e[5]),
        in_i64(a[0] * e[0] + a[1] * e[1] + a[2] * e[2] + a[3] * e[3] + a[4] * e[4] + a[5] * e[5] + a[6] * e[6]),
        in_i64(a[0] * e[0] + a[1] * e[1] + a[2] * e[2] + a[3] * e[3] + a[4] * e[4] + a[5] * e[5] + a[6] * e[6] + a[7] * e[7]),
        in_i64(a[0] * e[0] + a[1] * e[1] + a[2] * e[2] + a[3] * e[3] + a[4] * e[4] + a[5] * e[5] + a[6] * e[6] + a[7] * e[7] + a[8] * e[8]),
        forall|i: int| 0 <= i < 9 ==> in_i64((a[0] * e[0] + a[1] * e[1] + a[2] * e[2] + a[3] * e[3] + a[4] * e[4] + a[5] * e[5] + a[6] * e[6] + a[7] * e[7] + a[8] * e[8]) * #[trigger] e@[i]),
        forall|i: int| 0 <= i < 9 ==> in_i64(#[trigger] old(x)@[i] - (a[0] * e[0] + a[1] * e[1] + a[2] * e[2] + a[3] * e[3] + a[4] * e[4] + a[5] * e[5] + a[6] * e[6] + a[7] * e[7] + a[8] * e[8]) * e@[i]),
    ensures
        forall|i: int| 0 <= i < 9 ==> #[trigger] final(x)@[i] == old(x)@[i] - (a[0] * e[0] + a[1] * e[1] + a[2] * e[2] + a[3] * e[3] + a[4] * e[4] + a[5] * e[5] + a[6] * e[6] + a[7] * e[7] + a[8] * e[8]) * e@[i],
{
    let d = dot_product_9(a, e);
    assert(in_i64(d * e@[0]) && in_i64(old(x)@[0] - d * e@[0]));
    assert(in_i64(d * e@[1]) && in_i64(old(x)@[1] - d * e@[1]));
    assert(in_i64(d * e@[2]) && in_i64(old(x)@[2] - d * e@[2]));
    assert(in_i64(d * e@[3]) && in_i64(old(x)@[3] - d * e@[3]));
    assert(in_i64(d * e@[4]) && in_i64(old(x)@[4] - d * e@[4]));
    assert(in_i64(d * e@[5]) && in_i64(old(x)@[5] - d * e@[5]));
    assert(in_i64(d * e@[6]) && in_i64(old(x)@[6] - d * e@[6]));
    assert(in_i64(d * e@[7]) && in_i64(old(x)@[7] - d * e@[7]));
    assert(in_i64(d * e@[8]) && in_i64(old(x)@[8] - d * e@[8]));
    x[0] = x[0] - d * e[0];
    x[1] = x[1] - d * e[1];
    x[2] = x[2] - d * e[2];
    x[3] = x[3] - d * e[3];
    x[4] = x[4] - d * e[4];
    x[5] = x[5] - d * e[5];
    x[6] = x[6] - d * e[6];
    x[7] = x[7] - d * e[7];
    x[8] = x[8] - d * e[8];
}

} // verus!
