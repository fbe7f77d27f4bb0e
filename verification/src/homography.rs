//! Integer pieces of the robust homography estimator: the generator and
//! sample shuffle that draw hypotheses, the 3x3 product and the encoding of
//! Lie-algebra weights as a trace-free matrix.

use vstd::prelude::*;
use crate::clustering::{lcg_next, lcg_output, seq_swap, lemma_swap_multiset};
use crate::math::in_i64;

verus! {

/// Largest value `fast_random` returns.
pub const FAST_RAND_MAX: i32 = 32767;

proof fn lemma_output_range(s: i32)
    by (bit_vector)
    ensures
        0 <= (s >> 16i32) & 0x7FFFi32 <= 32767,
{
}

/// Advances `seed` by one step of `214013 * seed + 2531011` (wrapping) and
/// returns bits 16..30 of the new state.
pub fn fast_random(seed: &mut i32) -> (r: i32)
    ensures
        *final(seed) == lcg_next(*old(seed)),
        r == lcg_output(*final(seed)),
        0 <= r <= FAST_RAND_MAX,
{
    proof {
        let s = *old(seed);
        assert(vstd::wrapping::i32_specs::wrapping_mul(214013i32, s)
            == vstd::wrapping::i32_specs::wrapping_mul(s, 214013i32)) by (bit_vector);
    }
    *seed = 214013i32.wrapping_mul(*seed).wrapping_add(2531011);
    proof {
        lemma_output_range(*seed);
    }
    (*seed >> 16) & FAST_RAND_MAX
}

/// The state reached by the shuffle after positions `i..sample` have been
/// visited: position `i` is exchanged with a position drawn from the first
/// `pop` positions.
pub open spec fn shuffle_pop(v: Seq<i32>, pop: nat, i: nat, sample: nat, seed: i32) -> (Seq<i32>, i32)
    decreases sample - i,
{
    if i >= sample || pop == 0 {
        (v, seed)
    } else {
        let s2 = lcg_next(seed);
        let k = (lcg_output(s2) as int) % (pop as int);
        shuffle_pop(seq_swap(v, i as int, k), pop, i + 1, sample, s2)
    }
}

proof fn lemma_shuffle_pop_multiset(v: Seq<i32>, pop: nat, i: nat, sample: nat, seed: i32)
    requires
        pop <= v.len(),
        sample <= v.len(),
    ensures
        shuffle_pop(v, pop, i, sample, seed).0.to_multiset() == v.to_multiset(),
        shuffle_pop(v, pop, i, sample, seed).0.len() == v.len(),
    decreases sample - i,
{
    if i < sample && pop != 0 {
        let s2 = lcg_next(seed);
        let k = (lcg_output(s2) as int) % (pop as int);
        lemma_swap_multiset(v, i as int, k);
        lemma_shuffle_pop_multiset(seq_swap(v, i as int, k), pop, i + 1, sample, s2);
    }
}

/// Shuffles the first `sample_size` positions of `v`: position `i` is
/// exchanged with a position drawn by `fast_random` from the first
/// `pop_size` positions. `seed` carries the generator state across calls.
pub fn array_shuffle(v: &mut [i32], pop_size: usize, sample_size: usize, seed: &mut i32)
    requires
        pop_size <= old(v)@.len(),
        sample_size <= old(v)@.len(),
        sample_size == 0 || pop_size > 0,
    ensures
        (final(v)@, *final(seed)) == shuffle_pop(old(v)@, pop_size as nat, 0, sample_size as nat, *old(seed)),
        final(v)@.to_multiset() == old(v)@.to_multiset(),
{
    proof {
        lemma_shuffle_pop_multiset(old(v)@, pop_size as nat, 0, sample_size as nat, *old(seed));
    }
    let mut i: usize = 0;
    while i < sample_size
        invariant
            pop_size <= v@.len(),
            sample_size <= v@.len(),
            sample_size == 0 || pop_size > 0,
            i <= sample_size,
            shuffle_pop(v@, pop_size as nat, i as nat, sample_size as nat, *seed) == shuffle_pop(
                old(v)@,
                pop_size as nat,
                0,
                sample_size as nat,
                *old(seed),
            ),
        decreases sample_size - i,
    {
        let r = fast_random(seed);
        let k = (r as usize) % pop_size;
        let vi = v[i];
        let vk = v[k];
        v[i] = vk;
        v[k] = vi;
        i = i + 1;
    }
}

/// Entry `(r, c)` of the product of two row-major 3x3 matrices.
pub open spec fn mat3_entry(a: Seq<i64>, b: Seq<i64>, r: int, c: int) -> int {
    a[3 * r] * b[c] + a[3 * r + 1] * b[3 + c] + a[3 * r + 2] * b[6 + c]
}

/// Each product and partial sum of entry `(r, c)` of `a * b` fits in an `i64`.
pub open spec fn mat3_entry_fits(a: Seq<i64>, b: Seq<i64>, r: int, c: int) -> bool {
    &&& in_i64(a[3 * r] * b[c])
    &&& in_i64(a[3 * r + 1] * b[3 + c])
    &&& in_i64(a[3 * r + 2] * b[6 + c])
    &&& in_i64(a[3 * r] * b[c] + a[3 * r + 1] * b[3 + c])
    &&& in_i64(mat3_entry(a, b, r, c))
}

/// The row-major 3x3 identity.
pub open spec fn mat3_identity() -> Seq<i64> {
    seq![1i64, 0, 0, 0, 1, 0, 0, 0, 1]
}

fn mat3_entry_exec(a: &[i64; 9], b: &[i64; 9], r: usize, c: usize) -> (e: i64)
    requires
        r < 3,
        c < 3,
        mat3_entry_fits(a@, b@, r as int, c as int),
    ensures
        e == mat3_entry(a@, b@, r as int, c as int),
{
    a[3 * r] * b[c] + a[3 * r + 1] * b[3 + c] + a[3 * r + 2] * b[6 + c]
}

/// `c = a * b` for row-major 3x3 matrices.
pub fn multiply_3x3_3x3(c: &mut [i64; 9], a: &[i64; 9], b: &[i64; 9])
    requires
        forall|r: int, k: int| 0 <= r < 3 && 0 <= k < 3 ==> #[trigger] mat3_entry_fits(a@, b@, r, k),
    ensures
        forall|r: int, k: int| 0 <= r < 3 && 0 <= k < 3 ==> #[trigger] final(c)@[3 * r + k] == mat3_entry(a@, b@, r, k),
{
    c[0] = mat3_entry_exec(a, b, 0, 0);
    c[1] = mat3_entry_exec(a, b, 0, 1);
    c[2] = mat3_entry_exec(a, b, 0, 2);
    c[3] = mat3_entry_exec(a, b, 1, 0);
    c[4] = mat3_entry_exec(a, b, 1, 1);
    c[5] = mat3_entry_exec(a, b, 1, 2);
    c[6] = mat3_entry_exec(a, b, 2, 0);
    c[7] = mat3_entry_exec(a, b, 2, 1);
    c[8] = mat3_entry_exec(a, b, 2, 2);
    assert(forall|r: int, k: int| 0 <= r < 3 && 0 <= k < 3 ==> #[trigger] c@[3 * r + k] == mat3_entry(a@, b@, r, k));
}

/// The identity is neutral on both sides of the 3x3 product.
pub proof fn lemma_mat3_identity(a: Seq<i64>)
    requires
        a.len() == 9,
    ensures
        forall|r: int, k: int| 0 <= r < 3 && 0 <= k < 3 ==> #[trigger] mat3_entry(a, mat3_identity(), r, k) == a[3 * r + k],
        forall|r: int, k: int| 0 <= r < 3 && 0 <= k < 3 ==> #[trigger] mat3_entry(mat3_identity(), a, r, k) == a[3 * r + k],
{
    assert forall|r: int, k: int| 0 <= r < 3 && 0 <= k < 3 implies #[trigger] mat3_entry(a, mat3_identity(), r, k) == a[3 * r + k] by {
        assert(a[3 * r] * 0 == 0 && a[3 * r] * 1 == a[3 * r]) by (nonlinear_arith);
        assert(a[3 * r + 1] * 0 == 0 && a[3 * r + 1] * 1 == a[3 * r + 1]) by (nonlinear_arith);
        assert(a[3 * r + 2] * 0 == 0 && a[3 * r + 2] * 1 == a[3 * r + 2]) by (nonlinear_arith);
    }
    assert forall|r: int, k: int| 0 <= r < 3 && 0 <= k < 3 implies #[trigger] mat3_entry(mat3_identity(), a, r, k) == a[3 * r + k] by {
        assert(0 * a[k] == 0 && 1 * a[k] == a[k]) by (nonlinear_arith);
        assert(0 * a[3 + k] == 0 && 1 * a[3 + k] == a[3 + k]) by (nonlinear_arith);
        assert(0 * a[6 + k] == 0 && 1 * a[6 + k] == a[6 + k]) by (nonlinear_arith);
    }
}

/// Writes the 3x3 matrix of the Lie-algebra weights `x`:
/// `[x4, x2, x0; x3, -(x4 + x5), x1; x6, x7, x5]`, whose trace is zero.
pub fn lie_algebra_sum(a: &mut [i64; 9], x: &[i64; 8])
    requires
        i64::MIN < x[4] + x[5] <= i64::MAX,
    ensures
        final(a)@ == seq![x[4], x[2], x[0], x[3], (-(x[4] + x[5])) as i64, x[1], x[6], x[7], x[5]],
        final(a)[0] + final(a)[4] + final(a)[8] == 0,
{
    a[0] = x[4];
    a[1] = x[2];
    a[2] = x[0];
    a[3] = x[3];
    a[4] = -(x[4] + x[5]);
    a[5] = x[1];
    a[6] = x[6];
    a[7] = x[7];
    a[8] = x[5];
    assert(a@ =~= seq![x[4], x[2], x[0], x[3], (-(x[4] + x[5])) as i64, x[1], x[6], x[7], x[5]]);
}

} // verus!
