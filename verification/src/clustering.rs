//! Hamming distances on 96-byte FREAK descriptors, the linear congruential
//! generator used for seeding, k-medoids clustering and the binary
//! hierarchical clustering tree.

use vstd::prelude::*;
use vstd::multiset::Multiset;

verus! {

/// Number of set bits of a byte.
pub open spec fn popcount8(x: u8) -> nat {
    ((x & 1) + ((x >> 1u8) & 1) + ((x >> 2u8) & 1) + ((x >> 3u8) & 1) + ((x >> 4u8) & 1)
        + ((x >> 5u8) & 1) + ((x >> 6u8) & 1) + ((x >> 7u8) & 1)) as nat
}

/// Number of set bits of a 32-bit word.
pub open spec fn popcount32(x: u32) -> nat {
    (((x >> 0u32) & 1) + ((x >> 1u32) & 1) + ((x >> 2u32) & 1) + ((x >> 3u32) & 1) + ((x >> 4u32) & 1) + ((x >> 5u32) & 1) + ((x >> 6u32) & 1) + ((x >> 7u32) & 1) + ((x >> 8u32) & 1) + ((x >> 9u32) & 1) + ((x >> 10u32) & 1) + ((x >> 11u32) & 1) + ((x >> 12u32) & 1) + ((x >> 13u32) & 1) + ((x >> 14u32) & 1) + ((x >> 15u32) & 1) + ((x >> 16u32) & 1) + ((x >> 17u32) & 1) + ((x >> 18u32) & 1) + ((x >> 19u32) & 1) + ((x >> 20u32) & 1) + ((x >> 21u32) & 1) + ((x >> 22u32) & 1) + ((x >> 23u32) & 1) + ((x >> 24u32) & 1) + ((x >> 25u32) & 1) + ((x >> 26u32) & 1) + ((x >> 27u32) & 1) + ((x >> 28u32) & 1) + ((x >> 29u32) & 1) + ((x >> 30u32) & 1) + ((x >> 31u32) & 1)) as nat
}

proof fn lemma_swar_popcount(x: u32, y1: u32, y2: u32, y3: u32)
    by (bit_vector)
    requires
        y1 == (x - ((x >> 1u32) & 0x55555555u32)) as u32,
        y2 == ((y1 & 0x33333333u32) + ((y1 >> 2u32) & 0x33333333u32)) as u32,
        y3 == ((y2 + (y2 >> 4u32)) as u32 & 0x0f0f0f0fu32) as u32,
    ensures
        (x >> 1u32) & 0x55555555u32 <= x,
        (y1 & 0x33333333u32) + ((y1 >> 2u32) & 0x33333333u32) <= u32::MAX,
        y2 + (y2 >> 4u32) <= u32::MAX,
        ((y3 * 0x01010101u32) as u32 >> 24u32) as u32 == popcount32(x),
{
}

proof fn lemma_wrapping_mul_word(y: u32, p: u32)
    by (bit_vector)
    requires
        p == (((y as u64) * 0x01010101u64) as u64 % 0x1_0000_0000u64) as u32,
    ensures
        p == (y * 0x01010101u32) as u32,
{
}


/// The little-endian word made of four bytes.
pub open spec fn word_of(b0: u8, b1: u8, b2: u8, b3: u8) -> u32 {
    (b0 as u32) | ((b1 as u32) << 8u32) | ((b2 as u32) << 16u32) | ((b3 as u32) << 24u32)
}

proof fn lemma_word_xor(a0: u8, a1: u8, a2: u8, a3: u8, b0: u8, b1: u8, b2: u8, b3: u8)
    by (bit_vector)
    ensures
        word_of(a0, a1, a2, a3) ^ word_of(b0, b1, b2, b3) == word_of(
            a0 ^ b0,
            a1 ^ b1,
            a2 ^ b2,
            a3 ^ b3,
        ),
{
}

proof fn lemma_popcount_word(b0: u8, b1: u8, b2: u8, b3: u8)
    by (bit_vector)
    ensures
        popcount32(word_of(b0, b1, b2, b3)) == popcount8(b0) + popcount8(b1) + popcount8(b2)
            + popcount8(b3),
{
}

/// Number of differing bits among the first `n` bytes of `a` and `b`.
pub open spec fn hamming_prefix(a: Seq<u8>, b: Seq<u8>, n: nat) -> nat
    decreases n,
{
    if n == 0 {
        0
    } else {
        hamming_prefix(a, b, (n - 1) as nat) + popcount8(a[n - 1] ^ b[n - 1])
    }
}

/// Hamming distance between two byte strings of the same length.
pub open spec fn hamming(a: Seq<u8>, b: Seq<u8>) -> nat {
    hamming_prefix(a, b, a.len())
}

/// Hamming distance between two 32-bit chunks (SWAR bit count of `a ^ b`).
fn hamming_distance_32(a: u32, b: u32) -> (r: u32)
    ensures
        r == popcount32(a ^ b),
{
    let x: u32 = a ^ b;
    let ghost g1 = (x - ((x >> 1u32) & 0x55555555u32)) as u32;
    let ghost g2 = ((g1 & 0x33333333u32) + ((g1 >> 2u32) & 0x33333333u32)) as u32;
    let ghost g3 = ((g2 + (g2 >> 4u32)) as u32 & 0x0f0f0f0fu32) as u32;
    proof {
        lemma_swar_popcount(x, g1, g2, g3);
    }
    let y1: u32 = x - ((x >> 1) & 0x55555555);
    let y2: u32 = (y1 & 0x33333333) + ((y1 >> 2) & 0x33333333);
    let y3: u32 = (y2 + (y2 >> 4)) & 0x0f0f0f0f;
    let p: u32 = y3.wrapping_mul(0x01010101);
    proof {
        lemma_wrapping_mul_word(y3, p);
    }
    p >> 24
}

/// Four consecutive bytes of `hamming_prefix` form one 32-bit chunk.
proof fn lemma_hamming_prefix_step4(a: Seq<u8>, b: Seq<u8>, n: nat)
    requires
        n + 4 <= a.len(),
        n + 4 <= b.len(),
    ensures
        hamming_prefix(a, b, n + 4) == hamming_prefix(a, b, n) + popcount8(a[n as int] ^ b[n as int])
            + popcount8(a[n as int + 1] ^ b[n as int + 1]) + popcount8(a[n as int + 2] ^ b[n as int + 2]) + popcount8(
            a[n as int + 3] ^ b[n as int + 3],
        ),
{
    assert(hamming_prefix(a, b, n + 1) == hamming_prefix(a, b, n) + popcount8(
        a[n as int] ^ b[n as int],
    ));
    assert(hamming_prefix(a, b, n + 2) == hamming_prefix(a, b, n + 1) + popcount8(
        a[n as int + 1] ^ b[n as int + 1],
    ));
    assert(hamming_prefix(a, b, n + 3) == hamming_prefix(a, b, n + 2) + popcount8(
        a[n as int + 2] ^ b[n as int + 2],
    ));
}

proof fn lemma_popcount8_le_8(x: u8)
    by (bit_vector)
    ensures
        popcount8(x) <= 8,
{
}

/// Each byte contributes at most 8 differing bits.
pub proof fn lemma_hamming_prefix_bound(a: Seq<u8>, b: Seq<u8>, n: nat)
    requires
        n <= a.len(),
        n <= b.len(),
    ensures
        hamming_prefix(a, b, n) <= 8 * n,
    decreases n,
{
    if n > 0 {
        lemma_hamming_prefix_bound(a, b, (n - 1) as nat);
        lemma_popcount8_le_8(a[n - 1] ^ b[n - 1]);
    }
}

/// Computes the Hamming distance between two 96-byte (768-bit) FREAK
/// descriptors, 32 bits at a time.
pub fn hamming_distance_96(a: &[u8; 96], b: &[u8; 96]) -> (r: u32)
    ensures
        r == hamming(a@, b@),
        r <= 768,
{
    let mut acc: u32 = 0;
    let mut i: usize = 0;
    while i < 24
        invariant
            i <= 24,
            a@.len() == 96,
            b@.len() == 96,
            acc == hamming_prefix(a@, b@, (4 * i) as nat),
            acc <= 32 * i,
        decreases 24 - i,
    {
        let off = i * 4;
        let ax = (a[off] as u32) | ((a[off + 1] as u32) << 8) | ((a[off + 2] as u32) << 16) | ((
        a[off + 3] as u32) << 24);
        let bx = (b[off] as u32) | ((b[off + 1] as u32) << 8) | ((b[off + 2] as u32) << 16) | ((
        b[off + 3] as u32) << 24);
        let d = hamming_distance_32(ax, bx);
        proof {
            lemma_word_xor(
                a[off as int],
                a[off + 1],
                a[off + 2],
                a[off + 3],
                b[off as int],
                b[off + 1],
                b[off + 2],
                b[off + 3],
            );
            lemma_popcount_word(
                a[off as int] ^ b[off as int],
                a[off + 1] ^ b[off + 1],
                a[off + 2] ^ b[off + 2],
                a[off + 3] ^ b[off + 3],
            );
            lemma_hamming_prefix_step4(a@, b@, off as nat);
            lemma_popcount8_le_8(a[off as int] ^ b[off as int]);
            lemma_popcount8_le_8(a[off + 1] ^ b[off + 1]);
            lemma_popcount8_le_8(a[off + 2] ^ b[off + 2]);
            lemma_popcount8_le_8(a[off + 3] ^ b[off + 3]);
        }
        acc = acc + d;
        i = i + 1;
    }
    acc
}

/// Hamming distance between the 96 bytes of `a` starting at `ao` and the 96
/// bytes of `b` starting at `bo`.
pub(crate) fn hamming_distance_96_at(a: &[u8], ao: usize, b: &[u8], bo: usize) -> (r: u32)
    requires
        ao + 96 <= a@.len(),
        bo + 96 <= b@.len(),
    ensures
        r == hamming(a@.subrange(ao as int, ao + 96), b@.subrange(bo as int, bo + 96)),
        r <= 768,
{
    let ghost sa = a@.subrange(ao as int, ao + 96);
    let ghost sb = b@.subrange(bo as int, bo + 96);
    let alen = a.len();
    let blen = b.len();
    let mut acc: u32 = 0;
    let mut i: usize = 0;
    while i < 24
        invariant
            i <= 24,
            alen == a@.len(),
            blen == b@.len(),
            ao + 96 <= a@.len(),
            bo + 96 <= b@.len(),
            sa == a@.subrange(ao as int, ao + 96),
            sb == b@.subrange(bo as int, bo + 96),
            acc == hamming_prefix(sa, sb, (4 * i) as nat),
            acc <= 32 * i,
        decreases 24 - i,
    {
        let off = i * 4;
        let pa = ao + off;
        let pb = bo + off;
        let ax = (a[pa] as u32) | ((a[pa + 1] as u32) << 8) | ((a[pa + 2] as u32) << 16) | ((
        a[pa + 3] as u32) << 24);
        let bx = (b[pb] as u32) | ((b[pb + 1] as u32) << 8) | ((b[pb + 2] as u32) << 16) | ((
        b[pb + 3] as u32) << 24);
        let d = hamming_distance_32(ax, bx);
        proof {
            assert(sa[off as int] == a[pa as int] && sa[off + 1] == a[pa + 1] && sa[off + 2] == a[pa + 2]
                && sa[off + 3] == a[pa + 3]);
            assert(sb[off as int] == b[pb as int] && sb[off + 1] == b[pb + 1] && sb[off + 2] == b[pb + 2]
                && sb[off + 3] == b[pb + 3]);
            lemma_word_xor(
                sa[off as int],
                sa[off + 1],
                sa[off + 2],
                sa[off + 3],
                sb[off as int],
                sb[off + 1],
                sb[off + 2],
                sb[off + 3],
            );
            lemma_popcount_word(
                sa[off as int] ^ sb[off as int],
                sa[off + 1] ^ sb[off + 1],
                sa[off + 2] ^ sb[off + 2],
                sa[off + 3] ^ sb[off + 3],
            );
            lemma_hamming_prefix_step4(sa, sb, off as nat);
            lemma_popcount8_le_8(sa[off as int] ^ sb[off as int]);
            lemma_popcount8_le_8(sa[off + 1] ^ sb[off + 1]);
            lemma_popcount8_le_8(sa[off + 2] ^ sb[off + 2]);
            lemma_popcount8_le_8(sa[off + 3] ^ sb[off + 3]);
        }
        acc = acc + d;
        i = i + 1;
    }
    acc
}

proof fn lemma_xor_comm_zero(x: u8, y: u8)
    by (bit_vector)
    ensures
        x ^ y == y ^ x,
        x ^ x == 0,
{
}

proof fn lemma_popcount8_zero()
    ensures
        popcount8(0) == 0,
{
    assert(popcount8(0) == 0) by (bit_vector);
}

/// The Hamming distance is symmetric and vanishes on equal descriptors.
pub proof fn lemma_hamming_symmetric_and_reflexive(a: Seq<u8>, b: Seq<u8>, n: nat)
    requires
        n <= a.len(),
        n <= b.len(),
    ensures
        hamming_prefix(a, b, n) == hamming_prefix(b, a, n),
        hamming_prefix(a, a, n) == 0,
    decreases n,
{
    lemma_popcount8_zero();
    if n > 0 {
        lemma_hamming_symmetric_and_reflexive(a, b, (n - 1) as nat);
        lemma_xor_comm_zero(a[n - 1], b[n - 1]);
        lemma_xor_comm_zero(a[n - 1], a[n - 1]);
    }
}

/// One step of the linear congruential generator: `214013 * seed + 2531011`
/// in wrapping 32-bit signed arithmetic.
pub open spec fn lcg_next(seed: i32) -> i32 {
    vstd::wrapping::i32_specs::wrapping_add(
        vstd::wrapping::i32_specs::wrapping_mul(seed, 214013),
        2531011,
    )
}

/// The value drawn from a generator state: its bits 16..30.
pub open spec fn lcg_output(seed: i32) -> i32 {
    (seed >> 16i32) & 0x7FFFi32
}

proof fn lemma_lcg_output_range(s: i32)
    by (bit_vector)
    ensures
        0 <= (s >> 16i32) & 0x7FFFi32 <= 32767,
{
}

/// Advances `seed` by one generator step and returns the top 15 bits of the
/// new state, a value in `[0, 32767]`.
pub fn fast_random(seed: &mut i32) -> (r: i32)
    ensures
        *final(seed) == lcg_next(*old(seed)),
        r == lcg_output(*final(seed)),
        0 <= r <= 32767,
{
    *seed = seed.wrapping_mul(214013).wrapping_add(2531011);
    proof {
        lemma_lcg_output_range(*seed);
    }
    (*seed >> 16) & 0x7FFF
}

/// `s` with the elements at `i` and `j` exchanged.
pub open spec fn seq_swap<T>(s: Seq<T>, i: int, j: int) -> Seq<T> {
    s.update(i, s[j]).update(j, s[i])
}

/// The state reached by the shuffle after positions `i..sample` have been
/// visited: position `i` is swapped with a position drawn from the whole
/// sequence.
pub open spec fn shuffle_from<T>(v: Seq<T>, i: nat, sample: nat, seed: i32) -> (Seq<T>, i32)
    decreases sample - i,
{
    if i >= sample || v.len() == 0 {
        (v, seed)
    } else {
        let s2 = lcg_next(seed);
        let k = (lcg_output(s2) as int) % (v.len() as int);
        shuffle_from(seq_swap(v, i as int, k), i + 1, sample, s2)
    }
}

pub(crate) proof fn lemma_swap_multiset<T>(s: Seq<T>, i: int, j: int)
    requires
        0 <= i < s.len(),
        0 <= j < s.len(),
    ensures
        seq_swap(s, i, j).to_multiset() == s.to_multiset(),
        seq_swap(s, i, j).len() == s.len(),
{
    broadcast use vstd::seq_lib::to_multiset_update;
    broadcast use vstd::seq_lib::to_multiset_contains;
    broadcast use vstd::multiset::group_multiset_axioms;

    let m = s.to_multiset();
    let s1 = s.update(i, s[j]);
    let m1 = s1.to_multiset();
    assert(m1 == m.insert(s[j]).remove(s[i]));
    assert(s1[j] == s[j]);
    let m2 = s1.update(j, s[i]).to_multiset();
    assert(m2 == m1.insert(s[i]).remove(s[j]));
    assert(s.contains(s[i]));
    assert(m.count(s[i]) > 0);
    assert(m2 =~= m);
}

proof fn lemma_shuffle_multiset<T>(v: Seq<T>, i: nat, sample: nat, seed: i32)
    requires
        v.len() == 0 || sample <= v.len(),
    ensures
        shuffle_from(v, i, sample, seed).0.to_multiset() == v.to_multiset(),
        shuffle_from(v, i, sample, seed).0.len() == v.len(),
    decreases sample - i,
{
    if i < sample && v.len() != 0 {
        let s2 = lcg_next(seed);
        let k = (lcg_output(s2) as int) % (v.len() as int);
        lemma_lcg_output_range(s2);
        lemma_swap_multiset(v, i as int, k);
        lemma_shuffle_multiset(seq_swap(v, i as int, k), i + 1, sample, s2);
    }
}

/// Shuffles the first `sample_size` positions of `v`: position `i` is
/// exchanged with a position drawn by `fast_random` from the whole slice
/// (earlier swaps may be undone by later ones). `seed` carries the generator
/// state across calls.
pub fn array_shuffle<T: Copy>(v: &mut [T], sample_size: usize, seed: &mut i32)
    requires
        old(v)@.len() == 0 || sample_size <= old(v)@.len(),
    ensures
        (final(v)@, *final(seed)) == shuffle_from(old(v)@, 0, sample_size as nat, *old(seed)),
        final(v)@.to_multiset() == old(v)@.to_multiset(),
{
    proof {
        lemma_shuffle_multiset(old(v)@, 0, sample_size as nat, *old(seed));
    }
    let pop_size = v.len();
    if pop_size == 0 {
        return;
    }
    let mut i: usize = 0;
    while i < sample_size
        invariant
            pop_size == v@.len(),
            pop_size > 0,
            sample_size <= pop_size,
            i <= sample_size,
            shuffle_from(v@, i as nat, sample_size as nat, *seed) == shuffle_from(
                old(v)@,
                0,
                sample_size as nat,
                *old(seed),
            ),
        decreases sample_size - i,
    {
        let r = fast_random(seed);
        let k = (r as usize) % pop_size;
        let vi = v[i];
        let vk = v[k];
        v[i] = vk;
        v[k] = vi;
        i = i + 1;
    }
}

/// Errors of the clustering and matching layer.
#[derive(Clone, Debug, PartialEq, Eq)]
pub enum KpmError {
    /// An argument is outside the accepted range.
    InvalidInput(String),
    /// Fewer points were given than the operation needs.
    NotEnoughPoints { got: usize, need: usize },
    /// The structure is not in a state that allows the operation.
    InternalError(String),
}

/// The descriptors behind a slice of descriptor references.
pub open spec fn descs(features: Seq<&[u8; 96]>) -> Seq<Seq<u8>> {
    Seq::new(features.len(), |i: int| features[i]@)
}

/// Distance from feature `f` to the nearest of the first `m` centers, or
/// `u32::MAX` when `m == 0`.
pub open spec fn min_dist(fs: Seq<Seq<u8>>, f: int, centers: Seq<usize>, m: nat) -> nat
    decreases m,
{
    if m == 0 {
        0xFFFF_FFFF
    } else {
        let prev = min_dist(fs, f, centers, (m - 1) as nat);
        let d = hamming(fs[f], fs[centers[m - 1] as int]);
        if d < prev {
            d
        } else {
            prev
        }
    }
}

/// Position of the first of the first `m` centers nearest to feature `f`.
pub open spec fn nearest(fs: Seq<Seq<u8>>, f: int, centers: Seq<usize>, m: nat) -> nat
    decreases m,
{
    if m == 0 {
        0
    } else {
        let prev = min_dist(fs, f, centers, (m - 1) as nat);
        let d = hamming(fs[f], fs[centers[m - 1] as int]);
        if d < prev {
            (m - 1) as nat
        } else {
            nearest(fs, f, centers, (m - 1) as nat)
        }
    }
}

/// Sum over the first `nf` features of the distance to their nearest center.
pub open spec fn distortion(fs: Seq<Seq<u8>>, centers: Seq<usize>, nf: nat) -> nat
    decreases nf,
{
    if nf == 0 {
        0
    } else {
        distortion(fs, centers, (nf - 1) as nat) + min_dist(
            fs,
            nf - 1,
            centers,
            centers.len(),
        )
    }
}

/// The nearest-center assignment of every feature.
pub open spec fn assignment_of(fs: Seq<Seq<u8>>, centers: Seq<usize>) -> Seq<usize> {
    Seq::new(fs.len(), |f: int| nearest(fs, f, centers, centers.len()) as usize)
}

/// Index permutation and generator state after `h` shuffles of `0..n`.
pub open spec fn hyp_state(n: nat, k: nat, seed: i32, h: nat) -> (Seq<usize>, i32)
    decreases h,
{
    if h == 0 {
        (Seq::new(n, |i: int| i as usize), seed)
    } else {
        let prev = hyp_state(n, k, seed, (h - 1) as nat);
        shuffle_from(prev.0, 0, k, prev.1)
    }
}

/// The centers tried by hypothesis `h` (0-based): the first `k` indices of
/// the permutation after `h + 1` shuffles.
pub open spec fn hyp_centers(n: nat, k: nat, seed: i32, h: nat) -> Seq<usize> {
    hyp_state(n, k, seed, h + 1).0.take(k as int)
}

/// The first hypothesis among `0..h` of least distortion (`h >= 1`).
pub open spec fn best_hyp(fs: Seq<Seq<u8>>, k: nat, seed: i32, h: nat) -> nat
    decreases h,
{
    if h <= 1 {
        0
    } else {
        let prev = best_hyp(fs, k, seed, (h - 1) as nat);
        if distortion(fs, hyp_centers(fs.len(), k, seed, (h - 1) as nat), fs.len()) < distortion(
            fs,
            hyp_centers(fs.len(), k, seed, prev),
            fs.len(),
        ) {
            (h - 1) as nat
        } else {
            prev
        }
    }
}

/// The kept hypothesis is one of least distortion: its centers' total
/// distance (over the features, to the nearest center) is no greater than
/// that of any hypothesis tried, and strictly smaller than that of every
/// earlier one (the first of least distortion is kept).
pub proof fn lemma_best_hyp_least(fs: Seq<Seq<u8>>, k: nat, seed: i32, h: nat)
    requires
        h >= 1,
    ensures
        best_hyp(fs, k, seed, h) < h,
        forall|t: nat|
            t < h ==> distortion(fs, hyp_centers(fs.len(), k, seed, best_hyp(fs, k, seed, h)), fs.len())
                <= #[trigger] distortion(fs, hyp_centers(fs.len(), k, seed, t), fs.len()),
        forall|t: nat|
            t < best_hyp(fs, k, seed, h) ==> distortion(fs, hyp_centers(fs.len(), k, seed, best_hyp(fs, k, seed, h)), fs.len())
                < #[trigger] distortion(fs, hyp_centers(fs.len(), k, seed, t), fs.len()),
    decreases h,
{
    if h > 1 {
        lemma_best_hyp_least(fs, k, seed, (h - 1) as nat);
    }
}

/// Assigning keeps the centers of a hypothesis of least distortion: the
/// centers are those of one of the hypotheses tried, and their total
/// distance over the features is no greater than that of any of them.
pub proof fn lemma_assign_least_distortion(m: KMedoidsModel, fs: Seq<Seq<u8>>)
    requires
        m.num_hypotheses >= 1,
    ensures
        exists|h: nat|
            h < m.num_hypotheses && #[trigger] hyp_centers(fs.len(), m.k, m.rand_seed, h) == assign_result(m, fs).centers,
        forall|t: nat|
            t < m.num_hypotheses ==> distortion(fs, assign_result(m, fs).centers, fs.len()) <= #[trigger] distortion(
                fs,
                hyp_centers(fs.len(), m.k, m.rand_seed, t),
                fs.len(),
            ),
{
    lemma_best_hyp_least(fs, m.k, m.rand_seed, m.num_hypotheses);
    let b = best_hyp(fs, m.k, m.rand_seed, m.num_hypotheses);
    assert(hyp_centers(fs.len(), m.k, m.rand_seed, b) == assign_result(m, fs).centers);
}

proof fn lemma_hamming96_bound(a: Seq<u8>, b: Seq<u8>)
    requires
        a.len() == 96,
        b.len() == 96,
    ensures
        hamming(a, b) <= 768,
{
    lemma_hamming_prefix_bound(a, b, 96);
}

/// `min_dist` is attained by `nearest` and bounds every center distance.
pub proof fn lemma_nearest(fs: Seq<Seq<u8>>, f: int, centers: Seq<usize>, m: nat)
    requires
        0 < m <= centers.len(),
        0 <= f < fs.len(),
        forall|j: int| 0 <= j < centers.len() ==> 0 <= #[trigger] centers[j] < fs.len(),
        forall|i: int| 0 <= i < fs.len() ==> (#[trigger] fs[i]).len() == 96,
    ensures
        nearest(fs, f, centers, m) < m,
        min_dist(fs, f, centers, m) == hamming(
            fs[f],
            fs[centers[nearest(fs, f, centers, m) as int] as int],
        ),
        min_dist(fs, f, centers, m) <= 768,
        forall|j: int|
            0 <= j < m ==> min_dist(fs, f, centers, m) <= hamming(fs[f], fs[#[trigger] centers[j] as int]),
        forall|j: int|
            0 <= j < nearest(fs, f, centers, m) ==> min_dist(fs, f, centers, m) < hamming(
                fs[f],
                fs[#[trigger] centers[j] as int],
            ),
    decreases m,
{
    lemma_hamming96_bound(fs[f], fs[centers[m - 1] as int]);
    if m > 1 {
        lemma_nearest(fs, f, centers, (m - 1) as nat);
    }
}

/// K-medoids clustering for binary features (96-byte FREAK descriptors).
pub struct KMedoids {
    k: usize,
    centers: Vec<usize>,
    assignment: Vec<usize>,
    num_hypotheses: usize,
    rand_seed: i32,
}

/// The observable state of a [`KMedoids`].
pub struct KMedoidsModel {
    pub k: nat,
    pub num_hypotheses: nat,
    pub rand_seed: i32,
    pub centers: Seq<usize>,
    pub assignment: Seq<usize>,
}

impl View for KMedoids {
    type V = KMedoidsModel;

    closed spec fn view(&self) -> KMedoidsModel {
        KMedoidsModel {
            k: self.k as nat,
            num_hypotheses: self.num_hypotheses as nat,
            rand_seed: self.rand_seed,
            centers: self.centers@,
            assignment: self.assignment@,
        }
    }
}

/// Every descriptor reference points to 96 bytes.
proof fn lemma_descs_len(features: Seq<&[u8; 96]>)
    ensures
        forall|i: int| 0 <= i < features.len() ==> (#[trigger] descs(features)[i]).len() == 96,
        descs(features).len() == features.len(),
{
    assert forall|i: int| 0 <= i < features.len() implies (#[trigger] descs(features)[i]).len()
        == 96 by {
        assert(descs(features)[i] == features[i]@);
    }
}

/// Position (within `centers`) of the first nearest center of feature `f`,
/// and its distance.
fn nearest_center(features: &[&[u8; 96]], f: usize, centers: &Vec<usize>) -> (r: (usize, u32))
    requires
        f < features@.len(),
        centers@.len() > 0,
        forall|j: int| 0 <= j < centers@.len() ==> #[trigger] centers@[j] < features@.len(),
    ensures
        r.0 == nearest(descs(features@), f as int, centers@, centers@.len()),
        r.1 == min_dist(descs(features@), f as int, centers@, centers@.len()),
{
    let ghost fs = descs(features@);
    proof {
        lemma_descs_len(features@);
    }
    let mut best_dist: u32 = u32::MAX;
    let mut best_center_idx: usize = 0;
    let mut pos: usize = 0;
    while pos < centers.len()
        invariant
            fs == descs(features@),
            f < features@.len(),
            pos <= centers@.len(),
            forall|j: int| 0 <= j < centers@.len() ==> #[trigger] centers@[j] < features@.len(),
            best_dist == min_dist(fs, f as int, centers@, pos as nat),
            best_center_idx == nearest(fs, f as int, centers@, pos as nat),
        decreases centers@.len() - pos,
    {
        let c = centers[pos];
        let dist = hamming_distance_96(features[f], features[c]);
        assert(fs[f as int] == features@[f as int]@);
        assert(fs[c as int] == features@[c as int]@);
        if dist < best_dist {
            best_dist = dist;
            best_center_idx = pos;
        }
        pos = pos + 1;
    }
    (best_center_idx, best_dist)
}

/// Nearest-center assignment of every feature and its total distortion.
fn evaluate_centers(features: &[&[u8; 96]], centers: &Vec<usize>) -> (r: (Vec<usize>, u64))
    requires
        centers@.len() > 0,
        forall|j: int| 0 <= j < centers@.len() ==> #[trigger] centers@[j] < features@.len(),
        features@.len() * 768 < u64::MAX,
    ensures
        r.0@ == assignment_of(descs(features@), centers@),
        r.1 == distortion(descs(features@), centers@, features@.len()),
        r.1 <= features@.len() * 768,
{
    let ghost fs = descs(features@);
    proof {
        lemma_descs_len(features@);
    }
    let n = features.len();
    let mut out: Vec<usize> = Vec::new();
    let mut total: u64 = 0;
    let mut f: usize = 0;
    while f < n
        invariant
            fs == descs(features@),
            n == features@.len(),
            n * 768 < u64::MAX,
            f <= n,
            centers@.len() > 0,
            forall|j: int| 0 <= j < centers@.len() ==> #[trigger] centers@[j] < features@.len(),
            forall|i: int| 0 <= i < fs.len() ==> (#[trigger] fs[i]).len() == 96,
            fs.len() == n,
            out@.len() == f,
            forall|i: int| 0 <= i < f ==> #[trigger] out@[i] == nearest(fs, i, centers@, centers@.len()) as usize,
            total == distortion(fs, centers@, f as nat),
            total <= f * 768,
        decreases n - f,
    {
        let (idx, d) = nearest_center(features, f, centers);
        proof {
            lemma_nearest(fs, f as int, centers@, centers@.len());
        }
        out.push(idx);
        total = total + d as u64;
        f = f + 1;
    }
    assert(out@ =~= assignment_of(fs, centers@));
    (out, total)
}

proof fn lemma_hyp_state_perm(n: nat, k: nat, seed: i32, h: nat)
    requires
        k <= n,
    ensures
        hyp_state(n, k, seed, h).0.len() == n,
        forall|i: int| 0 <= i < n ==> #[trigger] hyp_state(n, k, seed, h).0[i] < n,
    decreases h,
{
    broadcast use vstd::seq_lib::to_multiset_contains;

    if h > 0 {
        let prev = hyp_state(n, k, seed, (h - 1) as nat);
        lemma_hyp_state_perm(n, k, seed, (h - 1) as nat);
        lemma_shuffle_multiset(prev.0, 0, k, prev.1);
        let cur = hyp_state(n, k, seed, h).0;
        assert forall|i: int| 0 <= i < n implies #[trigger] cur[i] < n by {
            assert(cur.contains(cur[i]));
            assert(cur.to_multiset().count(cur[i]) > 0);
            assert(prev.0.to_multiset().count(cur[i]) > 0);
            assert(prev.0.contains(cur[i]));
        }
    }
}

/// The state reached by a successful `assign` of the descriptors `fs`.
pub open spec fn assign_result(m: KMedoidsModel, fs: Seq<Seq<u8>>) -> KMedoidsModel {
    let n = fs.len();
    let centers = hyp_centers(n, m.k, m.rand_seed, best_hyp(fs, m.k, m.rand_seed, m.num_hypotheses));
    KMedoidsModel {
        rand_seed: hyp_state(n, m.k, m.rand_seed, m.num_hypotheses).1,
        centers: centers,
        assignment: assignment_of(fs, centers),
        ..m
    }
}

impl KMedoids {
    /// Both parameters are positive.
    pub open spec fn wf(&self) -> bool {
        self@.k > 0 && self@.num_hypotheses > 0
    }

    /// Creates a k-medoids clusterer with `k` clusters and `num_hypotheses`
    /// random initialisations, seeded with 1234.
    pub fn new(k: usize, num_hypotheses: usize) -> (r: Result<Self, KpmError>)
        ensures
            k == 0 ==> r matches Err(KpmError::InvalidInput(_)),
            k > 0 && num_hypotheses == 0 ==> r matches Err(KpmError::InvalidInput(_)),
            k > 0 && num_hypotheses > 0 ==> (r matches Ok(km) && km.wf() && km@ == (KMedoidsModel {
                k: k as nat,
                num_hypotheses: num_hypotheses as nat,
                rand_seed: 1234,
                centers: Seq::empty(),
                assignment: Seq::empty(),
            })),
    {
        if k == 0 {
            return Err(KpmError::InvalidInput("k must be > 0".to_owned()));
        }
        if num_hypotheses == 0 {
            return Err(KpmError::InvalidInput("num_hypotheses must be > 0".to_owned()));
        }
        Ok(KMedoids {
            k,
            centers: Vec::with_capacity(k),
            assignment: Vec::new(),
            num_hypotheses,
            rand_seed: 1234,
        })
    }

    /// Sets the generator state.
    pub fn set_rand_seed(&mut self, seed: i32)
        ensures
            final(self)@ == (KMedoidsModel { rand_seed: seed, ..old(self)@ }),
    {
        self.rand_seed = seed;
    }

    /// Returns the current generator state.
    pub fn rand_seed(&self) -> (r: i32)
        ensures
            r == self@.rand_seed,
    {
        self.rand_seed
    }

    /// Returns the cluster of each feature of the last successful `assign`.
    pub fn assignment(&self) -> (r: &[usize])
        ensures
            r@ == self@.assignment,
    {
        self.assignment.as_slice()
    }

    /// Assigns each feature to one of `k` clusters. Each of the
    /// `num_hypotheses` hypotheses shuffles a persistent permutation of the
    /// feature indices and takes its first `k` entries as centers; the
    /// hypothesis of least total distance (the first on ties) is kept.
    pub fn assign(&mut self, features: &[&[u8; 96]]) -> (r: Result<(), KpmError>)
        requires
            old(self).wf(),
            features@.len() * 768 < u64::MAX,
        ensures
            final(self).wf(),
            features@.len() == 0 ==> (r matches Err(KpmError::InvalidInput(_)) && final(self)@
                == old(self)@),
            0 < features@.len() < old(self)@.k ==> (r matches Err(
                KpmError::NotEnoughPoints { got, need },
            ) && got == features@.len() && need == old(self)@.k && final(self)@ == old(self)@),
            features@.len() >= old(self)@.k ==> (r is Ok && final(self)@ == assign_result(
                old(self)@,
                descs(features@),
            )),
    {
        if features.len() == 0 {
            return Err(KpmError::InvalidInput("features cannot be empty".to_owned()));
        }
        if features.len() < self.k {
            return Err(KpmError::NotEnoughPoints { got: features.len(), need: self.k });
        }
        let ghost fs = descs(features@);
        let ghost seed0 = self.rand_seed;
        let n = features.len();
        let k = self.k;
        proof {
            lemma_descs_len(features@);
        }
        let mut best_distortion: u64 = u64::MAX;
        let mut best_assignment: Vec<usize> = Vec::new();
        let mut best_centers: Vec<usize> = Vec::new();
        let mut rand_indices: Vec<usize> = Vec::new();
        let mut i: usize = 0;
        while i < n
            invariant
                i <= n,
                rand_indices@.len() == i,
                forall|j: int| 0 <= j < i ==> #[trigger] rand_indices@[j] == j as usize,
            decreases n - i,
        {
            rand_indices.push(i);
            i = i + 1;
        }
        assert(rand_indices@ =~= hyp_state(n as nat, k as nat, seed0, 0).0);
        let mut hyp: usize = 0;
        while hyp < self.num_hypotheses
            invariant
                fs == descs(features@),
                fs.len() == n,
                n == features@.len(),
                n * 768 < u64::MAX,
                0 < k <= n,
                k == self.k,
                self.wf(),
                self@.k == old(self)@.k,
                self@.num_hypotheses == old(self)@.num_hypotheses,
                seed0 == old(self)@.rand_seed,
                hyp <= self.num_hypotheses,
                rand_indices@ == hyp_state(n as nat, k as nat, seed0, hyp as nat).0,
                self.rand_seed == hyp_state(n as nat, k as nat, seed0, hyp as nat).1,
                hyp == 0 ==> best_distortion == u64::MAX,
                hyp > 0 ==> best_centers@ == hyp_centers(
                    n as nat,
                    k as nat,
                    seed0,
                    best_hyp(fs, k as nat, seed0, hyp as nat),
                ),
                hyp > 0 ==> best_distortion == distortion(fs, best_centers@, n as nat),
                hyp > 0 ==> best_assignment@ == assignment_of(fs, best_centers@),
            decreases self.num_hypotheses - hyp,
        {
            proof {
                lemma_hyp_state_perm(n as nat, k as nat, seed0, hyp as nat);
                lemma_hyp_state_perm(n as nat, k as nat, seed0, (hyp + 1) as nat);
            }
            array_shuffle(rand_indices.as_mut_slice(), k, &mut self.rand_seed);
            assert(rand_indices@ == hyp_state(n as nat, k as nat, seed0, (hyp + 1) as nat).0);
            let mut hypothesis_centers: Vec<usize> = Vec::new();
            let mut c: usize = 0;
            while c < k
                invariant
                    c <= k,
                    k <= n,
                    rand_indices@.len() == n,
                    hypothesis_centers@ == rand_indices@.take(c as int),
                decreases k - c,
            {
                hypothesis_centers.push(rand_indices[c]);
                c = c + 1;
                assert(hypothesis_centers@ =~= rand_indices@.take(c as int));
            }
            assert(hypothesis_centers@ == hyp_centers(n as nat, k as nat, seed0, hyp as nat));
            let (hyp_assignment, hyp_distortion) = evaluate_centers(features, &hypothesis_centers);
            if hyp_distortion < best_distortion {
                best_distortion = hyp_distortion;
                best_assignment = hyp_assignment;
                best_centers = hypothesis_centers;
            }
            hyp = hyp + 1;
        }
        self.assignment = best_assignment;
        self.centers = best_centers;
        Ok(())
    }

    /// Returns the feature indices of the centers of the last successful
    /// `assign`.
    pub fn centers(&self) -> (r: &[usize])
        ensures
            r@ == self@.centers,
    {
        self.centers.as_slice()
    }
}

/// A node of the binary hierarchical clustering tree.
pub struct BhcNode {
    id: usize,
    center: Option<Box<[u8; 96]>>,
    children: Vec<Box<BhcNode>>,
    reverse_index: Vec<usize>,
    is_leaf: bool,
}

impl BhcNode {
    /// Whether the node is a leaf.
    pub closed spec fn leaf(&self) -> bool {
        self.is_leaf
    }

    /// The descriptor of the cluster center, if any.
    pub closed spec fn center_desc(&self) -> Option<Seq<u8>> {
        match self.center {
            Some(c) => Some(c@),
            None => None,
        }
    }

    /// The feature indices stored in the node.
    pub closed spec fn stored(&self) -> Seq<usize> {
        self.reverse_index@
    }

    /// The child nodes.
    pub closed spec fn kids(&self) -> Seq<BhcNode> {
        Seq::new(self.children@.len(), |j: int| *self.children@[j])
    }

    /// Whether feature `i` is stored in a leaf of this subtree.
    pub closed spec fn holds(&self, i: usize) -> bool {
        node_holds(*self, i)
    }

    /// Number of nodes of this subtree.
    pub closed spec fn size(&self) -> nat {
        node_size(*self)
    }
}

spec fn node_holds(node: BhcNode, i: usize) -> bool
    decreases node, node.children@.len() + 1,
{
    if node.is_leaf {
        node.reverse_index@.contains(i)
    } else {
        children_hold(node, i, node.children@.len() as nat)
    }
}

spec fn children_hold(node: BhcNode, i: usize, m: nat) -> bool
    decreases node, m,
{
    if m == 0 || m > node.children@.len() {
        false
    } else {
        children_hold(node, i, (m - 1) as nat) || node_holds(*node.children@[m - 1], i)
    }
}

proof fn lemma_children_hold(node: BhcNode, i: usize, m: nat)
    requires
        m <= node.children@.len(),
    ensures
        children_hold(node, i, m) <==> exists|j: int| 0 <= j < m && #[trigger] node_holds(
            *node.children@[j],
            i,
        ),
    decreases m,
{
    if m > 0 {
        lemma_children_hold(node, i, (m - 1) as nat);
        if node_holds(*node.children@[m - 1], i) {
            assert(0 <= m - 1 < m && node_holds(*node.children@[m - 1], i));
        }
    }
}

proof fn lemma_holds_internal(node: BhcNode, i: usize)
    requires
        !node.is_leaf,
    ensures
        node_holds(node, i) <==> exists|j: int| 0 <= j < node.children@.len() && #[trigger] node_holds(
            *node.children@[j],
            i,
        ),
{
    lemma_children_hold(node, i, node.children@.len() as nat);
}

spec fn node_size(node: BhcNode) -> nat
    decreases node, node.children@.len() + 1,
{
    1 + children_size(node, node.children@.len() as nat)
}

spec fn children_size(node: BhcNode, m: nat) -> nat
    decreases node, m,
{
    if m == 0 || m > node.children@.len() {
        0
    } else {
        children_size(node, (m - 1) as nat) + node_size(*node.children@[m - 1])
    }
}

/// The descriptor of a node's center (empty when it has none).
spec fn center_of(node: BhcNode) -> Seq<u8> {
    match node.center {
        Some(c) => c@,
        None => Seq::empty(),
    }
}

/// The tree invariant with respect to the indexed descriptors `fs`: leaves
/// store valid feature indices, every child carries a center, and each
/// feature stored below a child is at least as close to that child's center
/// as to the center of any sibling.
spec fn node_wf(node: BhcNode, fs: Seq<Seq<u8>>) -> bool
    decreases node, node.children@.len() + 1,
{
    if node.is_leaf {
        forall|t: int| 0 <= t < node.reverse_index@.len() ==> #[trigger] node.reverse_index@[t] < fs.len()
    } else {
        &&& children_wf(node, fs, node.children@.len() as nat)
        &&& nearest_children(node, fs)
    }
}

spec fn children_wf(node: BhcNode, fs: Seq<Seq<u8>>, m: nat) -> bool
    decreases node, m,
{
    if m == 0 || m > node.children@.len() {
        true
    } else {
        children_wf(node, fs, (m - 1) as nat) && node_wf(*node.children@[m - 1], fs)
    }
}

proof fn lemma_children_wf(node: BhcNode, fs: Seq<Seq<u8>>, m: nat, j: int)
    requires
        m <= node.children@.len(),
        children_wf(node, fs, m),
        0 <= j < m,
    ensures
        node_wf(*node.children@[j], fs),
    decreases m,
{
    if j < m - 1 {
        lemma_children_wf(node, fs, (m - 1) as nat, j);
    }
}

/// Every child has a center, and each feature stored below a child is at
/// least as close to that child's center as to any sibling's.
spec fn nearest_children(node: BhcNode, fs: Seq<Seq<u8>>) -> bool {
        &&& forall|j: int| 0 <= j < node.children@.len() ==> (*node.children@[j]).center is Some
        &&& forall|j: int, k: int, i: usize|
            0 <= j < node.children@.len() && 0 <= k < node.children@.len() && #[trigger] node_holds(
                *node.children@[j],
                i,
            ) ==> i < fs.len() && hamming(fs[i as int], center_of(*node.children@[j])) <= hamming(
                fs[i as int],
                #[trigger] center_of(*node.children@[k]),
            )
}

/// Distance from the query to child `j`'s center, `u32::MAX` without one.
spec fn child_dist(node: BhcNode, j: int, q: Seq<u8>) -> nat {
    match (*node.children@[j]).center {
        Some(c) => hamming(c@, q),
        None => 0xFFFF_FFFF,
    }
}

/// Least of the first `m` child distances (`u32::MAX` when `m == 0`).
spec fn min_child_dist(node: BhcNode, q: Seq<u8>, m: nat) -> nat
    decreases m,
{
    if m == 0 {
        0xFFFF_FFFF
    } else {
        let p = min_child_dist(node, q, (m - 1) as nat);
        let d = child_dist(node, m - 1, q);
        if d < p {
            d
        } else {
            p
        }
    }
}

/// The indices collected by descending, from `node`, into every child whose
/// center is at the least distance from `q`.
spec fn tied_leaves(node: BhcNode, q: Seq<u8>) -> Seq<usize>
    decreases node, node.children@.len() + 1,
{
    if node.is_leaf {
        node.reverse_index@
    } else {
        tied_children(node, q, node.children@.len() as nat)
    }
}

spec fn tied_children(node: BhcNode, q: Seq<u8>, m: nat) -> Seq<usize>
    decreases node, m,
{
    if m == 0 || m > node.children@.len() {
        Seq::empty()
    } else {
        tied_children(node, q, (m - 1) as nat) + if child_dist(node, m - 1, q) == min_child_dist(
            node,
            q,
            node.children@.len() as nat,
        ) {
            tied_leaves(*node.children@[m - 1], q)
        } else {
            Seq::empty()
        }
    }
}

proof fn lemma_center_len(node: BhcNode)
    ensures
        node.center is Some ==> center_of(node).len() == 96,
{
    match node.center {
        Some(c) => {
            assert(c@.len() == 96);
        },
        None => {},
    }
}

proof fn lemma_child_dist_bound(node: BhcNode, j: int, q: Seq<u8>)
    requires
        0 <= j < node.children@.len(),
        q.len() == 96,
    ensures
        child_dist(node, j, q) <= 0xFFFF_FFFF,
{
    lemma_center_len(*node.children@[j]);
    if (*node.children@[j]).center is Some {
        lemma_hamming96_bound(center_of(*node.children@[j]), q);
    }
}

proof fn lemma_min_child_dist(node: BhcNode, q: Seq<u8>, m: nat)
    requires
        m <= node.children@.len(),
        q.len() == 96,
    ensures
        forall|k: int| 0 <= k < m ==> min_child_dist(node, q, m) <= #[trigger] child_dist(node, k, q),
        m > 0 ==> exists|k: int| 0 <= k < m && min_child_dist(node, q, m) == #[trigger] child_dist(node, k, q),
    decreases m,
{
    if m > 0 {
        lemma_min_child_dist(node, q, (m - 1) as nat);
        lemma_child_dist_bound(node, m - 1, q);
        if m > 1 {
            let k0 = choose|k: int| 0 <= k < m - 1 && min_child_dist(node, q, (m - 1) as nat)
                == #[trigger] child_dist(node, k, q);
            assert(0 <= k0 < m);
        } else {
            assert(min_child_dist(node, q, 0) == 0xFFFF_FFFF);
            assert(min_child_dist(node, q, m) == child_dist(node, 0, q));
        }
    }
}

proof fn lemma_tied_children_contains(node: BhcNode, q: Seq<u8>, m: nat, j: int, i: usize)
    requires
        m <= node.children@.len(),
        0 <= j < m,
        child_dist(node, j, q) == min_child_dist(node, q, node.children@.len() as nat),
        tied_leaves(*node.children@[j], q).contains(i),
    ensures
        tied_children(node, q, m).contains(i),
    decreases m,
{
    let prev = tied_children(node, q, (m - 1) as nat);
    if j < m - 1 {
        lemma_tied_children_contains(node, q, (m - 1) as nat, j, i);
        let t = choose|t: int| 0 <= t < prev.len() && prev[t] == i;
        assert(tied_children(node, q, m)[t] == i);
    } else {
        let rest = tied_leaves(*node.children@[j], q);
        let t = choose|t: int| 0 <= t < rest.len() && rest[t] == i;
        assert(tied_children(node, q, m)[prev.len() + t] == i);
    }
}

/// In a well-formed tree, a query equal to an indexed descriptor reaches the
/// leaf that stores that descriptor's index.
proof fn lemma_self_match(node: BhcNode, fs: Seq<Seq<u8>>, i: usize, q: Seq<u8>)
    requires
        node_wf(node, fs),
        node_holds(node, i),
        i < fs.len(),
        q == fs[i as int],
        forall|t: int| 0 <= t < fs.len() ==> (#[trigger] fs[t]).len() == 96,
    ensures
        tied_leaves(node, q).contains(i),
    decreases node,
{
    if !node.is_leaf {
        let len = node.children@.len();
        lemma_holds_internal(node, i);
        let j = choose|j: int| 0 <= j < len && #[trigger] node_holds(*node.children@[j], i);
        assert(node_holds(*node.children@[j], i));
        let cj = center_of(*node.children@[j]);
        lemma_center_len(*node.children@[j]);
        lemma_min_child_dist(node, q, len as nat);
        assert forall|k: int| 0 <= k < len implies child_dist(node, j, q) <= #[trigger] child_dist(
            node,
            k,
            q,
        ) by {
            let ck = center_of(*node.children@[k]);
            lemma_center_len(*node.children@[k]);
            assert(node_holds(*node.children@[j], i));
            assert(hamming(fs[i as int], cj) <= hamming(fs[i as int], ck));
            lemma_hamming_symmetric_and_reflexive(cj, q, 96);
            lemma_hamming_symmetric_and_reflexive(ck, q, 96);
        }
        let k0 = choose|k: int| 0 <= k < len && min_child_dist(node, q, len as nat)
            == #[trigger] child_dist(node, k, q);
        assert(child_dist(node, j, q) <= child_dist(node, k0, q));
        lemma_children_wf(node, fs, len as nat, j);
        lemma_self_match(*node.children@[j], fs, i, q);
        lemma_tied_children_contains(node, q, len as nat, j, i);
    }
}

/// The indices (in order) whose assignment among the first `m` is `p`.
spec fn bucket(indices: Seq<usize>, a: Seq<usize>, p: usize, m: nat) -> Seq<usize>
    decreases m,
{
    if m == 0 {
        Seq::empty()
    } else {
        bucket(indices, a, p, (m - 1) as nat) + if a[m - 1] == p {
            seq![indices[m - 1]]
        } else {
            Seq::empty()
        }
    }
}

/// Total size of the buckets `0..q`.
spec fn buckets_total(indices: Seq<usize>, a: Seq<usize>, q: nat, m: nat) -> nat
    decreases q,
{
    if q == 0 {
        0
    } else {
        buckets_total(indices, a, (q - 1) as nat, m) + bucket(
            indices,
            a,
            (q - 1) as usize,
            m,
        ).len()
    }
}

proof fn lemma_bucket_members(indices: Seq<usize>, a: Seq<usize>, p: usize, m: nat)
    requires
        m <= indices.len(),
        m <= a.len(),
    ensures
        forall|x: usize|
            #[trigger] bucket(indices, a, p, m).contains(x) <==> exists|t: int|
                0 <= t < m && a[t] == p && indices[t] == x,
        bucket(indices, a, p, m).len() <= m,
    decreases m,
{
    if m > 0 {
        lemma_bucket_members(indices, a, p, (m - 1) as nat);
        let prev = bucket(indices, a, p, (m - 1) as nat);
        let cur = bucket(indices, a, p, m);
        assert forall|x: usize| #[trigger] cur.contains(x) <==> exists|t: int|
            0 <= t < m && a[t] == p && indices[t] == x by {
            if cur.contains(x) {
                let s = choose|s: int| 0 <= s < cur.len() && cur[s] == x;
                if s < prev.len() {
                    assert(prev[s] == x);
                    assert(prev.contains(x));
                } else {
                    assert(a[m - 1] == p && indices[m - 1] == x);
                }
            }
            if exists|t: int| 0 <= t < m && a[t] == p && indices[t] == x {
                let t = choose|t: int| 0 <= t < m && a[t] == p && indices[t] == x;
                if t < m - 1 {
                    assert(prev.contains(x));
                    let s = choose|s: int| 0 <= s < prev.len() && prev[s] == x;
                    assert(cur[s] == x);
                } else {
                    assert(cur[prev.len() as int] == x);
                }
            }
        }
    }
}

proof fn lemma_buckets_total_step(indices: Seq<usize>, a: Seq<usize>, q: nat, m: nat)
    requires
        m < a.len(),
        q <= usize::MAX + 1,
    ensures
        buckets_total(indices, a, q, m + 1) == buckets_total(indices, a, q, m) + if a[m as int] < q {
            1nat
        } else {
            0nat
        },
    decreases q,
{
    if q > 0 {
        lemma_buckets_total_step(indices, a, (q - 1) as nat, m);
    }
}

/// The buckets of all cluster positions hold every index once.
proof fn lemma_buckets_total(indices: Seq<usize>, a: Seq<usize>, k: nat, m: nat)
    requires
        m <= a.len(),
        k <= usize::MAX,
        forall|t: int| 0 <= t < a.len() ==> #[trigger] a[t] < k,
    ensures
        buckets_total(indices, a, k, m) == m,
    decreases m,
{
    if m == 0 {
        lemma_buckets_total_zero(indices, a, k);
    } else {
        lemma_buckets_total(indices, a, k, (m - 1) as nat);
        lemma_buckets_total_step(indices, a, k, (m - 1) as nat);
    }
}

proof fn lemma_buckets_total_zero(indices: Seq<usize>, a: Seq<usize>, q: nat)
    ensures
        buckets_total(indices, a, q, 0) == 0,
    decreases q,
{
    if q > 0 {
        lemma_buckets_total_zero(indices, a, (q - 1) as nat);
    }
}

proof fn lemma_buckets_total_ge(indices: Seq<usize>, a: Seq<usize>, q: nat, m: nat, p0: usize, p1: usize)
    requires
        p0 < q,
        p1 < q,
        p0 != p1,
    ensures
        buckets_total(indices, a, q, m) >= bucket(indices, a, p0, m).len() + bucket(
            indices,
            a,
            p1,
            m,
        ).len(),
    decreases q,
{
    if q > 0 {
        if p0 < q - 1 && p1 < q - 1 {
            lemma_buckets_total_ge(indices, a, (q - 1) as nat, m, p0, p1);
        } else if p0 < q - 1 {
            lemma_buckets_total_ge1(indices, a, (q - 1) as nat, m, p0);
        } else {
            lemma_buckets_total_ge1(indices, a, (q - 1) as nat, m, p1);
        }
    }
}

proof fn lemma_buckets_total_ge1(indices: Seq<usize>, a: Seq<usize>, q: nat, m: nat, p0: usize)
    requires
        p0 < q,
    ensures
        buckets_total(indices, a, q, m) >= bucket(indices, a, p0, m).len(),
    decreases q,
{
    if q > 0 && p0 < q - 1 {
        lemma_buckets_total_ge1(indices, a, (q - 1) as nat, m, p0);
    }
}

proof fn lemma_buckets_total_empty(indices: Seq<usize>, a: Seq<usize>, q: nat, m: nat)
    requires
        q <= usize::MAX + 1,
        forall|p: usize| p < q ==> #[trigger] bucket(indices, a, p, m).len() == 0,
    ensures
        buckets_total(indices, a, q, m) == 0,
    decreases q,
{
    if q > 0 {
        lemma_buckets_total_empty(indices, a, (q - 1) as nat, m);
        assert(bucket(indices, a, (q - 1) as usize, m).len() == 0);
    }
}

proof fn lemma_buckets_total_mono(indices: Seq<usize>, a: Seq<usize>, q1: nat, q2: nat, m: nat)
    requires
        q1 <= q2,
    ensures
        buckets_total(indices, a, q1, m) <= buckets_total(indices, a, q2, m),
    decreases q2,
{
    if q1 < q2 {
        lemma_buckets_total_mono(indices, a, q1, (q2 - 1) as nat, m);
    }
}

proof fn lemma_seq_size_total_prefix(a: Seq<Box<BhcNode>>, b: Seq<Box<BhcNode>>, m: nat)
    requires
        m <= a.len(),
        m <= b.len(),
        forall|j: int| 0 <= j < m ==> a[j] == b[j],
    ensures
        seq_size_total(a, m) == seq_size_total(b, m),
    decreases m,
{
    if m > 0 {
        lemma_seq_size_total_prefix(a, b, (m - 1) as nat);
    }
}

proof fn lemma_seq_size_total_mono(cs: Seq<Box<BhcNode>>, m1: nat, m2: nat)
    requires
        m1 <= m2 <= cs.len(),
    ensures
        seq_size_total(cs, m1) <= seq_size_total(cs, m2),
        m1 < m2 ==> seq_size_total(cs, (m1 + 1) as nat) == seq_size_total(cs, m1) + node_size(*cs[m1 as int]),
    decreases m2,
{
    if m1 < m2 {
        lemma_seq_size_total_mono(cs, m1, (m2 - 1) as nat);
    }
}

proof fn lemma_lens_total_prefix(a: Seq<Seq<usize>>, b: Seq<Seq<usize>>, m: nat)
    requires
        m <= a.len(),
        m <= b.len(),
        forall|j: int| 0 <= j < m ==> a[j] == b[j],
    ensures
        lens_total(a, m) == lens_total(b, m),
    decreases m,
{
    if m > 0 {
        lemma_lens_total_prefix(a, b, (m - 1) as nat);
    }
}

/// Total size of the first `m` subtrees of a child list.
spec fn seq_size_total(cs: Seq<Box<BhcNode>>, m: nat) -> nat
    decreases m,
{
    if m == 0 || m > cs.len() {
        0
    } else {
        seq_size_total(cs, (m - 1) as nat) + node_size(*cs[m - 1])
    }
}

/// Total length of the first `m` sequences.
spec fn lens_total(cb: Seq<Seq<usize>>, m: nat) -> nat
    decreases m,
{
    if m == 0 || m > cb.len() {
        0
    } else {
        lens_total(cb, (m - 1) as nat) + cb[m - 1].len()
    }
}

proof fn lemma_children_size_total(node: BhcNode, m: nat)
    requires
        m <= node.children@.len(),
    ensures
        children_size(node, m) == seq_size_total(node.children@, m),
    decreases m,
{
    if m > 0 {
        lemma_children_size_total(node, (m - 1) as nat);
    }
}

proof fn lemma_size_bound(cs: Seq<Box<BhcNode>>, cb: Seq<Seq<usize>>, m: nat)
    requires
        m <= cs.len(),
        cs.len() == cb.len(),
        forall|j: int| 0 <= j < cs.len() ==> node_size(*#[trigger] cs[j]) + 1 <= 2 * cb[j].len(),
    ensures
        seq_size_total(cs, m) + m <= 2 * lens_total(cb, m),
    decreases m,
{
    if m > 0 {
        lemma_size_bound(cs, cb, (m - 1) as nat);
        assert(node_size(*cs[m - 1]) + 1 <= 2 * cb[m - 1].len());
    }
}

proof fn lemma_children_wf_all(node: BhcNode, fs: Seq<Seq<u8>>, m: nat)
    requires
        m <= node.children@.len(),
        forall|j: int| 0 <= j < node.children@.len() ==> node_wf(*#[trigger] node.children@[j], fs),
    ensures
        children_wf(node, fs, m),
    decreases m,
{
    if m > 0 {
        lemma_children_wf_all(node, fs, (m - 1) as nat);
        assert(node_wf(*node.children@[m - 1], fs));
    }
}

impl BhcNode {
    fn new(id: usize) -> (r: Self)
        ensures
            r.id == id,
            r.center is None,
            r.children@.len() == 0,
            r.reverse_index@.len() == 0,
            r.is_leaf,
    {
        BhcNode { id, center: None, children: Vec::new(), reverse_index: Vec::new(), is_leaf: true }
    }

    /// Returns whether this is a leaf node.
    pub fn is_leaf(&self) -> (r: bool)
        ensures
            r == self.leaf(),
    {
        self.is_leaf
    }

    /// Returns the center descriptor, if the node has one.
    pub fn center(&self) -> (r: Option<&[u8; 96]>)
        ensures
            match r {
                Some(c) => self.center_desc() == Some(c@),
                None => self.center_desc() is None,
            },
    {
        match &self.center {
            Some(c) => Some(&**c),
            None => None,
        }
    }

    /// Returns the feature indices stored in the node.
    pub fn reverse_index(&self) -> (r: &[usize])
        ensures
            r@ == self.stored(),
    {
        self.reverse_index.as_slice()
    }

    /// Returns the number of child nodes.
    pub fn num_children(&self) -> (r: usize)
        ensures
            r == self.kids().len(),
    {
        self.children.len()
    }

    /// Returns the child node at `idx`, if there is one.
    pub fn child(&self, idx: usize) -> (r: Option<&BhcNode>)
        ensures
            idx < self.kids().len() ==> r == Some(&self.kids()[idx as int]),
            idx >= self.kids().len() ==> r is None,
    {
        if idx < self.children.len() {
            Some(&*self.children[idx])
        } else {
            None
        }
    }
}

/// A child set aside during a query, ordered by distance and then by the
/// order in which it was set aside.
struct BacklogEntry<'a> {
    distance: u32,
    seq: u64,
    node: &'a BhcNode,
}

/// The descriptors at the positions `idx` of `fs`.
spec fn sub_descs(fs: Seq<Seq<u8>>, idx: Seq<usize>) -> Seq<Seq<u8>> {
    Seq::new(idx.len(), |s: int| fs[idx[s] as int])
}

/// The cluster positions among `0..q` whose bucket is not empty, in
/// increasing order.
spec fn nonempty_positions(idx: Seq<usize>, a: Seq<usize>, q: nat) -> Seq<usize>
    decreases q,
{
    if q == 0 {
        Seq::empty()
    } else {
        let prev = nonempty_positions(idx, a, (q - 1) as nat);
        if bucket(idx, a, (q - 1) as usize, idx.len()).len() > 0 {
            prev.push((q - 1) as usize)
        } else {
            prev
        }
    }
}

proof fn lemma_nonempty_positions(idx: Seq<usize>, a: Seq<usize>, q: nat, r: nat)
    requires
        r <= q,
    ensures
        nonempty_positions(idx, a, q).len() <= q,
        nonempty_positions(idx, a, r).len() <= nonempty_positions(idx, a, q).len(),
        nonempty_positions(idx, a, q).subrange(0, nonempty_positions(idx, a, r).len() as int)
            == nonempty_positions(idx, a, r),
        forall|j: int| 0 <= j < nonempty_positions(idx, a, q).len() ==> #[trigger] nonempty_positions(idx, a, q)[j] < q,
    decreases q,
{
    if q > 0 {
        if r < q {
            lemma_nonempty_positions(idx, a, (q - 1) as nat, r);
        } else {
            lemma_nonempty_positions(idx, a, (q - 1) as nat, (q - 1) as nat);
        }
        let prev = nonempty_positions(idx, a, (q - 1) as nat);
        let cur = nonempty_positions(idx, a, q);
        assert(cur.subrange(0, prev.len() as int) =~= prev);
        if r < q {
            let pr = nonempty_positions(idx, a, r);
            assert(cur.subrange(0, pr.len() as int) =~= prev.subrange(0, pr.len() as int));
        } else {
            assert(cur.subrange(0, cur.len() as int) =~= cur);
        }
    }
}

/// The clusterer state for `k` clusters, `hyps` hypotheses and generator
/// state `seed`.
spec fn clusterer(k: nat, hyps: nat, seed: i32) -> KMedoidsModel {
    KMedoidsModel { k, num_hypotheses: hyps, rand_seed: seed, centers: Seq::empty(), assignment: Seq::empty() }
}

/// Generator state after building the subtree over the indices `idx` from
/// generator state `seed` (nodes of at most `limit` indices are leaves).
#[verifier::opaque]
spec fn build_seed(fs: Seq<Seq<u8>>, idx: Seq<usize>, k: nat, limit: nat, hyps: nat, seed: i32) -> i32
    decreases idx.len(), k + 1,
{
    if idx.len() <= limit {
        seed
    } else {
        let res = assign_result(clusterer(k, hyps, seed), sub_descs(fs, idx));
        let cp = nonempty_positions(idx, res.assignment, k);
        if cp.len() <= 1 {
            res.rand_seed
        } else {
            proof {
                lemma_nonempty_positions(idx, res.assignment, k, k);
            }
            children_seed(fs, idx, k, limit, hyps, res, cp, cp.len())
        }
    }
}

/// Generator state after building the first `j` children of a node over
/// `idx`, whose clustering is `res` and whose non-empty clusters are `cp`.
#[verifier::opaque]
spec fn children_seed(
    fs: Seq<Seq<u8>>,
    idx: Seq<usize>,
    k: nat,
    limit: nat,
    hyps: nat,
    res: KMedoidsModel,
    cp: Seq<usize>,
    j: nat,
) -> i32
    decreases idx.len(), j,
{
    if j == 0 {
        res.rand_seed
    } else {
        let s = children_seed(fs, idx, k, limit, hyps, res, cp, (j - 1) as nat);
        let b = bucket(idx, res.assignment, cp[j - 1], idx.len());
        if b.len() < idx.len() {
            build_seed(fs, b, k, limit, hyps, s)
        } else {
            s
        }
    }
}

/// `node` is a leaf holding the indices `idx`.
spec fn leaf_of(node: BhcNode, idx: Seq<usize>) -> bool {
    node.is_leaf && node.reverse_index@ == idx && node.children@.len() == 0
}

/// `node` is the subtree built over the indices `idx` from generator state
/// `seed`: up to `limit` indices make a leaf; otherwise the indices are
/// clustered, a single non-empty cluster makes a leaf, and each non-empty
/// cluster in order becomes a child centred on its medoid.
#[verifier::opaque]
spec fn built_node(node: BhcNode, fs: Seq<Seq<u8>>, idx: Seq<usize>, k: nat, limit: nat, hyps: nat, seed: i32) -> bool
    decreases node, node.children@.len() + 1,
{
    if idx.len() <= limit {
        leaf_of(node, idx)
    } else {
        let res = assign_result(clusterer(k, hyps, seed), sub_descs(fs, idx));
        let cp = nonempty_positions(idx, res.assignment, k);
        if cp.len() <= 1 {
            leaf_of(node, idx)
        } else {
            &&& !node.is_leaf
            &&& node.children@.len() == cp.len()
            &&& built_children(node, fs, idx, k, limit, hyps, res, cp, node.children@.len())
        }
    }
}

/// The first `j` children of `node` are the subtrees built over their
/// clusters, centred on the cluster medoids.
#[verifier::opaque]
spec fn built_children(
    node: BhcNode,
    fs: Seq<Seq<u8>>,
    idx: Seq<usize>,
    k: nat,
    limit: nat,
    hyps: nat,
    res: KMedoidsModel,
    cp: Seq<usize>,
    j: nat,
) -> bool
    decreases node, j,
{
    if j == 0 || j > node.children@.len() {
        j == 0
    } else {
        let c = *node.children@[j - 1];
        &&& built_children(node, fs, idx, k, limit, hyps, res, cp, (j - 1) as nat)
        &&& c.center is Some
        &&& center_of(c) == fs[idx[res.centers[cp[j - 1] as int] as int] as int]
        &&& built_node(
            c,
            fs,
            bucket(idx, res.assignment, cp[j - 1], idx.len()),
            k,
            limit,
            hyps,
            children_seed(fs, idx, k, limit, hyps, res, cp, (j - 1) as nat),
        )
    }
}

/// Largest node that is not split: the larger of the leaf size and the
/// number of clusters.
spec fn leaf_limit(min_features: nat, k: nat) -> nat {
    if min_features > k {
        min_features
    } else {
        k
    }
}

proof fn lemma_built_children(
    node: BhcNode,
    fs: Seq<Seq<u8>>,
    idx: Seq<usize>,
    k: nat,
    limit: nat,
    hyps: nat,
    res: KMedoidsModel,
    cp: Seq<usize>,
    j: nat,
)
    requires
        j <= node.children@.len(),
        forall|t: int|
            0 <= t < j ==> (#[trigger] node.children@[t]).center is Some && center_of(*node.children@[t])
                == fs[idx[res.centers[cp[t] as int] as int] as int] && built_node(
                *node.children@[t],
                fs,
                bucket(idx, res.assignment, cp[t], idx.len()),
                k,
                limit,
                hyps,
                children_seed(fs, idx, k, limit, hyps, res, cp, t as nat),
            ),
    ensures
        built_children(node, fs, idx, k, limit, hyps, res, cp, j),
    decreases j,
{
    reveal(built_children);
    reveal(built_node);
    if j > 0 {
        lemma_built_children(node, fs, idx, k, limit, hyps, res, cp, (j - 1) as nat);
    }
}

proof fn lemma_built_leaf(node: BhcNode, fs: Seq<Seq<u8>>, idx: Seq<usize>, k: nat, limit: nat, hyps: nat, seed: i32)
    requires
        leaf_of(node, idx),
        idx.len() <= limit || nonempty_positions(
            idx,
            assign_result(clusterer(k, hyps, seed), sub_descs(fs, idx)).assignment,
            k,
        ).len() <= 1,
    ensures
        built_node(node, fs, idx, k, limit, hyps, seed),
        build_seed(fs, idx, k, limit, hyps, seed) == if idx.len() <= limit {
            seed
        } else {
            assign_result(clusterer(k, hyps, seed), sub_descs(fs, idx)).rand_seed
        },
{
    reveal(built_node);
    reveal(build_seed);
}

proof fn lemma_children_seed_step(
    fs: Seq<Seq<u8>>,
    idx: Seq<usize>,
    k: nat,
    limit: nat,
    hyps: nat,
    res: KMedoidsModel,
    cp: Seq<usize>,
    j: nat,
)
    requires
        j < cp.len(),
        bucket(idx, res.assignment, cp[j as int], idx.len()).len() < idx.len(),
    ensures
        children_seed(fs, idx, k, limit, hyps, res, cp, j + 1) == build_seed(
            fs,
            bucket(idx, res.assignment, cp[j as int], idx.len()),
            k,
            limit,
            hyps,
            children_seed(fs, idx, k, limit, hyps, res, cp, j),
        ),
        children_seed(fs, idx, k, limit, hyps, res, cp, 0) == res.rand_seed,
{
    reveal(children_seed);
    reveal(build_seed);
}

proof fn lemma_children_seed_zero(
    fs: Seq<Seq<u8>>,
    idx: Seq<usize>,
    k: nat,
    limit: nat,
    hyps: nat,
    res: KMedoidsModel,
    cp: Seq<usize>,
)
    ensures
        children_seed(fs, idx, k, limit, hyps, res, cp, 0) == res.rand_seed,
{
    reveal(children_seed);
}

proof fn lemma_built_internal(node: BhcNode, fs: Seq<Seq<u8>>, idx: Seq<usize>, k: nat, limit: nat, hyps: nat, seed: i32)
    requires
        idx.len() > limit,
        ({
            let res = assign_result(clusterer(k, hyps, seed), sub_descs(fs, idx));
            let cp = nonempty_positions(idx, res.assignment, k);
            &&& cp.len() >= 2
            &&& !node.is_leaf
            &&& node.children@.len() == cp.len()
            &&& built_children(node, fs, idx, k, limit, hyps, res, cp, node.children@.len())
        }),
    ensures
        built_node(node, fs, idx, k, limit, hyps, seed),
        build_seed(fs, idx, k, limit, hyps, seed) == children_seed(
            fs,
            idx,
            k,
            limit,
            hyps,
            assign_result(clusterer(k, hyps, seed), sub_descs(fs, idx)),
            nonempty_positions(idx, assign_result(clusterer(k, hyps, seed), sub_descs(fs, idx)).assignment, k),
            nonempty_positions(idx, assign_result(clusterer(k, hyps, seed), sub_descs(fs, idx)).assignment, k).len(),
        ),
{
    reveal(built_node);
    reveal(built_children);
    reveal(build_seed);
    reveal(children_seed);
}

/// Generator state after building a tree over all of `fs` (indices
/// `0..fs.len()`) with `k` clusters per split, leaves of at least
/// `min_features` indices and `hyps` hypotheses, from generator state `seed`.
pub closed spec fn seed_after_build(fs: Seq<Seq<u8>>, k: nat, min_features: nat, hyps: nat, seed: i32) -> i32 {
    build_seed(fs, Seq::new(fs.len(), |t: int| t as usize), k, leaf_limit(min_features, k), hyps, seed)
}

/// The center of a node as a sequence, when it has one.
spec fn center_opt(node: BhcNode) -> Option<Seq<u8>> {
    match node.center {
        Some(c) => Some(c@),
        None => None,
    }
}

/// `a` and `b` agree on all a traversal reads: leaf flags, the indices of
/// leaves, the number of children, and the children's centers and
/// subtrees.
spec fn same_tree(a: BhcNode, b: BhcNode) -> bool
    decreases a, a.children@.len() + 1,
{
    &&& a.is_leaf == b.is_leaf
    &&& (a.is_leaf ==> a.reverse_index@ == b.reverse_index@)
    &&& a.children@.len() == b.children@.len()
    &&& same_kids(a, b, a.children@.len() as nat)
}

/// The first `m` children of `a` and `b` pairwise agree.
spec fn same_kids(a: BhcNode, b: BhcNode, m: nat) -> bool
    decreases a, m,
{
    if m == 0 || m > a.children@.len() {
        true
    } else {
        &&& same_kids(a, b, (m - 1) as nat)
        &&& center_opt(*a.children@[m - 1]) == center_opt(*b.children@[m - 1])
        &&& same_tree(*a.children@[m - 1], *b.children@[m - 1])
    }
}

proof fn lemma_same_kids(a: BhcNode, b: BhcNode, m: nat, j: int)
    requires
        m <= a.children@.len(),
        same_kids(a, b, m),
        0 <= j < m,
    ensures
        center_opt(*a.children@[j]) == center_opt(*b.children@[j]),
        same_tree(*a.children@[j], *b.children@[j]),
    decreases m,
{
    if j < m - 1 {
        lemma_same_kids(a, b, (m - 1) as nat, j);
    }
}

proof fn lemma_same_min_child_dist(a: BhcNode, b: BhcNode, q: Seq<u8>, m: nat)
    requires
        same_tree(a, b),
        m <= a.children@.len(),
    ensures
        min_child_dist(a, q, m) == min_child_dist(b, q, m),
        forall|j: int| 0 <= j < m ==> #[trigger] child_dist(a, j, q) == child_dist(b, j, q),
    decreases m,
{
    if m > 0 {
        lemma_same_min_child_dist(a, b, q, (m - 1) as nat);
        lemma_same_kids(a, b, a.children@.len() as nat, m - 1);
        assert forall|j: int| 0 <= j < m implies #[trigger] child_dist(a, j, q) == child_dist(b, j, q) by {
            lemma_same_kids(a, b, a.children@.len() as nat, j);
        }
    }
}

/// Two traversal states agree: the same indices collected, the same
/// counters, and backlogs that agree entry by entry.
spec fn same_state(s: (Seq<usize>, Seq<(nat, nat, BhcNode)>, nat, nat), t: (
    Seq<usize>,
    Seq<(nat, nat, BhcNode)>,
    nat,
    nat,
)) -> bool {
    &&& s.0 == t.0
    &&& s.2 == t.2
    &&& s.3 == t.3
    &&& s.1.len() == t.1.len()
    &&& forall|i: int|
        0 <= i < s.1.len() ==> (#[trigger] s.1[i]).0 == t.1[i].0 && s.1[i].1 == t.1[i].1 && same_tree(
            s.1[i].2,
            t.1[i].2,
        )
}

proof fn lemma_same_min_entry(b: Seq<(nat, nat, BhcNode)>, c: Seq<(nat, nat, BhcNode)>, n: nat)
    requires
        n <= b.len(),
        b.len() == c.len(),
        forall|i: int| 0 <= i < b.len() ==> (#[trigger] b[i]).0 == c[i].0 && b[i].1 == c[i].1,
    ensures
        min_entry(b, n) == min_entry(c, n),
        n > 0 ==> min_entry(b, n) < n,
    decreases n,
{
    if n > 1 {
        lemma_same_min_entry(b, c, (n - 1) as nat);
        let m = min_entry(b, (n - 1) as nat);
        assert(b[n - 1].0 == c[n - 1].0 && b[m as int].0 == c[m as int].0);
    }
}

proof fn lemma_same_visit(
    a: BhcNode,
    b: BhcNode,
    q: Seq<u8>,
    budget: nat,
    s: (Seq<usize>, Seq<(nat, nat, BhcNode)>, nat, nat),
    t: (Seq<usize>, Seq<(nat, nat, BhcNode)>, nat, nat),
)
    requires
        same_tree(a, b),
        same_state(s, t),
    ensures
        same_state(visit(a, q, budget, s), visit(b, q, budget, t)),
    decreases budget_left(budget, s.3), a, a.children@.len() + 2,
{
    if a.is_leaf {
    } else if a.children@.len() == 0 {
    } else {
        lemma_same_visit_children(a, b, q, budget, s, t, 0);
        let s2 = visit_children(a, q, budget, s, 0);
        let t2 = visit_children(b, q, budget, t, 0);
        if s2.3 >= s.3 {
            lemma_same_pop_step(a, b, q, budget, s2, t2);
        }
    }
}

proof fn lemma_same_visit_children(
    a: BhcNode,
    b: BhcNode,
    q: Seq<u8>,
    budget: nat,
    s: (Seq<usize>, Seq<(nat, nat, BhcNode)>, nat, nat),
    t: (Seq<usize>, Seq<(nat, nat, BhcNode)>, nat, nat),
    i: nat,
)
    requires
        same_tree(a, b),
        same_state(s, t),
    ensures
        same_state(visit_children(a, q, budget, s, i), visit_children(b, q, budget, t, i)),
    decreases budget_left(budget, s.3), a, a.children@.len() - i + 1,
{
    if i < a.children@.len() {
        lemma_same_min_child_dist(a, b, q, a.children@.len() as nat);
        lemma_same_kids(a, b, a.children@.len() as nat, i as int);
        let d = child_dist(a, i as int, q);
        assert(d == child_dist(b, i as int, q));
        if d == min_child_dist(a, q, a.children@.len() as nat) {
            lemma_same_visit(*a.children@[i as int], *b.children@[i as int], q, budget, s, t);
            let s2 = visit(*a.children@[i as int], q, budget, s);
            let t2 = visit(*b.children@[i as int], q, budget, t);
            if s2.3 >= s.3 {
                lemma_same_visit_children(a, b, q, budget, s2, t2, i + 1);
            }
        } else {
            let s2 = (s.0, s.1.push((d, s.2, *a.children@[i as int])), s.2 + 1, s.3);
            let t2 = (t.0, t.1.push((d, t.2, *b.children@[i as int])), t.2 + 1, t.3);
            assert(same_state(s2, t2)) by {
                assert forall|j: int| 0 <= j < s2.1.len() implies (#[trigger] s2.1[j]).0 == t2.1[j].0 && s2.1[j].1
                    == t2.1[j].1 && same_tree(s2.1[j].2, t2.1[j].2) by {
                    if j < s.1.len() {
                        assert(s2.1[j] == s.1[j] && t2.1[j] == t.1[j]);
                    }
                }
            }
            lemma_same_visit_children(a, b, q, budget, s2, t2, i + 1);
        }
    }
}

proof fn lemma_same_pop_step(
    a: BhcNode,
    b: BhcNode,
    q: Seq<u8>,
    budget: nat,
    s: (Seq<usize>, Seq<(nat, nat, BhcNode)>, nat, nat),
    t: (Seq<usize>, Seq<(nat, nat, BhcNode)>, nat, nat),
)
    requires
        same_tree(a, b),
        same_state(s, t),
    ensures
        same_state(pop_step(a, q, budget, s), pop_step(b, q, budget, t)),
    decreases budget_left(budget, s.3), a, 0nat,
{
    if s.3 < budget && s.1.len() > 0 {
        lemma_same_min_entry(s.1, t.1, s.1.len());
        let m = min_entry(s.1, s.1.len());
        let s2 = (s.0, s.1.remove(m as int), s.2, s.3 + 1);
        let t2 = (t.0, t.1.remove(m as int), t.2, t.3 + 1);
        assert(same_state(s2, t2)) by {
            assert forall|j: int| 0 <= j < s2.1.len() implies (#[trigger] s2.1[j]).0 == t2.1[j].0 && s2.1[j].1
                == t2.1[j].1 && same_tree(s2.1[j].2, t2.1[j].2) by {
                if j < m {
                    assert(s2.1[j] == s.1[j] && t2.1[j] == t.1[j]);
                } else {
                    assert(s2.1[j] == s.1[j + 1] && t2.1[j] == t.1[j + 1]);
                }
            }
        }
        assert(s.1[m as int].0 == t.1[m as int].0);
        lemma_same_visit(s.1[m as int].2, t.1[m as int].2, q, budget, s2, t2);
    }
}

proof fn lemma_built_same(
    a: BhcNode,
    b: BhcNode,
    fs: Seq<Seq<u8>>,
    idx: Seq<usize>,
    k: nat,
    limit: nat,
    hyps: nat,
    seed: i32,
)
    requires
        built_node(a, fs, idx, k, limit, hyps, seed),
        built_node(b, fs, idx, k, limit, hyps, seed),
    ensures
        same_tree(a, b),
    decreases a, a.children@.len() + 1,
{
    reveal(built_node);
    reveal(built_children);
    if idx.len() <= limit {
    } else {
        let res = assign_result(clusterer(k, hyps, seed), sub_descs(fs, idx));
        let cp = nonempty_positions(idx, res.assignment, k);
        if cp.len() > 1 {
            lemma_built_same_kids(a, b, fs, idx, k, limit, hyps, res, cp, a.children@.len() as nat);
        }
    }
}

proof fn lemma_built_same_kids(
    a: BhcNode,
    b: BhcNode,
    fs: Seq<Seq<u8>>,
    idx: Seq<usize>,
    k: nat,
    limit: nat,
    hyps: nat,
    res: KMedoidsModel,
    cp: Seq<usize>,
    j: nat,
)
    requires
        j <= a.children@.len(),
        a.children@.len() == b.children@.len(),
        built_children(a, fs, idx, k, limit, hyps, res, cp, j),
        built_children(b, fs, idx, k, limit, hyps, res, cp, j),
    ensures
        same_kids(a, b, j),
    decreases a, j,
{
    reveal(built_children);
    reveal(built_node);
    if j > 0 {
        lemma_built_same_kids(a, b, fs, idx, k, limit, hyps, res, cp, (j - 1) as nat);
        let ca = *a.children@[j - 1];
        let cb = *b.children@[j - 1];
        lemma_built_same(
            ca,
            cb,
            fs,
            bucket(idx, res.assignment, cp[j - 1], idx.len()),
            k,
            limit,
            hyps,
            children_seed(fs, idx, k, limit, hyps, res, cp, (j - 1) as nat),
        );
        assert(center_opt(ca) == center_opt(cb));
    }
}

/// The indices collected from the children `i..` of `node` that lie at the
/// least distance from `q`, in order.
spec fn tied_from(node: BhcNode, q: Seq<u8>, i: nat) -> Seq<usize>
    decreases node.children@.len() - i,
{
    if i >= node.children@.len() {
        Seq::empty()
    } else {
        (if child_dist(node, i as int, q) == min_child_dist(node, q, node.children@.len() as nat) {
            tied_leaves(*node.children@[i as int], q)
        } else {
            Seq::empty()
        }) + tied_from(node, q, i + 1)
    }
}

proof fn lemma_tied_split(node: BhcNode, q: Seq<u8>, i: nat)
    requires
        i <= node.children@.len(),
    ensures
        tied_children(node, q, i) + tied_from(node, q, i) == tied_children(node, q, node.children@.len() as nat),
    decreases node.children@.len() - i,
{
    if i == node.children@.len() {
        assert(tied_children(node, q, i) + tied_from(node, q, i) =~= tied_children(node, q, i));
    } else {
        lemma_tied_split(node, q, i + 1);
        let x = if child_dist(node, i as int, q) == min_child_dist(node, q, node.children@.len() as nat) {
            tied_leaves(*node.children@[i as int], q)
        } else {
            Seq::empty()
        };
        assert(tied_children(node, q, i + 1) == tied_children(node, q, i) + x);
        assert(tied_from(node, q, i) == x + tied_from(node, q, i + 1));
        assert(tied_children(node, q, i) + tied_from(node, q, i) =~= (tied_children(node, q, i) + x) + tied_from(
            node,
            q,
            i + 1,
        ));
    }
}

proof fn lemma_visit_no_pops(
    node: BhcNode,
    q: Seq<u8>,
    budget: nat,
    st: (Seq<usize>, Seq<(nat, nat, BhcNode)>, nat, nat),
)
    requires
        st.3 >= budget,
    ensures
        visit(node, q, budget, st).0 == st.0 + tied_leaves(node, q),
        visit(node, q, budget, st).3 == st.3,
    decreases node, node.children@.len() + 2,
{
    if node.is_leaf {
    } else if node.children@.len() == 0 {
        assert(st.0 + tied_leaves(node, q) =~= st.0);
    } else {
        lemma_visit_children_no_pops(node, q, budget, st, 0);
        lemma_tied_split(node, q, 0);
        assert(tied_children(node, q, 0) + tied_from(node, q, 0) =~= tied_from(node, q, 0));
    }
}

proof fn lemma_visit_children_no_pops(
    node: BhcNode,
    q: Seq<u8>,
    budget: nat,
    st: (Seq<usize>, Seq<(nat, nat, BhcNode)>, nat, nat),
    i: nat,
)
    requires
        st.3 >= budget,
    ensures
        visit_children(node, q, budget, st, i).0 == st.0 + tied_from(node, q, i),
        visit_children(node, q, budget, st, i).3 == st.3,
    decreases node, node.children@.len() - i + 1,
{
    if i >= node.children@.len() {
        assert(st.0 + tied_from(node, q, i) =~= st.0);
    } else {
        let d = child_dist(node, i as int, q);
        if d == min_child_dist(node, q, node.children@.len() as nat) {
            let c = *node.children@[i as int];
            lemma_visit_no_pops(c, q, budget, st);
            let st2 = visit(c, q, budget, st);
            lemma_visit_children_no_pops(node, q, budget, st2, i + 1);
            assert(st.0 + tied_from(node, q, i) =~= (st.0 + tied_leaves(c, q)) + tied_from(node, q, i + 1));
        } else {
            let st2 = (st.0, st.1.push((d, st.2, *node.children@[i as int])), st.2 + 1, st.3);
            lemma_visit_children_no_pops(node, q, budget, st2, i + 1);
            assert(st.0 + tied_from(node, q, i) =~= st.0 + tied_from(node, q, i + 1));
        }
    }
}

proof fn lemma_visit_grows(
    node: BhcNode,
    q: Seq<u8>,
    budget: nat,
    st: (Seq<usize>, Seq<(nat, nat, BhcNode)>, nat, nat),
)
    ensures
        visit(node, q, budget, st).3 >= st.3,
        forall|x: usize| st.0.contains(x) ==> #[trigger] visit(node, q, budget, st).0.contains(x),
        forall|x: usize| tied_leaves(node, q).contains(x) ==> #[trigger] visit(node, q, budget, st).0.contains(x),
    decreases budget_left(budget, st.3), node, node.children@.len() + 2,
{
    let r = visit(node, q, budget, st);
    if node.is_leaf {
        assert forall|x: usize| st.0.contains(x) implies #[trigger] r.0.contains(x) by {
            let j = choose|j: int| 0 <= j < st.0.len() && st.0[j] == x;
            assert(r.0[j] == x);
        }
        assert forall|x: usize| tied_leaves(node, q).contains(x) implies #[trigger] r.0.contains(x) by {
            let j = choose|j: int| 0 <= j < node.reverse_index@.len() && node.reverse_index@[j] == x;
            assert(r.0[st.0.len() + j] == x);
        }
    } else if node.children@.len() == 0 {
    } else {
        lemma_visit_children_grows(node, q, budget, st, 0);
        lemma_tied_split(node, q, 0);
        assert(tied_children(node, q, 0) + tied_from(node, q, 0) =~= tied_from(node, q, 0));
        let st2 = visit_children(node, q, budget, st, 0);
        lemma_pop_step_grows(node, q, budget, st2);
    }
}

proof fn lemma_visit_children_grows(
    node: BhcNode,
    q: Seq<u8>,
    budget: nat,
    st: (Seq<usize>, Seq<(nat, nat, BhcNode)>, nat, nat),
    i: nat,
)
    ensures
        visit_children(node, q, budget, st, i).3 >= st.3,
        forall|x: usize| st.0.contains(x) ==> #[trigger] visit_children(node, q, budget, st, i).0.contains(x),
        forall|x: usize| tied_from(node, q, i).contains(x) ==> #[trigger] visit_children(node, q, budget, st, i).0.contains(x),
    decreases budget_left(budget, st.3), node, node.children@.len() - i + 1,
{
    if i < node.children@.len() {
        let d = child_dist(node, i as int, q);
        let r = visit_children(node, q, budget, st, i);
        if d == min_child_dist(node, q, node.children@.len() as nat) {
            let c = *node.children@[i as int];
            lemma_visit_grows(c, q, budget, st);
            let st2 = visit(c, q, budget, st);
            lemma_visit_children_grows(node, q, budget, st2, i + 1);
            assert forall|x: usize| tied_from(node, q, i).contains(x) implies #[trigger] r.0.contains(x) by {
                let j = choose|j: int| 0 <= j < tied_from(node, q, i).len() && tied_from(node, q, i)[j] == x;
                let tl = tied_leaves(c, q);
                if j < tl.len() {
                    assert(tl[j] == x);
                    assert(tl.contains(x));
                } else {
                    assert(tied_from(node, q, i + 1)[j - tl.len()] == x);
                    assert(tied_from(node, q, i + 1).contains(x));
                }
            }
        } else {
            let st2 = (st.0, st.1.push((d, st.2, *node.children@[i as int])), st.2 + 1, st.3);
            lemma_visit_children_grows(node, q, budget, st2, i + 1);
            assert(tied_from(node, q, i) =~= tied_from(node, q, i + 1));
        }
    }
}

proof fn lemma_pop_step_grows(
    node: BhcNode,
    q: Seq<u8>,
    budget: nat,
    st: (Seq<usize>, Seq<(nat, nat, BhcNode)>, nat, nat),
)
    ensures
        pop_step(node, q, budget, st).3 >= st.3,
        forall|x: usize| st.0.contains(x) ==> #[trigger] pop_step(node, q, budget, st).0.contains(x),
    decreases budget_left(budget, st.3), node, 0nat,
{
    if st.3 < budget && st.1.len() > 0 {
        let m = min_entry(st.1, st.1.len());
        lemma_visit_grows(st.1[m as int].2, q, budget, (st.0, st.1.remove(m as int), st.2, st.3 + 1));
    }
}

proof fn lemma_budget_mono_visit(
    node: BhcNode,
    q: Seq<u8>,
    m1: nat,
    m2: nat,
    st: (Seq<usize>, Seq<(nat, nat, BhcNode)>, nat, nat),
)
    requires
        m1 <= m2,
    ensures
        forall|x: usize| #[trigger] visit(node, q, m1, st).0.contains(x) ==> visit(node, q, m2, st).0.contains(x),
        visit(node, q, m1, st).3 < m1 ==> visit(node, q, m1, st) == visit(node, q, m2, st),
    decreases budget_left(m2, st.3), node, node.children@.len() + 2,
{
    if st.3 >= m1 {
        lemma_visit_no_pops(node, q, m1, st);
        lemma_visit_grows(node, q, m2, st);
        let r1 = visit(node, q, m1, st);
        assert forall|x: usize| #[trigger] r1.0.contains(x) implies visit(node, q, m2, st).0.contains(x) by {
            let j = choose|j: int| 0 <= j < r1.0.len() && r1.0[j] == x;
            if j < st.0.len() {
                assert(st.0[j] == x);
                assert(st.0.contains(x));
            } else {
                assert(tied_leaves(node, q)[j - st.0.len()] == x);
                assert(tied_leaves(node, q).contains(x));
            }
        }
    } else if node.is_leaf {
    } else if node.children@.len() == 0 {
    } else {
        lemma_budget_mono_children(node, q, m1, m2, st, 0);
        let s2 = visit_children(node, q, m1, st, 0);
        let t2 = visit_children(node, q, m2, st, 0);
        lemma_visit_children_grows(node, q, m1, st, 0);
        lemma_visit_children_grows(node, q, m2, st, 0);
        if s2.3 < m1 {
            lemma_budget_mono_pop(node, q, m1, m2, s2);
        } else {
            lemma_pop_step_grows(node, q, m2, t2);
        }
    }
}

proof fn lemma_budget_mono_children(
    node: BhcNode,
    q: Seq<u8>,
    m1: nat,
    m2: nat,
    st: (Seq<usize>, Seq<(nat, nat, BhcNode)>, nat, nat),
    i: nat,
)
    requires
        m1 <= m2,
    ensures
        forall|x: usize| #[trigger] visit_children(node, q, m1, st, i).0.contains(x) ==> visit_children(
            node,
            q,
            m2,
            st,
            i,
        ).0.contains(x),
        visit_children(node, q, m1, st, i).3 < m1 ==> visit_children(node, q, m1, st, i) == visit_children(
            node,
            q,
            m2,
            st,
            i,
        ),
    decreases budget_left(m2, st.3), node, node.children@.len() - i + 1,
{
    if st.3 >= m1 {
        lemma_visit_children_no_pops(node, q, m1, st, i);
        lemma_visit_children_grows(node, q, m2, st, i);
        let r1 = visit_children(node, q, m1, st, i);
        assert forall|x: usize| #[trigger] r1.0.contains(x) implies visit_children(node, q, m2, st, i).0.contains(x) by {
            let j = choose|j: int| 0 <= j < r1.0.len() && r1.0[j] == x;
            if j < st.0.len() {
                assert(st.0[j] == x);
                assert(st.0.contains(x));
            } else {
                assert(tied_from(node, q, i)[j - st.0.len()] == x);
                assert(tied_from(node, q, i).contains(x));
            }
        }
    } else if i < node.children@.len() {
        let d = child_dist(node, i as int, q);
        if d == min_child_dist(node, q, node.children@.len() as nat) {
            let c = *node.children@[i as int];
            lemma_budget_mono_visit(c, q, m1, m2, st);
            lemma_visit_grows(c, q, m1, st);
            lemma_visit_grows(c, q, m2, st);
            let s2 = visit(c, q, m1, st);
            let t2 = visit(c, q, m2, st);
            if s2.3 < m1 {
                lemma_budget_mono_children(node, q, m1, m2, s2, i + 1);
            } else {
                lemma_visit_children_no_pops(node, q, m1, s2, i + 1);
                lemma_visit_children_grows(node, q, m2, t2, i + 1);
                let r1 = visit_children(node, q, m1, s2, i + 1);
                let r2 = visit_children(node, q, m2, t2, i + 1);
                assert forall|x: usize| #[trigger] r1.0.contains(x) implies r2.0.contains(x) by {
                    let j = choose|j: int| 0 <= j < r1.0.len() && r1.0[j] == x;
                    if j < s2.0.len() {
                        assert(s2.0[j] == x);
                        assert(s2.0.contains(x));
                        assert(t2.0.contains(x));
                    } else {
                        assert(tied_from(node, q, i + 1)[j - s2.0.len()] == x);
                        assert(tied_from(node, q, i + 1).contains(x));
                    }
                }
            }
        } else {
            let s2 = (st.0, st.1.push((d, st.2, *node.children@[i as int])), st.2 + 1, st.3);
            lemma_budget_mono_children(node, q, m1, m2, s2, i + 1);
        }
    }
}

proof fn lemma_budget_mono_pop(
    node: BhcNode,
    q: Seq<u8>,
    m1: nat,
    m2: nat,
    st: (Seq<usize>, Seq<(nat, nat, BhcNode)>, nat, nat),
)
    requires
        m1 <= m2,
        st.3 < m1,
    ensures
        forall|x: usize| #[trigger] pop_step(node, q, m1, st).0.contains(x) ==> pop_step(node, q, m2, st).0.contains(x),
        pop_step(node, q, m1, st).3 < m1 ==> pop_step(node, q, m1, st) == pop_step(node, q, m2, st),
    decreases budget_left(m2, st.3), node, 0nat,
{
    if st.1.len() > 0 {
        let m = min_entry(st.1, st.1.len());
        lemma_budget_mono_visit(st.1[m as int].2, q, m1, m2, (st.0, st.1.remove(m as int), st.2, st.3 + 1));
    }
}

/// The indices stored in the leaves of `node`, with their multiplicities.
spec fn node_ms(node: BhcNode) -> Multiset<usize>
    decreases node, node.children@.len() + 1,
{
    if node.is_leaf {
        node.reverse_index@.to_multiset()
    } else {
        children_ms(node, node.children@.len() as nat)
    }
}

/// The indices stored in the leaves of the first `m` children of `node`.
spec fn children_ms(node: BhcNode, m: nat) -> Multiset<usize>
    decreases node, m,
{
    if m == 0 || m > node.children@.len() {
        Multiset::empty()
    } else {
        children_ms(node, (m - 1) as nat).add(node_ms(*node.children@[m - 1]))
    }
}

/// The indices stored in the leaves of the children `i..` of `node`.
spec fn children_from_ms(node: BhcNode, i: nat) -> Multiset<usize>
    decreases node.children@.len() - i,
{
    if i >= node.children@.len() {
        Multiset::empty()
    } else {
        node_ms(*node.children@[i as int]).add(children_from_ms(node, i + 1))
    }
}

/// The indices stored in the leaves of the first `m` trees of a child list.
spec fn seq_ms(cs: Seq<Box<BhcNode>>, m: nat) -> Multiset<usize>
    decreases m,
{
    if m == 0 || m > cs.len() {
        Multiset::empty()
    } else {
        seq_ms(cs, (m - 1) as nat).add(node_ms(*cs[m - 1]))
    }
}

/// The indices stored in the leaves of the trees of a backlog.
spec fn backlog_ms(b: Seq<(nat, nat, BhcNode)>) -> Multiset<usize>
    decreases b.len(),
{
    if b.len() == 0 {
        Multiset::empty()
    } else {
        backlog_ms(b.drop_last()).add(node_ms(b.last().2))
    }
}

/// The multisets of the buckets of clusters `0..q`.
spec fn buckets_ms(idx: Seq<usize>, a: Seq<usize>, q: nat, m: nat) -> Multiset<usize>
    decreases q,
{
    if q == 0 {
        Multiset::empty()
    } else {
        buckets_ms(idx, a, (q - 1) as nat, m).add(bucket(idx, a, (q - 1) as usize, m).to_multiset())
    }
}

proof fn lemma_empty_ms(s: Seq<usize>)
    requires
        s.len() == 0,
    ensures
        s.to_multiset() == Multiset::<usize>::empty(),
{
    broadcast use vstd::seq_lib::to_multiset_len;
    broadcast use vstd::multiset::lemma_multiset_empty_len;

    assert(s.to_multiset().len() == 0);
}

proof fn lemma_single_ms(x: usize)
    ensures
        seq![x].to_multiset() == Multiset::singleton(x),
{
    broadcast use vstd::seq_lib::to_multiset_build;
    broadcast use vstd::multiset::group_multiset_axioms;

    lemma_empty_ms(Seq::<usize>::empty());
    assert(seq![x] =~= Seq::<usize>::empty().push(x));
    assert(seq![x].to_multiset() =~= Multiset::singleton(x));
}

proof fn lemma_children_ms_total(node: BhcNode, m: nat)
    requires
        m <= node.children@.len(),
    ensures
        children_ms(node, m) == seq_ms(node.children@, m),
    decreases m,
{
    if m > 0 {
        lemma_children_ms_total(node, (m - 1) as nat);
    }
}

proof fn lemma_seq_ms_prefix(a: Seq<Box<BhcNode>>, b: Seq<Box<BhcNode>>, m: nat)
    requires
        m <= a.len(),
        m <= b.len(),
        forall|j: int| 0 <= j < m ==> a[j] == b[j],
    ensures
        seq_ms(a, m) == seq_ms(b, m),
    decreases m,
{
    if m > 0 {
        lemma_seq_ms_prefix(a, b, (m - 1) as nat);
    }
}

proof fn lemma_children_split(node: BhcNode, i: nat)
    requires
        i <= node.children@.len(),
    ensures
        children_ms(node, i).add(children_from_ms(node, i)) == children_ms(node, node.children@.len() as nat),
    decreases node.children@.len() - i,
{
    broadcast use vstd::multiset::group_multiset_axioms;

    if i < node.children@.len() {
        lemma_children_split(node, i + 1);
        assert(children_ms(node, i).add(children_from_ms(node, i)) =~= children_ms(node, i + 1).add(
            children_from_ms(node, i + 1),
        ));
    } else {
        assert(children_ms(node, i).add(children_from_ms(node, i)) =~= children_ms(node, i));
    }
}

proof fn lemma_backlog_ms_remove(b: Seq<(nat, nat, BhcNode)>, i: int)
    requires
        0 <= i < b.len(),
    ensures
        backlog_ms(b) == backlog_ms(b.remove(i)).add(node_ms(b[i].2)),
    decreases b.len(),
{
    broadcast use vstd::multiset::group_multiset_axioms;

    if i == b.len() - 1 {
        assert(b.remove(i) =~= b.drop_last());
    } else {
        lemma_backlog_ms_remove(b.drop_last(), i);
        assert(b.remove(i).drop_last() =~= b.drop_last().remove(i));
        assert(b.remove(i).last() == b.last());
        assert(backlog_ms(b) =~= backlog_ms(b.remove(i)).add(node_ms(b[i].2)));
    }
}

proof fn lemma_buckets_ms_step(idx: Seq<usize>, a: Seq<usize>, q: nat, m: nat)
    requires
        0 < m <= idx.len(),
        m <= a.len(),
        q <= usize::MAX,
    ensures
        buckets_ms(idx, a, q, m) == buckets_ms(idx, a, q, (m - 1) as nat).add(
            if a[m - 1] < q {
                Multiset::singleton(idx[m - 1])
            } else {
                Multiset::empty()
            },
        ),
    decreases q,
{
    broadcast use vstd::multiset::group_multiset_axioms;
    broadcast use vstd::seq_lib::lemma_multiset_commutative;

    if q > 0 {
        lemma_buckets_ms_step(idx, a, (q - 1) as nat, m);
        let p = (q - 1) as usize;
        let tail = if a[m - 1] == p {
            seq![idx[m - 1]]
        } else {
            Seq::empty()
        };
        assert(bucket(idx, a, p, m) == bucket(idx, a, p, (m - 1) as nat) + tail);
        assert(bucket(idx, a, p, m).to_multiset() =~= bucket(idx, a, p, (m - 1) as nat).to_multiset().add(
            tail.to_multiset(),
        ));
        if a[m - 1] == p {
            lemma_single_ms(idx[m - 1]);
        } else {
            lemma_empty_ms(tail);
        }
        assert(buckets_ms(idx, a, q, m) =~= buckets_ms(idx, a, q, (m - 1) as nat).add(
            if a[m - 1] < q {
                Multiset::singleton(idx[m - 1])
            } else {
                Multiset::empty()
            },
        ));
    }
}

proof fn lemma_buckets_ms_total(idx: Seq<usize>, a: Seq<usize>, k: nat, m: nat)
    requires
        m <= idx.len(),
        m <= a.len(),
        k <= usize::MAX,
        forall|t: int| 0 <= t < m ==> #[trigger] a[t] < k,
    ensures
        buckets_ms(idx, a, k, m) == idx.take(m as int).to_multiset(),
    decreases m,
{
    broadcast use vstd::multiset::group_multiset_axioms;

    if m == 0 {
        lemma_buckets_ms_empty(idx, a, k);
        lemma_empty_ms(idx.take(0));
    } else {
        lemma_buckets_ms_total(idx, a, k, (m - 1) as nat);
        lemma_buckets_ms_step(idx, a, k, m);
        assert(idx.take(m as int) =~= idx.take(m - 1).push(idx[m - 1]));
        assert(idx.take(m as int).to_multiset() =~= idx.take(m - 1).to_multiset().insert(idx[m - 1])) by {
            broadcast use vstd::seq_lib::to_multiset_build;

        }
        assert(buckets_ms(idx, a, k, m) =~= idx.take(m as int).to_multiset());
    }
}

proof fn lemma_buckets_ms_empty(idx: Seq<usize>, a: Seq<usize>, q: nat)
    ensures
        buckets_ms(idx, a, q, 0) == Multiset::<usize>::empty(),
    decreases q,
{
    broadcast use vstd::multiset::group_multiset_axioms;

    if q > 0 {
        lemma_buckets_ms_empty(idx, a, (q - 1) as nat);
        lemma_empty_ms(bucket(idx, a, (q - 1) as usize, 0));
        assert(buckets_ms(idx, a, q, 0) =~= Multiset::<usize>::empty());
    }
}

proof fn lemma_visit_conserves(
    node: BhcNode,
    q: Seq<u8>,
    budget: nat,
    st: (Seq<usize>, Seq<(nat, nat, BhcNode)>, nat, nat),
)
    ensures
        ({
            let r = visit(node, q, budget, st);
            r.0.to_multiset().add(backlog_ms(r.1)) == st.0.to_multiset().add(backlog_ms(st.1)).add(node_ms(node))
        }),
    decreases budget_left(budget, st.3), node, node.children@.len() + 2,
{
    broadcast use vstd::multiset::group_multiset_axioms;
    broadcast use vstd::seq_lib::lemma_multiset_commutative;

    let r = visit(node, q, budget, st);
    if node.is_leaf {
        assert(r.0.to_multiset() =~= st.0.to_multiset().add(node.reverse_index@.to_multiset()));
        assert(r.0.to_multiset().add(backlog_ms(r.1)) =~= st.0.to_multiset().add(backlog_ms(st.1)).add(
            node_ms(node),
        ));
    } else if node.children@.len() == 0 {
        assert(node_ms(node) =~= Multiset::empty());
        assert(r.0.to_multiset().add(backlog_ms(r.1)) =~= st.0.to_multiset().add(backlog_ms(st.1)).add(
            node_ms(node),
        ));
    } else {
        lemma_visit_children_conserves(node, q, budget, st, 0);
        lemma_children_split(node, 0);
        assert(children_ms(node, 0) =~= Multiset::empty());
        assert(children_from_ms(node, 0) =~= node_ms(node));
        let s2 = visit_children(node, q, budget, st, 0);
        lemma_visit_children_grows(node, q, budget, st, 0);
        lemma_pop_step_conserves(node, q, budget, s2);
        assert(r.0.to_multiset().add(backlog_ms(r.1)) =~= st.0.to_multiset().add(backlog_ms(st.1)).add(
            node_ms(node),
        ));
    }
}

proof fn lemma_visit_children_conserves(
    node: BhcNode,
    q: Seq<u8>,
    budget: nat,
    st: (Seq<usize>, Seq<(nat, nat, BhcNode)>, nat, nat),
    i: nat,
)
    ensures
        ({
            let r = visit_children(node, q, budget, st, i);
            r.0.to_multiset().add(backlog_ms(r.1)) == st.0.to_multiset().add(backlog_ms(st.1)).add(
                children_from_ms(node, i),
            )
        }),
    decreases budget_left(budget, st.3), node, node.children@.len() - i + 1,
{
    broadcast use vstd::multiset::group_multiset_axioms;

    let r = visit_children(node, q, budget, st, i);
    if i >= node.children@.len() {
        assert(r.0.to_multiset().add(backlog_ms(r.1)) =~= st.0.to_multiset().add(backlog_ms(st.1)).add(
            children_from_ms(node, i),
        ));
    } else {
        let d = child_dist(node, i as int, q);
        let c = *node.children@[i as int];
        if d == min_child_dist(node, q, node.children@.len() as nat) {
            lemma_visit_conserves(c, q, budget, st);
            lemma_visit_grows(c, q, budget, st);
            let s2 = visit(c, q, budget, st);
            lemma_visit_children_conserves(node, q, budget, s2, i + 1);
        } else {
            let s2 = (st.0, st.1.push((d, st.2, c)), st.2 + 1, st.3);
            assert(s2.1.drop_last() =~= st.1);
            lemma_visit_children_conserves(node, q, budget, s2, i + 1);
        }
        assert(r.0.to_multiset().add(backlog_ms(r.1)) =~= st.0.to_multiset().add(backlog_ms(st.1)).add(
            children_from_ms(node, i),
        ));
    }
}

proof fn lemma_pop_step_conserves(
    node: BhcNode,
    q: Seq<u8>,
    budget: nat,
    st: (Seq<usize>, Seq<(nat, nat, BhcNode)>, nat, nat),
)
    ensures
        ({
            let r = pop_step(node, q, budget, st);
            r.0.to_multiset().add(backlog_ms(r.1)) == st.0.to_multiset().add(backlog_ms(st.1))
        }),
    decreases budget_left(budget, st.3), node, 0nat,
{
    broadcast use vstd::multiset::group_multiset_axioms;

    if st.3 < budget && st.1.len() > 0 {
        let m = min_entry(st.1, st.1.len());
        lemma_same_min_entry(st.1, st.1, st.1.len());
        let s2 = (st.0, st.1.remove(m as int), st.2, st.3 + 1);
        lemma_visit_conserves(st.1[m as int].2, q, budget, s2);
        lemma_backlog_ms_remove(st.1, m as int);
        let r = pop_step(node, q, budget, st);
        assert(r.0.to_multiset().add(backlog_ms(r.1)) =~= st.0.to_multiset().add(backlog_ms(st.1)));
    }
}

/// A traversal from a tree whose leaves hold each index at most once
/// collects each index at most once.
proof fn lemma_visit_no_duplicates(node: BhcNode, q: Seq<u8>, budget: nat)
    requires
        forall|x: usize| #[trigger] node_ms(node).count(x) <= 1,
    ensures
        visit(node, q, budget, (Seq::empty(), Seq::empty(), 0, 0)).0.no_duplicates(),
{
    broadcast use vstd::multiset::group_multiset_axioms;

    let st: (Seq<usize>, Seq<(nat, nat, BhcNode)>, nat, nat) = (Seq::empty(), Seq::empty(), 0, 0);
    lemma_visit_conserves(node, q, budget, st);
    let r = visit(node, q, budget, st);
    lemma_empty_ms(st.0);
    assert(backlog_ms(st.1) =~= Multiset::empty());
    assert(st.0.to_multiset().add(backlog_ms(st.1)).add(node_ms(node)) =~= node_ms(node));
    assert(r.0.to_multiset().add(backlog_ms(r.1)) == node_ms(node));
    assert forall|x: usize| r.0.to_multiset().contains(x) implies r.0.to_multiset().count(x) == 1 by {
        assert(r.0.to_multiset().count(x) + backlog_ms(r.1).count(x) == node_ms(node).count(x));
    }
    r.0.lemma_multiset_has_no_duplicates_conv();
}
proof fn lemma_popcount8_zero_eq(x: u8, y: u8)
    by (bit_vector)
    ensures
        popcount8(x ^ y) == 0 ==> x == y,
{
}

proof fn lemma_hamming_zero_eq(a: Seq<u8>, b: Seq<u8>, n: nat)
    requires
        n <= a.len(),
        n <= b.len(),
        hamming_prefix(a, b, n) == 0,
    ensures
        forall|t: int| 0 <= t < n ==> a[t] == b[t],
    decreases n,
{
    if n > 0 {
        lemma_hamming_zero_eq(a, b, (n - 1) as nat);
        lemma_popcount8_zero_eq(a[n - 1], b[n - 1]);
    }
}

/// The medoid of a non-empty cluster is assigned to that cluster: were it
/// assigned to an earlier center, that center would be the same descriptor
/// and would take every feature of the cluster first.
proof fn lemma_medoid_own_cluster(fs: Seq<Seq<u8>>, centers: Seq<usize>, k: nat, f: int)
    requires
        0 < k <= centers.len(),
        0 <= f < fs.len(),
        forall|j: int| 0 <= j < centers.len() ==> 0 <= #[trigger] centers[j] < fs.len(),
        forall|i: int| 0 <= i < fs.len() ==> (#[trigger] fs[i]).len() == 96,
    ensures
        nearest(fs, centers[nearest(fs, f, centers, k) as int] as int, centers, k) == nearest(fs, f, centers, k),
{
    let p = nearest(fs, f, centers, k);
    lemma_nearest(fs, f, centers, k);
    let s = centers[p as int] as int;
    lemma_nearest(fs, s, centers, k);
    let q = nearest(fs, s, centers, k);
    lemma_hamming_symmetric_and_reflexive(fs[s], fs[s], 96);
    assert(hamming(fs[s], fs[centers[p as int] as int]) == 0);
    if q < p {
        let cq = fs[centers[q as int] as int];
        lemma_hamming_zero_eq(fs[s], cq, 96);
        assert(fs[s] =~= cq);
        assert(hamming(fs[f], cq) == hamming(fs[f], fs[centers[p as int] as int]));
        assert(false);
    }
}

/// `s` is strictly increasing.
spec fn increasing(s: Seq<usize>) -> bool {
    forall|i: int, j: int| 0 <= i < j < s.len() ==> #[trigger] s[i] < #[trigger] s[j]
}

proof fn lemma_bucket_increasing(indices: Seq<usize>, a: Seq<usize>, p: usize, m: nat)
    requires
        m <= indices.len(),
        m <= a.len(),
        increasing(indices),
    ensures
        increasing(bucket(indices, a, p, m)),
    decreases m,
{
    if m > 0 {
        lemma_bucket_increasing(indices, a, p, (m - 1) as nat);
        lemma_bucket_members(indices, a, p, (m - 1) as nat);
        let b0 = bucket(indices, a, p, (m - 1) as nat);
        if a[m - 1] == p {
            let b = bucket(indices, a, p, m);
            assert(b == b0 + seq![indices[m - 1]]);
            assert forall|i: int, j: int| 0 <= i < j < b.len() implies #[trigger] b[i] < #[trigger] b[j] by {
                if j == b.len() - 1 {
                    assert(b0.contains(b0[i]));
                    let t = choose|t: int| 0 <= t < m - 1 && a[t] == p && indices[t] == b0[i];
                    assert(indices[t] < indices[m - 1]);
                } else {
                    assert(b[i] == b0[i] && b[j] == b0[j]);
                }
            }
        } else {
            assert(bucket(indices, a, p, m) =~= b0);
        }
    }
}

/// The shape of one node of a built tree: a node is a leaf exactly when it
/// has no children and exactly when it stores indices; a leaf's indices
/// increase and are valid; an internal node has from two to `k` children;
/// each child's center is the descriptor of an index stored below it.
spec fn node_shape_here(node: BhcNode, fs: Seq<Seq<u8>>, k: nat) -> bool {
    &&& node.is_leaf <==> node.children@.len() == 0
    &&& node.is_leaf <==> node.reverse_index@.len() > 0
    &&& node.is_leaf ==> increasing(node.reverse_index@) && forall|t: int|
        0 <= t < node.reverse_index@.len() ==> #[trigger] node.reverse_index@[t] < fs.len()
    &&& !node.is_leaf ==> 2 <= node.children@.len() <= k
    &&& forall|j: int| 0 <= j < node.children@.len() ==> #[trigger] centered_below(*node.children@[j], fs)
}

/// The center of `c` is the descriptor of an index stored below `c`.
spec fn centered_below(c: BhcNode, fs: Seq<Seq<u8>>) -> bool {
    exists|x: usize| x < fs.len() && #[trigger] node_holds(c, x) && center_opt(c) == Some(fs[x as int])
}

/// Every node of the subtree has the shape of a built tree.
spec fn shape_rec(node: BhcNode, fs: Seq<Seq<u8>>, k: nat) -> bool
    decreases node, node.children@.len() + 1,
{
    node_shape_here(node, fs, k) && kids_shape(node, fs, k, node.children@.len() as nat)
}

spec fn kids_shape(node: BhcNode, fs: Seq<Seq<u8>>, k: nat, m: nat) -> bool
    decreases node, m,
{
    if m == 0 || m > node.children@.len() {
        true
    } else {
        kids_shape(node, fs, k, (m - 1) as nat) && shape_rec(*node.children@[m - 1], fs, k)
    }
}

proof fn lemma_kids_shape_all(node: BhcNode, fs: Seq<Seq<u8>>, k: nat, m: nat)
    requires
        m <= node.children@.len(),
        forall|j: int| 0 <= j < node.children@.len() ==> shape_rec(*#[trigger] node.children@[j], fs, k),
    ensures
        kids_shape(node, fs, k, m),
    decreases m,
{
    if m > 0 {
        lemma_kids_shape_all(node, fs, k, (m - 1) as nat);
        assert(shape_rec(*node.children@[m - 1], fs, k));
    }
}

proof fn lemma_kids_shape(node: BhcNode, fs: Seq<Seq<u8>>, k: nat, m: nat, j: int)
    requires
        m <= node.children@.len(),
        kids_shape(node, fs, k, m),
        0 <= j < m,
    ensures
        shape_rec(*node.children@[j], fs, k),
    decreases m,
{
    if j < m - 1 {
        lemma_kids_shape(node, fs, k, (m - 1) as nat, j);
    }
}

/// `n` is `a` or a node below it.
spec fn reaches(a: BhcNode, n: BhcNode) -> bool
    decreases a, a.children@.len() + 1,
{
    a == n || reaches_kids(a, n, a.children@.len() as nat)
}

spec fn reaches_kids(a: BhcNode, n: BhcNode, m: nat) -> bool
    decreases a, m,
{
    if m == 0 || m > a.children@.len() {
        false
    } else {
        reaches_kids(a, n, (m - 1) as nat) || reaches(*a.children@[m - 1], n)
    }
}

proof fn lemma_reaches_kids(a: BhcNode, n: BhcNode, m: nat)
    requires
        m <= a.children@.len(),
    ensures
        reaches_kids(a, n, m) <==> exists|j: int| 0 <= j < m && #[trigger] reaches(*a.children@[j], n),
    decreases m,
{
    if m > 0 {
        lemma_reaches_kids(a, n, (m - 1) as nat);
        if reaches(*a.children@[m - 1], n) {
            assert(0 <= m - 1 < m && reaches(*a.children@[m - 1], n));
        }
    }
}

/// The children of a reached node are reached.
proof fn lemma_reaches_child(a: BhcNode, n: BhcNode, j: int)
    requires
        reaches(a, n),
        0 <= j < n.children@.len(),
    ensures
        reaches(a, *n.children@[j]),
    decreases a, a.children@.len() + 1,
{
    let c = *n.children@[j];
    if a == n {
        assert(reaches(c, c));
        lemma_reaches_kids(a, c, a.children@.len() as nat);
    } else {
        lemma_reaches_kids(a, n, a.children@.len() as nat);
        let i = choose|i: int| 0 <= i < a.children@.len() && #[trigger] reaches(*a.children@[i], n);
        lemma_reaches_child(*a.children@[i], n, j);
        lemma_reaches_kids(a, c, a.children@.len() as nat);
    }
}

/// Every node reached from a subtree of built shape has that shape.
proof fn lemma_reached_shape(a: BhcNode, n: BhcNode, fs: Seq<Seq<u8>>, k: nat)
    requires
        shape_rec(a, fs, k),
        reaches(a, n),
    ensures
        shape_rec(n, fs, k),
    decreases a, a.children@.len() + 1,
{
    if a != n {
        lemma_reaches_kids(a, n, a.children@.len() as nat);
        let i = choose|i: int| 0 <= i < a.children@.len() && #[trigger] reaches(*a.children@[i], n);
        lemma_kids_shape(a, fs, k, a.children@.len() as nat, i);
        lemma_reached_shape(*a.children@[i], n, fs, k);
    }
}
/// The medoid of a non-empty bucket lies in that bucket.
proof fn lemma_medoid_in_bucket(
    fs: Seq<Seq<u8>>,
    indices: Seq<usize>,
    assignment: Seq<usize>,
    centers: Seq<usize>,
    p: usize,
)
    requires
        assignment.len() == indices.len(),
        0 < centers.len() <= usize::MAX,
        p < centers.len(),
        forall|q: int| 0 <= q < centers.len() ==> #[trigger] centers[q] < indices.len(),
        forall|s: int| 0 <= s < indices.len() ==> #[trigger] indices[s] < fs.len(),
        forall|i: int| 0 <= i < fs.len() ==> (#[trigger] fs[i]).len() == 96,
        assignment == assignment_of(sub_descs(fs, indices), centers),
        bucket(indices, assignment, p, indices.len()).len() > 0,
    ensures
        bucket(indices, assignment, p, indices.len()).contains(indices[centers[p as int] as int]),
{
    let m = indices.len();
    let b = bucket(indices, assignment, p, m);
    lemma_bucket_members(indices, assignment, p, m);
    assert(b.contains(b[0]));
    let f0 = choose|t: int| 0 <= t < m && assignment[t] == p && indices[t] == b[0];
    let sd = sub_descs(fs, indices);
    assert forall|i: int| 0 <= i < sd.len() implies (#[trigger] sd[i]).len() == 96 by {
        assert(sd[i] == fs[indices[i] as int]);
    }
    lemma_nearest(sd, f0, centers, centers.len());
    assert(assignment[f0] == nearest(sd, f0, centers, centers.len()) as usize);
    assert(nearest(sd, f0, centers, centers.len()) == p);
    lemma_medoid_own_cluster(sd, centers, centers.len(), f0);
    let s0 = centers[p as int] as int;
    lemma_nearest(sd, s0, centers, centers.len());
    assert(assignment[s0] == nearest(sd, s0, centers, centers.len()) as usize);
    assert(assignment[centers[p as int] as int] == p);
}

/// An internal node whose children have the built shape, with centers
/// stored below them, has the built shape.
proof fn lemma_internal_shape(nn: BhcNode, fs: Seq<Seq<u8>>, k: nat, xs: Seq<usize>)
    requires
        !nn.is_leaf,
        nn.reverse_index@.len() == 0,
        2 <= nn.children@.len() <= k,
        xs.len() == nn.children@.len(),
        forall|j: int| 0 <= j < nn.children@.len() ==> shape_rec(*#[trigger] nn.children@[j], fs, k),
        forall|j: int|
            0 <= j < nn.children@.len() ==> #[trigger] xs[j] < fs.len() && node_holds(*nn.children@[j], xs[j])
                && center_opt(*nn.children@[j]) == Some(fs[xs[j] as int]),
    ensures
        shape_rec(nn, fs, k),
{
    lemma_kids_shape_all(nn, fs, k, nn.children@.len() as nat);
    assert forall|j: int| 0 <= j < nn.children@.len() implies #[trigger] centered_below(*nn.children@[j], fs) by {
        assert(xs[j] < fs.len());
        assert(node_holds(*nn.children@[j], xs[j]));
    }
    assert(node_shape_here(nn, fs, k));
}

proof fn lemma_holds_ms(node: BhcNode, x: usize)
    ensures
        node_holds(node, x) <==> node_ms(node).count(x) > 0,
    decreases node, node.children@.len() + 1,
{
    if node.is_leaf {
        broadcast use vstd::seq_lib::to_multiset_contains;

    } else {
        lemma_children_holds_ms(node, x, node.children@.len() as nat);
    }
}

proof fn lemma_children_holds_ms(node: BhcNode, x: usize, m: nat)
    requires
        m <= node.children@.len(),
    ensures
        children_hold(node, x, m) <==> children_ms(node, m).count(x) > 0,
    decreases node, m,
{
    broadcast use vstd::multiset::group_multiset_axioms;

    if m > 0 {
        lemma_children_holds_ms(node, x, (m - 1) as nat);
        lemma_holds_ms(*node.children@[m - 1], x);
    }
}

proof fn lemma_children_ms_ge(node: BhcNode, x: usize, m: nat, j1: int, j2: int)
    requires
        m <= node.children@.len(),
        0 <= j1 < m,
        j1 <= j2 < m,
    ensures
        children_ms(node, m).count(x) >= node_ms(*node.children@[j1]).count(x) + if j1 < j2 {
            node_ms(*node.children@[j2]).count(x)
        } else {
            0
        },
    decreases m,
{
    broadcast use vstd::multiset::group_multiset_axioms;

    if j2 < m - 1 {
        lemma_children_ms_ge(node, x, (m - 1) as nat, j1, j2);
    } else if j1 < m - 1 {
        lemma_children_ms_ge(node, x, (m - 1) as nat, j1, j1);
    }
}

proof fn lemma_reached_ms(r: BhcNode, n: BhcNode, x: usize, fs: Seq<Seq<u8>>, k: nat)
    requires
        reaches(r, n),
        shape_rec(r, fs, k),
    ensures
        node_ms(n).count(x) <= node_ms(r).count(x),
    decreases r, r.children@.len() + 1,
{
    if r != n {
        lemma_reaches_kids(r, n, r.children@.len() as nat);
        let i = choose|i: int| 0 <= i < r.children@.len() && #[trigger] reaches(*r.children@[i], n);
        lemma_kids_shape(r, fs, k, r.children@.len() as nat, i);
        lemma_reached_ms(*r.children@[i], n, x, fs, k);
        lemma_children_ms_ge(r, x, r.children@.len() as nat, i, i);
    }
}
/// Every node strictly below a subtree of built shape is centred on the
/// descriptor of an index stored below it.
proof fn lemma_below_centered(a: BhcNode, n: BhcNode, fs: Seq<Seq<u8>>, k: nat)
    requires
        shape_rec(a, fs, k),
        reaches_kids(a, n, a.children@.len() as nat),
    ensures
        centered_below(n, fs),
    decreases a, a.children@.len() + 1,
{
    lemma_reaches_kids(a, n, a.children@.len() as nat);
    let i = choose|i: int| 0 <= i < a.children@.len() && #[trigger] reaches(*a.children@[i], n);
    let c = *a.children@[i];
    assert(node_shape_here(a, fs, k));
    assert(centered_below(*a.children@[i], fs));
    if c != n {
        lemma_kids_shape(a, fs, k, a.children@.len() as nat, i);
        lemma_below_centered(c, n, fs, k);
    }
}

/// The set-aside entry taken back is a least one: no entry among the first
/// `t` has a smaller distance, and those at the same distance arrived no
/// earlier (the first-arrived of least distance is taken).
pub proof fn lemma_min_entry_least(b: Seq<(nat, nat, BhcNode)>, t: nat)
    requires
        0 < t <= b.len(),
    ensures
        min_entry(b, t) < t,
        forall|i: int| 0 <= i < t ==> b[min_entry(b, t) as int].0 <= #[trigger] b[i].0,
        forall|i: int| 0 <= i < t && #[trigger] b[i].0 == b[min_entry(b, t) as int].0 ==> b[min_entry(b, t) as int].1 <= b[i].1,
    decreases t,
{
    if t > 1 {
        lemma_min_entry_least(b, (t - 1) as nat);
    }
}

/// A pop takes back a least set-aside entry: when the budget allows a pop
/// and entries are set aside, the traversal continues from an entry of
/// least distance (the first-arrived of those), removed from the backlog,
/// with one more pop counted.
proof fn lemma_pop_step_least(node: BhcNode, q: Seq<u8>, budget: nat, st: (Seq<usize>, Seq<(nat, nat, BhcNode)>, nat, nat))
    requires
        st.3 < budget,
        st.1.len() > 0,
    ensures
        exists|m: int|
            0 <= m < st.1.len() && (forall|i: int| 0 <= i < st.1.len() ==> st.1[m].0 <= #[trigger] st.1[i].0) && (forall|
                i: int,
            |
                0 <= i < st.1.len() && #[trigger] st.1[i].0 == st.1[m].0 ==> st.1[m].1 <= st.1[i].1)
                && pop_step(node, q, budget, st) == visit(st.1[m].2, q, budget, (st.0, st.1.remove(m), st.2, st.3 + 1)),
{
    lemma_min_entry_least(st.1, st.1.len());
    let m = min_entry(st.1, st.1.len()) as int;
    assert(pop_step(node, q, budget, st) == visit(st.1[m].2, q, budget, (st.0, st.1.remove(m), st.2, st.3 + 1)));
}

/// Nodes that may still be taken back from the set-aside ones.
spec fn budget_left(budget: nat, popped: nat) -> nat {
    if popped <= budget {
        (budget - popped) as nat
    } else {
        0
    }
}

/// Position of the least entry, by distance then arrival number, among the
/// first `t` entries of a backlog (the first such entry on ties).
pub closed spec fn min_entry(b: Seq<(nat, nat, BhcNode)>, t: nat) -> nat
    decreases t,
{
    if t <= 1 {
        0
    } else {
        let m = min_entry(b, (t - 1) as nat);
        if b[t - 1].0 < b[m as int].0 || (b[t - 1].0 == b[m as int].0 && b[t - 1].1 < b[m as int].1) {
            (t - 1) as nat
        } else {
            m
        }
    }
}

/// Visiting `node` from the query state `st` (the indices collected so far,
/// the nodes set aside as (distance, arrival number, node), the next arrival
/// number, and how many set-aside nodes were taken back): a leaf contributes
/// its indices; an internal node with children visits them in order (see
/// `visit_children`) and then takes one set-aside node back (see
/// `pop_step`).
spec fn visit(node: BhcNode, q: Seq<u8>, budget: nat, st: (Seq<usize>, Seq<(nat, nat, BhcNode)>, nat, nat)) -> (
    Seq<usize>,
    Seq<(nat, nat, BhcNode)>,
    nat,
    nat,
)
    decreases budget_left(budget, st.3), node, node.children@.len() + 2,
{
    if node.is_leaf {
        (st.0 + node.reverse_index@, st.1, st.2, st.3)
    } else if node.children@.len() == 0 {
        st
    } else {
        let st2 = visit_children(node, q, budget, st, 0);
        if st2.3 < st.3 {
            st2
        } else {
            pop_step(node, q, budget, st2)
        }
    }
}

/// Children `i..` of `node`: one at the least distance is visited, any
/// other is set aside with its distance and the next arrival number.
spec fn visit_children(
    node: BhcNode,
    q: Seq<u8>,
    budget: nat,
    st: (Seq<usize>, Seq<(nat, nat, BhcNode)>, nat, nat),
    i: nat,
) -> (Seq<usize>, Seq<(nat, nat, BhcNode)>, nat, nat)
    decreases budget_left(budget, st.3), node, node.children@.len() - i + 1,
{
    if i >= node.children@.len() {
        st
    } else {
        let d = child_dist(node, i as int, q);
        if d == min_child_dist(node, q, node.children@.len() as nat) {
            let st2 = visit(*node.children@[i as int], q, budget, st);
            if st2.3 < st.3 {
                st2
            } else {
                visit_children(node, q, budget, st2, i + 1)
            }
        } else {
            visit_children(
                node,
                q,
                budget,
                (st.0, st.1.push((d, st.2, *node.children@[i as int])), st.2 + 1, st.3),
                i + 1,
            )
        }
    }
}

/// While fewer than `budget` nodes were taken back, the least set-aside
/// node is removed and visited.
spec fn pop_step(node: BhcNode, q: Seq<u8>, budget: nat, st: (Seq<usize>, Seq<(nat, nat, BhcNode)>, nat, nat)) -> (
    Seq<usize>,
    Seq<(nat, nat, BhcNode)>,
    nat,
    nat,
)
    decreases budget_left(budget, st.3), node, 0nat,
{
    if st.3 < budget && st.1.len() > 0 {
        let m = min_entry(st.1, st.1.len());
        visit(st.1[m as int].2, q, budget, (st.0, st.1.remove(m as int), st.2, st.3 + 1))
    } else {
        st
    }
}

/// The backlog as (distance, arrival number, node) triples.
spec fn backlog_view(b: Seq<BacklogEntry>) -> Seq<(nat, nat, BhcNode)> {
    b.map_values(|e: BacklogEntry| (e.distance as nat, e.seq as nat, *e.node))
}

/// Budget that a subtree may consume from the query's sequence counter.
spec fn weight(node: BhcNode) -> nat {
    (2 * node_size(node) - 1) as nat
}

/// Total weight of the nodes waiting in the backlog.
spec fn backlog_weight(b: Seq<BacklogEntry>) -> nat
    decreases b.len(),
{
    if b.len() == 0 {
        0
    } else {
        backlog_weight(b.drop_last()) + weight(*b.last().node)
    }
}

/// Every index stored in the subtree is below `n`.
spec fn all_below(node: BhcNode, n: nat) -> bool {
    forall|x: usize| #[trigger] node_holds(node, x) ==> x < n
}

proof fn lemma_backlog_weight_push(b: Seq<BacklogEntry>, e: BacklogEntry)
    ensures
        backlog_weight(b.push(e)) == backlog_weight(b) + weight(*e.node),
{
    assert(b.push(e).drop_last() =~= b);
}

proof fn lemma_backlog_weight_remove(b: Seq<BacklogEntry>, i: int)
    requires
        0 <= i < b.len(),
    ensures
        backlog_weight(b) == backlog_weight(b.remove(i)) + weight(*b[i].node),
    decreases b.len(),
{
    if i < b.len() - 1 {
        lemma_backlog_weight_remove(b.drop_last(), i);
        assert(b.remove(i).drop_last() =~= b.drop_last().remove(i));
        assert(b.remove(i).last() == b.last());
    } else {
        assert(b.remove(i) =~= b.drop_last());
    }
}

proof fn lemma_node_size_pos(node: BhcNode)
    ensures
        node_size(node) >= 1,
{
}

proof fn lemma_all_below_child(node: BhcNode, n: nat, j: int)
    requires
        !node.is_leaf,
        0 <= j < node.children@.len(),
        all_below(node, n),
    ensures
        all_below(*node.children@[j], n),
{
    assert forall|x: usize| #[trigger] node_holds(*node.children@[j], x) implies x < n by {
        lemma_holds_internal(node, x);
    }
}

/// The observable state of a [`BinaryHierarchicalClustering`].
pub struct BhcModel {
    pub built: bool,
    pub num_centers: nat,
    pub num_hypotheses: nat,
    pub min_features_per_leaf: nat,
    pub max_nodes_to_pop: nat,
    /// The descriptors of the last successful build.
    pub indexed: Seq<Seq<u8>>,
    /// State of the generator that seeds each k-medoids clustering.
    pub rand_seed: i32,
}

impl View for BinaryHierarchicalClustering {
    type V = BhcModel;

    closed spec fn view(&self) -> BhcModel {
        BhcModel {
            built: self.root is Some,
            num_centers: self.num_centers as nat,
            num_hypotheses: self.num_hypotheses as nat,
            min_features_per_leaf: self.min_features_per_leaf as nat,
            max_nodes_to_pop: self.max_nodes_to_pop as nat,
            indexed: self.indexed@,
            rand_seed: self.kmedoids@.rand_seed,
        }
    }
}

/// Binary hierarchical clustering tree for fast nearest-neighbour search.
pub struct BinaryHierarchicalClustering {
    root: Option<Box<BhcNode>>,
    kmedoids: KMedoids,
    num_centers: usize,
    num_hypotheses: usize,
    min_features_per_leaf: usize,
    max_nodes_to_pop: usize,
    next_node_id: usize,
    indexed: Ghost<Seq<Seq<u8>>>,
}

impl BinaryHierarchicalClustering {
    /// The parameters are positive and the k-medoids clusterer matches them.
    spec fn params_wf(&self) -> bool {
        &&& self.kmedoids.wf()
        &&& self.kmedoids@.k == self.num_centers
        &&& self.kmedoids@.num_hypotheses == self.num_hypotheses
        &&& self.min_features_per_leaf > 0
    }

    fn create_node(&mut self) -> (r: BhcNode)
        requires
            old(self).next_node_id < usize::MAX,
        ensures
            final(self).next_node_id == old(self).next_node_id + 1,
            r.id == old(self).next_node_id,
            r.center is None,
            r.children@.len() == 0,
            r.reverse_index@.len() == 0,
            r.is_leaf,
            final(self).kmedoids == old(self).kmedoids,
            final(self).num_centers == old(self).num_centers,
            final(self).num_hypotheses == old(self).num_hypotheses,
            final(self).min_features_per_leaf == old(self).min_features_per_leaf,
            final(self).max_nodes_to_pop == old(self).max_nodes_to_pop,
            final(self).root == old(self).root,
            final(self).indexed == old(self).indexed,
    {
        let id = self.next_node_id;
        self.next_node_id = self.next_node_id + 1;
        let mut node = BhcNode::new(0);
        node.id = id;
        node
    }

    #[verifier::rlimit(100)]
    #[verifier::spinoff_prover]
    fn build_recursive(&mut self, node: &mut BhcNode, features: &[&[u8; 96]], indices: &[usize]) -> (r:
        Result<(), KpmError>)
        requires
            old(self).params_wf(),
            indices@.len() > 0,
            indices@.len() * 768 < u64::MAX,
            forall|t: int| 0 <= t < indices@.len() ==> #[trigger] indices@[t] < features@.len(),
            old(self).next_node_id + 2 * indices@.len() <= usize::MAX,
            old(node).children@.len() == 0,
            old(node).reverse_index@.len() == 0,
            increasing(indices@),
        ensures
            r is Ok,
            final(self).params_wf(),
            final(self).num_centers == old(self).num_centers,
            final(self).num_hypotheses == old(self).num_hypotheses,
            final(self).min_features_per_leaf == old(self).min_features_per_leaf,
            final(self).max_nodes_to_pop == old(self).max_nodes_to_pop,
            final(self).root == old(self).root,
            final(self).indexed == old(self).indexed,
            final(self).next_node_id + 1 == old(self).next_node_id + node_size(*final(node)),
            node_size(*final(node)) + 1 <= 2 * indices@.len(),
            node_wf(*final(node), descs(features@)),
            forall|x: usize| #[trigger] node_holds(*final(node), x) <==> indices@.contains(x),
            final(node).center == old(node).center,
            node_ms(*final(node)) == indices@.to_multiset(),
            shape_rec(*final(node), descs(features@), old(self).num_centers as nat),
            final(node).id == old(node).id,
            built_node(
                *final(node),
                descs(features@),
                indices@,
                old(self).num_centers as nat,
                leaf_limit(old(self).min_features_per_leaf as nat, old(self).num_centers as nat),
                old(self).num_hypotheses as nat,
                old(self).kmedoids@.rand_seed,
            ),
            final(self).kmedoids@.rand_seed == build_seed(
                descs(features@),
                indices@,
                old(self).num_centers as nat,
                leaf_limit(old(self).min_features_per_leaf as nat, old(self).num_centers as nat),
                old(self).num_hypotheses as nat,
                old(self).kmedoids@.rand_seed,
            ),
        decreases indices@.len(),
    {
        let ghost fs = descs(features@);
        proof {
            lemma_descs_len(features@);
        }
        let m = indices.len();
        let limit = if self.min_features_per_leaf > self.num_centers {
            self.min_features_per_leaf
        } else {
            self.num_centers
        };
        let ghost lim = leaf_limit(self.min_features_per_leaf as nat, self.num_centers as nat);
        let ghost hyps = self.num_hypotheses as nat;
        let ghost seed0 = self.kmedoids@.rand_seed;
        assert(limit == lim);
        if m <= limit {
            node.is_leaf = true;
            node.reverse_index = vstd::slice::slice_to_vec(indices);
            proof {
                assert(node_size(*node) == 1 + children_size(*node, 0));
                lemma_built_leaf(*node, fs, indices@, self.num_centers as nat, lim, hyps, seed0);
                assert(node_shape_here(*node, fs, self.num_centers as nat));
            }
            return Ok(());
        }
        let mut subset: Vec<&[u8; 96]> = Vec::new();
        let mut t: usize = 0;
        while t < m
            invariant
                t <= m,
                m == indices@.len(),
                forall|s: int| 0 <= s < indices@.len() ==> #[trigger] indices@[s] < features@.len(),
                subset@.len() == t,
                forall|s: int| 0 <= s < t ==> #[trigger] subset@[s] == features@[indices@[s] as int],
            decreases m - t,
        {
            subset.push(features[indices[t]]);
            t = t + 1;
        }
        let ghost sub = descs(subset@);
        assert forall|s: int| 0 <= s < m implies #[trigger] sub[s] == fs[indices@[s] as int] by {
            assert(subset@[s] == features@[indices@[s] as int]);
        }
        let ghost km0 = self.kmedoids@;
        match self.kmedoids.assign(subset.as_slice()) {
            Ok(()) => {},
            Err(e) => {
                return Err(e);
            },
        }
        let k = self.num_centers;
        let assignment = vstd::slice::slice_to_vec(self.kmedoids.assignment());
        let centers = vstd::slice::slice_to_vec(self.kmedoids.centers());
        let ghost kk = k as nat;
        let ghost res = assign_result(clusterer(kk, hyps, seed0), sub_descs(fs, indices@));
        proof {
            assert(sub =~= sub_descs(fs, indices@));
            assert(assignment@ == res.assignment);
            assert(centers@ == res.centers);
            assert(self.kmedoids@.rand_seed == res.rand_seed);
            lemma_descs_len(subset@);
            lemma_hyp_state_perm(m as nat, k as nat, km0.rand_seed, best_hyp(sub, k as nat, km0.rand_seed, km0.num_hypotheses) + 1);
            assert(centers@.len() == k);
            assert forall|q: int| 0 <= q < k implies #[trigger] centers@[q] < m by {
                assert(centers@[q] == hyp_state(m as nat, k as nat, km0.rand_seed, best_hyp(sub, k as nat, km0.rand_seed, km0.num_hypotheses) + 1).0[q]);
            }
            assert forall|s: int| 0 <= s < m implies #[trigger] assignment@[s] < k by {
                lemma_nearest(sub, s, centers@, k as nat);
            }
        }
        // Group the indices by cluster position, in increasing position order.
        let mut clusters: Vec<Vec<usize>> = Vec::new();
        let mut nonempty: usize = 0;
        let ghost mut ne: Seq<usize> = Seq::empty();
        let mut p: usize = 0;
        while p < k
            invariant
                p <= k,
                k == centers@.len(),
                m == indices@.len(),
                assignment@.len() == m,
                clusters@.len() == p,
                forall|q: int| 0 <= q < p ==> #[trigger] clusters@[q]@ == bucket(indices@, assignment@, q as usize, m as nat),
                nonempty == ne.len(),
                ne == nonempty_positions(indices@, assignment@, p as nat),
                nonempty <= p,
                forall|q: int| 0 <= q < ne.len() ==> #[trigger] ne[q] < p,
                forall|q1: int, q2: int| 0 <= q1 < q2 < ne.len() ==> ne[q1] < ne[q2],
                forall|q: usize| q < p ==> (bucket(indices@, assignment@, q, m as nat).len() > 0 <==> #[trigger] ne.contains(q)),
            decreases k - p,
        {
            let mut b: Vec<usize> = Vec::new();
            let mut s: usize = 0;
            while s < m
                invariant
                    s <= m,
                    m == indices@.len(),
                    assignment@.len() == m,
                    b@ == bucket(indices@, assignment@, p, s as nat),
                decreases m - s,
            {
                if assignment[s] == p {
                    b.push(indices[s]);
                }
                s = s + 1;
                assert(b@ =~= bucket(indices@, assignment@, p, s as nat));
            }
            let ghost old_ne = ne;
            if b.len() > 0 {
                nonempty = nonempty + 1;
                proof {
                    ne = ne.push(p);
                }
            }
            proof {
                assert forall|q: usize| q < p + 1 implies (bucket(indices@, assignment@, q, m as nat).len() > 0 <==> #[trigger] ne.contains(q)) by {
                    if q < p {
                        if old_ne.contains(q) {
                            let w = choose|w: int| 0 <= w < old_ne.len() && old_ne[w] == q;
                            assert(ne[w] == q);
                        }
                        if ne.contains(q) {
                            let w = choose|w: int| 0 <= w < ne.len() && ne[w] == q;
                            assert(w < old_ne.len());
                            assert(old_ne[w] == q);
                        }
                    } else {
                        if b@.len() > 0 {
                            assert(ne[ne.len() - 1] == q);
                        } else {
                            if ne.contains(q) {
                                let w = choose|w: int| 0 <= w < ne.len() && ne[w] == q;
                                assert(old_ne[w] < p);
                            }
                        }
                    }
                }
            }
            clusters.push(b);
            p = p + 1;
        }
        if nonempty == 1 {
            node.is_leaf = true;
            node.reverse_index = vstd::slice::slice_to_vec(indices);
            proof {
                assert(node_size(*node) == 1 + children_size(*node, 0));
                lemma_built_leaf(*node, fs, indices@, kk, lim, hyps, seed0);
                assert(node_shape_here(*node, fs, kk));
            }
            return Ok(());
        }
        proof {
            lemma_buckets_total(indices@, assignment@, k as nat, m as nat);
            assert forall|q: usize| q < k && bucket(indices@, assignment@, q, m as nat).len() > 0
                implies #[trigger] bucket(indices@, assignment@, q, m as nat).len() < m by {
                assert(ne.contains(q));
                let other = if ne[0] == q { ne[1] } else { ne[0] };
                assert(ne.contains(other));
                lemma_buckets_total_ge(indices@, assignment@, k as nat, m as nat, q, other);
            }
        }
        node.is_leaf = false;
        proof {
            lemma_children_seed_zero(fs, indices@, kk, lim, hyps, res, ne);
        }
        let mut cs: Vec<Box<BhcNode>> = Vec::new();
        let ghost mut cb: Seq<Seq<usize>> = Seq::empty();
        let ghost mut cp: Seq<usize> = Seq::empty();
        let ghost start_id = self.next_node_id;
        let mut p: usize = 0;
        while p < k
            invariant
                p <= k,
                k == centers@.len(),
                k == self.num_centers,
                m == indices@.len(),
                m * 768 < u64::MAX,
                fs == descs(features@),
                fs.len() == features@.len(),
                forall|s: int| 0 <= s < m ==> #[trigger] sub[s] == fs[indices@[s] as int],
                forall|s: int| 0 <= s < indices@.len() ==> #[trigger] indices@[s] < features@.len(),
                forall|q: int| 0 <= q < k ==> #[trigger] centers@[q] < m,
                assignment@.len() == m,
                clusters@.len() == k,
                forall|q: int| 0 <= q < k ==> #[trigger] clusters@[q]@ == bucket(indices@, assignment@, q as usize, m as nat),
                forall|q: usize| q < k && bucket(indices@, assignment@, q, m as nat).len() > 0
                    ==> #[trigger] bucket(indices@, assignment@, q, m as nat).len() < m,
                buckets_total(indices@, assignment@, k as nat, m as nat) == m,
                self.params_wf(),
                self.num_centers == old(self).num_centers,
                self.num_hypotheses == old(self).num_hypotheses,
                self.min_features_per_leaf == old(self).min_features_per_leaf,
                self.max_nodes_to_pop == old(self).max_nodes_to_pop,
                self.root == old(self).root,
                self.indexed == old(self).indexed,
                start_id == old(self).next_node_id,
                start_id + 2 * m <= usize::MAX,
                cs@.len() == cb.len(),
                cs@.len() == cp.len(),
                forall|j: int| 0 <= j < cp.len() ==> #[trigger] cp[j] < p,
                forall|j: int| 0 <= j < cp.len() ==> #[trigger] cb[j] == bucket(indices@, assignment@, cp[j], m as nat),
                forall|j: int| 0 <= j < cs@.len() ==> node_wf(*#[trigger] cs@[j], fs),
                forall|j: int| 0 <= j < cs@.len() ==> (*#[trigger] cs@[j]).center is Some,
                forall|j: int| 0 <= j < cs@.len() ==> center_of(*#[trigger] cs@[j]) == sub[centers@[cp[j] as int] as int],
                forall|j: int, x: usize| 0 <= j < cs@.len() ==> (#[trigger] node_holds(*cs@[j], x) <==> cb[j].contains(x)),
                forall|j: int| 0 <= j < cs@.len() ==> node_size(*#[trigger] cs@[j]) + 1 <= 2 * cb[j].len(),
                lens_total(cb, cs@.len() as nat) == buckets_total(indices@, assignment@, p as nat, m as nat),
                self.next_node_id == start_id + seq_size_total(cs@, cs@.len() as nat),
                m > lim,
                kk == k,
                lim == leaf_limit(self.min_features_per_leaf as nat, self.num_centers as nat),
                hyps == self.num_hypotheses,
                assignment@ == res.assignment,
                centers@ == res.centers,
                ne == nonempty_positions(indices@, assignment@, k as nat),
                cp == nonempty_positions(indices@, assignment@, p as nat),
                self.kmedoids@.rand_seed == children_seed(fs, indices@, kk, lim, hyps, res, ne, cs@.len() as nat),
                forall|j: int|
                    0 <= j < cs@.len() ==> built_node(
                        *#[trigger] cs@[j],
                        fs,
                        cb[j],
                        kk,
                        lim,
                        hyps,
                        children_seed(fs, indices@, kk, lim, hyps, res, ne, j as nat),
                    ),
                seq_size_total(cs@, cs@.len() as nat) + cs@.len() <= 2 * lens_total(cb, cs@.len() as nat),
                seq_ms(cs@, cs@.len() as nat) == buckets_ms(indices@, assignment@, p as nat, m as nat),
                increasing(indices@),
                forall|j: int| 0 <= j < cs@.len() ==> shape_rec(*#[trigger] cs@[j], fs, kk),
                forall|j: int| 0 <= j < cs@.len() ==> node_holds(*#[trigger] cs@[j], indices@[centers@[cp[j] as int] as int]),
                forall|j: int| 0 <= j < cs@.len() ==> center_opt(*#[trigger] cs@[j]) == Some(fs[indices@[centers@[cp[j] as int] as int] as int]),
                res == assign_result(clusterer(kk, hyps, seed0), sub_descs(fs, indices@)),
                forall|q: usize| q < p && bucket(indices@, assignment@, q, m as nat).len() > 0 ==> exists|j: int|
                    0 <= j < cp.len() && #[trigger] cp[j] == q,
            decreases k - p,
        {
            proof {
                lemma_buckets_total_mono(indices@, assignment@, (p + 1) as nat, k as nat, m as nat);
            }
            proof {
                lemma_nonempty_positions(indices@, assignment@, k as nat, (p + 1) as nat);
                lemma_nonempty_positions(indices@, assignment@, (p + 1) as nat, p as nat);
            }
            let ghost seed_before = self.kmedoids@.rand_seed;
            if clusters[p].len() > 0 {
                proof {
                    assert(nonempty_positions(indices@, assignment@, (p + 1) as nat) == cp.push(p));
                    assert(ne[cp.len() as int] == p) by {
                        assert(ne.subrange(0, cp.len() as int + 1)[cp.len() as int] == p);
                    }
                }
                let center_feat_idx = indices[centers[p]];
                let mut child = self.create_node();
                child.center = Some(Box::new(*features[center_feat_idx]));
                child.is_leaf = false;
                proof {
                    lemma_bucket_members(indices@, assignment@, p, m as nat);
                    assert forall|t: int| 0 <= t < clusters@[p as int]@.len() implies #[trigger] clusters@[p as int]@[t] < features@.len() by {
                        assert(clusters@[p as int]@.contains(clusters@[p as int]@[t]));
                    }
                    lemma_bucket_increasing(indices@, assignment@, p, m as nat);
                    lemma_descs_len(features@);
                    lemma_medoid_in_bucket(fs, indices@, assignment@, centers@, p);
                }
                match self.build_recursive(&mut child, features, clusters[p].as_slice()) {
                    Ok(()) => {},
                    Err(e) => {
                        return Err(e);
                    },
                }
                proof {
                    lemma_children_seed_step(fs, indices@, kk, lim, hyps, res, ne, cs@.len() as nat);
                    assert(node_holds(child, indices@[centers@[p as int] as int]));
                    assert(center_opt(child) == Some(fs[indices@[centers@[p as int] as int] as int]));
                    assert(center_of(child) == features@[center_feat_idx as int]@);
                    assert(fs[center_feat_idx as int] == features@[center_feat_idx as int]@);
                }
                let ghost old_cs = cs@;
                let ghost old_cb = cb;
                let ghost old_cp = cp;
                cs.push(Box::new(child));
                proof {
                    cb = cb.push(clusters@[p as int]@);
                    cp = cp.push(p);
                    assert(seq_size_total(cs@, (cs@.len() - 1) as nat) == seq_size_total(old_cs, old_cs.len())) by {
                        lemma_seq_size_total_prefix(old_cs, cs@, old_cs.len());
                    }
                    assert(lens_total(cb, (cb.len() - 1) as nat) == lens_total(old_cb, old_cb.len())) by {
                        lemma_lens_total_prefix(old_cb, cb, old_cb.len());
                    }
                    assert(seq_ms(cs@, (cs@.len() - 1) as nat) == seq_ms(old_cs, old_cs.len())) by {
                        lemma_seq_ms_prefix(old_cs, cs@, old_cs.len());
                    }
                    assert(seq_ms(cs@, cs@.len() as nat) == buckets_ms(indices@, assignment@, (p + 1) as nat, m as nat)) by {
                        assert(*cs@[cs@.len() - 1] == child);
                    }
                    assert forall|j: int| 0 <= j < cs@.len() implies node_holds(*#[trigger] cs@[j], indices@[centers@[cp[j] as int] as int]) by {
                        if j < old_cs.len() {
                            assert(cs@[j] == old_cs[j] && cp[j] == old_cp[j]);
                        }
                    }
                    assert forall|j: int| 0 <= j < cs@.len() implies shape_rec(*#[trigger] cs@[j], fs, kk) by {
                        if j < old_cs.len() {
                            assert(cs@[j] == old_cs[j]);
                        }
                    }
                    assert forall|j: int| 0 <= j < cs@.len() implies center_opt(*#[trigger] cs@[j]) == Some(fs[indices@[centers@[cp[j] as int] as int] as int]) by {
                        if j < old_cs.len() {
                            assert(cs@[j] == old_cs[j] && cp[j] == old_cp[j]);
                        }
                    }
                    assert forall|q: usize| q < p + 1 && bucket(indices@, assignment@, q, m as nat).len() > 0 implies exists|j: int|
                        0 <= j < cp.len() && #[trigger] cp[j] == q by {
                        if q < p {
                            let j = choose|j: int| 0 <= j < old_cp.len() && #[trigger] old_cp[j] == q;
                            assert(cp[j] == q);
                        } else {
                            assert(cp[cp.len() - 1] == q);
                        }
                    }
                }
            } else {
                proof {
                    assert forall|q: usize| q < p + 1 && bucket(indices@, assignment@, q, m as nat).len() > 0 implies exists|j: int|
                        0 <= j < cp.len() && #[trigger] cp[j] == q by {
                        if q == p {
                            assert(clusters@[p as int]@ == bucket(indices@, assignment@, p, m as nat));
                        }
                    }
                    lemma_empty_ms(bucket(indices@, assignment@, p, m as nat));
                    assert(buckets_ms(indices@, assignment@, (p + 1) as nat, m as nat) =~= buckets_ms(indices@, assignment@, p as nat, m as nat)) by {
                        broadcast use vstd::multiset::group_multiset_axioms;
                    }
                }
            }
            p = p + 1;
        }
        node.children = cs;
        proof {
            let nn = *node;
            let len = cs@.len();
            assert(nn.children@ == cs@);
            lemma_children_size_total(nn, len as nat);
            lemma_children_wf_all(nn, fs, len as nat);
            lemma_holds_internal(nn, 0);
            assert forall|x: usize| #[trigger] node_holds(nn, x) <==> indices@.contains(x) by {
                lemma_holds_internal(nn, x);
                if node_holds(nn, x) {
                    let j = choose|j: int| 0 <= j < len && #[trigger] node_holds(*nn.children@[j], x);
                    assert(node_holds(*cs@[j], x));
                    assert(cb[j].contains(x));
                    lemma_bucket_members(indices@, assignment@, cp[j], m as nat);
                    let t = choose|t: int| 0 <= t < m && assignment@[t] == cp[j] && indices@[t] == x;
                    assert(indices@[t] == x);
                }
                if indices@.contains(x) {
                    let t = choose|t: int| 0 <= t < m && indices@[t] == x;
                    let q = assignment@[t];
                    lemma_bucket_members(indices@, assignment@, q, m as nat);
                    assert(bucket(indices@, assignment@, q, m as nat).contains(x));
                    assert(bucket(indices@, assignment@, q, m as nat).len() > 0);
                    let j = choose|j: int| 0 <= j < cp.len() && #[trigger] cp[j] == q;
                    assert(node_holds(*cs@[j], x));
                    assert(node_holds(*nn.children@[j], x));
                }
            }
            assert(nearest_children(nn, fs)) by {
                assert forall|j: int, kk: int, x: usize|
                    0 <= j < len && 0 <= kk < len && #[trigger] node_holds(*nn.children@[j], x)
                    implies x < fs.len() && hamming(fs[x as int], center_of(*nn.children@[j])) <= hamming(
                        fs[x as int],
                        #[trigger] center_of(*nn.children@[kk]),
                    ) by {
                    assert(node_holds(*cs@[j], x));
                    assert(cb[j].contains(x));
                    lemma_bucket_members(indices@, assignment@, cp[j], m as nat);
                    let t = choose|t: int| 0 <= t < m && assignment@[t] == cp[j] && indices@[t] == x;
                    assert(sub[t] == fs[x as int]);
                    lemma_nearest(sub, t, centers@, k as nat);
                    assert(assignment@[t] == nearest(sub, t, centers@, k as nat));
                    assert(center_of(*cs@[kk]) == sub[centers@[cp[kk] as int] as int]);
                    assert(cp[kk] < k);
                }
            }
            lemma_size_bound(cs@, cb, len as nat);
            assert(shape_rec(nn, fs, kk)) by {
                lemma_nonempty_positions(indices@, assignment@, k as nat, k as nat);
                let xs = Seq::new(len as nat, |j: int| indices@[centers@[cp[j] as int] as int]);
                assert forall|j: int| 0 <= j < nn.children@.len() implies #[trigger] xs[j] < fs.len() && node_holds(
                    *nn.children@[j], xs[j]) && center_opt(*nn.children@[j]) == Some(fs[xs[j] as int]) by {
                    assert(nn.children@[j] == cs@[j]);
                }
                assert forall|j: int| 0 <= j < nn.children@.len() implies shape_rec(*#[trigger] nn.children@[j], fs, kk) by {
                    assert(nn.children@[j] == cs@[j]);
                }
                lemma_internal_shape(nn, fs, kk, xs);
            }
            assert(node_ms(nn) == indices@.to_multiset()) by {
                lemma_children_ms_total(nn, len as nat);
                lemma_buckets_ms_total(indices@, assignment@, k as nat, m as nat);
                assert(indices@.take(m as int) =~= indices@);
            }
            assert(cp == ne);
            assert(built_children(nn, fs, indices@, kk, lim, hyps, res, ne, len as nat)) by {
                assert forall|t: int| 0 <= t < len implies center_of(*#[trigger] nn.children@[t])
                    == fs[indices@[res.centers[ne[t] as int] as int] as int] by {
                    assert(nn.children@[t] == cs@[t]);
                    assert(sub[centers@[cp[t] as int] as int] == fs[indices@[centers@[cp[t] as int] as int] as int]);
                }
                lemma_built_children(nn, fs, indices@, kk, lim, hyps, res, ne, len as nat);
            }
            lemma_built_internal(nn, fs, indices@, kk, lim, hyps, seed0);
            assert(len >= 2) by {
                if ne.len() == 0 {
                    assert forall|q: usize| q < k implies #[trigger] bucket(indices@, assignment@, q, m as nat).len() == 0 by {
                        if bucket(indices@, assignment@, q, m as nat).len() > 0 {
                            assert(ne.contains(q));
                        }
                    }
                    lemma_buckets_total_empty(indices@, assignment@, k as nat, m as nat);
                }
                assert(ne.len() >= 2);
                assert(ne.contains(ne[0]) && ne.contains(ne[1]));
                assert(bucket(indices@, assignment@, ne[0], m as nat).len() > 0);
                assert(bucket(indices@, assignment@, ne[1], m as nat).len() > 0);
                let j0 = choose|j: int| 0 <= j < cp.len() && #[trigger] cp[j] == ne[0];
                let j1 = choose|j: int| 0 <= j < cp.len() && #[trigger] cp[j] == ne[1];
                assert(j0 != j1);
            }
        }
        Ok(())
    }

    /// The tree invariant relative to the indexed descriptors.
    spec fn tree_ok(&self) -> bool {
        match self.root {
            Some(r) => {
                &&& node_wf(*r, self.indexed@)
                &&& forall|x: usize| #[trigger] node_holds(*r, x) <==> x < self.indexed@.len()
                &&& node_size(*r) <= 2 * self.indexed@.len()
                &&& forall|x: usize| #[trigger] node_ms(*r).count(x) <= 1
                &&& self.indexed@.len() * 768 < u64::MAX
                &&& forall|t: int| 0 <= t < self.indexed@.len() ==> (#[trigger] self.indexed@[t]).len() == 96
            },
            None => true,
        }
    }

    /// Parameters are consistent and a built tree satisfies its invariant.
    pub closed spec fn wf(&self) -> bool {
        self.params_wf() && self.tree_ok()
    }

    /// Creates an empty tree with 8 centers per split, 1 k-medoids
    /// hypothesis, at least 16 features per leaf and no extra node pops.
    pub fn new() -> (r: Result<Self, KpmError>)
        ensures
            r matches Ok(b) && b.wf() && b@ == (BhcModel {
                built: false,
                num_centers: 8,
                num_hypotheses: 1,
                min_features_per_leaf: 16,
                max_nodes_to_pop: 0,
                indexed: Seq::empty(),
                rand_seed: 1234,
            }),
    {
        let mut kmedoids = match KMedoids::new(8, 1) {
            Ok(km) => km,
            Err(e) => {
                return Err(e);
            },
        };
        kmedoids.set_rand_seed(1234);
        Ok(BinaryHierarchicalClustering {
            root: None,
            kmedoids,
            num_centers: 8,
            num_hypotheses: 1,
            min_features_per_leaf: 16,
            max_nodes_to_pop: 0,
            next_node_id: 0,
            indexed: Ghost(Seq::empty()),
        })
    }

    /// Sets the number of centers per split; the k-medoids clusterer is
    /// rebuilt with seed 1234.
    pub fn set_num_centers(&mut self, k: usize) -> (r: Result<(), KpmError>)
        requires
            old(self).wf(),
        ensures
            final(self).wf(),
            k == 0 ==> (r matches Err(KpmError::InvalidInput(_)) && final(self)@ == old(self)@),
            k > 0 ==> (r is Ok && final(self)@ == (BhcModel { num_centers: k as nat, rand_seed: 1234, ..old(self)@ })),
            forall|q: Seq<u8>| #[trigger] final(self).tied_candidates(q) == old(self).tied_candidates(q),
            forall|q: Seq<u8>, b: nat| #[trigger] final(self).candidates_with(q, b) == old(self).candidates_with(q, b),
            final(self).stored_indices() == old(self).stored_indices(),
            forall|fs: Seq<Seq<u8>>, k: nat| #[trigger] final(self).tree_shaped(fs, k) == old(self).tree_shaped(fs, k),
            forall|q: Seq<u8>| #[trigger] final(self).candidates(q) == old(self).candidates(q),
    {
        if k == 0 {
            return Err(KpmError::InvalidInput("k must be > 0".to_owned()));
        }
        self.num_centers = k;
        let mut kmedoids = match KMedoids::new(k, self.num_hypotheses) {
            Ok(km) => km,
            Err(e) => {
                return Err(e);
            },
        };
        kmedoids.set_rand_seed(1234);
        self.kmedoids = kmedoids;
        Ok(())
    }

    /// Sets the least number of features that a leaf may hold before it is
    /// split.
    pub fn set_min_features_per_leaf(&mut self, min_features: usize) -> (r: Result<(), KpmError>)
        requires
            old(self).wf(),
        ensures
            final(self).wf(),
            min_features == 0 ==> (r matches Err(KpmError::InvalidInput(_)) && final(self)@ == old(self)@),
            min_features > 0 ==> (r is Ok && final(self)@ == (BhcModel {
                min_features_per_leaf: min_features as nat,
                ..old(self)@
            })),
            forall|q: Seq<u8>| #[trigger] final(self).tied_candidates(q) == old(self).tied_candidates(q),
            forall|q: Seq<u8>, b: nat| #[trigger] final(self).candidates_with(q, b) == old(self).candidates_with(q, b),
            final(self).stored_indices() == old(self).stored_indices(),
            forall|fs: Seq<Seq<u8>>, k: nat| #[trigger] final(self).tree_shaped(fs, k) == old(self).tree_shaped(fs, k),
            forall|q: Seq<u8>| #[trigger] final(self).candidates(q) == old(self).candidates(q),
    {
        if min_features == 0 {
            return Err(KpmError::InvalidInput("min_features must be > 0".to_owned()));
        }
        self.min_features_per_leaf = min_features;
        Ok(())
    }

    /// Sets the number of k-medoids hypotheses per split; the clusterer is
    /// rebuilt with seed 1234.
    pub fn set_num_hypotheses(&mut self, n: usize) -> (r: Result<(), KpmError>)
        requires
            old(self).wf(),
        ensures
            final(self).wf(),
            n == 0 ==> (r matches Err(KpmError::InvalidInput(_)) && final(self)@ == old(self)@),
            n > 0 ==> (r is Ok && final(self)@ == (BhcModel { num_hypotheses: n as nat, rand_seed: 1234, ..old(self)@ })),
            forall|q: Seq<u8>| #[trigger] final(self).tied_candidates(q) == old(self).tied_candidates(q),
            forall|q: Seq<u8>, b: nat| #[trigger] final(self).candidates_with(q, b) == old(self).candidates_with(q, b),
            final(self).stored_indices() == old(self).stored_indices(),
            forall|fs: Seq<Seq<u8>>, k: nat| #[trigger] final(self).tree_shaped(fs, k) == old(self).tree_shaped(fs, k),
            forall|q: Seq<u8>| #[trigger] final(self).candidates(q) == old(self).candidates(q),
    {
        if n == 0 {
            return Err(KpmError::InvalidInput("n must be > 0".to_owned()));
        }
        self.num_hypotheses = n;
        let mut kmedoids = match KMedoids::new(self.num_centers, n) {
            Ok(km) => km,
            Err(e) => {
                return Err(e);
            },
        };
        kmedoids.set_rand_seed(1234);
        self.kmedoids = kmedoids;
        Ok(())
    }

    /// Sets how many non-tied nodes a query may pop from its backlog.
    pub fn set_max_nodes_to_pop(&mut self, n: usize)
        requires
            old(self).wf(),
        ensures
            final(self).wf(),
            final(self)@ == (BhcModel { max_nodes_to_pop: n as nat, ..old(self)@ }),
            forall|q: Seq<u8>| #[trigger] final(self).tied_candidates(q) == old(self).tied_candidates(q),
            forall|q: Seq<u8>, b: nat| #[trigger] final(self).candidates_with(q, b) == old(self).candidates_with(q, b),
            final(self).stored_indices() == old(self).stored_indices(),
            forall|fs: Seq<Seq<u8>>, k: nat| #[trigger] final(self).tree_shaped(fs, k) == old(self).tree_shaped(fs, k),
    {
        self.max_nodes_to_pop = n;
    }

    /// Builds the tree over `features`; leaves store indices into it.
    pub fn build(&mut self, features: &[&[u8; 96]]) -> (r: Result<(), KpmError>)
        requires
            old(self).wf(),
            features@.len() * 768 < u64::MAX,
            2 * features@.len() < usize::MAX,
        ensures
            final(self).wf(),
            features@.len() == 0 ==> (r matches Err(KpmError::InvalidInput(_)) && final(self)@ == old(self)@
                && final(self).stored_indices() == old(self).stored_indices()
                && forall|q: Seq<u8>, b: nat| #[trigger] final(self).candidates_with(q, b) == old(self).candidates_with(q, b)),
            features@.len() > 0 ==> (r is Ok && final(self)@ == (BhcModel {
                built: true,
                indexed: descs(features@),
                rand_seed: seed_after_build(
                    descs(features@),
                    old(self)@.num_centers,
                    old(self)@.min_features_per_leaf,
                    old(self)@.num_hypotheses,
                    old(self)@.rand_seed,
                ),
                ..old(self)@
            }) && final(self).tree_built_over(descs(features@), old(self)@.rand_seed)
                && final(self).tree_shaped(descs(features@), old(self)@.num_centers)
                && final(self).stored_indices() == Seq::new(features@.len(), |t: int| t as usize).to_multiset()),
    {
        if features.len() == 0 {
            return Err(KpmError::InvalidInput("features cannot be empty".to_owned()));
        }
        self.next_node_id = 0;
        let n = features.len();
        let mut indices: Vec<usize> = Vec::new();
        let mut i: usize = 0;
        while i < n
            invariant
                i <= n,
                indices@.len() == i,
                forall|j: int| 0 <= j < i ==> #[trigger] indices@[j] == j as usize,
            decreases n - i,
        {
            indices.push(i);
            i = i + 1;
        }
        let mut root = self.create_node();
        root.is_leaf = false;
        proof {
            assert(increasing(indices@));
        }
        match self.build_recursive(&mut root, features, indices.as_slice()) {
            Ok(()) => {},
            Err(e) => {
                return Err(e);
            },
        }
        self.root = Some(Box::new(root));
        self.indexed = Ghost(descs(features@));
        proof {
            lemma_descs_len(features@);
            assert(indices@ =~= Seq::new(n as nat, |t: int| t as usize));
            assert(root.center is None);
            assert(indices@.no_duplicates());
            indices@.lemma_multiset_has_no_duplicates();
            assert forall|x: usize| #[trigger] node_ms(root).count(x) <= 1 by {
                broadcast use vstd::seq_lib::to_multiset_contains;
            }
            assert forall|x: usize| #[trigger] node_holds(root, x) <==> x < n by {
                if x < n {
                    assert(indices@[x as int] == x);
                }
            }
        }
        Ok(())
    }

    fn query_recursive<'tree>(
        &'tree self,
        node: &'tree BhcNode,
        query_feature: &[u8; 96],
        result: &mut Vec<usize>,
        backlog: &mut Vec<BacklogEntry<'tree>>,
        next_seq: &mut u64,
        nodes_popped: &mut usize,
    ) -> (r: Result<(), KpmError>)
        requires
            *old(nodes_popped) <= self.max_nodes_to_pop,
            all_below(*node, self.indexed@.len()),
            forall|t: int| 0 <= t < old(backlog)@.len() ==> all_below(*(#[trigger] old(backlog)@[t]).node, self.indexed@.len()),
            forall|t: int| 0 <= t < old(result)@.len() ==> #[trigger] old(result)@[t] < self.indexed@.len(),
            *old(next_seq) + backlog_weight(old(backlog)@) + weight(*node) <= u64::MAX,
        ensures
            r is Ok,
            final(result)@.len() >= old(result)@.len(),
            final(result)@.subrange(0, old(result)@.len() as int) == old(result)@,
            forall|t: int| 0 <= t < final(result)@.len() ==> #[trigger] final(result)@[t] < self.indexed@.len(),
            forall|t: int| 0 <= t < final(backlog)@.len() ==> all_below(*(#[trigger] final(backlog)@[t]).node, self.indexed@.len()),
            *final(next_seq) + backlog_weight(final(backlog)@) <= *old(next_seq) + backlog_weight(old(backlog)@) + weight(*node),
            *old(nodes_popped) <= *final(nodes_popped) <= self.max_nodes_to_pop,
            forall|x: usize| #[trigger] tied_leaves(*node, query_feature@).contains(x) ==> final(result)@.contains(x),
            *old(nodes_popped) == self.max_nodes_to_pop ==> final(result)@ == old(result)@ + tied_leaves(*node, query_feature@),
            (final(result)@, backlog_view(final(backlog)@), *final(next_seq) as nat, *final(nodes_popped) as nat) == visit(
                *node,
                query_feature@,
                self.max_nodes_to_pop as nat,
                (old(result)@, backlog_view(old(backlog)@), *old(next_seq) as nat, *old(nodes_popped) as nat),
            ),
        decreases self.max_nodes_to_pop - *old(nodes_popped), *node,
    {
        let ghost n = self.indexed@.len();
        let ghost q = query_feature@;
        proof {
            lemma_node_size_pos(*node);
        }
        if node.is_leaf {
            let mut t: usize = 0;
            let ghost r0 = result@;
            while t < node.reverse_index.len()
                invariant
                    t <= node.reverse_index@.len(),
                    node.is_leaf,
                    all_below(*node, n),
                    r0 == old(result)@,
                    result@ == r0 + node.reverse_index@.take(t as int),
                    forall|s: int| 0 <= s < r0.len() ==> #[trigger] r0[s] < n,
                decreases node.reverse_index@.len() - t,
            {
                proof {
                    assert(node.reverse_index@.contains(node.reverse_index@[t as int]));
                    assert(node_holds(*node, node.reverse_index@[t as int]));
                }
                result.push(node.reverse_index[t]);
                t = t + 1;
                assert(result@ =~= r0 + node.reverse_index@.take(t as int));
            }
            proof {
                assert(node.reverse_index@.take(t as int) =~= node.reverse_index@);
                assert(result@.subrange(0, r0.len() as int) =~= r0);
                assert forall|x: usize| #[trigger] tied_leaves(*node, q).contains(x) implies result@.contains(x) by {
                    let s = choose|s: int| 0 <= s < node.reverse_index@.len() && node.reverse_index@[s] == x;
                    assert(result@[r0.len() + s] == x);
                }
                assert forall|s: int| 0 <= s < result@.len() implies #[trigger] result@[s] < n by {
                    if s >= r0.len() {
                        let x = node.reverse_index@[s - r0.len()];
                        assert(node.reverse_index@.contains(x));
                        assert(node_holds(*node, x));
                    }
                }
            }
            return Ok(());
        }
        let len = node.children.len();
        let mut dists: Vec<u32> = Vec::new();
        let mut c: usize = 0;
        while c < len
            invariant
                c <= len,
                len == node.children@.len(),
                q == query_feature@,
                q.len() == 96,
                dists@.len() == c,
                forall|s: int| 0 <= s < c ==> #[trigger] dists@[s] == child_dist(*node, s, q),
            decreases len - c,
        {
            let d = match &node.children[c].center {
                Some(cc) => hamming_distance_96(&**cc, query_feature),
                None => u32::MAX,
            };
            dists.push(d);
            c = c + 1;
        }
        if len == 0 {
            proof {
                assert(result@.subrange(0, result@.len() as int) =~= result@);
                assert(tied_leaves(*node, q) =~= Seq::<usize>::empty());
                assert(result@ =~= result@ + tied_leaves(*node, q));
            }
            return Ok(());
        }
        let mut min_dist: u32 = u32::MAX;
        let mut c: usize = 0;
        while c < len
            invariant
                c <= len,
                len == node.children@.len(),
                q.len() == 96,
                dists@.len() == len,
                forall|s: int| 0 <= s < len ==> #[trigger] dists@[s] == child_dist(*node, s, q),
                min_dist == min_child_dist(*node, q, c as nat),
            decreases len - c,
        {
            if dists[c] < min_dist {
                min_dist = dists[c];
            }
            c = c + 1;
        }
        let ghost r0 = result@;
        let ghost b0 = backlog@;
        let ghost s0 = *next_seq;
        let ghost p0 = *nodes_popped;
        let ghost budget = self.max_nodes_to_pop as nat;
        let ghost st0 = (result@, backlog_view(backlog@), *next_seq as nat, *nodes_popped as nat);
        proof {
            lemma_children_size_total(*node, len as nat);
        }
        let mut i: usize = 0;
        while i < len
            invariant
                budget == self.max_nodes_to_pop as nat,
                st0 == (r0, backlog_view(b0), s0 as nat, p0 as nat),
                visit_children(*node, q, budget, st0, 0) == visit_children(
                    *node,
                    q,
                    budget,
                    (result@, backlog_view(backlog@), *next_seq as nat, *nodes_popped as nat),
                    i as nat,
                ),
                i <= len,
                len == node.children@.len(),
                !node.is_leaf,
                q == query_feature@,
                q.len() == 96,
                n == self.indexed@.len(),
                dists@.len() == len,
                forall|s: int| 0 <= s < len ==> #[trigger] dists@[s] == child_dist(*node, s, q),
                min_dist == min_child_dist(*node, q, len as nat),
                all_below(*node, n),
                p0 == *old(nodes_popped),
                r0 == old(result)@,
                b0 == old(backlog)@,
                s0 == *old(next_seq),
                p0 <= *nodes_popped <= self.max_nodes_to_pop,
                result@.len() >= r0.len(),
                result@.subrange(0, r0.len() as int) == r0,
                forall|t: int| 0 <= t < result@.len() ==> #[trigger] result@[t] < n,
                forall|t: int| 0 <= t < backlog@.len() ==> all_below(*(#[trigger] backlog@[t]).node, n),
                *next_seq + backlog_weight(backlog@) <= s0 + backlog_weight(b0) + 2 * seq_size_total(node.children@, i as nat),
                s0 + backlog_weight(b0) + weight(*node) <= u64::MAX,
                weight(*node) == 1 + 2 * seq_size_total(node.children@, len as nat),
                forall|x: usize| #[trigger] tied_children(*node, q, i as nat).contains(x) ==> result@.contains(x),
                p0 == self.max_nodes_to_pop ==> result@ == r0 + tied_children(*node, q, i as nat),
            decreases len - i,
        {
            proof {
                lemma_seq_size_total_mono(node.children@, (i + 1) as nat, len as nat);
                lemma_node_size_pos(*node.children@[i as int]);
                lemma_all_below_child(*node, n, i as int);
            }
            let ghost rb = result@;
            let ghost popped_before = *nodes_popped;
            let ghost cur = (result@, backlog_view(backlog@), *next_seq as nat, *nodes_popped as nat);
            if dists[i] == min_dist {
                match self.query_recursive(&*node.children[i], query_feature, result, backlog, next_seq, nodes_popped) {
                    Ok(()) => {},
                    Err(e) => {
                        return Err(e);
                    },
                }
                proof {
                    let sub = tied_leaves(*node.children@[i as int], q);
                    assert forall|x: usize| #[trigger] tied_children(*node, q, (i + 1) as nat).contains(x) implies result@.contains(x) by {
                        let tc = tied_children(*node, q, i as nat);
                        assert(tied_children(*node, q, (i + 1) as nat) == tc + sub);
                        let w = choose|w: int| 0 <= w < tc.len() + sub.len() && (tc + sub)[w] == x;
                        if w < tc.len() {
                            assert(tc[w] == x);
                            assert(tc.contains(x));
                            let z = choose|z: int| 0 <= z < rb.len() && rb[z] == x;
                            assert(result@.subrange(0, rb.len() as int)[z] == x);
                            assert(result@[z] == x);
                        } else {
                            assert(sub[w - tc.len()] == x);
                            assert(sub.contains(x));
                        }
                    }
                    assert(result@.subrange(0, r0.len() as int) =~= r0) by {
                        assert forall|z: int| 0 <= z < r0.len() implies result@[z] == r0[z] by {
                            assert(result@.subrange(0, rb.len() as int)[z] == rb[z]);
                            assert(rb.subrange(0, r0.len() as int)[z] == r0[z]);
                        }
                    }
                    if p0 == self.max_nodes_to_pop {
                        assert(result@ =~= r0 + tied_children(*node, q, (i + 1) as nat)) by {
                            assert(result@.subrange(0, rb.len() as int) =~= rb);
                        }
                    }
                }
            } else {
                let entry = BacklogEntry { distance: dists[i], seq: *next_seq, node: &*node.children[i] };
                let ghost bb = backlog@;
                backlog.push(entry);
                *next_seq = *next_seq + 1;
                proof {
                    assert(backlog_view(backlog@) =~= backlog_view(bb).push(
                        (dists[i as int] as nat, (*next_seq - 1) as nat, *node.children@[i as int]),
                    ));
                    lemma_backlog_weight_push(bb, entry);
                    assert(tied_children(*node, q, (i + 1) as nat) =~= tied_children(*node, q, i as nat));
                    assert forall|t: int| 0 <= t < backlog@.len() implies all_below(*(#[trigger] backlog@[t]).node, n) by {
                        if t < bb.len() {
                            assert(backlog@[t] == bb[t]);
                        }
                    }
                }
            }
            i = i + 1;
        }
        proof {
            assert(tied_children(*node, q, len as nat) == tied_leaves(*node, q));
        }
        if *nodes_popped < self.max_nodes_to_pop {
            if backlog.len() > 0 {
                let mut best: usize = 0;
                let mut t: usize = 1;
                while t < backlog.len()
                    invariant
                        1 <= t <= backlog@.len(),
                        best < backlog@.len(),
                        best == min_entry(backlog_view(backlog@), t as nat),
                    decreases backlog@.len() - t,
                {
                    if backlog[t].distance < backlog[best].distance || (backlog[t].distance
                        == backlog[best].distance && backlog[t].seq < backlog[best].seq) {
                        best = t;
                    }
                    t = t + 1;
                }
                let ghost bb = backlog@;
                let entry = backlog.remove(best);
                proof {
                    assert(backlog_view(backlog@) =~= backlog_view(bb).remove(best as int));
                    lemma_backlog_weight_remove(bb, best as int);
                    assert forall|t: int| 0 <= t < backlog@.len() implies all_below(*(#[trigger] backlog@[t]).node, n) by {
                        if t < best {
                            assert(backlog@[t] == bb[t]);
                        } else {
                            assert(backlog@[t] == bb[t + 1]);
                        }
                    }
                    assert(all_below(*bb[best as int].node, n));
                }
                *nodes_popped = *nodes_popped + 1;
                let ghost rb = result@;
                match self.query_recursive(entry.node, query_feature, result, backlog, next_seq, nodes_popped) {
                    Ok(()) => {},
                    Err(e) => {
                        return Err(e);
                    },
                }
                proof {
                    assert(result@.subrange(0, r0.len() as int) =~= r0) by {
                        assert forall|z: int| 0 <= z < r0.len() implies result@[z] == r0[z] by {
                            assert(result@.subrange(0, rb.len() as int)[z] == rb[z]);
                            assert(rb.subrange(0, r0.len() as int)[z] == r0[z]);
                        }
                    }
                    assert forall|x: usize| #[trigger] tied_leaves(*node, q).contains(x) implies result@.contains(x) by {
                        assert(rb.contains(x));
                        let z = choose|z: int| 0 <= z < rb.len() && rb[z] == x;
                        assert(result@.subrange(0, rb.len() as int)[z] == x);
                        assert(result@[z] == x);
                    }
                }
            }
        }
        Ok(())
    }

    /// Queries the tree for candidate neighbours of `query_feature`: the
    /// traversal descends into every child at the least distance, sets the
    /// others aside by distance, and after each internal node takes one set
    /// aside node while fewer than `max_nodes_to_pop` have been taken.
    pub fn query(&self, query_feature: &[u8; 96]) -> (r: Result<Vec<usize>, KpmError>)
        requires
            self.wf(),
        ensures
            !self@.built ==> r matches Err(KpmError::InternalError(_)),
            self@.built ==> (r matches Ok(v) && {
                &&& forall|t: int| 0 <= t < v@.len() ==> #[trigger] v@[t] < self@.indexed.len()
                &&& forall|x: usize| #[trigger] self.tied_candidates(query_feature@).contains(x) ==> v@.contains(x)
                &&& self@.max_nodes_to_pop == 0 ==> v@ == self.tied_candidates(query_feature@)
                &&& v@ == self.candidates(query_feature@)
                &&& v@.no_duplicates()
            }),
    {
        let root = match &self.root {
            Some(r) => &**r,
            None => {
                return Err(KpmError::InternalError("tree not built".to_owned()));
            },
        };
        let mut result: Vec<usize> = Vec::new();
        let mut backlog: Vec<BacklogEntry> = Vec::new();
        let mut next_seq: u64 = 0;
        let mut nodes_popped: usize = 0;
        proof {
            assert forall|x: usize| #[trigger] node_holds(*root, x) implies x < self.indexed@.len() by {}
            assert(backlog_weight(backlog@) == 0);
            assert(backlog_view(backlog@) =~= Seq::<(nat, nat, BhcNode)>::empty());
            assert(result@ =~= Seq::<usize>::empty());
        }
        match self.query_recursive(root, query_feature, &mut result, &mut backlog, &mut next_seq, &mut nodes_popped) {
            Ok(()) => {},
            Err(e) => {
                return Err(e);
            },
        }
        proof {
            assert(Seq::<usize>::empty() + self.tied_candidates(query_feature@) =~= self.tied_candidates(query_feature@));
            lemma_visit_no_duplicates(*root, query_feature@, self.max_nodes_to_pop as nat);
        }
        Ok(result)
    }

    /// The root is the tree built over all of `fs` (indices `0..fs.len()`)
    /// from generator state `seed` with the current parameters: see
    /// [`built_node`].
    pub closed spec fn tree_built_over(&self, fs: Seq<Seq<u8>>, seed: i32) -> bool {
        match self.root {
            Some(r) => built_node(
                *r,
                fs,
                Seq::new(fs.len(), |t: int| t as usize),
                self.num_centers as nat,
                leaf_limit(self.min_features_per_leaf as nat, self.num_centers as nat),
                self.num_hypotheses as nat,
                seed,
            ),
            None => false,
        }
    }

    /// The indices a query for `q` collects: the traversal from the root of
    /// [`visit`] with the pop budget `max_nodes_to_pop`, starting with nothing
    /// collected or set aside (empty when the tree is not built).
    pub open spec fn candidates(&self, q: Seq<u8>) -> Seq<usize> {
        self.candidates_with(q, self@.max_nodes_to_pop)
    }

    /// The tree is built and has the shape of a tree built over `fs` with
    /// `k` clusters per split: no center at the root, and every node as
    /// [`lemma_built_tree_shape`] describes.
    pub closed spec fn tree_shaped(&self, fs: Seq<Seq<u8>>, k: nat) -> bool {
        match self.root {
            Some(r) => r.center is None && shape_rec(*r, fs, k),
            None => false,
        }
    }

    /// `n` is a node of the tree: the root or a node below it.
    pub closed spec fn tree_node(&self, n: BhcNode) -> bool {
        match self.root {
            Some(r) => reaches(*r, n),
            None => false,
        }
    }

    /// The root of the tree (meaningful once it is built).
    pub closed spec fn root_node(&self) -> BhcNode {
        *self.root.unwrap()
    }

    /// The indices stored in the leaves of the tree, with their
    /// multiplicities (empty when the tree is not built).
    pub closed spec fn stored_indices(&self) -> Multiset<usize> {
        match self.root {
            Some(r) => node_ms(*r),
            None => Multiset::empty(),
        }
    }

    /// The indices a query for `q` collects over the current tree with pop
    /// budget `budget` (empty when the tree is not built).
    pub closed spec fn candidates_with(&self, q: Seq<u8>, budget: nat) -> Seq<usize> {
        match self.root {
            Some(r) => visit(*r, q, budget, (Seq::empty(), Seq::empty(), 0, 0)).0,
            None => Seq::empty(),
        }
    }

    /// The indices reached from the root by descending only into children at
    /// the least distance from `q` (empty when the tree is not built).
    pub closed spec fn tied_candidates(&self, q: Seq<u8>) -> Seq<usize> {
        match self.root {
            Some(r) => tied_leaves(*r, q),
            None => Seq::empty(),
        }
    }
}

/// A built tree finds every indexed descriptor: the candidates of a query
/// equal to the `i`-th indexed descriptor include `i` (and `query` returns
/// all tied candidates, whatever its pop budget).
pub proof fn lemma_query_finds_indexed(bhc: &BinaryHierarchicalClustering, i: usize)
    requires
        bhc.wf(),
        bhc@.built,
        i < bhc@.indexed.len(),
    ensures
        bhc.tied_candidates(bhc@.indexed[i as int]).contains(i),
{
    let r = bhc.root.unwrap();
    assert(node_holds(*r, i));
    lemma_self_match(*r, bhc.indexed@, i, bhc.indexed@[i as int]);
}

/// Building is deterministic: two clusterings with the same parameters
/// whose trees were built over the same descriptors from the same generator
/// state collect the same indices for every query.
pub proof fn lemma_same_build_same_candidates(
    a: &BinaryHierarchicalClustering,
    b: &BinaryHierarchicalClustering,
    fs: Seq<Seq<u8>>,
    seed: i32,
    q: Seq<u8>,
)
    requires
        a@.num_centers == b@.num_centers,
        a@.num_hypotheses == b@.num_hypotheses,
        a@.min_features_per_leaf == b@.min_features_per_leaf,
        a@.max_nodes_to_pop == b@.max_nodes_to_pop,
        a.tree_built_over(fs, seed),
        b.tree_built_over(fs, seed),
    ensures
        a.candidates(q) == b.candidates(q),
{
    let ra = *a.root.unwrap();
    let rb = *b.root.unwrap();
    let idx = Seq::new(fs.len(), |t: int| t as usize);
    let lim = leaf_limit(a.min_features_per_leaf as nat, a.num_centers as nat);
    lemma_built_same(ra, rb, fs, idx, a.num_centers as nat, lim, a.num_hypotheses as nat, seed);
    let init: (Seq<usize>, Seq<(nat, nat, BhcNode)>, nat, nat) = (Seq::empty(), Seq::empty(), 0, 0);
    lemma_same_visit(ra, rb, q, a.max_nodes_to_pop as nat, init, init);
}

/// A larger pop budget only adds candidates: over trees built alike, every
/// index that a query with pop budget `m1` collects is also collected by a
/// query with a budget `m2 >= m1`.
pub proof fn lemma_pop_budget_widens(
    a: &BinaryHierarchicalClustering,
    b: &BinaryHierarchicalClustering,
    fs: Seq<Seq<u8>>,
    seed: i32,
    q: Seq<u8>,
)
    requires
        a@.num_centers == b@.num_centers,
        a@.num_hypotheses == b@.num_hypotheses,
        a@.min_features_per_leaf == b@.min_features_per_leaf,
        a@.max_nodes_to_pop <= b@.max_nodes_to_pop,
        a.tree_built_over(fs, seed),
        b.tree_built_over(fs, seed),
    ensures
        forall|x: usize| #[trigger] a.candidates(q).contains(x) ==> b.candidates(q).contains(x),
{
    let ra = *a.root.unwrap();
    let rb = *b.root.unwrap();
    let idx = Seq::new(fs.len(), |t: int| t as usize);
    let lim = leaf_limit(a.min_features_per_leaf as nat, a.num_centers as nat);
    lemma_built_same(ra, rb, fs, idx, a.num_centers as nat, lim, a.num_hypotheses as nat, seed);
    let init: (Seq<usize>, Seq<(nat, nat, BhcNode)>, nat, nat) = (Seq::empty(), Seq::empty(), 0, 0);
    let m1 = a.max_nodes_to_pop as nat;
    lemma_same_visit(ra, rb, q, m1, init, init);
    assert(a.candidates(q) == a.candidates_with(q, m1));
    assert(a.candidates_with(q, m1) == b.candidates_with(q, m1));
    lemma_budget_widens(b, q, m1, b.max_nodes_to_pop as nat);
    assert(b.candidates(q) == b.candidates_with(q, b.max_nodes_to_pop as nat));
}

/// The traversal collects all a query returns: with pop budget `m1` no
/// more than with a budget `m2 >= m1`, over the same tree.
pub proof fn lemma_budget_widens(bhc: &BinaryHierarchicalClustering, q: Seq<u8>, m1: nat, m2: nat)
    requires
        m1 <= m2,
    ensures
        forall|x: usize| #[trigger] bhc.candidates_with(q, m1).contains(x) ==> bhc.candidates_with(q, m2).contains(x),
{
    match bhc.root {
        Some(r) => {
            lemma_budget_mono_visit(*r, q, m1, m2, (Seq::empty(), Seq::empty(), 0, 0));
        },
        None => {},
    }
}

/// A tree built over no more descriptors than the leaf size (or the number
/// of clusters) is a single leaf holding them all, so every query returns
/// all their indices in order, whatever its pop budget.
pub proof fn lemma_small_build_one_leaf(bhc: &BinaryHierarchicalClustering, fs: Seq<Seq<u8>>, seed: i32, q: Seq<u8>, b: nat)
    requires
        bhc.tree_built_over(fs, seed),
        fs.len() <= bhc@.min_features_per_leaf || fs.len() <= bhc@.num_centers,
    ensures
        bhc.candidates_with(q, b) == Seq::new(fs.len(), |t: int| t as usize),
{
    reveal(built_node);
    let r = *bhc.root.unwrap();
    assert(Seq::<usize>::empty() + r.reverse_index@ =~= r.reverse_index@);
}

/// The shape of a built tree, node by node: a node is a leaf exactly when
/// it has no children and exactly when it stores indices; a leaf's indices
/// increase strictly and index the descriptors; an internal node has from
/// two to `k` children; every child is a node of the tree, centred on the
/// descriptor of an index stored below it. The root has no center, and
/// every other node is centred on the descriptor of an index stored below
/// it (a medoid belongs to its cluster).
pub proof fn lemma_built_tree_shape(bhc: &BinaryHierarchicalClustering, fs: Seq<Seq<u8>>, k: nat, n: BhcNode)
    requires
        bhc.tree_shaped(fs, k),
        bhc.tree_node(n),
    ensures
        bhc.tree_node(bhc.root_node()),
        bhc.root_node().center_desc() is None,
        n.leaf() <==> n.kids().len() == 0,
        n.leaf() <==> n.stored().len() > 0,
        n.leaf() ==> forall|i: int, j: int| 0 <= i < j < n.stored().len() ==> #[trigger] n.stored()[i] < #[trigger] n.stored()[j],
        n.leaf() ==> forall|t: int| 0 <= t < n.stored().len() ==> #[trigger] n.stored()[t] < fs.len(),
        !n.leaf() ==> 2 <= n.kids().len() <= k,
        n.center_desc() is None <==> n == bhc.root_node(),
        n != bhc.root_node() ==> exists|x: usize|
            x < fs.len() && n.holds(x) && n.center_desc() == Some(fs[x as int]),
        forall|j: int|
            0 <= j < n.kids().len() ==> bhc.tree_node(#[trigger] n.kids()[j]) && exists|x: usize|
                x < fs.len() && n.kids()[j].holds(x) && n.kids()[j].center_desc() == Some(fs[x as int]),
{
    let r = *bhc.root.unwrap();
    assert(reaches(r, r));
    lemma_reached_shape(r, n, fs, k);
    assert(node_shape_here(n, fs, k));
    if n != r {
        lemma_below_centered(r, n, fs, k);
        let x = choose|x: usize| x < fs.len() && #[trigger] node_holds(n, x) && center_opt(n) == Some(fs[x as int]);
        assert(n.holds(x));
        assert(n.center_desc() == center_opt(n));
    }
    assert forall|j: int| 0 <= j < n.kids().len() implies bhc.tree_node(#[trigger] n.kids()[j]) && exists|x: usize|
        x < fs.len() && n.kids()[j].holds(x) && n.kids()[j].center_desc() == Some(fs[x as int]) by {
        assert(n.kids()[j] == *n.children@[j]);
        lemma_reaches_child(r, n, j);
        let c = *n.children@[j];
        assert(centered_below(c, fs));
        let x = choose|x: usize| x < fs.len() && #[trigger] node_holds(c, x) && center_opt(c) == Some(fs[x as int]);
        assert(c.holds(x));
        assert(c.center_desc() == center_opt(c));
        assert(n.kids()[j].holds(x) && n.kids()[j].center_desc() == Some(fs[x as int]));
    }
}

/// The leaves of a built tree partition the indexed positions: the root
/// holds exactly the indices below the number of indexed descriptors; a
/// node holds an index exactly when a leaf below it stores it; no two
/// children of a node hold the same index; and no leaf stores an index
/// twice.
pub proof fn lemma_built_tree_partition(
    bhc: &BinaryHierarchicalClustering,
    fs: Seq<Seq<u8>>,
    k: nat,
    n: BhcNode,
    x: usize,
)
    requires
        bhc.wf(),
        bhc.tree_shaped(fs, k),
        bhc.tree_node(n),
    ensures
        bhc.root_node().holds(x) <==> x < bhc@.indexed.len(),
        bhc.stored_indices().count(x) == if x < bhc@.indexed.len() { 1nat } else { 0nat },
        n.leaf() ==> (n.holds(x) <==> n.stored().contains(x)),
        n.leaf() ==> n.stored().no_duplicates(),
        !n.leaf() ==> (n.holds(x) <==> exists|j: int| 0 <= j < n.kids().len() && #[trigger] n.kids()[j].holds(x)),
        forall|j1: int, j2: int|
            0 <= j1 < j2 < n.kids().len() ==> !(#[trigger] n.kids()[j1].holds(x) && #[trigger] n.kids()[j2].holds(x)),
{
    let r = *bhc.root.unwrap();
    lemma_holds_ms(r, x);
    lemma_reached_ms(r, n, x, fs, k);
    lemma_reached_shape(r, n, fs, k);
    if n.leaf() {
        assert forall|y: usize| n.reverse_index@.to_multiset().contains(y) implies n.reverse_index@.to_multiset().count(
            y,
        ) == 1 by {
            lemma_reached_ms(r, n, y, fs, k);
        }
        n.reverse_index@.lemma_multiset_has_no_duplicates_conv();
    } else {
        lemma_holds_internal(n, x);
        assert forall|j: int| 0 <= j < n.kids().len() implies #[trigger] n.kids()[j].holds(x) == node_holds(
            *n.children@[j],
            x,
        ) by {}
        if n.holds(x) {
            let j = choose|j: int| 0 <= j < n.children@.len() && #[trigger] node_holds(*n.children@[j], x);
            assert(n.kids()[j].holds(x));
        }
    }
    assert forall|j1: int, j2: int| 0 <= j1 < j2 < n.kids().len() implies !(#[trigger] n.kids()[j1].holds(x)
        && #[trigger] n.kids()[j2].holds(x)) by {
        if n.kids()[j1].holds(x) && n.kids()[j2].holds(x) {
            lemma_holds_ms(*n.children@[j1], x);
            lemma_holds_ms(*n.children@[j2], x);
            lemma_children_ms_ge(n, x, n.children@.len() as nat, j1, j2);
            assert(node_shape_here(n, fs, k));
            assert(!n.is_leaf);
        }
    }
    if x < bhc@.indexed.len() {
        assert(node_ms(r).count(x) >= 1);
    } else {
        assert(node_ms(r).count(x) == 0);
    }
}

} // verus!
