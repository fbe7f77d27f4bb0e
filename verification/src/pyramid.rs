//! Image pyramid of 8-bit images: level 0 is the input and each further
//! level is a 2x2 box-filter decimation, rounded, of the one before.

use vstd::prelude::*;
use crate::gaussian_pyramid::halved;

verus! {

/// An 8-bit image: `rows x cols` pixels with `channels` bytes each, row-major.
#[derive(Clone, Debug, PartialEq, Eq)]
pub struct ImageU8 {
    pub rows: usize,
    pub cols: usize,
    pub channels: usize,
    pub data: Vec<u8>,
}

/// Why a pyramid cannot be built.
#[derive(Clone, Copy, Debug, PartialEq, Eq)]
pub enum PyramidError {
    /// The input has no rows or no columns.
    EmptyImage,
    /// The scale factor (given by the bit pattern of its `f32`) is not two.
    InvalidScaleFactor(u32),
    /// No level was requested.
    ZeroLevels,
    /// Halving down to `level` leaves no row or no column.
    LevelTooSmall { level: usize },
}

/// `a` and `b` have the same size and pixels.
pub open spec fn same_image(a: ImageU8, b: ImageU8) -> bool {
    a.rows == b.rows && a.cols == b.cols && a.channels == b.channels && a.data@ == b.data@
}

/// The rounded mean of the 2x2 block whose top-left pixel is `(2i, 2j)`.
pub open spec fn down_pixel(d: Seq<u8>, cols: int, i: int, j: int) -> int {
    (d[2 * i * cols + 2 * j] + d[2 * i * cols + 2 * j + 1] + d[(2 * i + 1) * cols + 2 * j] + d[(2 * i + 1)
        * cols + 2 * j + 1] + 2) / 4
}

/// `dst` is the decimation of `src`: half as many rows and columns
/// (`ceil((n - 1) / 2)`, that is `n / 2`), one channel, each pixel the
/// rounded mean of a 2x2 block.
pub open spec fn is_downsample(src: ImageU8, dst: ImageU8) -> bool {
    &&& dst.rows == src.rows / 2
    &&& dst.cols == src.cols / 2
    &&& dst.channels == 1
    &&& dst.data@.len() == dst.rows * dst.cols
    &&& forall|i: int, j: int|
        0 <= i < dst.rows && 0 <= j < dst.cols ==> #[trigger] dst.data@[i * dst.cols + j] == down_pixel(
            src.data@,
            src.cols as int,
            i,
            j,
        )
}

proof fn lemma_block_index(i: int, j: int, rows: int, cols: int)
    by (nonlinear_arith)
    requires
        0 <= i < rows / 2,
        0 <= j < cols / 2,
    ensures
        0 <= 2 * i * cols + 2 * j,
        (2 * i + 1) * cols + 2 * j + 1 < rows * cols,
        (2 * i + 1) * cols == 2 * i * cols + cols,
{
    assert(2 * i + 2 <= rows);
    assert((2 * i + 1) * cols + 2 * j + 1 < (2 * i + 1) * cols + cols);
    assert((2 * i + 2) * cols <= rows * cols);
}

proof fn lemma_row_major(ii: int, jj: int, i: int, w: int)
    by (nonlinear_arith)
    requires
        0 <= ii < i,
        0 <= jj < w,
    ensures
        0 <= ii * w + jj < i * w,
{
    assert((ii + 1) * w <= i * w);
}

proof fn lemma_next_row(i: int, w: int)
    by (nonlinear_arith)
    ensures
        (i + 1) * w == i * w + w,
{
}

/// 2x2 box-filter decimation.
pub fn downsample_scalar(src: &ImageU8) -> (r: ImageU8)
    requires
        src.rows * src.cols <= src.data@.len(),
    ensures
        is_downsample(*src, r),
{
    let len = src.data.len();
    let new_h = src.rows / 2;
    let new_w = src.cols / 2;
    let cols = src.cols;
    let mut dst: Vec<u8> = Vec::new();
    let mut i: usize = 0;
    while i < new_h
        invariant
            len == src.data@.len(),
            src.rows * src.cols <= len,
            new_h == src.rows / 2,
            new_w == src.cols / 2,
            cols == src.cols,
            i <= new_h,
            dst@.len() == i * new_w,
            forall|ii: int, jj: int|
                0 <= ii < i && 0 <= jj < new_w ==> #[trigger] dst@[ii * new_w + jj] == down_pixel(src.data@, cols as int, ii, jj),
        decreases new_h - i,
    {
        let mut j: usize = 0;
        while j < new_w
            invariant
                len == src.data@.len(),
                src.rows * src.cols <= len,
                new_h == src.rows / 2,
                new_w == src.cols / 2,
                cols == src.cols,
                i < new_h,
                j <= new_w,
                dst@.len() == i * new_w + j,
                forall|ii: int, jj: int|
                    0 <= ii < i && 0 <= jj < new_w ==> #[trigger] dst@[ii * new_w + jj] == down_pixel(src.data@, cols as int, ii, jj),
                forall|jj: int| 0 <= jj < j ==> #[trigger] dst@[i * new_w + jj] == down_pixel(src.data@, cols as int, i as int, jj),
            decreases new_w - j,
        {
            proof {
                lemma_block_index(i as int, j as int, src.rows as int, cols as int);
            }
            let r0 = 2 * i * cols;
            let r1 = r0 + cols;
            let c = 2 * j;
            let sum: u16 = src.data[r0 + c] as u16 + src.data[r0 + c + 1] as u16 + src.data[r1 + c] as u16
                + src.data[r1 + c + 1] as u16 + 2;
            assert(sum >> 2 == sum / 4) by (bit_vector);
            dst.push((sum >> 2) as u8);
            proof {
                assert forall|ii: int, jj: int| 0 <= ii < i && 0 <= jj < new_w implies #[trigger] dst@[ii * new_w + jj]
                    == down_pixel(src.data@, cols as int, ii, jj) by {
                    lemma_row_major(ii, jj, i as int, new_w as int);
                }
            }
            j = j + 1;
        }
        proof {
            lemma_next_row(i as int, new_w as int);
        }
        i = i + 1;
    }
    assert(new_h * new_w == new_w * new_h) by (nonlinear_arith);
    ImageU8 { rows: new_h, cols: new_w, channels: 1, data: dst }
}

/// 2x2 box-filter decimation (see [`downsample_scalar`]).
pub fn downsample(src: &ImageU8) -> (r: ImageU8)
    requires
        src.rows * src.cols <= src.data@.len(),
    ensures
        is_downsample(*src, r),
{
    downsample_scalar(src)
}

/// The `f32` with bit pattern `bits` is two, the only supported scale
/// factor.
pub open spec fn scale_is_two(bits: u32) -> bool {
    bits == 0x4000_0000
}

fn scale_is_two_exec(bits: u32) -> (r: bool)
    ensures
        r == scale_is_two(bits),
{
    bits == 0x4000_0000
}

/// The first level in `k..num` that halving leaves without a row or a
/// column, or `num` when there is none.
pub open spec fn first_empty_level(rows: nat, cols: nat, k: nat, num: nat) -> nat
    decreases num - k,
{
    if k >= num {
        num
    } else if halved(rows, k) == 0 || halved(cols, k) == 0 {
        k
    } else {
        first_empty_level(rows, cols, k + 1, num)
    }
}

/// `levels` are the first `n` levels of the pyramid of `image`: the image
/// itself, then each level the decimation of the one before.
pub open spec fn pyramid_levels(image: ImageU8, levels: Seq<ImageU8>, n: nat) -> bool {
    &&& levels.len() == n
    &&& n > 0 ==> same_image(levels[0], image)
    &&& forall|t: int| 1 <= t < n ==> #[trigger] is_downsample(levels[t - 1], levels[t])
}

/// Level `t` of a pyramid has the input's rows and columns halved `t` times
/// (rounding down, which is `ceil((n - 1) / 2)` at each step).
pub proof fn lemma_level_sizes(image: ImageU8, levels: Seq<ImageU8>, n: nat, t: nat)
    requires
        pyramid_levels(image, levels, n),
        t < n,
    ensures
        levels[t as int].rows == halved(image.rows as nat, t),
        levels[t as int].cols == halved(image.cols as nat, t),
    decreases t,
{
    if t > 0 {
        lemma_level_sizes(image, levels, n, (t - 1) as nat);
        assert(is_downsample(levels[t - 1], levels[t as int]));
    }
}

/// The levels, the scale factor (bit pattern of an `f32`) and the number of
/// levels requested.
pub struct PyramidModel {
    pub levels: Seq<ImageU8>,
    pub scale_factor_bits: u32,
    pub num_levels: nat,
}

/// A pyramid of 8-bit images built by repeated decimation.
pub struct Pyramid {
    levels: Vec<ImageU8>,
    scale_factor_bits: u32,
    num_levels: usize,
}

impl View for Pyramid {
    type V = PyramidModel;

    closed spec fn view(&self) -> PyramidModel {
        PyramidModel {
            levels: self.levels@,
            scale_factor_bits: self.scale_factor_bits,
            num_levels: self.num_levels as nat,
        }
    }
}

proof fn lemma_halved_step(x: nat, n: nat)
    ensures
        halved(x, n + 1) == halved(x, n) / 2,
{
}

impl Pyramid {
    /// A pyramid of `num_levels` levels, each `scale_factor` smaller than the
    /// one before (given by its bit pattern; only two is supported); no
    /// level is built yet.
    pub fn new(num_levels: usize, scale_factor_bits: u32) -> (r: Self)
        ensures
            r@ == (PyramidModel {
                levels: Seq::empty(),
                scale_factor_bits,
                num_levels: num_levels as nat,
            }),
    {
        Pyramid { levels: Vec::new(), scale_factor_bits, num_levels }
    }

    /// Number of levels built so far.
    pub fn num_levels(&self) -> (r: usize)
        ensures
            r == self@.levels.len(),
    {
        self.levels.len()
    }

    /// Level `i`.
    pub fn level(&self, i: usize) -> (r: &ImageU8)
        requires
            i < self@.levels.len(),
        ensures
            *r == self@.levels[i as int],
    {
        &self.levels[i]
    }

    /// Builds the levels from `image`, replacing earlier ones. The checks
    /// come first and leave the pyramid unchanged: at least one level, a
    /// scale factor of two, a non-empty image. Then levels are added while
    /// the next one would still have a row and a column.
    pub fn build(&mut self, image: &ImageU8) -> (r: Result<(), PyramidError>)
        requires
            image.rows * image.cols <= image.data@.len(),
        ensures
            final(self)@.scale_factor_bits == old(self)@.scale_factor_bits,
            final(self)@.num_levels == old(self)@.num_levels,
            old(self)@.num_levels == 0 ==> r == Err::<(), PyramidError>(PyramidError::ZeroLevels) && final(self)@
                == old(self)@,
            old(self)@.num_levels > 0 && !scale_is_two(old(self)@.scale_factor_bits) ==> r == Err::<
                (),
                PyramidError,
            >(PyramidError::InvalidScaleFactor(old(self)@.scale_factor_bits)) && final(self)@ == old(self)@,
            old(self)@.num_levels > 0 && scale_is_two(old(self)@.scale_factor_bits) && (image.rows == 0 || image.cols
                == 0) ==> r == Err::<(), PyramidError>(PyramidError::EmptyImage) && final(self)@ == old(self)@,
            old(self)@.num_levels > 0 && scale_is_two(old(self)@.scale_factor_bits) && image.rows > 0 && image.cols
                > 0 ==> ({
                let n = first_empty_level(image.rows as nat, image.cols as nat, 1, old(self)@.num_levels);
                &&& pyramid_levels(*image, final(self)@.levels, n)
                &&& r == if n < old(self)@.num_levels {
                    Err::<(), PyramidError>(PyramidError::LevelTooSmall { level: n as usize })
                } else {
                    Ok::<(), PyramidError>(())
                }
            }),
    {
        if self.num_levels == 0 {
            return Err(PyramidError::ZeroLevels);
        }
        if !scale_is_two_exec(self.scale_factor_bits) {
            return Err(PyramidError::InvalidScaleFactor(self.scale_factor_bits));
        }
        if image.rows == 0 || image.cols == 0 {
            return Err(PyramidError::EmptyImage);
        }
        let ghost rows = image.rows as nat;
        let ghost cols = image.cols as nat;
        let ghost num = self.num_levels as nat;
        self.levels.clear();
        let first = ImageU8 {
            rows: image.rows,
            cols: image.cols,
            channels: image.channels,
            data: vstd::slice::slice_to_vec(image.data.as_slice()),
        };
        self.levels.push(first);
        let mut k: usize = 1;
        while k < self.num_levels
            invariant
                1 <= k <= self.num_levels,
                num == self.num_levels,
                self.num_levels == old(self).num_levels,
                self.scale_factor_bits == old(self).scale_factor_bits,
                scale_is_two(self.scale_factor_bits),
                rows == image.rows && cols == image.cols,
                rows > 0 && cols > 0,
                image.rows * image.cols <= image.data@.len(),
                pyramid_levels(*image, self.levels@, k as nat),
                self.levels@[k - 1].rows == halved(rows, (k - 1) as nat),
                self.levels@[k - 1].cols == halved(cols, (k - 1) as nat),
                self.levels@[k - 1].rows * self.levels@[k - 1].cols <= self.levels@[k - 1].data@.len(),
                forall|t: nat| 1 <= t < k ==> halved(rows, t) != 0 && halved(cols, t) != 0,
                first_empty_level(rows, cols, 1, num) == first_empty_level(rows, cols, k as nat, num),
            decreases self.num_levels - k,
        {
            let prev = &self.levels[k - 1];
            let new_h = prev.rows / 2;
            let new_w = prev.cols / 2;
            proof {
                lemma_halved_step(rows, (k - 1) as nat);
                lemma_halved_step(cols, (k - 1) as nat);
            }
            if new_h == 0 || new_w == 0 {
                return Err(PyramidError::LevelTooSmall { level: k });
            }
            let next = downsample(prev);
            let ghost before = self.levels@;
            self.levels.push(next);
            proof {
                assert forall|t: int| 1 <= t < k + 1 implies #[trigger] is_downsample(self.levels@[t - 1], self.levels@[t]) by {
                    if t < k {
                        assert(self.levels@[t - 1] == before[t - 1] && self.levels@[t] == before[t]);
                        assert(is_downsample(before[t - 1], before[t]));
                    }
                }
                assert(next.data@.len() == next.rows * next.cols);
            }
            k = k + 1;
        }
        Ok(())
    }
}

} // verus!
