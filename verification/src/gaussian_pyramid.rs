//! Integer parts of the binomial Gaussian scale-space pyramid: the octave
//! count for an image size, the size checks made before a pyramid is built,
//! and the horizontal pass of the 5-tap `[1, 4, 6, 4, 1]` filter on bytes.

use vstd::prelude::*;

verus! {

/// Why a pyramid cannot be built.
#[derive(Clone, Copy, Debug, PartialEq, Eq)]
pub enum GaussianPyramidError {
    /// The image has no rows or no columns.
    EmptyImage,
    /// The image is smaller than 5x5 (the filter needs two border pixels on
    /// each side).
    ImageTooSmall { rows: usize, cols: usize },
    /// No octave was requested.
    ZeroOctaves,
    /// Halving down to `octave` gives a level smaller than 5x5.
    OctaveTooSmall { octave: usize, rows: usize, cols: usize },
}

/// `x` halved `n` times (rounding down).
pub open spec fn halved(x: nat, n: nat) -> nat
    decreases n,
{
    if n == 0 {
        x
    } else {
        halved(x, (n - 1) as nat) / 2
    }
}

/// Number of times a `w x h` image can be halved while both sides stay at
/// least `m`: the number of octaves of its pyramid.
pub open spec fn octave_count(w: nat, h: nat, m: nat) -> nat
    decreases w,
{
    if m > 0 && w >= m && h >= m {
        1 + octave_count(w / 2, h / 2, m)
    } else {
        0
    }
}

proof fn lemma_octave_count_le(w: nat, h: nat, m: nat)
    ensures
        octave_count(w, h, m) <= w,
    decreases w,
{
    if m > 0 && w >= m && h >= m {
        lemma_octave_count_le(w / 2, h / 2, m);
    }
}

/// Number of octaves of an image of `width x height` pixels whose coarsest
/// level is at least `min_size` on both sides.
pub fn num_octaves_for(width: usize, height: usize, min_size: usize) -> (n: usize)
    requires
        min_size > 0,
    ensures
        n == octave_count(width as nat, height as nat, min_size as nat),
{
    let mut w = width;
    let mut h = height;
    let mut n: usize = 0;
    proof {
        lemma_octave_count_le(width as nat, height as nat, min_size as nat);
    }
    while w >= min_size && h >= min_size
        invariant
            min_size > 0,
            n + octave_count(w as nat, h as nat, min_size as nat) == octave_count(
                width as nat,
                height as nat,
                min_size as nat,
            ),
            octave_count(width as nat, height as nat, min_size as nat) <= width,
        decreases w,
    {
        w = w / 2;
        h = h / 2;
        n = n + 1;
    }
    n
}

/// The first octave in `oct..num` whose level (each side halved `oct`
/// times) is smaller than 5x5, with its size.
pub open spec fn first_small_octave(rows: nat, cols: nat, oct: nat, num: nat) -> Option<(nat, nat, nat)>
    decreases num - oct,
{
    if oct >= num {
        None
    } else if halved(rows, oct) < 5 || halved(cols, oct) < 5 {
        Some((oct, halved(rows, oct), halved(cols, oct)))
    } else {
        first_small_octave(rows, cols, oct + 1, num)
    }
}

/// Outcome of the size checks on a `rows x cols` image and `num_octaves`
/// octaves, in the order they are made.
pub open spec fn pyramid_check(rows: nat, cols: nat, num_octaves: nat) -> Result<(), GaussianPyramidError> {
    if num_octaves == 0 {
        Err(GaussianPyramidError::ZeroOctaves)
    } else if rows == 0 || cols == 0 {
        Err(GaussianPyramidError::EmptyImage)
    } else if rows < 5 || cols < 5 {
        Err(GaussianPyramidError::ImageTooSmall { rows: rows as usize, cols: cols as usize })
    } else {
        match first_small_octave(rows, cols, 1, num_octaves) {
            Some((o, r, c)) => Err(
                GaussianPyramidError::OctaveTooSmall { octave: o as usize, rows: r as usize, cols: c as usize },
            ),
            None => Ok(()),
        }
    }
}

/// Checks that a pyramid of `num_octaves` octaves can be built on a
/// `rows x cols` image: the first octave is the image itself and each
/// further one halves both sides, and every level must be at least 5x5.
pub fn check_pyramid_dims(rows: usize, cols: usize, num_octaves: usize) -> (r: Result<(), GaussianPyramidError>)
    ensures
        r == pyramid_check(rows as nat, cols as nat, num_octaves as nat),
{
    if num_octaves == 0 {
        return Err(GaussianPyramidError::ZeroOctaves);
    }
    if rows == 0 || cols == 0 {
        return Err(GaussianPyramidError::EmptyImage);
    }
    if rows < 5 || cols < 5 {
        return Err(GaussianPyramidError::ImageTooSmall { rows, cols });
    }
    let mut h = rows;
    let mut w = cols;
    let mut oct: usize = 1;
    while oct < num_octaves
        invariant
            5 <= rows,
            5 <= cols,
            1 <= oct <= num_octaves,
            h == halved(rows as nat, (oct - 1) as nat),
            w == halved(cols as nat, (oct - 1) as nat),
            first_small_octave(rows as nat, cols as nat, 1, num_octaves as nat) == first_small_octave(
                rows as nat,
                cols as nat,
                oct as nat,
                num_octaves as nat,
            ),
        decreases num_octaves - oct,
    {
        let new_h = h / 2;
        let new_w = w / 2;
        proof {
            assert(halved(rows as nat, oct as nat) == new_h);
            assert(halved(cols as nat, oct as nat) == new_w);
        }
        if new_h < 5 || new_w < 5 {
            return Err(GaussianPyramidError::OctaveTooSmall { octave: oct, rows: new_h, cols: new_w });
        }
        h = new_h;
        w = new_w;
        oct = oct + 1;
    }
    Ok(())
}

/// `i` clamped into `0..w`: the column read in place of one beyond a border.
pub open spec fn clamp_col(i: int, w: int) -> int {
    if i < 0 {
        0
    } else if i >= w {
        w - 1
    } else {
        i
    }
}

/// The 5-tap `[1, 4, 6, 4, 1]` sum centred on `s[c]`, reading the given
/// neighbour positions.
pub open spec fn tap5(s: Seq<u8>, a: int, b: int, c: int, d: int, e: int) -> int {
    6 * s[c] + 4 * (s[b] + s[d]) + s[a] + s[e]
}

/// Horizontal filter output at column `c` of a row `w` pixels wide, edge
/// pixels repeated beyond the borders.
pub open spec fn binomial_h_at(s: Seq<u8>, w: int, c: int) -> int {
    tap5(s, clamp_col(c - 2, w), clamp_col(c - 1, w), c, clamp_col(c + 1, w), clamp_col(c + 2, w))
}

/// Horizontal pass on the border columns `0, 1, width - 2, width - 1`;
/// every other entry of `t` is left as it was.
pub fn binomial_h_borders_u8(s: &[u8], t: &mut [u16], width: usize)
    requires
        4 <= width,
        width <= s@.len(),
        width <= old(t)@.len(),
    ensures
        final(t)@.len() == old(t)@.len(),
        forall|c: int|
            0 <= c < final(t)@.len() ==> #[trigger] final(t)@[c] == if c == 0 || c == 1 || c == width - 2 || c
                == width - 1 {
                binomial_h_at(s@, width as int, c)
            } else {
                old(t)@[c] as int
            },
{
    let s0 = s[0] as u16;
    let s1 = s[1] as u16;
    let s2 = s[2] as u16;
    let s3 = s[3] as u16;
    t[0] = 6 * s0 + 4 * (s0 + s1) + (s0 + s2);
    t[1] = 6 * s1 + 4 * (s0 + s2) + (s0 + s3);
    let c = width - 2;
    t[c] = 6 * s[c] as u16 + 4 * (s[c - 1] as u16 + s[c + 1] as u16) + (s[c - 2] as u16 + s[c + 1] as u16);
    let c = width - 1;
    t[c] = 6 * s[c] as u16 + 4 * (s[c - 1] as u16 + s[c] as u16) + (s[c - 2] as u16 + s[c] as u16);
}

/// Horizontal pass on the columns `start..end`, which must lie two pixels
/// away from the ends of `s`; every other entry of `t` is left as it was.
pub fn binomial_h_interior_u8(s: &[u8], t: &mut [u16], start: usize, end: usize)
    requires
        start < end ==> 2 <= start && end + 2 <= s@.len() && end <= old(t)@.len(),
    ensures
        final(t)@.len() == old(t)@.len(),
        forall|c: int|
            0 <= c < final(t)@.len() ==> #[trigger] final(t)@[c] == if start <= c < end {
                tap5(s@, c - 2, c - 1, c, c + 1, c + 2)
            } else {
                old(t)@[c] as int
            },
{
    let mut col = start;
    while col < end
        invariant
            start < end ==> 2 <= start && end + 2 <= s@.len() && end <= old(t)@.len(),
            start <= col,
            col < end ==> start < end,
            t@.len() == old(t)@.len(),
            forall|c: int|
                0 <= c < t@.len() ==> #[trigger] t@[c] == if start <= c < col && c < end {
                    tap5(s@, c - 2, c - 1, c, c + 1, c + 2)
                } else {
                    old(t)@[c] as int
                },
        decreases end - col,
    {
        t[col] = 6 * s[col] as u16 + 4 * (s[col - 1] as u16 + s[col + 1] as u16) + (s[col - 2] as u16
            + s[col + 2] as u16);
        col = col + 1;
    }
}

/// The 5-tap `[1, 4, 6, 4, 1]` sum of the horizontal-pass values at the
/// given positions of `t`, centred on `t[c]`.
pub open spec fn vtap5(t: Seq<u16>, a: int, b: int, c: int, d: int, e: int) -> int {
    6 * t[c] + 4 * (t[b] + t[d]) + t[a] + t[e]
}

/// Vertical filter sum at position `i` of an image `w` wide and `h` high
/// whose row is one of the two top or the two bottom rows, edge rows
/// repeated beyond the borders.
pub open spec fn binomial_v_border_at(t: Seq<u16>, w: int, h: int, i: int) -> int {
    if i < w {
        vtap5(t, i, i, i, i + w, i + 2 * w)
    } else if i < 2 * w {
        vtap5(t, i - w, i - w, i, i + w, i + 2 * w)
    } else if i < h * w - w {
        vtap5(t, i - 2 * w, i - w, i, i + w, i + w)
    } else {
        vtap5(t, i - 2 * w, i - w, i, i, i)
    }
}

/// Whether position `i` lies in one of the two top or the two bottom rows.
pub open spec fn in_border_rows(w: int, h: int, i: int) -> bool {
    (0 <= i < 2 * w) || (h * w - 2 * w <= i < h * w)
}

/// Vertical pass on the two top and the two bottom rows of an image of
/// `width x height` horizontal-pass values: `dst` gets the filter sums
/// (before their scaling to `[0, 255]`); every other entry is left as it
/// was.
pub fn binomial_v_borders_u8(tmp: &[u16], dst: &mut [u32], width: usize, height: usize)
    requires
        4 <= height,
        height * width <= tmp@.len(),
        height * width <= old(dst)@.len(),
    ensures
        final(dst)@.len() == old(dst)@.len(),
        forall|i: int|
            0 <= i < final(dst)@.len() ==> #[trigger] final(dst)@[i] == if in_border_rows(
                width as int,
                height as int,
                i,
            ) {
                binomial_v_border_at(tmp@, width as int, height as int, i)
            } else {
                old(dst)@[i] as int
            },
{
    let tl = tmp.len();
    let hw = height * width;
    proof {
        assert(hw == (height - 4) * width + 4 * width) by (nonlinear_arith)
            requires
                hw == height * width,
                height >= 4,
        ;
    }
    let w2 = 2 * width;
    let mut col: usize = 0;
    while col < width
        invariant
            col <= width,
            hw == height * width,
            hw >= 4 * width,
            w2 == 2 * width,
            hw <= tmp@.len(),
            hw <= dst@.len(),
            dst@.len() == old(dst)@.len(),
            forall|i: int|
                0 <= i < dst@.len() ==> #[trigger] dst@[i] == if (0 <= i < col) || (width <= i < width + col) {
                    binomial_v_border_at(tmp@, width as int, height as int, i)
                } else {
                    old(dst)@[i] as int
                },
        decreases width - col,
    {
        let p = tmp[col] as u32;
        let pp1 = tmp[width + col] as u32;
        let pp2 = tmp[w2 + col] as u32;
        dst[col] = 6 * p + 4 * (p + pp1) + p + pp2;
        let pm = tmp[col] as u32;
        let p = tmp[width + col] as u32;
        let pp1 = tmp[w2 + col] as u32;
        let pp2 = tmp[w2 + width + col] as u32;
        dst[width + col] = 6 * p + 4 * (pm + pp1) + pm + pp2;
        col = col + 1;
    }
    let mut col: usize = 0;
    while col < width
        invariant
            col <= width,
            hw == height * width,
            hw >= 4 * width,
            w2 == 2 * width,
            hw <= tmp@.len(),
            hw <= dst@.len(),
            dst@.len() == old(dst)@.len(),
            forall|i: int|
                0 <= i < dst@.len() ==> #[trigger] dst@[i] == if (0 <= i < 2 * width) || (hw - w2 <= i < hw - w2
                    + col) || (hw - width <= i < hw - width + col) {
                    binomial_v_border_at(tmp@, width as int, height as int, i)
                } else {
                    old(dst)@[i] as int
                },
        decreases width - col,
    {
        let pm2 = tmp[hw - 2 * w2 + col] as u32;
        let pm1 = tmp[hw - w2 - width + col] as u32;
        let p = tmp[hw - w2 + col] as u32;
        let pp = tmp[hw - width + col] as u32;
        dst[hw - w2 + col] = 6 * p + 4 * (pm1 + pp) + pm2 + pp;
        let pm2 = tmp[hw - w2 - width + col] as u32;
        let pm1 = tmp[hw - w2 + col] as u32;
        let p = tmp[hw - width + col] as u32;
        dst[hw - width + col] = 6 * p + 4 * (pm1 + p) + pm2 + p;
        col = col + 1;
    }
}

/// Vertical pass on row `row`, columns `start..end`, of an image `width`
/// wide: `dst` gets the filter sums (before their scaling to `[0, 255]`)
/// over the rows `row - 2 ..= row + 2`, which must exist; every other entry
/// is left as it was.
pub fn binomial_v_interior_u8(tmp: &[u16], dst: &mut [u32], row: usize, width: usize, start: usize, end: usize)
    requires
        start < end ==> 2 <= row && end <= width && (row + 2) * width + end <= tmp@.len() && row * width + end
            <= old(dst)@.len(),
    ensures
        final(dst)@.len() == old(dst)@.len(),
        forall|i: int|
            0 <= i < final(dst)@.len() ==> #[trigger] final(dst)@[i] == if row * width + start <= i < row * width
                + end {
                vtap5(tmp@, i - 2 * width, i - width, i, i + width, i + 2 * width)
            } else {
                old(dst)@[i] as int
            },
{
    if start >= end {
        return;
    }
    let tl = tmp.len();
    proof {
        assert(row * width <= tl) by (nonlinear_arith)
            requires
                (row + 2) * width + end <= tl,
        ;
    }
    let row_off = row * width;
    proof {
        assert((row + 2) * width == row * width + 2 * width) by (nonlinear_arith);
        assert((row - 2) * width == row * width - 2 * width) by (nonlinear_arith);
        assert(row * width >= 2 * width) by (nonlinear_arith)
            requires
                row >= 2,
        ;
    }
    let w2 = 2 * width;
    let mut col = start;
    while col < end
        invariant
            start <= col <= end,
            end <= width,
            row_off == row * width,
            row_off >= w2,
            w2 == 2 * width,
            row_off + w2 + end <= tmp@.len(),
            row_off + end <= dst@.len(),
            dst@.len() == old(dst)@.len(),
            forall|i: int|
                0 <= i < dst@.len() ==> #[trigger] dst@[i] == if row_off + start <= i < row_off + col {
                    vtap5(tmp@, i - 2 * width, i - width, i, i + width, i + 2 * width)
                } else {
                    old(dst)@[i] as int
                },
        decreases end - col,
    {
        let pm2 = tmp[row_off - w2 + col] as u32;
        let pm1 = tmp[row_off - width + col] as u32;
        let p = tmp[row_off + col] as u32;
        let pp1 = tmp[row_off + width + col] as u32;
        let pp2 = tmp[row_off + w2 + col] as u32;
        dst[row_off + col] = 6 * p + 4 * (pm1 + pp1) + pm2 + pp2;
        col = col + 1;
    }
}

/// Horizontal filter output at column `c` of row `r` of a `w`-wide image.
pub open spec fn hsum(src: Seq<u8>, w: int, r: int, c: int) -> int {
    binomial_h_at(src.subrange(r * w, r * w + w), w, c)
}

/// The whole-image `[1, 4, 6, 4, 1]` x `[1, 4, 6, 4, 1]` filter sum at row
/// `r`, column `c` of a `w x h` image, edge pixels repeated beyond every
/// border (before the scaling to `[0, 255]`).
pub open spec fn binomial_2d_at(src: Seq<u8>, w: int, h: int, r: int, c: int) -> int {
    6 * hsum(src, w, r, c) + 4 * (hsum(src, w, clamp_col(r - 1, h), c) + hsum(src, w, clamp_col(r + 1, h), c))
        + hsum(src, w, clamp_col(r - 2, h), c) + hsum(src, w, clamp_col(r + 2, h), c)
}

proof fn lemma_flat_index(r: int, c: int, w: int, k: int)
    by (nonlinear_arith)
    requires
        0 <= c < w,
        0 <= r,
    ensures
        r * w + c < k * w <==> r < k,
        k * w <= r * w + c <==> k <= r,
{
}

proof fn lemma_row_shift(r: int, c: int, w: int, d: int)
    by (nonlinear_arith)
    ensures
        (r + d) * w + c == r * w + c + d * w,
{
}

/// The horizontal pass over every row of a `width x height` image.
fn binomial_h_rows(src: &[u8], width: usize, height: usize) -> (t: Vec<u16>)
    requires
        5 <= width,
        height * width <= src@.len(),
    ensures
        t@.len() == height * width,
        forall|r: int, c: int|
            0 <= r < height && 0 <= c < width ==> #[trigger] t@[r * width + c] == hsum(src@, width as int, r, c),
{
    let mut t: Vec<u16> = Vec::new();
    let total = src.len();
    let mut row: usize = 0;
    while row < height
        invariant
            row <= height,
            5 <= width,
            height * width <= src@.len(),
            total == src@.len(),
            t@.len() == row * width,
            forall|r: int, c: int|
                0 <= r < row && 0 <= c < width ==> #[trigger] t@[r * width + c] == hsum(src@, width as int, r, c),
        decreases height - row,
    {
        proof {
            assert(row * width + width <= height * width) by (nonlinear_arith)
                requires
                    row < height,
            ;
        }
        let off = row * width;
        let s = vstd::slice::slice_subrange(src, off, off + width);
        let mut buf: Vec<u16> = Vec::new();
        let mut k: usize = 0;
        while k < width
            invariant
                k <= width,
                buf@.len() == k,
            decreases width - k,
        {
            buf.push(0);
            k = k + 1;
        }
        binomial_h_borders_u8(s, buf.as_mut_slice(), width);
        binomial_h_interior_u8(s, buf.as_mut_slice(), 2, width - 2);
        assert forall|c: int| 0 <= c < width implies #[trigger] buf@[c] == hsum(src@, width as int, row as int, c) by {
            assert(s@ == src@.subrange(row * width, row * width + width));
        }
        let ghost t0 = t@;
        let mut k: usize = 0;
        while k < width
            invariant
                k <= width,
                buf@.len() == width,
                t0.len() == row * width,
                t@.len() == row * width + k,
                forall|i: int| 0 <= i < t0.len() ==> #[trigger] t@[i] == t0[i],
                forall|c: int| 0 <= c < k ==> #[trigger] t@[row * width + c] == buf@[c],
            decreases width - k,
        {
            t.push(buf[k]);
            k = k + 1;
        }
        proof {
            assert forall|r: int, c: int| 0 <= r < row + 1 && 0 <= c < width implies #[trigger] t@[r * width + c]
                == hsum(src@, width as int, r, c) by {
                lemma_flat_index(r, c, width as int, row as int);
                if r < row {
                    assert(t@[r * width + c] == t0[r * width + c]);
                } else {
                    assert(r * width + c == row * width + c);
                }
            }
            assert(t@.len() == (row + 1) * width) by (nonlinear_arith)
                requires
                    t@.len() == row * width + width,
            ;
        }
        row = row + 1;
    }
    t
}

/// The whole-image `[1, 4, 6, 4, 1]` binomial filter of a `width x height`
/// 8-bit image, as integer sums (the horizontal pass on every row, then the
/// vertical pass), edge pixels repeated beyond every border.
pub fn binomial_sums_u8(src: &[u8], width: usize, height: usize) -> (r: Vec<u32>)
    requires
        5 <= width,
        5 <= height,
        height * width <= src@.len(),
    ensures
        r@.len() == height * width,
        forall|row: int, col: int|
            0 <= row < height && 0 <= col < width ==> #[trigger] r@[row * width + col] == binomial_2d_at(
                src@,
                width as int,
                height as int,
                row,
                col,
            ),
{
    let tl = src.len();
    let tmp = binomial_h_rows(src, width, height);
    let n = height * width;
    let mut dst: Vec<u32> = Vec::new();
    let mut k: usize = 0;
    while k < n
        invariant
            k <= n,
            dst@.len() == k,
        decreases n - k,
    {
        dst.push(0);
        k = k + 1;
    }
    binomial_v_borders_u8(tmp.as_slice(), dst.as_mut_slice(), width, height);
    let ghost d0 = dst@;
    let mut row: usize = 2;
    while row < height - 2
        invariant
            2 <= row <= height - 2,
            5 <= width,
            5 <= height,
            n == height * width,
            tmp@.len() == n,
            dst@.len() == n,
            forall|i: int|
                0 <= i < n ==> #[trigger] dst@[i] == if 2 * width <= i < row * width {
                    vtap5(tmp@, i - 2 * width, i - width, i, i + width, i + 2 * width)
                } else {
                    d0[i] as int
                },
        decreases height - 2 - row,
    {
        proof {
            assert((row + 2) * width + width <= height * width) by (nonlinear_arith)
                requires
                    row + 3 <= height,
            ;
            lemma_row_shift(row as int, 0, width as int, 2);
        }
        let ghost before = dst@;
        binomial_v_interior_u8(tmp.as_slice(), dst.as_mut_slice(), row, width, 0, width);
        proof {
            lemma_row_shift(row as int, 0, width as int, 1);
            let nr = row + 1;
            assert(nr * width == row * width + width);
            assert(row * width >= 2 * width) by (nonlinear_arith)
                requires
                    row >= 2,
            ;
            assert forall|i: int| 0 <= i < n implies #[trigger] dst@[i] == if 2 * width <= i < nr * width {
                vtap5(tmp@, i - 2 * width, i - width, i, i + width, i + 2 * width)
            } else {
                d0[i] as int
            } by {
                if row * width <= i < row * width + width {
                } else {
                    assert(dst@[i] == before[i]);
                }
            }
        }
        row = row + 1;
    }
    proof {
        assert forall|rr: int, cc: int| 0 <= rr < height && 0 <= cc < width implies #[trigger] dst@[rr * width + cc]
            == binomial_2d_at(src@, width as int, height as int, rr, cc) by {
            let w = width as int;
            let h = height as int;
            let i = rr * w + cc;
            lemma_flat_index(rr, cc, w, 1);
            lemma_flat_index(rr, cc, w, 2);
            lemma_flat_index(rr, cc, w, h - 2);
            lemma_flat_index(rr, cc, w, h - 1);
            lemma_flat_index(rr, cc, w, h);
            lemma_row_shift(rr, cc, w, -2);
            lemma_row_shift(rr, cc, w, -1);
            lemma_row_shift(rr, cc, w, 1);
            lemma_row_shift(rr, cc, w, 2);
            lemma_row_shift(h, 0, w, -2);
            lemma_row_shift(h, 0, w, -1);
            assert(0 <= i < n) by (nonlinear_arith)
                requires
                    0 <= rr < h,
                    0 <= cc < w,
                    n == h * w,
                    i == rr * w + cc,
            ;
            assert(tmp@[clamp_col(rr - 2, h) * w + cc] == hsum(src@, w, clamp_col(rr - 2, h), cc));
            assert(tmp@[clamp_col(rr - 1, h) * w + cc] == hsum(src@, w, clamp_col(rr - 1, h), cc));
            assert(tmp@[rr * w + cc] == hsum(src@, w, rr, cc));
            assert(tmp@[clamp_col(rr + 1, h) * w + cc] == hsum(src@, w, clamp_col(rr + 1, h), cc));
            assert(tmp@[clamp_col(rr + 2, h) * w + cc] == hsum(src@, w, clamp_col(rr + 2, h), cc));
        }
    }
    dst
}

} // verus!
