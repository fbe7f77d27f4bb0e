//! Down-sampling of 8-bit grayscale images (row-major, one byte per pixel)
//! before reference features are extracted.

use vstd::prelude::*;

verus! {

/// Processing resolution of a reference image.
#[derive(Clone, Copy, Debug, PartialEq, Eq)]
pub enum KpmProcMode {
    FullSize,
    TwoThirdSize,
    HalfSize,
    OneThirdSize,
    QuarterSize,
}

/// Vertical compression applied after resizing.
#[derive(Clone, Copy, Debug, PartialEq, Eq)]
pub enum KpmCompMode {
    /// The image is used as it is.
    Uncompressed,
    /// Pairs of rows are averaged, halving the height.
    CompY,
}

/// Sum of the `n` pixels starting at `base`.
pub open spec fn row_sum(img: Seq<u8>, base: int, n: nat) -> int
    decreases n,
{
    if n == 0 {
        0
    } else {
        row_sum(img, base, (n - 1) as nat) + img[base + n - 1]
    }
}

/// Sum of the first `rows` rows of the `n`-wide block whose top-left pixel is
/// `(r0, c0)` in an image `xs` pixels wide.
pub open spec fn block_sum(img: Seq<u8>, xs: int, r0: int, c0: int, n: nat, rows: nat) -> int
    decreases rows,
{
    if rows == 0 {
        0
    } else {
        block_sum(img, xs, r0, c0, n, (rows - 1) as nat) + row_sum(img, (r0 + rows - 1) * xs + c0, n)
    }
}

/// Mean (rounded down) of the `n x n` block of output pixel `(i, j)`.
pub open spec fn box_pixel(img: Seq<u8>, xs: int, j: int, i: int, n: nat) -> int {
    block_sum(img, xs, n * j, n * i, n, n) / ((n * n) as int)
}

/// Every pixel read by an `n x n` box filter that produces `x2 x y2` pixels
/// lies inside `img`.
pub open spec fn box_reads_ok(len: nat, xs: int, x2: int, y2: int, n: int) -> bool {
    x2 == 0 || y2 == 0 || (n * y2 - 1) * xs + n * x2 <= len
}

proof fn lemma_row_sum_bound(img: Seq<u8>, base: int, n: nat)
    ensures
        0 <= row_sum(img, base, n) <= 255 * n,
    decreases n,
{
    if n > 0 {
        lemma_row_sum_bound(img, base, (n - 1) as nat);
    }
}

proof fn lemma_block_sum_bound(img: Seq<u8>, xs: int, r0: int, c0: int, n: nat, rows: nat)
    ensures
        0 <= block_sum(img, xs, r0, c0, n, rows) <= 255 * n * rows,
    decreases rows,
{
    if rows > 0 {
        lemma_block_sum_bound(img, xs, r0, c0, n, (rows - 1) as nat);
        lemma_row_sum_bound(img, (r0 + rows - 1) * xs + c0, n);
        assert(255 * n * (rows - 1) + 255 * n == 255 * n * rows) by (nonlinear_arith);
    }
}

proof fn lemma_index_bound(xs: int, x2: int, y2: int, n: int, j: int, i: int, dy: int, dx: int)
    by (nonlinear_arith)
    requires
        xs >= 0,
        0 <= j < y2,
        0 <= i < x2,
        0 <= dy < n,
        0 <= dx < n,
        n * x2 <= xs,
    ensures
        0 <= (n * j + dy) * xs + n * i + dx <= (n * y2 - 1) * xs + n * x2 - 1,
{
    assert(n * j + dy <= n * y2 - 1);
    assert((n * j + dy) * xs <= (n * y2 - 1) * xs);
}

proof fn lemma_row_major(jj: int, ii: int, j: int, x2: int)
    by (nonlinear_arith)
    requires
        0 <= jj < j,
        0 <= ii < x2,
    ensures
        jj * x2 + ii < j * x2,
        0 <= jj * x2 + ii,
{
    assert((jj + 1) * x2 <= j * x2);
}

proof fn lemma_next_row(j: int, x2: int)
    by (nonlinear_arith)
    ensures
        (j + 1) * x2 == j * x2 + x2,
{
}

/// 2x2 box-filter down-sampling to half size.
fn gen_bw_image_half(image: &[u8], xsize: usize, ysize: usize) -> (r: (Vec<u8>, usize, usize))
    requires
        box_reads_ok(image@.len(), xsize as int, (xsize / 2) as int, (ysize / 2) as int, 2),
    ensures
        r.1 == xsize / 2,
        r.2 == ysize / 2,
        r.0@.len() == r.1 * r.2,
        forall|j: int, i: int|
            0 <= j < r.2 && 0 <= i < r.1 ==> #[trigger] r.0@[j * r.1 + i] == box_pixel(image@, xsize as int, j, i, 2),
{
    let _len = image.len();
    let xsize2 = xsize / 2;
    let ysize2 = ysize / 2;
    let mut out: Vec<u8> = Vec::new();
    let mut j: usize = 0;
    while j < ysize2
        invariant
            xsize2 == xsize / 2,
            ysize2 == ysize / 2,
            _len == image@.len(),
            box_reads_ok(image@.len(), xsize as int, xsize2 as int, ysize2 as int, 2),
            j <= ysize2,
            out@.len() == j * xsize2,
            forall|jj: int, i: int|
                0 <= jj < j && 0 <= i < xsize2 ==> #[trigger] out@[jj * xsize2 + i] == box_pixel(image@, xsize as int, jj, i, 2),
        decreases ysize2 - j,
    {
        let mut i: usize = 0;
        while i < xsize2
            invariant
                xsize2 == xsize / 2,
                ysize2 == ysize / 2,
                _len == image@.len(),
                box_reads_ok(image@.len(), xsize as int, xsize2 as int, ysize2 as int, 2),
                j < ysize2,
                i <= xsize2,
                out@.len() == j * xsize2 + i,
                forall|jj: int, ii: int|
                    0 <= jj < j && 0 <= ii < xsize2 ==> #[trigger] out@[jj * xsize2 + ii] == box_pixel(image@, xsize as int, jj, ii, 2),
                forall|ii: int| 0 <= ii < i ==> #[trigger] out@[j * xsize2 + ii] == box_pixel(image@, xsize as int, j as int, ii, 2),
            decreases xsize2 - i,
        {
            let r0 = j * 2;
            let c = i * 2;
            let mut sum: u32 = 0;
            let mut dy: usize = 0;
            while dy < 2
                invariant
                    xsize2 == xsize / 2,
                    ysize2 == ysize / 2,
                    _len == image@.len(),
                    box_reads_ok(image@.len(), xsize as int, xsize2 as int, ysize2 as int, 2),
                    j < ysize2,
                    i < xsize2,
                    r0 == 2 * j,
                    c == 2 * i,
                    dy <= 2,
                    sum == block_sum(image@, xsize as int, r0 as int, c as int, 2, dy as nat),
                    sum <= 510 * dy,
                decreases 2 - dy,
            {
                let mut dx: usize = 0;
                let ghost before = sum;
                while dx < 2
                    invariant
                        xsize2 == xsize / 2,
                        ysize2 == ysize / 2,
                        _len == image@.len(),
                        box_reads_ok(image@.len(), xsize as int, xsize2 as int, ysize2 as int, 2),
                        j < ysize2,
                        i < xsize2,
                        r0 == 2 * j,
                        c == 2 * i,
                        dy < 2,
                        dx <= 2,
                        before <= 510 * dy,
                        sum == before + row_sum(image@, (r0 + dy) * xsize + c, dx as nat),
                        sum <= before + 255 * dx,
                    decreases 2 - dx,
                {
                    proof {
                        lemma_index_bound(xsize as int, xsize2 as int, ysize2 as int, 2, j as int, i as int, dy as int, dx as int);
                        assert(2 * xsize2 <= xsize);
                        assert(before + 255 * dx <= 1020);
                    }
                    let idx = (r0 + dy) * xsize + c + dx;
                    let px = image[idx] as u32;
                    sum = sum + px;
                    dx = dx + 1;
                }
                assert(sum <= 510 * (dy + 1));
                dy = dy + 1;
            }
            proof {
                lemma_block_sum_bound(image@, xsize as int, r0 as int, c as int, 2, 2);
            }
            out.push((sum / 4) as u8);
            i = i + 1;
            proof {
                assert forall|jj: int, ii: int|
                    0 <= jj < j && 0 <= ii < xsize2 implies #[trigger] out@[jj * xsize2 + ii] == box_pixel(image@, xsize as int, jj, ii, 2) by {
                    lemma_row_major(jj, ii, j as int, xsize2 as int);
                }
            }
        }
        proof {
            lemma_next_row(j as int, xsize2 as int);
        }
        j = j + 1;
    }
    assert(ysize2 * xsize2 == xsize2 * ysize2) by (nonlinear_arith);
    (out, xsize2, ysize2)
}

/// 3x3 box-filter down-sampling to a third of the size.
fn gen_bw_image_one_third(image: &[u8], xsize: usize, ysize: usize) -> (r: (Vec<u8>, usize, usize))
    requires
        box_reads_ok(image@.len(), xsize as int, (xsize / 3) as int, (ysize / 3) as int, 3),
    ensures
        r.1 == xsize / 3,
        r.2 == ysize / 3,
        r.0@.len() == r.1 * r.2,
        forall|j: int, i: int|
            0 <= j < r.2 && 0 <= i < r.1 ==> #[trigger] r.0@[j * r.1 + i] == box_pixel(image@, xsize as int, j, i, 3),
{
    let _len = image.len();
    let xsize2 = xsize / 3;
    let ysize2 = ysize / 3;
    let mut out: Vec<u8> = Vec::new();
    let mut j: usize = 0;
    while j < ysize2
        invariant
            xsize2 == xsize / 3,
            ysize2 == ysize / 3,
            _len == image@.len(),
            box_reads_ok(image@.len(), xsize as int, xsize2 as int, ysize2 as int, 3),
            j <= ysize2,
            out@.len() == j * xsize2,
            forall|jj: int, i: int|
                0 <= jj < j && 0 <= i < xsize2 ==> #[trigger] out@[jj * xsize2 + i] == box_pixel(image@, xsize as int, jj, i, 3),
        decreases ysize2 - j,
    {
        let mut i: usize = 0;
        while i < xsize2
            invariant
                xsize2 == xsize / 3,
                ysize2 == ysize / 3,
                _len == image@.len(),
                box_reads_ok(image@.len(), xsize as int, xsize2 as int, ysize2 as int, 3),
                j < ysize2,
                i <= xsize2,
                out@.len() == j * xsize2 + i,
                forall|jj: int, ii: int|
                    0 <= jj < j && 0 <= ii < xsize2 ==> #[trigger] out@[jj * xsize2 + ii] == box_pixel(image@, xsize as int, jj, ii, 3),
                forall|ii: int| 0 <= ii < i ==> #[trigger] out@[j * xsize2 + ii] == box_pixel(image@, xsize as int, j as int, ii, 3),
            decreases xsize2 - i,
        {
            let r0 = j * 3;
            let c = i * 3;
            let mut sum: u32 = 0;
            let mut dy: usize = 0;
            while dy < 3
                invariant
                    xsize2 == xsize / 3,
                    ysize2 == ysize / 3,
                    _len == image@.len(),
                    box_reads_ok(image@.len(), xsize as int, xsize2 as int, ysize2 as int, 3),
                    j < ysize2,
                    i < xsize2,
                    r0 == 3 * j,
                    c == 3 * i,
                    dy <= 3,
                    sum == block_sum(image@, xsize as int, r0 as int, c as int, 3, dy as nat),
                    sum <= 765 * dy,
                decreases 3 - dy,
            {
                let mut dx: usize = 0;
                let ghost before = sum;
                while dx < 3
                    invariant
                        xsize2 == xsize / 3,
                        ysize2 == ysize / 3,
                        _len == image@.len(),
                        box_reads_ok(image@.len(), xsize as int, xsize2 as int, ysize2 as int, 3),
                        j < ysize2,
                        i < xsize2,
                        r0 == 3 * j,
                        c == 3 * i,
                        dy < 3,
                        dx <= 3,
                        before <= 765 * dy,
                        sum == before + row_sum(image@, (r0 + dy) * xsize + c, dx as nat),
                        sum <= before + 255 * dx,
                    decreases 3 - dx,
                {
                    proof {
                        lemma_index_bound(xsize as int, xsize2 as int, ysize2 as int, 3, j as int, i as int, dy as int, dx as int);
                        assert(3 * xsize2 <= xsize);
                        assert(before + 255 * dx <= 2295);
                    }
                    let idx = (r0 + dy) * xsize + c + dx;
                    let px = image[idx] as u32;
                    sum = sum + px;
                    dx = dx + 1;
                }
                assert(sum <= 765 * (dy + 1));
                dy = dy + 1;
            }
            proof {
                lemma_block_sum_bound(image@, xsize as int, r0 as int, c as int, 3, 3);
            }
            out.push((sum / 9) as u8);
            i = i + 1;
            proof {
                assert forall|jj: int, ii: int|
                    0 <= jj < j && 0 <= ii < xsize2 implies #[trigger] out@[jj * xsize2 + ii] == box_pixel(image@, xsize as int, jj, ii, 3) by {
                    lemma_row_major(jj, ii, j as int, xsize2 as int);
                }
            }
        }
        proof {
            lemma_next_row(j as int, xsize2 as int);
        }
        j = j + 1;
    }
    assert(ysize2 * xsize2 == xsize2 * ysize2) by (nonlinear_arith);
    (out, xsize2, ysize2)
}

/// 4x4 box-filter down-sampling to a quarter of the size.
fn gen_bw_image_quart(image: &[u8], xsize: usize, ysize: usize) -> (r: (Vec<u8>, usize, usize))
    requires
        box_reads_ok(image@.len(), xsize as int, (xsize / 4) as int, (ysize / 4) as int, 4),
    ensures
        r.1 == xsize / 4,
        r.2 == ysize / 4,
        r.0@.len() == r.1 * r.2,
        forall|j: int, i: int|
            0 <= j < r.2 && 0 <= i < r.1 ==> #[trigger] r.0@[j * r.1 + i] == box_pixel(image@, xsize as int, j, i, 4),
{
    let _len = image.len();
    let xsize2 = xsize / 4;
    let ysize2 = ysize / 4;
    let mut out: Vec<u8> = Vec::new();
    let mut j: usize = 0;
    while j < ysize2
        invariant
            xsize2 == xsize / 4,
            ysize2 == ysize / 4,
            _len == image@.len(),
            box_reads_ok(image@.len(), xsize as int, xsize2 as int, ysize2 as int, 4),
            j <= ysize2,
            out@.len() == j * xsize2,
            forall|jj: int, i: int|
                0 <= jj < j && 0 <= i < xsize2 ==> #[trigger] out@[jj * xsize2 + i] == box_pixel(image@, xsize as int, jj, i, 4),
        decreases ysize2 - j,
    {
        let mut i: usize = 0;
        while i < xsize2
            invariant
                xsize2 == xsize / 4,
                ysize2 == ysize / 4,
                _len == image@.len(),
                box_reads_ok(image@.len(), xsize as int, xsize2 as int, ysize2 as int, 4),
                j < ysize2,
                i <= xsize2,
                out@.len() == j * xsize2 + i,
                forall|jj: int, ii: int|
                    0 <= jj < j && 0 <= ii < xsize2 ==> #[trigger] out@[jj * xsize2 + ii] == box_pixel(image@, xsize as int, jj, ii, 4),
                forall|ii: int| 0 <= ii < i ==> #[trigger] out@[j * xsize2 + ii] == box_pixel(image@, xsize as int, j as int, ii, 4),
            decreases xsize2 - i,
        {
            let r0 = j * 4;
            let c = i * 4;
            let mut sum: u32 = 0;
            let mut dy: usize = 0;
            while dy < 4
                invariant
                    xsize2 == xsize / 4,
                    ysize2 == ysize / 4,
                    _len == image@.len(),
                    box_reads_ok(image@.len(), xsize as int, xsize2 as int, ysize2 as int, 4),
                    j < ysize2,
                    i < xsize2,
                    r0 == 4 * j,
                    c == 4 * i,
                    dy <= 4,
                    sum == block_sum(image@, xsize as int, r0 as int, c as int, 4, dy as nat),
                    sum <= 1020 * dy,
                decreases 4 - dy,
            {
                let mut dx: usize = 0;
                let ghost before = sum;
                while dx < 4
                    invariant
                        xsize2 == xsize / 4,
                        ysize2 == ysize / 4,
                        _len == image@.len(),
                        box_reads_ok(image@.len(), xsize as int, xsize2 as int, ysize2 as int, 4),
                        j < ysize2,
                        i < xsize2,
                        r0 == 4 * j,
                        c == 4 * i,
                        dy < 4,
                        dx <= 4,
                        before <= 1020 * dy,
                        sum == before + row_sum(image@, (r0 + dy) * xsize + c, dx as nat),
                        sum <= before + 255 * dx,
                    decreases 4 - dx,
                {
                    proof {
                        lemma_index_bound(xsize as int, xsize2 as int, ysize2 as int, 4, j as int, i as int, dy as int, dx as int);
                        assert(4 * xsize2 <= xsize);
                        assert(before + 255 * dx <= 4080);
                    }
                    let idx = (r0 + dy) * xsize + c + dx;
                    let px = image[idx] as u32;
                    sum = sum + px;
                    dx = dx + 1;
                }
                assert(sum <= 1020 * (dy + 1));
                dy = dy + 1;
            }
            proof {
                lemma_block_sum_bound(image@, xsize as int, r0 as int, c as int, 4, 4);
            }
            out.push((sum / 16) as u8);
            i = i + 1;
            proof {
                assert forall|jj: int, ii: int|
                    0 <= jj < j && 0 <= ii < xsize2 implies #[trigger] out@[jj * xsize2 + ii] == box_pixel(image@, xsize as int, jj, ii, 4) by {
                    lemma_row_major(jj, ii, j as int, xsize2 as int);
                }
            }
        }
        proof {
            lemma_next_row(j as int, xsize2 as int);
        }
        j = j + 1;
    }
    assert(ysize2 * xsize2 == xsize2 * ysize2) by (nonlinear_arith);
    (out, xsize2, ysize2)
}

/// Pixel `(row, col)` of an image `xs` pixels wide.
pub open spec fn px(img: Seq<u8>, xs: int, row: int, col: int) -> int {
    img[row * xs + col] as int
}

/// Output pixel `(r, c)` of the two-thirds resampling: every 3x3 block of the
/// source gives a 2x2 block of the result, each output pixel a weighted mean
/// (weights 1, 1/2, 1/2, 1/4, each term rounded down) of a 2x2 corner.
pub open spec fn two_third_pixel(img: Seq<u8>, xs: int, r: int, c: int) -> int {
    let a = 3 * (r / 2);
    let b = 3 * (c / 2);
    if r % 2 == 0 && c % 2 == 0 {
        (px(img, xs, a, b) + px(img, xs, a, b + 1) / 2 + px(img, xs, a + 1, b) / 2
            + px(img, xs, a + 1, b + 1) / 4) * 4 / 9
    } else if r % 2 == 1 && c % 2 == 0 {
        (px(img, xs, a + 1, b) / 2 + px(img, xs, a + 1, b + 1) / 4 + px(img, xs, a + 2, b)
            + px(img, xs, a + 2, b + 1) / 2) * 4 / 9
    } else if r % 2 == 0 {
        (px(img, xs, a, b + 1) / 2 + px(img, xs, a, b + 2) + px(img, xs, a + 1, b + 1) / 4
            + px(img, xs, a + 1, b + 2) / 2) * 4 / 9
    } else {
        (px(img, xs, a + 1, b + 1) / 4 + px(img, xs, a + 1, b + 2) / 2 + px(img, xs, a + 2, b + 1)
            / 2 + px(img, xs, a + 2, b + 2)) * 4 / 9
    }
}

/// Returns the first `xsize * ysize` pixels unchanged.
fn gen_bw_image_full(image: &[u8], xsize: usize, ysize: usize) -> (r: (Vec<u8>, usize, usize))
    requires
        xsize * ysize <= image@.len(),
    ensures
        r.1 == xsize,
        r.2 == ysize,
        r.0@ == image@.subrange(0, xsize * ysize),
{
    let len = image.len();
    assert(xsize * ysize <= len);
    let n = xsize * ysize;
    let head = vstd::slice::slice_subrange(image, 0, n);
    (vstd::slice::slice_to_vec(head), xsize, ysize)
}

/// Weighted resampling to two thirds of the size: each 3x3 source block gives
/// a 2x2 output block.
fn gen_bw_image_two_third(image: &[u8], xsize: usize, ysize: usize) -> (r: (Vec<u8>, usize, usize))
    requires
        box_reads_ok(image@.len(), xsize as int, (xsize / 3) as int, (ysize / 3) as int, 3),
    ensures
        r.1 == xsize / 3 * 2,
        r.2 == ysize / 3 * 2,
        r.0@.len() == r.1 * r.2,
        forall|rr: int, cc: int|
            0 <= rr < r.2 && 0 <= cc < r.1 ==> #[trigger] r.0@[rr * r.1 + cc] == two_third_pixel(image@, xsize as int, rr, cc),
{
    let len = image.len();
    let x3 = xsize / 3;
    let y3 = ysize / 3;
    let xsize2 = x3 * 2;
    let ysize2 = y3 * 2;
    let mut out: Vec<u8> = Vec::new();
    let mut j: usize = 0;
    assert(out@.len() == 2 * j * xsize2) by (nonlinear_arith)
        requires j == 0, out@.len() == 0;
    while j < y3
        invariant
            x3 == xsize / 3,
            y3 == ysize / 3,
            xsize2 == x3 * 2,
            len == image@.len(),
            box_reads_ok(image@.len(), xsize as int, x3 as int, y3 as int, 3),
            j <= y3,
            out@.len() == 2 * j * xsize2,
            forall|rr: int, cc: int|
                0 <= rr < 2 * j && 0 <= cc < xsize2 ==> #[trigger] out@[rr * xsize2 + cc] == two_third_pixel(image@, xsize as int, rr, cc),
        decreases y3 - j,
    {
        let r0 = j * 3;
        let mut row_a: Vec<u8> = Vec::new();
        let mut row_b: Vec<u8> = Vec::new();
        let mut i: usize = 0;
        while i < x3
            invariant
                x3 == xsize / 3,
                y3 == ysize / 3,
                len == image@.len(),
                box_reads_ok(image@.len(), xsize as int, x3 as int, y3 as int, 3),
                j < y3,
                r0 == 3 * j,
                i <= x3,
                row_a@.len() == 2 * i,
                row_b@.len() == 2 * i,
                forall|cc: int| 0 <= cc < 2 * i ==> #[trigger] row_a@[cc] == two_third_pixel(image@, xsize as int, 2 * j, cc),
                forall|cc: int| 0 <= cc < 2 * i ==> #[trigger] row_b@[cc] == two_third_pixel(image@, xsize as int, 2 * j + 1, cc),
            decreases x3 - i,
        {
            let c = i * 3;
            proof {
                let (xs, w, h, jj, ii) = (xsize as int, x3 as int, y3 as int, j as int, i as int);
                lemma_index_bound(xs, w, h, 3, jj, ii, 0, 0);
                lemma_index_bound(xs, w, h, 3, jj, ii, 0, 1);
                lemma_index_bound(xs, w, h, 3, jj, ii, 0, 2);
                lemma_index_bound(xs, w, h, 3, jj, ii, 1, 0);
                lemma_index_bound(xs, w, h, 3, jj, ii, 1, 1);
                lemma_index_bound(xs, w, h, 3, jj, ii, 1, 2);
                lemma_index_bound(xs, w, h, 3, jj, ii, 2, 0);
                lemma_index_bound(xs, w, h, 3, jj, ii, 2, 1);
                lemma_index_bound(xs, w, h, 3, jj, ii, 2, 2);
            }
            let a0 = image[r0 * xsize + c] as u32;
            let a1 = image[r0 * xsize + c + 1] as u32;
            let a2 = image[r0 * xsize + c + 2] as u32;
            let b0 = image[(r0 + 1) * xsize + c] as u32;
            let b1 = image[(r0 + 1) * xsize + c + 1] as u32;
            let b2 = image[(r0 + 1) * xsize + c + 2] as u32;
            let d0 = image[(r0 + 2) * xsize + c] as u32;
            let d1 = image[(r0 + 2) * xsize + c + 1] as u32;
            let d2 = image[(r0 + 2) * xsize + c + 2] as u32;
            row_a.push(((a0 + a1 / 2 + b0 / 2 + b1 / 4) * 4 / 9) as u8);
            row_a.push(((a1 / 2 + a2 + b1 / 4 + b2 / 2) * 4 / 9) as u8);
            row_b.push(((b0 / 2 + b1 / 4 + d0 + d1 / 2) * 4 / 9) as u8);
            row_b.push(((b1 / 4 + b2 / 2 + d1 / 2 + d2) * 4 / 9) as u8);
            proof {
                let ci = 2 * i as int;
                assert(ci / 2 == i && (ci + 1) / 2 == i && ci % 2 == 0 && (ci + 1) % 2 == 1);
                assert((2 * j as int) / 2 == j && (2 * j + 1) / 2 == j as int);
                assert((2 * j as int) % 2 == 0 && (2 * j + 1) % 2 == 1);
            }
            i = i + 1;
        }
        let ghost prev = out@;
        let ghost top = row_a@;
        let ghost bottom = row_b@;
        out.append(&mut row_a);
        out.append(&mut row_b);
        proof {
            lemma_next_row(2 * j as int, xsize2 as int);
            lemma_next_row(2 * j as int + 1, xsize2 as int);
            assert forall|rr: int, cc: int|
                0 <= rr < 2 * (j + 1) && 0 <= cc < xsize2 implies #[trigger] out@[rr * xsize2 + cc] == two_third_pixel(image@, xsize as int, rr, cc) by {
                if rr < 2 * j {
                    lemma_row_major(rr, cc, 2 * j as int, xsize2 as int);
                    assert(out@[rr * xsize2 + cc] == prev[rr * xsize2 + cc]);
                } else if rr == 2 * j {
                    assert(out@[rr * xsize2 + cc] == top[cc]);
                } else {
                    assert(out@[rr * xsize2 + cc] == bottom[cc]);
                }
            }
        }
        j = j + 1;
    }
    assert(2 * y3 * xsize2 == xsize2 * ysize2) by (nonlinear_arith)
        requires ysize2 == y3 * 2;
    (out, xsize2, ysize2)
}

/// Width of an image `xs` pixels wide after resizing for `mode`.
pub open spec fn resized_width(xs: int, mode: KpmProcMode) -> int {
    match mode {
        KpmProcMode::FullSize => xs,
        KpmProcMode::TwoThirdSize => xs / 3 * 2,
        KpmProcMode::HalfSize => xs / 2,
        KpmProcMode::OneThirdSize => xs / 3,
        KpmProcMode::QuarterSize => xs / 4,
    }
}

/// Pixel `(r, c)` of the image resized for `mode`.
pub open spec fn resized_pixel(img: Seq<u8>, xs: int, mode: KpmProcMode, r: int, c: int) -> int {
    match mode {
        KpmProcMode::FullSize => img[r * xs + c] as int,
        KpmProcMode::TwoThirdSize => two_third_pixel(img, xs, r, c),
        KpmProcMode::HalfSize => box_pixel(img, xs, r, c, 2),
        KpmProcMode::OneThirdSize => box_pixel(img, xs, r, c, 3),
        KpmProcMode::QuarterSize => box_pixel(img, xs, r, c, 4),
    }
}

/// Every pixel that resizing an `xs x ys` image for `mode` reads lies within
/// the first `len` bytes.
pub open spec fn resize_reads_ok(len: nat, xs: int, ys: int, mode: KpmProcMode) -> bool {
    match mode {
        KpmProcMode::FullSize => xs * ys <= len,
        KpmProcMode::TwoThirdSize => box_reads_ok(len, xs, xs / 3, ys / 3, 3),
        KpmProcMode::HalfSize => box_reads_ok(len, xs, xs / 2, ys / 2, 2),
        KpmProcMode::OneThirdSize => box_reads_ok(len, xs, xs / 3, ys / 3, 3),
        KpmProcMode::QuarterSize => box_reads_ok(len, xs, xs / 4, ys / 4, 4),
    }
}

/// Resizes a grayscale image for the given processing resolution and
/// returns `(pixels, new_width, new_height)`, the pixels row-major.
pub fn resize_image(image: &[u8], xsize: usize, ysize: usize, proc_mode: KpmProcMode) -> (r: (
    Vec<u8>,
    usize,
    usize,
))
    requires
        resize_reads_ok(image@.len(), xsize as int, ysize as int, proc_mode),
    ensures
        r.1 == resized_width(xsize as int, proc_mode),
        r.2 == resized_width(ysize as int, proc_mode),
        r.0@.len() == r.1 * r.2,
        forall|rr: int, cc: int|
            0 <= rr < r.2 && 0 <= cc < r.1 ==> #[trigger] r.0@[rr * r.1 + cc] == resized_pixel(image@, xsize as int, proc_mode, rr, cc),
{
    match proc_mode {
        KpmProcMode::FullSize => {
            let r = gen_bw_image_full(image, xsize, ysize);
            proof {
                assert forall|rr: int, cc: int| 0 <= rr < r.2 && 0 <= cc < r.1 implies #[trigger] r.0@[rr * r.1 + cc]
                    == resized_pixel(image@, xsize as int, proc_mode, rr, cc) by {
                    lemma_row_major(rr, cc, ysize as int, xsize as int);
                }
            }
            r
        },
        KpmProcMode::TwoThirdSize => gen_bw_image_two_third(image, xsize, ysize),
        KpmProcMode::HalfSize => gen_bw_image_half(image, xsize, ysize),
        KpmProcMode::OneThirdSize => gen_bw_image_one_third(image, xsize, ysize),
        KpmProcMode::QuarterSize => gen_bw_image_quart(image, xsize, ysize),
    }
}

/// Resizing to two thirds maps the 3x3 source block whose top-left pixel is
/// `(3j, 3i)` onto the 2x2 output block whose top-left pixel is `(2j, 2i)`.
/// Each output pixel is the weighted mean of the 2x2 corner of the source
/// block on its own side: weight 1 on the block's corner pixel, 1/2 on its two
/// neighbours along the block's edges, 1/4 on the centre pixel (each term
/// rounded down), and the sum scaled by 4/9. So the top-right output pixel
/// reads source rows `3j..3j+1`, columns `3i+1..3i+2`, and the bottom-left one
/// rows `3j+1..3j+2`, columns `3i..3i+1`.
pub proof fn lemma_two_third_block(img: Seq<u8>, xs: int, j: int, i: int)
    requires
        0 <= j,
        0 <= i,
    ensures
        resized_pixel(img, xs, KpmProcMode::TwoThirdSize, 2 * j, 2 * i) == ((img[(3 * j) * xs + 3 * i] as int)
            + (img[(3 * j) * xs + 3 * i + 1] as int) / 2 + (img[(3 * j + 1) * xs + 3 * i] as int) / 2
            + (img[(3 * j + 1) * xs + 3 * i + 1] as int) / 4) * 4 / 9,
        resized_pixel(img, xs, KpmProcMode::TwoThirdSize, 2 * j, 2 * i + 1) == ((img[(3 * j) * xs + 3 * i + 1] as int) / 2
            + (img[(3 * j) * xs + 3 * i + 2] as int) + (img[(3 * j + 1) * xs + 3 * i + 1] as int) / 4
            + (img[(3 * j + 1) * xs + 3 * i + 2] as int) / 2) * 4 / 9,
        resized_pixel(img, xs, KpmProcMode::TwoThirdSize, 2 * j + 1, 2 * i) == ((img[(3 * j + 1) * xs + 3 * i] as int) / 2
            + (img[(3 * j + 1) * xs + 3 * i + 1] as int) / 4 + (img[(3 * j + 2) * xs + 3 * i] as int)
            + (img[(3 * j + 2) * xs + 3 * i + 1] as int) / 2) * 4 / 9,
        resized_pixel(img, xs, KpmProcMode::TwoThirdSize, 2 * j + 1, 2 * i + 1) == ((img[(3 * j + 1) * xs + 3 * i + 1] as int)
            / 4 + (img[(3 * j + 1) * xs + 3 * i + 2] as int) / 2 + (img[(3 * j + 2) * xs + 3 * i + 1] as int) / 2
            + (img[(3 * j + 2) * xs + 3 * i + 2] as int)) * 4 / 9,
{
    assert((2 * j) / 2 == j && (2 * j) % 2 == 0 && (2 * j + 1) / 2 == j && (2 * j + 1) % 2 == 1);
    assert((2 * i) / 2 == i && (2 * i) % 2 == 0 && (2 * i + 1) / 2 == i && (2 * i + 1) % 2 == 1);
}

/// Row `j` of the vertically compressed image: the mean (rounded down) of
/// rows `2j` and `2j + 1`.
pub open spec fn compressed_pixel(img: Seq<u8>, xs: int, j: int, i: int) -> int {
    (img[2 * j * xs + i] + img[(2 * j + 1) * xs + i]) / 2
}

/// Halves the height of an `xsize x ysize` image by averaging each pair of
/// rows; an odd last row is dropped.
pub fn compress_y(image: &[u8], xsize: usize, ysize: usize) -> (r: Vec<u8>)
    requires
        xsize * ysize <= image@.len(),
    ensures
        r@.len() == xsize * (ysize / 2),
        forall|j: int, i: int|
            0 <= j < ysize / 2 && 0 <= i < xsize ==> #[trigger] r@[j * xsize + i] == compressed_pixel(image@, xsize as int, j, i),
{
    let len = image.len();
    let half_h = ysize / 2;
    let mut out: Vec<u8> = Vec::new();
    let mut j: usize = 0;
    while j < half_h
        invariant
            half_h == ysize / 2,
            len == image@.len(),
            xsize * ysize <= len,
            j <= half_h,
            out@.len() == j * xsize,
            forall|jj: int, i: int|
                0 <= jj < j && 0 <= i < xsize ==> #[trigger] out@[jj * xsize + i] == compressed_pixel(image@, xsize as int, jj, i),
        decreases half_h - j,
    {
        let mut i: usize = 0;
        proof {
            assert((2 * j + 2) * xsize <= xsize * ysize) by (nonlinear_arith)
                requires j < half_h, half_h == ysize / 2;
        }
        while i < xsize
            invariant
                half_h == ysize / 2,
                len == image@.len(),
                xsize * ysize <= len,
                j < half_h,
                (2 * j + 2) * xsize <= len,
                i <= xsize,
                out@.len() == j * xsize + i,
                forall|jj: int, ii: int|
                    0 <= jj < j && 0 <= ii < xsize ==> #[trigger] out@[jj * xsize + ii] == compressed_pixel(image@, xsize as int, jj, ii),
                forall|ii: int| 0 <= ii < i ==> #[trigger] out@[j * xsize + ii] == compressed_pixel(image@, xsize as int, j as int, ii),
            decreases xsize - i,
        {
            proof {
                lemma_next_row(2 * j as int, xsize as int);
                lemma_next_row(2 * j as int + 1, xsize as int);
            }
            let a = image[2 * j * xsize + i] as u32;
            let b = image[(2 * j + 1) * xsize + i] as u32;
            out.push(((a + b) / 2) as u8);
            proof {
                assert forall|jj: int, ii: int|
                    0 <= jj < j && 0 <= ii < xsize implies #[trigger] out@[jj * xsize + ii] == compressed_pixel(image@, xsize as int, jj, ii) by {
                    lemma_row_major(jj, ii, j as int, xsize as int);
                }
            }
            i = i + 1;
        }
        proof {
            lemma_next_row(j as int, xsize as int);
        }
        j = j + 1;
    }
    assert(half_h * xsize == xsize * half_h) by (nonlinear_arith);
    out
}

} // verus!
