//! Image chunking: maps a grayscale image onto a grid of `cols * rows`
//! cells and resamples each cell to a canonical 8x16 patch of 128 samples
//! by nearest-neighbor lookup.

use vstd::prelude::*;
use crate::gray::GrayImage;
use crate::gray::lemma_row_major_index_in_range;

verus! {

/// Patch width in samples.
pub const CHUNK_W: u32 = 8;

/// Patch height in samples; terminal cells are about twice as tall as wide.
pub const CHUNK_H: u32 = 16;

/// Samples per patch: `CHUNK_W * CHUNK_H`.
pub const PATCH_LEN: usize = 128;

/// First source coordinate of cell `i` on an axis of `size` pixels split
/// into `cells` cells: `floor(i * size / cells)`.
pub open spec fn cell_lo(size: int, cells: int, i: int) -> int {
    i * size / cells
}

/// One past the last source coordinate of cell `i`'s resampling region:
/// `ceil((i + 1) * size / cells)`, clamped to `size`.
pub open spec fn cell_hi(size: int, cells: int, i: int) -> int {
    let c = ((i + 1) * size + cells - 1) / cells;
    if c < size {
        c
    } else {
        size
    }
}

/// Extent of cell `i`'s resampling region, floored to at least 1 so that a
/// region is never empty.
pub open spec fn region_len(size: int, cells: int, i: int) -> int {
    let d = cell_hi(size, cells, i) - cell_lo(size, cells, i);
    if d < 1 {
        1
    } else {
        d
    }
}

/// Source coordinate of target sample `t` (of `parts` samples) within cell
/// `i`: nearest-neighbor lookup, clamped to the axis.
pub open spec fn sample_at(size: int, cells: int, i: int, t: int, parts: int) -> int {
    let s = cell_lo(size, cells, i) + t * region_len(size, cells, i) / parts;
    if s < size {
        s
    } else {
        size - 1
    }
}

/// Sample `t` (row-major, 0 <= t < 128) of the patch for cell
/// `(col, row)` of a `cols * rows` grid over a `w * h` image.
pub open spec fn chunk_sample(
    pixels: Seq<u8>,
    w: int,
    h: int,
    cols: int,
    rows: int,
    col: int,
    row: int,
    t: int,
) -> u8 {
    let sx = sample_at(w, cols, col, t % 8, 8);
    let sy = sample_at(h, rows, row, t / 8, 16);
    pixels[sy * w + sx]
}

/// Splits an owned image into patches, one per cell of a `cols * rows`
/// grid.
pub struct ImageChunker {
    image: GrayImage,
    cols: u32,
    rows: u32,
}

impl ImageChunker {
    pub closed spec fn img(&self) -> GrayImage {
        self.image
    }

    pub closed spec fn spec_cols(&self) -> u32 {
        self.cols
    }

    pub closed spec fn spec_rows(&self) -> u32 {
        self.rows
    }

    pub open spec fn wf(&self) -> bool {
        &&& self.img().wf()
        &&& self.img().spec_width() >= 1
        &&& self.img().spec_height() >= 1
        &&& self.spec_cols() >= 1
        &&& self.spec_rows() >= 1
    }

    pub fn new(image: GrayImage, cols: u32, rows: u32) -> (c: ImageChunker)
        requires
            image.wf(),
            image.spec_width() >= 1,
            image.spec_height() >= 1,
            cols >= 1,
            rows >= 1,
        ensures
            c.wf(),
            c.img() == image,
            c.spec_cols() == cols,
            c.spec_rows() == rows,
    {
        ImageChunker { image, cols, rows }
    }

    /// The 8x16 patch for cell `(col, row)`, 128 samples row-major.
    pub fn get_chunk(&self, col: u32, row: u32) -> (r: Vec<u8>)
        requires
            self.wf(),
            col < self.spec_cols(),
            row < self.spec_rows(),
        ensures
            r@.len() == PATCH_LEN,
            forall|t: int| 0 <= t < PATCH_LEN ==> #[trigger] r@[t] == chunk_sample(
                self.img()@,
                self.img().spec_width() as int,
                self.img().spec_height() as int,
                self.spec_cols() as int,
                self.spec_rows() as int,
                col as int,
                row as int,
                t,
            ),
    {
        chunk_of(&self.image, self.cols, self.rows, col, row)
    }
}

/// The 8x16 patch for cell `(col, row)` of a `cols * rows` grid over
/// `image`, 128 samples row-major.
pub fn chunk_of(image: &GrayImage, cols: u32, rows: u32, col: u32, row: u32) -> (r: Vec<u8>)
    requires
        image.wf(),
        image.spec_width() >= 1,
        image.spec_height() >= 1,
        1 <= cols,
        1 <= rows,
        col < cols,
        row < rows,
    ensures
        r@.len() == PATCH_LEN,
        forall|t: int| 0 <= t < PATCH_LEN ==> #[trigger] r@[t] == chunk_sample(
            image@,
            image.spec_width() as int,
            image.spec_height() as int,
            cols as int,
            rows as int,
            col as int,
            row as int,
            t,
        ),
{
    let w: u64 = image.width() as u64;
    let h: u64 = image.height() as u64;
    proof {
        assert(col * w < 0x1_0000_0000_0000_0000 && (col + 1) * w + (cols - 1)
            < 0x1_0000_0000_0000_0000 && row * h < 0x1_0000_0000_0000_0000 && (row + 1) * h + (
        rows - 1) < 0x1_0000_0000_0000_0000) by (nonlinear_arith)
            requires
                col < cols <= 0xffff_ffffu32,
                row < rows <= 0xffff_ffffu32,
                w <= 0xffff_ffffu64,
                h <= 0xffff_ffffu64,
        ;
    }
    let x0: u64 = col as u64 * w / cols as u64;
    let x1r: u64 = ((col as u64 + 1) * w + (cols as u64 - 1)) / cols as u64;
    let x1: u64 = if x1r < w {
        x1r
    } else {
        w
    };
    let cw: u64 = if x1 > x0 {
        x1 - x0
    } else {
        1
    };
    let y0: u64 = row as u64 * h / rows as u64;
    let y1r: u64 = ((row as u64 + 1) * h + (rows as u64 - 1)) / rows as u64;
    let y1: u64 = if y1r < h {
        y1r
    } else {
        h
    };
    let ch: u64 = if y1 > y0 {
        y1 - y0
    } else {
        1
    };
    proof {
        assert(cw == region_len(w as int, cols as int, col as int));
        assert(ch == region_len(h as int, rows as int, row as int));
        lemma_cell_lo_in_axis(w as int, cols as int, col as int);
        lemma_cell_lo_in_axis(h as int, rows as int, row as int);
    }
    let mut r: Vec<u8> = Vec::new();
    let mut t: usize = 0;
    while t < PATCH_LEN
        invariant
            t <= PATCH_LEN,
            r@.len() == t,
            image.wf(),
            image.spec_width() >= 1,
            image.spec_height() >= 1,
            1 <= cols,
            1 <= rows,
            col < cols,
            row < rows,
            w == image.spec_width(),
            h == image.spec_height(),
            x0 == cell_lo(w as int, cols as int, col as int),
            y0 == cell_lo(h as int, rows as int, row as int),
            cw == region_len(w as int, cols as int, col as int),
            ch == region_len(h as int, rows as int, row as int),
            x0 < w,
            y0 < h,
            1 <= cw <= w,
            1 <= ch <= h,
            forall|k: int| 0 <= k < t ==> #[trigger] r@[k] == chunk_sample(
                image@,
                w as int,
                h as int,
                cols as int,
                rows as int,
                col as int,
                row as int,
                k,
            ),
        decreases PATCH_LEN - t,
    {
        let tx: u64 = (t % 8) as u64;
        let ty: u64 = (t / 8) as u64;
        proof {
            assert(tx * cw <= 7 * w && ty * ch <= 15 * h) by (nonlinear_arith)
                requires
                    0 <= tx <= 7,
                    0 <= ty <= 15,
                    1 <= cw <= w,
                    1 <= ch <= h,
            ;
        }
        let sxr: u64 = x0 + tx * cw / 8;
        let sx: u64 = if sxr < w {
            sxr
        } else {
            w - 1
        };
        let syr: u64 = y0 + ty * ch / 16;
        let sy: u64 = if syr < h {
            syr
        } else {
            h - 1
        };
        proof {
            assert(sx == sample_at(w as int, cols as int, col as int, t as int % 8, 8));
            assert(sy == sample_at(h as int, rows as int, row as int, t as int / 8, 16));
        }
        let v = image.get(sx as u32, sy as u32);
        r.push(v);
        t = t + 1;
    }
    r
}

/// The start of a cell's region lies inside the axis: for `i < cells`,
/// `cell_lo(size, cells, i) < size`.
pub proof fn lemma_cell_lo_in_axis(size: int, cells: int, i: int)
    requires
        1 <= size,
        1 <= cells,
        0 <= i < cells,
    ensures
        0 <= cell_lo(size, cells, i) < size,
{
    assert(0 <= i * size / cells && i * size < cells * size) by (nonlinear_arith)
        requires
            1 <= size,
            1 <= cells,
            0 <= i < cells,
    ;
    assert(i * size / cells < size) by (nonlinear_arith)
        requires
            1 <= size,
            1 <= cells,
            0 <= i * size,
            i * size < cells * size,
    ;
}

/// Cell starts are monotone along an axis.
pub proof fn lemma_cell_lo_monotone(size: int, cells: int, i: int, j: int)
    requires
        0 <= size,
        1 <= cells,
        0 <= i <= j,
    ensures
        cell_lo(size, cells, i) <= cell_lo(size, cells, j),
{
    assert(i * size <= j * size) by (nonlinear_arith)
        requires
            0 <= size,
            0 <= i <= j,
    ;
    assert(i * size / cells <= j * size / cells) by (nonlinear_arith)
        requires
            1 <= cells,
            0 <= i * size,
            i * size <= j * size,
    ;
}

/// Every pixel of the axis falls in the half-open span of exactly one
/// cell: the spans `[cell_lo(i), cell_lo(i + 1))` for `0 <= i < cells`
/// partition `[0, size)`.
pub proof fn lemma_pixel_in_unique_cell(size: int, cells: int, p: int)
    requires
        1 <= size,
        1 <= cells,
        0 <= p < size,
    ensures
        exists|i: int|
            0 <= i < cells && #[trigger] cell_lo(size, cells, i) <= p < cell_lo(size, cells, i + 1),
        forall|i: int, j: int|
            (0 <= i < cells && #[trigger] cell_lo(size, cells, i) <= p < cell_lo(size, cells, i + 1)
                && 0 <= j < cells && #[trigger] cell_lo(size, cells, j) <= p < cell_lo(
                size,
                cells,
                j + 1,
            )) ==> i == j,
{
    assert(cell_lo(size, cells, cells) == size) by {
        assert(cells * size / cells == size) by (nonlinear_arith)
            requires
                1 <= cells,
                0 <= size,
        ;
    }
    lemma_some_cell_holds_pixel(size, cells, p, cells);
    assert forall|i: int, j: int|
        (0 <= i < cells && #[trigger] cell_lo(size, cells, i) <= p < cell_lo(size, cells, i + 1)
            && 0 <= j < cells && #[trigger] cell_lo(size, cells, j) <= p < cell_lo(
            size,
            cells,
            j + 1,
        )) implies i == j by {
        if i < j {
            lemma_cell_lo_monotone(size, cells, i + 1, j);
            assert(false);
        }
        if j < i {
            lemma_cell_lo_monotone(size, cells, j + 1, i);
            assert(false);
        }
    }
}

proof fn lemma_some_cell_holds_pixel(size: int, cells: int, p: int, n: int)
    requires
        1 <= size,
        1 <= cells,
        0 <= p,
        0 <= n <= cells,
        p < cell_lo(size, cells, n),
    ensures
        exists|i: int| 0 <= i < n && #[trigger] cell_lo(size, cells, i) <= p < cell_lo(size, cells, i + 1),
    decreases n,
{
    assert(cell_lo(size, cells, 0) == 0);
    if n == 0 {
        assert(false);
    } else {
        if cell_lo(size, cells, n - 1) <= p {
            assert(0 <= n - 1 < n && cell_lo(size, cells, n - 1) <= p < cell_lo(
                size,
                cells,
                n - 1 + 1,
            ));
        } else {
            lemma_some_cell_holds_pixel(size, cells, p, n - 1);
        }
    }
}

/// A cell's resampling region contains its partition span and stays within
/// the image: `cell_lo(i) <= cell_lo(i + 1) <= cell_hi(i) <= size`, so no
/// region extends past the axis and together the regions cover it.
pub proof fn lemma_region_covers_cell(size: int, cells: int, i: int)
    requires
        1 <= size,
        1 <= cells,
        0 <= i < cells,
    ensures
        0 <= cell_lo(size, cells, i),
        cell_lo(size, cells, i) <= cell_lo(size, cells, i + 1),
        cell_lo(size, cells, i + 1) <= cell_hi(size, cells, i),
        cell_hi(size, cells, i) <= size,
{
    lemma_cell_lo_in_axis(size, cells, i);
    lemma_cell_lo_monotone(size, cells, i, i + 1);
    let a = (i + 1) * size;
    assert(a / cells <= (a + cells - 1) / cells) by (nonlinear_arith)
        requires
            1 <= cells,
            0 <= a,
    ;
    assert(0 <= a <= cells * size) by (nonlinear_arith)
        requires
            0 <= i,
            i + 1 <= cells,
            1 <= size,
            a == (i + 1) * size,
    ;
    assert(a / cells <= size) by (nonlinear_arith)
        requires
            1 <= cells,
            1 <= size,
            0 <= a <= cells * size,
    ;
}

/// The arithmetic mean of a patch's 128 samples, in micro-units of full
/// scale: `sum * 1_000_000 / (128 * 255)`.
pub open spec fn spec_patch_luminosity(s: Seq<u8>) -> int {
    sample_sum(s, 128) * 1_000_000 / 32640
}

/// Sum of the first `n` samples.
pub open spec fn sample_sum(s: Seq<u8>, n: int) -> int
    decreases n,
{
    if n <= 0 {
        0
    } else {
        sample_sum(s, n - 1) + s[n - 1]
    }
}

/// The first `n` samples sum to between 0 and `255 * n`.
pub proof fn lemma_sample_sum_bounds(s: Seq<u8>, n: int)
    requires
        0 <= n <= s.len(),
    ensures
        0 <= sample_sum(s, n) <= 255 * n,
    decreases n,
{
    if n > 0 {
        lemma_sample_sum_bounds(s, n - 1);
    }
}

/// Mean luminosity of a 128-sample patch, in micro-units (0 to
/// 1_000_000).
pub fn patch_luminosity(patch: &Vec<u8>) -> (lum: u32)
    requires
        patch@.len() == PATCH_LEN,
    ensures
        lum == spec_patch_luminosity(patch@),
        lum <= 1_000_000,
{
    let mut sum: u32 = 0;
    let mut i: usize = 0;
    while i < PATCH_LEN
        invariant
            i <= PATCH_LEN,
            patch@.len() == PATCH_LEN,
            sum == sample_sum(patch@, i as int),
            sum <= 255 * i,
        decreases PATCH_LEN - i,
    {
        proof {
            lemma_sample_sum_bounds(patch@, i as int + 1);
        }
        sum = sum + patch[i] as u32;
        i = i + 1;
    }
    let lum: u64 = sum as u64 * 1_000_000 / 32640;
    proof {
        lemma_sample_sum_bounds(patch@, 128);
        assert(sample_sum(patch@, 128) * 1_000_000 / 32640 <= 1_000_000) by (nonlinear_arith)
            requires
                0 <= sample_sum(patch@, 128) <= 32640,
        ;
    }
    lum as u32
}

/// The rectangle of samples with corner `(x, y)` and size `w * h`, read
/// row-major.
pub fn extract_chunk(image: &GrayImage, x: u32, y: u32, w: u32, h: u32) -> (r: Vec<u8>)
    requires
        image.wf(),
        x + w <= image.spec_width(),
        y + h <= image.spec_height(),
    ensures
        r@.len() == w * h,
        forall|t: int| 0 <= t < w * h ==> #[trigger] r@[t] == image.pix(
            x + t % (w as int),
            y + t / (w as int),
        ),
{
    if w == 0 || h == 0 {
        let r: Vec<u8> = Vec::new();
        proof {
            assert(w * h == 0) by (nonlinear_arith)
                requires
                    w == 0 || h == 0,
            ;
        }
        return r;
    }
    proof {
        assert(w * h < 0x1_0000_0000_0000_0000) by (nonlinear_arith)
            requires
                w <= 0xffff_ffffu32,
                h <= 0xffff_ffffu32,
        ;
    }
    let n: u64 = w as u64 * h as u64;
    proof {
        lemma_row_major_index_in_range(
            image.spec_width() as int,
            image.spec_height() as int,
            image.spec_width() - 1,
            image.spec_height() - 1,
        );
        assert(w * h <= image.spec_width() * image.spec_height()) by (nonlinear_arith)
            requires
                w <= image.spec_width(),
                h <= image.spec_height(),
                0 <= w,
                0 <= h,
        ;
    }
    let mut r: Vec<u8> = Vec::new();
    let mut t: u64 = 0;
    while t < n
        invariant
            t <= n,
            n == w * h,
            1 <= w,
            1 <= h,
            r@.len() == t,
            image.wf(),
            x + w <= image.spec_width(),
            y + h <= image.spec_height(),
            forall|k: int| 0 <= k < t ==> #[trigger] r@[k] == image.pix(
                x + k % (w as int),
                y + k / (w as int),
            ),
        decreases n - t,
    {
        let tx: u64 = t % w as u64;
        let ty: u64 = t / w as u64;
        proof {
            assert(ty < h) by (nonlinear_arith)
                requires
                    t < w * h,
                    1 <= w,
                    ty == t as int / (w as int),
                    0 <= t,
            ;
        }
        let v = image.get(x + tx as u32, y + ty as u32);
        r.push(v);
        t = t + 1;
    }
    r
}

} // verus!
