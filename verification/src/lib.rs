//! Image-to-Unicode conversion: resampling a grayscale image into 8x16
//! cells, optional Atkinson dithering, and selection of the best-matching
//! character per cell from a catalog of embedding/luminosity signatures.
//!
//! All intensities are 8-bit samples; embedding components, luminosities
//! and the blending weight are fixed-point values in micro-units
//! (1_000_000 = 1.0), so every score is computed exactly in integers.
//! Embedding extraction itself is an external collaborator: callers hand
//! each cell's embedding in, and the per-cell matching is a pure function
//! of patch, catalog and weight.

use vstd::prelude::*;

pub mod chunk;
pub mod dither;
pub mod embedding;
pub mod glyph;
pub mod gray;
pub mod wasm;

pub use chunk::ImageChunker;
pub use embedding::EmbeddingMatcher;
pub use gray::GrayImage;
pub use wasm::WasmConverter;

use crate::chunk::chunk_sample;
use crate::chunk::chunk_of;
use crate::chunk::patch_luminosity;
use crate::chunk::spec_patch_luminosity;
use crate::chunk::PATCH_LEN;
use crate::dither::dither_atkinson;
use crate::dither::dither_pixel;
use crate::gray::lemma_row_major_index_in_range;

verus! {

/// Errors of the conversion pipeline.
#[derive(Clone, Copy, Debug, PartialEq, Eq, Structural)]
pub enum PicunicError {
    /// The flat embedding table does not hold `chars * dim` entries.
    EmbeddingLen { chars: usize, dim: usize, actual: usize },
    /// The luminosity list and the character list differ in length.
    LuminosityCount { expected: usize, actual: usize },
    /// A patch embedding does not have the catalog's dimension.
    DimensionMismatch { expected: usize, actual: usize },
    /// The catalog holds no entries, so no best match exists.
    EmptyCatalog,
    /// A raw RGBA buffer holds fewer than `4 * width * height` bytes.
    ImageDataLen { width: u32, height: u32, actual: usize },
}

/// Output rows for an image of `img_w * img_h` rendered `out_w`
/// characters wide: terminal cells are about 1:2, so
/// `round(out_w / (img_w / img_h) * 0.5)`, at least 1, capped at the
/// `u32` range.
pub open spec fn spec_output_height(img_w: int, img_h: int, out_w: int) -> int {
    let raw = (out_w * img_h + img_w) / (2 * img_w);
    let capped = if raw > 0xffff_ffff {
        0xffff_ffff
    } else {
        raw
    };
    if capped < 1 {
        1
    } else {
        capped
    }
}

/// Dithering block scale for an `img_w`-wide image rendered `out_w`
/// characters wide: the source pixels per character column, at least 1.
pub open spec fn spec_dither_scale(img_w: int, out_w: int) -> int {
    let p = img_w / out_w;
    if p < 1 {
        1
    } else {
        p
    }
}

/// The pixels the resampler reads: the source itself, or its dithered
/// form.
pub open spec fn spec_source_pixels(pixels: Seq<u8>, w: int, h: int, dither: bool, s: int) -> Seq<
    u8,
> {
    if dither {
        Seq::new((w * h) as nat, |i: int| dither_pixel(pixels, w, h, s, i % w, i / w))
    } else {
        pixels
    }
}

/// The patch of cell `(col, row)` over the (possibly dithered) source.
pub open spec fn spec_cell_patch(
    pixels: Seq<u8>,
    w: int,
    h: int,
    cols: int,
    rows: int,
    col: int,
    row: int,
) -> Seq<u8> {
    Seq::new(PATCH_LEN as nat, |t: int| chunk_sample(pixels, w, h, cols, rows, col, row, t))
}

/// Exact output height as executable code.
fn output_height(img_w: u32, img_h: u32, out_w: u32) -> (r: u32)
    requires
        img_w >= 1,
    ensures
        r == spec_output_height(img_w as int, img_h as int, out_w as int),
{
    proof {
        assert(out_w * img_h + img_w < 0x1_0000_0000_0000_0000) by (nonlinear_arith)
            requires
                0 <= out_w <= 0xffff_ffffu32,
                0 <= img_h <= 0xffff_ffffu32,
                0 <= img_w <= 0xffff_ffffu32,
        ;
    }
    let raw: u64 = (out_w as u64 * img_h as u64 + img_w as u64) / (2 * img_w as u64);
    let capped: u64 = if raw > 0xffff_ffff {
        0xffff_ffff
    } else {
        raw
    };
    if capped < 1 {
        1
    } else {
        capped as u32
    }
}

/// Converts a grayscale image into a grid of characters, one per cell,
/// from per-cell embeddings supplied by the caller.
pub struct Converter {
    width: u32,
    matcher: EmbeddingMatcher,
    dither: bool,
}

impl Converter {
    pub closed spec fn spec_width(&self) -> u32 {
        self.width
    }

    pub closed spec fn spec_dither(&self) -> bool {
        self.dither
    }

    pub closed spec fn spec_matcher(&self) -> EmbeddingMatcher {
        self.matcher
    }

    pub open spec fn wf(&self) -> bool {
        &&& self.spec_matcher().wf()
        &&& self.spec_width() >= 1
    }

    /// Rows of the output grid for a given source image.
    pub open spec fn spec_rows(&self, img_w: int, img_h: int) -> int {
        spec_output_height(img_w, img_h, self.spec_width() as int)
    }

    /// The character emitted for one cell: a blank when no embedding was
    /// supplied or the matcher fails, else the best catalog match.
    pub open spec fn spec_cell_char(
        &self,
        pixels: Seq<u8>,
        w: int,
        h: int,
        rows: int,
        col: int,
        row: int,
        cell: Option<Vec<i32>>,
    ) -> char {
        match cell {
            Option::None => ' ',
            Option::Some(e) => {
                let cols = self.spec_width() as int;
                let patch = spec_cell_patch(pixels, w, h, cols, rows, col, row);
                let pl = spec_patch_luminosity(patch);
                let m = self.spec_matcher();
                if e@.len() != m.spec_dim() {
                    ' '
                } else if m.spec_len() == 0 {
                    ' '
                } else {
                    m.chars_view()[m.best_in_prefix(e@, pl, false, m.spec_len())]
                }
            },
        }
    }

    /// Character `k` of the output text: row-major cells, each row closed
    /// by a newline.
    pub open spec fn spec_grid_char(
        &self,
        pixels: Seq<u8>,
        w: int,
        h: int,
        rows: int,
        cells: Seq<Option<Vec<i32>>>,
        k: int,
    ) -> char {
        let cols = self.spec_width() as int;
        let row = k / (cols + 1);
        let col = k % (cols + 1);
        if col == cols {
            '\n'
        } else {
            self.spec_cell_char(pixels, w, h, rows, col, row, cells[row * cols + col])
        }
    }

    /// A converter over the given catalog, 80 characters wide, without
    /// dithering.
    pub fn new(matcher: EmbeddingMatcher) -> (c: Converter)
        requires
            matcher.wf(),
        ensures
            c.wf(),
            c.spec_width() == 80,
            c.spec_dither() == false,
            c.spec_matcher() == matcher,
    {
        Converter { width: 80, matcher, dither: false }
    }

    /// Sets the output width in characters; a width of zero is raised to
    /// one.
    pub fn with_width(self, width: u32) -> (c: Converter)
        ensures
            c.spec_width() == (if width < 1 {
                1u32
            } else {
                width
            }),
            c.spec_dither() == self.spec_dither(),
            c.spec_matcher() == self.spec_matcher(),
    {
        let w: u32 = if width < 1 {
            1
        } else {
            width
        };
        Converter { width: w, ..self }
    }

    /// Enables or disables Atkinson dithering before resampling.
    pub fn with_dither(self, enabled: bool) -> (c: Converter)
        ensures
            c.spec_width() == self.spec_width(),
            c.spec_dither() == enabled,
            c.spec_matcher() == self.spec_matcher(),
    {
        Converter { dither: enabled, ..self }
    }

    /// Sets the edge weight of the underlying matcher, clamped to
    /// micro-unit range.
    pub fn with_edge_weight(self, weight: i32) -> (c: Converter)
        requires
            self.wf(),
        ensures
            c.wf(),
            c.spec_width() == self.spec_width(),
            c.spec_dither() == self.spec_dither(),
            c.spec_matcher().entries() == self.spec_matcher().entries(),
            c.spec_matcher().spec_edge_weight() == (if weight < 0 {
                0i32
            } else if weight > 1_000_000 {
                1_000_000i32
            } else {
                weight
            }),
    {
        let mut m = self.matcher;
        m.set_edge_weight(weight);
        Converter { matcher: m, ..self }
    }

    /// Restricts the catalog to ASCII printable characters.
    pub fn ascii_only(self) -> (c: Converter)
        requires
            self.wf(),
        ensures
            c.wf(),
            c.spec_width() == self.spec_width(),
            c.spec_dither() == self.spec_dither(),
            c.spec_matcher().entries() == embedding::filtered_entries(
                self.spec_matcher().entries(),
                true,
            ),
    {
        let mut m = self.matcher;
        m.filter_ascii();
        Converter { matcher: m, ..self }
    }
}

/// Resamples the image, dithered first when asked, into one 128-sample
/// patch per cell of an `out_w`-wide grid, with each patch's mean
/// luminosity in micro-units: `(patches, luminosities, cols, rows)`.
pub fn extract_patches(image: &GrayImage, out_w: u32, dither: bool) -> (r: (
    Vec<Vec<u8>>,
    Vec<u32>,
    u32,
    u32,
))
    requires
        image.wf(),
        image.spec_width() >= 1,
        image.spec_height() >= 1,
        out_w >= 1,
        out_w * spec_output_height(
            image.spec_width() as int,
            image.spec_height() as int,
            out_w as int,
        ) <= usize::MAX,
    ensures
        ({
            let w = image.spec_width() as int;
            let h = image.spec_height() as int;
            let rows = spec_output_height(w, h, out_w as int);
            let spix = spec_source_pixels(image@, w, h, dither, spec_dither_scale(w, out_w as int));
            &&& r.2 == out_w
            &&& r.3 == rows
            &&& r.0@.len() == out_w * rows
            &&& r.1@.len() == out_w * rows
            &&& forall|k: int|
                0 <= k < r.0@.len() ==> (#[trigger] r.0@[k])@ == spec_cell_patch(
                    spix,
                    w,
                    h,
                    out_w as int,
                    rows,
                    k % (out_w as int),
                    k / (out_w as int),
                )
            &&& forall|k: int|
                0 <= k < r.1@.len() ==> #[trigger] r.1@[k] == spec_patch_luminosity(
                    spec_cell_patch(
                        spix,
                        w,
                        h,
                        out_w as int,
                        rows,
                        k % (out_w as int),
                        k / (out_w as int),
                    ),
                )
        }),
{
    let w: u32 = image.width();
    let h: u32 = image.height();
    let rows: u32 = output_height(w, h, out_w);
    let ppc: u32 = w / out_w;
    let s: u32 = if ppc < 1 {
        1
    } else {
        ppc
    };
    let ghost spix = spec_source_pixels(
        image@,
        w as int,
        h as int,
        dither,
        spec_dither_scale(w as int, out_w as int),
    );
    let dithered: GrayImage;
    let src: &GrayImage = if dither {
        dithered = dither_atkinson(image, s);
        proof {
            assert forall|i: int| 0 <= i < dithered@.len() implies #[trigger] dithered@[i]
                == dither_pixel(
                image@,
                w as int,
                h as int,
                s as int,
                i % (w as int),
                i / (w as int),
            ) by {
                vstd::arithmetic::div_mod::lemma_fundamental_div_mod(i, w as int);
                vstd::arithmetic::div_mod::lemma_mod_division_less_than_divisor(i, w as int);
                let x = i % (w as int);
                let y = i / (w as int);
                assert(0 <= y < h) by (nonlinear_arith)
                    requires
                        i == w * y + x,
                        0 <= x < w,
                        0 <= i < w * h,
                        1 <= w,
                ;
                lemma_row_major_index_in_range(w as int, h as int, x, y);
                assert(dithered.pix(x, y) == dithered@[y * (w as int) + x]);
            }
            assert(dithered@ =~= spix);
        }
        &dithered
    } else {
        image
    };
    proof {
        assert(src@ == spix);
        assert(src.spec_width() == w && src.spec_height() == h);
    }
    let total: u64 = out_w as u64 * rows as u64;
    proof {
        assert(out_w * rows < 0x1_0000_0000_0000_0000) by (nonlinear_arith)
            requires
                out_w <= 0xffff_ffffu32,
                rows <= 0xffff_ffffu32,
        ;
    }
    let mut patches: Vec<Vec<u8>> = Vec::new();
    let mut lums: Vec<u32> = Vec::new();
    let mut k: u64 = 0;
    while k < total
        invariant
            k <= total,
            total == out_w * rows,
            1 <= out_w,
            1 <= rows,
            src.wf(),
            src.spec_width() == w,
            src.spec_height() == h,
            1 <= w,
            1 <= h,
            src@ == spix,
            w == image.spec_width(),
            h == image.spec_height(),
            rows == spec_output_height(w as int, h as int, out_w as int),
            patches@.len() == k,
            lums@.len() == k,
            forall|j: int| 0 <= j < k ==> (#[trigger] patches@[j])@ == spec_cell_patch(
                spix,
                w as int,
                h as int,
                out_w as int,
                rows as int,
                j % (out_w as int),
                j / (out_w as int),
            ),
            forall|j: int| 0 <= j < k ==> #[trigger] lums@[j] == spec_patch_luminosity(
                spec_cell_patch(
                    spix,
                    w as int,
                    h as int,
                    out_w as int,
                    rows as int,
                    j % (out_w as int),
                    j / (out_w as int),
                ),
            ),
        decreases total - k,
    {
        let col: u64 = k % out_w as u64;
        let row: u64 = k / out_w as u64;
        proof {
            vstd::arithmetic::div_mod::lemma_fundamental_div_mod(k as int, out_w as int);
            assert(row < rows) by (nonlinear_arith)
                requires
                    k == out_w * row + col,
                    0 <= col < out_w,
                    0 <= k < out_w * rows,
                    1 <= out_w,
            ;
        }
        let patch = chunk_of(src, out_w, rows, col as u32, row as u32);
        proof {
            assert(patch@ =~= spec_cell_patch(
                spix,
                w as int,
                h as int,
                out_w as int,
                rows as int,
                k as int % (out_w as int),
                k as int / (out_w as int),
            ));
        }
        let lum: u32 = patch_luminosity(&patch);
        patches.push(patch);
        lums.push(lum);
        k = k + 1;
    }
    (patches, lums, out_w, rows)
}

impl Converter {
    /// Resamples a source image into patches and luminosities for this
    /// converter's grid, applying its dithering choice.
    pub fn extract_patches(&self, image: &GrayImage) -> (r: (Vec<Vec<u8>>, Vec<u32>, u32, u32))
        requires
            self.wf(),
            image.wf(),
            image.spec_width() >= 1,
            image.spec_height() >= 1,
            self.spec_width() * self.spec_rows(
                image.spec_width() as int,
                image.spec_height() as int,
            ) <= usize::MAX,
        ensures
            ({
                let w = image.spec_width() as int;
                let h = image.spec_height() as int;
                let rows = self.spec_rows(w, h);
                let spix = spec_source_pixels(
                    image@,
                    w,
                    h,
                    self.spec_dither(),
                    spec_dither_scale(w, self.spec_width() as int),
                );
                &&& r.2 == self.spec_width()
                &&& r.3 == rows
                &&& r.0@.len() == self.spec_width() * rows
                &&& r.1@.len() == self.spec_width() * rows
                &&& forall|k: int|
                    0 <= k < r.0@.len() ==> (#[trigger] r.0@[k])@ == spec_cell_patch(
                        spix,
                        w,
                        h,
                        self.spec_width() as int,
                        rows,
                        k % (self.spec_width() as int),
                        k / (self.spec_width() as int),
                    )
                &&& forall|k: int|
                    0 <= k < r.1@.len() ==> #[trigger] r.1@[k] == spec_patch_luminosity(
                        spec_cell_patch(
                            spix,
                            w,
                            h,
                            self.spec_width() as int,
                            rows,
                            k % (self.spec_width() as int),
                            k / (self.spec_width() as int),
                        ),
                    )
            }),
    {
        extract_patches(image, self.width, self.dither)
    }

    /// Renders the whole grid: one character per cell from the supplied
    /// per-cell embeddings (row-major, one entry per cell, `None` for a
    /// cell whose embedding could not be computed — it becomes a blank
    /// rather than failing the conversion), each row closed by a newline.
    pub fn convert(&self, image: &GrayImage, cell_embeddings: &Vec<Option<Vec<i32>>>) -> (out:
        String)
        requires
            self.wf(),
            image.wf(),
            image.spec_width() >= 1,
            image.spec_height() >= 1,
            cell_embeddings@.len() == self.spec_width() * self.spec_rows(
                image.spec_width() as int,
                image.spec_height() as int,
            ),
            self.spec_rows(image.spec_width() as int, image.spec_height() as int) * (
            self.spec_width() + 1) <= usize::MAX,
        ensures
            ({
                let w = image.spec_width() as int;
                let h = image.spec_height() as int;
                let rows = self.spec_rows(w, h);
                let spix = spec_source_pixels(
                    image@,
                    w,
                    h,
                    self.spec_dither(),
                    spec_dither_scale(w, self.spec_width() as int),
                );
                &&& out@.len() == rows * (self.spec_width() + 1)
                &&& forall|k: int|
                    0 <= k < out@.len() ==> #[trigger] out@[k] == self.spec_grid_char(
                        spix,
                        w,
                        h,
                        rows,
                        cell_embeddings@,
                        k,
                    )
            }),
    {
        let w: u32 = image.width();
        let h: u32 = image.height();
        let cols: u32 = self.width;
        let rows: u32 = output_height(w, h, cols);
        let ppc: u32 = w / cols;
        let s: u32 = if ppc < 1 {
            1
        } else {
            ppc
        };
        let ghost spix = spec_source_pixels(
            image@,
            w as int,
            h as int,
            self.spec_dither(),
            spec_dither_scale(w as int, cols as int),
        );
        let dithered: GrayImage;
        let src: &GrayImage = if self.dither {
            dithered = dither_atkinson(image, s);
            proof {
                assert forall|i: int| 0 <= i < dithered@.len() implies #[trigger] dithered@[i]
                    == dither_pixel(
                    image@,
                    w as int,
                    h as int,
                    s as int,
                    i % (w as int),
                    i / (w as int),
                ) by {
                    vstd::arithmetic::div_mod::lemma_fundamental_div_mod(i, w as int);
                    vstd::arithmetic::div_mod::lemma_mod_division_less_than_divisor(i, w as int);
                    let x = i % (w as int);
                    let y = i / (w as int);
                    assert(0 <= y < h) by (nonlinear_arith)
                        requires
                            i == w * y + x,
                            0 <= x < w,
                            0 <= i < w * h,
                            1 <= w,
                    ;
                    lemma_row_major_index_in_range(w as int, h as int, x, y);
                    assert(dithered.pix(x, y) == dithered@[y * (w as int) + x]);
                }
                assert(dithered@ =~= spix);
            }
            &dithered
        } else {
            image
        };
        let total: u64 = rows as u64 * (cols as u64 + 1);
        proof {
            assert(rows * (cols + 1) < 0x1_0000_0000_0000_0000) by (nonlinear_arith)
                requires
                    rows <= 0xffff_ffffu32,
                    cols <= 0xffff_ffffu32,
            ;
        }
        let _cell_count: usize = cell_embeddings.len();
        let mut out = String::new();
        let mut k: u64 = 0;
        while k < total
            invariant
                k <= total,
                total == rows * (cols as int + 1),
                1 <= cols,
                1 <= rows,
                cols == self.spec_width(),
                self.wf(),
                src.wf(),
                src.spec_width() == w,
                src.spec_height() == h,
                1 <= w,
                1 <= h,
                src@ == spix,
                w == image.spec_width(),
                h == image.spec_height(),
                rows == self.spec_rows(w as int, h as int),
                cell_embeddings@.len() == cols * rows,
                cell_embeddings@.len() <= usize::MAX,
                out@.len() == k,
                forall|j: int| 0 <= j < k ==> #[trigger] out@[j] == self.spec_grid_char(
                    spix,
                    w as int,
                    h as int,
                    rows as int,
                    cell_embeddings@,
                    j,
                ),
            decreases total - k,
        {
            let col: u64 = k % (cols as u64 + 1);
            let row: u64 = k / (cols as u64 + 1);
            proof {
                vstd::arithmetic::div_mod::lemma_fundamental_div_mod(k as int, cols as int + 1);
                assert(row < rows) by (nonlinear_arith)
                    requires
                        k == (cols + 1) * row + col,
                        0 <= col < cols + 1,
                        0 <= k < rows * (cols as int + 1),
                        1 <= cols,
                ;
            }
            if col == cols as u64 {
                push_char(&mut out, '\n');
            } else {
                proof {
                    assert(row * cols + col < rows * cols && rows * cols == cols * rows && row
                        * cols + col < 0x1_0000_0000_0000_0000) by (nonlinear_arith)
                        requires
                            0 <= col < cols,
                            0 <= row,
                            row < rows,
                            cols <= 0xffff_ffffu32,
                            rows <= 0xffff_ffffu32,
                    ;
                }
                let idx: u64 = row * cols as u64 + col;
                let cell: &Option<Vec<i32>> = &cell_embeddings[idx as usize];
                let ch: char = match cell {
                    Option::None => ' ',
                    Option::Some(e) => {
                        let patch = chunk_of(src, cols, rows, col as u32, row as u32);
                        proof {
                            assert(patch@ =~= spec_cell_patch(
                                spix,
                                w as int,
                                h as int,
                                cols as int,
                                rows as int,
                                col as int,
                                row as int,
                            ));
                        }
                        let pl: u32 = patch_luminosity(&patch);
                        match self.matcher.find_best_match(e, pl as i32) {
                            Result::Ok(c) => c,
                            Result::Err(_) => ' ',
                        }
                    },
                };
                push_char(&mut out, ch);
                proof {
                    assert(ch == self.spec_cell_char(
                        spix,
                        w as int,
                        h as int,
                        rows as int,
                        col as int,
                        row as int,
                        cell_embeddings@[idx as int],
                    ));
                }
            }
            proof {
                assert(out@[k as int] == self.spec_grid_char(
                    spix,
                    w as int,
                    h as int,
                    rows as int,
                    cell_embeddings@,
                    k as int,
                ));
            }
            k = k + 1;
        }
        out
    }
}

/// Relies on `String::push`: appends exactly one character.
#[verifier::external_body]
fn push_char(s: &mut String, c: char)
    ensures
        final(s)@ == old(s)@.push(c),
{
    s.push(c);
}

} // verus!
