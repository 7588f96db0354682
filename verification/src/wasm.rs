//! The host-facing converter: owns a catalog with a width, a dithering
//! flag and an optional ASCII restriction, decodes raw RGBA pixel
//! buffers, and hands patches and luminosities out so that a host can run
//! embedding inference in its own execution context and ask for the best
//! character per cell afterwards.

use vstd::prelude::*;
use crate::PicunicError;
use crate::embedding::EmbeddingMatcher;
use crate::embedding::DIM_MAX;
use crate::gray::gray_from_rgba;
use crate::gray::luma_of;
use crate::extract_patches;
use crate::spec_output_height;
use crate::spec_dither_scale;
use crate::spec_source_pixels;
use crate::spec_cell_patch;
use crate::chunk::spec_patch_luminosity;

verus! {

/// A converter configured once and driven cell by cell from outside.
pub struct WasmConverter {
    width: u32,
    matcher: EmbeddingMatcher,
    dither: bool,
    ascii_only: bool,
}

impl WasmConverter {
    pub closed spec fn spec_width(&self) -> u32 {
        self.width
    }

    pub closed spec fn spec_dither(&self) -> bool {
        self.dither
    }

    pub closed spec fn spec_ascii_only(&self) -> bool {
        self.ascii_only
    }

    pub closed spec fn spec_matcher(&self) -> EmbeddingMatcher {
        self.matcher
    }

    pub open spec fn wf(&self) -> bool {
        self.spec_matcher().wf()
    }

    /// A converter over pre-loaded embeddings and luminosities, 80
    /// characters wide, without dithering, over the full catalog. Fails
    /// exactly when the flat embedding table or the luminosity list does
    /// not match the character count.
    pub fn new(
        char_embeddings: Vec<i32>,
        chars: Vec<char>,
        embedding_dim: usize,
        char_luminosities: Vec<i32>,
    ) -> (r: Result<WasmConverter, PicunicError>)
        requires
            embedding_dim <= DIM_MAX,
        ensures
            char_embeddings@.len() != chars@.len() * embedding_dim ==> r == Err::<
                WasmConverter,
                PicunicError,
            >(
                PicunicError::EmbeddingLen {
                    chars: chars@.len() as usize,
                    dim: embedding_dim,
                    actual: char_embeddings@.len() as usize,
                },
            ),
            char_embeddings@.len() == chars@.len() * embedding_dim && char_luminosities@.len()
                != chars@.len() ==> r == Err::<WasmConverter, PicunicError>(
                PicunicError::LuminosityCount {
                    expected: chars@.len() as usize,
                    actual: char_luminosities@.len() as usize,
                },
            ),
            char_embeddings@.len() == chars@.len() * embedding_dim && char_luminosities@.len()
                == chars@.len() ==> {
                &&& r is Ok
                &&& r->Ok_0.wf()
                &&& r->Ok_0.spec_width() == 80
                &&& r->Ok_0.spec_dither() == false
                &&& r->Ok_0.spec_ascii_only() == false
                &&& r->Ok_0.spec_matcher().chars_view() == chars@
                &&& r->Ok_0.spec_matcher().spec_dim() == embedding_dim
                &&& r->Ok_0.spec_matcher().spec_edge_weight() == 1_000_000
                &&& forall|i: int|
                    0 <= i < chars@.len() ==> #[trigger] r->Ok_0.spec_matcher().emb_at(i)
                        == char_embeddings@.subrange(
                        i * embedding_dim,
                        i * embedding_dim + embedding_dim,
                    )
                &&& forall|i: int|
                    0 <= i < chars@.len() ==> #[trigger] r->Ok_0.spec_matcher().lum_at(i)
                        == char_luminosities@[i]
            },
    {
        match EmbeddingMatcher::new(chars, embedding_dim, char_embeddings, char_luminosities) {
            Result::Ok(matcher) => Ok(
                WasmConverter { width: 80, matcher, dither: false, ascii_only: false },
            ),
            Result::Err(e) => Err(e),
        }
    }

    /// Sets the output width in characters.
    pub fn set_width(&mut self, width: u32)
        ensures
            final(self).spec_width() == width,
            final(self).spec_dither() == old(self).spec_dither(),
            final(self).spec_ascii_only() == old(self).spec_ascii_only(),
            final(self).spec_matcher() == old(self).spec_matcher(),
    {
        self.width = width;
    }

    /// Enables or disables Atkinson dithering before resampling.
    pub fn set_dither(&mut self, enabled: bool)
        ensures
            final(self).spec_width() == old(self).spec_width(),
            final(self).spec_dither() == enabled,
            final(self).spec_ascii_only() == old(self).spec_ascii_only(),
            final(self).spec_matcher() == old(self).spec_matcher(),
    {
        self.dither = enabled;
    }

    /// Restricts matching to ASCII printable characters without touching
    /// the catalog.
    pub fn set_ascii_only(&mut self, enabled: bool)
        ensures
            final(self).spec_width() == old(self).spec_width(),
            final(self).spec_dither() == old(self).spec_dither(),
            final(self).spec_ascii_only() == enabled,
            final(self).spec_matcher() == old(self).spec_matcher(),
    {
        self.ascii_only = enabled;
    }

    /// Sets the blend between embedding and luminosity similarity,
    /// clamped to micro-unit range.
    pub fn set_edge_weight(&mut self, weight: i32)
        requires
            old(self).wf(),
        ensures
            final(self).wf(),
            final(self).spec_width() == old(self).spec_width(),
            final(self).spec_dither() == old(self).spec_dither(),
            final(self).spec_ascii_only() == old(self).spec_ascii_only(),
            final(self).spec_matcher().entries() == old(self).spec_matcher().entries(),
            final(self).spec_matcher().spec_edge_weight() == (if weight < 0 {
                0i32
            } else if weight > 1_000_000 {
                1_000_000i32
            } else {
                weight
            }),
    {
        self.matcher.set_edge_weight(weight);
    }

    /// Decodes a raw RGBA buffer, dithers it when asked, and resamples it
    /// into one patch and one luminosity per cell:
    /// `(patches, luminosities, cols, rows)`. Fails exactly when the
    /// buffer holds fewer than `4 * width * height` bytes.
    pub fn process_image(&self, image_data: &Vec<u8>, width: u32, height: u32) -> (r: Result<
        (Vec<Vec<u8>>, Vec<u32>, u32, u32),
        PicunicError,
    >)
        requires
            width >= 1,
            height >= 1,
            self.spec_width() >= 1,
            self.spec_width() * spec_output_height(
                width as int,
                height as int,
                self.spec_width() as int,
            ) <= usize::MAX,
        ensures
            r is Err <==> 4 * (width as int) * (height as int) > image_data@.len(),
            r is Err ==> r == Err::<(Vec<Vec<u8>>, Vec<u32>, u32, u32), PicunicError>(
                PicunicError::ImageDataLen { width, height, actual: image_data@.len() as usize },
            ),
            r is Ok ==> ({
                let t = r->Ok_0;
                let w = width as int;
                let h = height as int;
                let rows = spec_output_height(w, h, self.spec_width() as int);
                let gray = luma_of(image_data@.subrange(0, 4 * w * h));
                let spix = spec_source_pixels(
                    gray,
                    w,
                    h,
                    self.spec_dither(),
                    spec_dither_scale(w, self.spec_width() as int),
                );
                &&& t.2 == self.spec_width()
                &&& t.3 == rows
                &&& t.0@.len() == self.spec_width() * rows
                &&& t.1@.len() == self.spec_width() * rows
                &&& forall|k: int|
                    0 <= k < t.0@.len() ==> (#[trigger] t.0@[k])@ == spec_cell_patch(
                        spix,
                        w,
                        h,
                        self.spec_width() as int,
                        rows,
                        k % (self.spec_width() as int),
                        k / (self.spec_width() as int),
                    )
                &&& forall|k: int|
                    0 <= k < t.1@.len() ==> #[trigger] t.1@[k] == spec_patch_luminosity(
                        spec_cell_patch(
                            spix,
                            w,
                            h,
                            self.spec_width() as int,
                            rows,
                            k % (self.spec_width() as int),
                            k / (self.spec_width() as int),
                        ),
                    )
            }),
    {
        let gray = match gray_from_rgba(image_data, width, height) {
            Option::Some(g) => g,
            Option::None => {
                return Err(
                    PicunicError::ImageDataLen { width, height, actual: image_data.len() },
                );
            },
        };
        Ok(extract_patches(&gray, self.width, self.dither))
    }

    /// The best-matching character for one cell's embedding and
    /// luminosity, honoring the ASCII restriction. Fails exactly when the
    /// embedding's length is not the catalog's dimension, or the catalog
    /// is empty.
    pub fn find_best_char(&self, embedding: &Vec<i32>, chunk_lum: i32) -> (r: Result<
        char,
        PicunicError,
    >)
        requires
            self.wf(),
        ensures
            embedding@.len() != self.spec_matcher().spec_dim() ==> r == Err::<char, PicunicError>(
                PicunicError::DimensionMismatch {
                    expected: self.spec_matcher().spec_dim(),
                    actual: embedding@.len() as usize,
                },
            ),
            embedding@.len() == self.spec_matcher().spec_dim() && self.spec_matcher().spec_len()
                == 0 ==> r == Err::<char, PicunicError>(PicunicError::EmptyCatalog),
            embedding@.len() == self.spec_matcher().spec_dim() && self.spec_matcher().spec_len()
                > 0 ==> ({
                let m = self.spec_matcher();
                let b = m.best_in_prefix(
                    embedding@,
                    chunk_lum as int,
                    self.spec_ascii_only(),
                    m.spec_len(),
                );
                r == Ok::<char, PicunicError>(
                    m.chars_view()[if b < 0 {
                        0
                    } else {
                        b
                    }],
                )
            }),
    {
        self.matcher.find_best_match_filtered(embedding, chunk_lum, self.ascii_only)
    }
}

} // verus!
