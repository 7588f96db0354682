//! An owned 2-D buffer of 8-bit grayscale samples, origin top-left,
//! stored row-major.

use vstd::prelude::*;

verus! {

/// A grayscale image: `width * height` samples, row-major, origin top-left.
pub struct GrayImage {
    width: u32,
    height: u32,
    pixels: Vec<u8>,
}

impl View for GrayImage {
    type V = Seq<u8>;

    closed spec fn view(&self) -> Seq<u8> {
        self.pixels@
    }
}

impl GrayImage {
    pub closed spec fn spec_width(&self) -> u32 {
        self.width
    }

    pub closed spec fn spec_height(&self) -> u32 {
        self.height
    }

    /// The buffer holds exactly one sample per coordinate.
    pub open spec fn wf(&self) -> bool {
        self@.len() == self.spec_width() * self.spec_height()
    }

    /// The sample at column `x`, row `y`.
    pub open spec fn pix(&self, x: int, y: int) -> u8 {
        self@[y * self.spec_width() + x]
    }

    #[verifier::when_used_as_spec(spec_width)]
    pub fn width(&self) -> (w: u32)
        ensures
            w == self.spec_width(),
    {
        self.width
    }

    #[verifier::when_used_as_spec(spec_height)]
    pub fn height(&self) -> (h: u32)
        ensures
            h == self.spec_height(),
    {
        self.height
    }

    /// An all-black image of the given size.
    pub fn new(width: u32, height: u32) -> (img: GrayImage)
        requires
            width * height <= usize::MAX,
        ensures
            img.wf(),
            img.spec_width() == width,
            img.spec_height() == height,
            forall|i: int| 0 <= i < img@.len() ==> #[trigger] img@[i] == 0u8,
    {
        let n: usize = (width as u64 * height as u64) as usize;
        let mut pixels: Vec<u8> = Vec::new();
        let mut i: usize = 0;
        while i < n
            invariant
                i <= n,
                pixels@.len() == i,
                forall|j: int| 0 <= j < i ==> #[trigger] pixels@[j] == 0u8,
            decreases n - i,
        {
            pixels.push(0u8);
            i = i + 1;
        }
        GrayImage { width, height, pixels }
    }

    /// Wraps a row-major sample buffer; `None` when its length does not
    /// match the dimensions.
    pub fn from_vec(width: u32, height: u32, pixels: Vec<u8>) -> (r: Option<GrayImage>)
        ensures
            r is Some <==> pixels@.len() == width * height,
            r is Some ==> {
                let img = r->Some_0;
                &&& img.wf()
                &&& img.spec_width() == width
                &&& img.spec_height() == height
                &&& img@ == pixels@
            },
    {
        let n = pixels.len();
        proof {
            assert(width * height < 0x1_0000_0000_0000_0000) by (nonlinear_arith)
                requires
                    width <= 0xffff_ffffu32,
                    height <= 0xffff_ffffu32,
            ;
        }
        if width as u64 * height as u64 == n as u64 {
            Some(GrayImage { width, height, pixels })
        } else {
            None
        }
    }

    /// The sample at column `x`, row `y`.
    pub fn get(&self, x: u32, y: u32) -> (v: u8)
        requires
            self.wf(),
            x < self.spec_width(),
            y < self.spec_height(),
        ensures
            v == self.pix(x as int, y as int),
    {
        proof {
            lemma_row_major_index_in_range(
                self.width as int,
                self.height as int,
                x as int,
                y as int,
            );
        }
        let _buffer_len: usize = self.pixels.len();
        let idx: u64 = y as u64 * self.width as u64 + x as u64;
        self.pixels[idx as usize]
    }

    /// Number of samples in the buffer.
    pub fn len(&self) -> (n: usize)
        ensures
            n == self@.len(),
    {
        self.pixels.len()
    }

    /// The sample at flat row-major index `i`.
    pub fn sample(&self, i: usize) -> (v: u8)
        requires
            i < self@.len(),
        ensures
            v == self@[i as int],
    {
        self.pixels[i]
    }

    /// Replaces the sample at column `x`, row `y`.
    pub fn put(&mut self, x: u32, y: u32, v: u8)
        requires
            old(self).wf(),
            x < old(self).spec_width(),
            y < old(self).spec_height(),
        ensures
            final(self).wf(),
            final(self).spec_width() == old(self).spec_width(),
            final(self).spec_height() == old(self).spec_height(),
            final(self)@ == old(self)@.update(
                y * old(self).spec_width() + x,
                v,
            ),
    {
        proof {
            lemma_row_major_index_in_range(
                self.width as int,
                self.height as int,
                x as int,
                y as int,
            );
        }
        let _buffer_len: usize = self.pixels.len();
        let idx: u64 = y as u64 * self.width as u64 + x as u64;
        self.pixels.set(idx as usize, v);
    }
}

/// The grayscale value of each RGBA pixel of a byte buffer (four bytes
/// per pixel, row-major): the luminance conversion the `image` crate
/// applies, which depends on the bytes alone.
pub uninterp spec fn luma_of(rgba: Seq<u8>) -> Seq<u8>;

/// Relies on `image::RgbaImage::from_raw`, which succeeds exactly when
/// the buffer holds at least `4 * width * height` bytes, and
/// `image::DynamicImage::to_luma8`, which converts each RGBA pixel to
/// its grayscale luminance independently of the others.
#[verifier::external_body]
pub fn gray_from_rgba(data: &Vec<u8>, width: u32, height: u32) -> (r: Option<GrayImage>)
    ensures
        r is Some <==> 4 * (width as int) * (height as int) <= data@.len(),
        r is Some ==> {
            let img = r->Some_0;
            &&& img.wf()
            &&& img.spec_width() == width
            &&& img.spec_height() == height
            &&& img@ == luma_of(data@.subrange(0, 4 * (width as int) * (height as int)))
        },
{
    let rgba = image::RgbaImage::from_raw(width, height, data.clone())?;
    let gray = image::DynamicImage::ImageRgba8(rgba).to_luma8();
    GrayImage::from_vec(width, height, gray.into_raw())
}

/// A row-major index lies inside the buffer: `y * w + x < w * h` whenever
/// `x < w` and `y < h`.
pub proof fn lemma_row_major_index_in_range(w: int, h: int, x: int, y: int)
    requires
        0 <= x < w,
        0 <= y < h,
    ensures
        0 <= y * w + x < w * h,
        y * w + x < h * w,
{
    assert(0 <= y * w + x < w * h && y * w + x < h * w) by (nonlinear_arith)
        requires
            0 <= x < w,
            0 <= y < h,
    ;
}

} // verus!
