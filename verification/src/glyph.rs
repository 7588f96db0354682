//! Placement of a rasterized glyph bitmap onto a grayscale canvas:
//! centered horizontally, sitting on a baseline three quarters of the way
//! down, offset by the glyph's descent.

use vstd::prelude::*;
use crate::gray::GrayImage;
use crate::gray::lemma_row_major_index_in_range;
use vstd::arithmetic::div_mod::lemma_fundamental_div_mod;

verus! {

/// Horizontal offset that centers a glyph of width `gw` on a canvas of
/// width `w`; negative when the glyph is wider, with the division
/// truncated toward zero either way.
pub open spec fn spec_x_offset(w: int, gw: int) -> int {
    if gw <= w {
        (w - gw) / 2
    } else {
        -((gw - w) / 2)
    }
}

/// Vertical offset that puts the glyph's baseline at three quarters of
/// the canvas height, shifted by the glyph's height and descent.
pub open spec fn spec_y_offset(h: int, gh: int, ymin: int) -> int {
    3 * h / 4 - gh - ymin
}

/// The canvas pixel at `(x, y)` after placing the glyph: the bitmap
/// sample where the shifted glyph covers the canvas, black elsewhere.
pub open spec fn spec_glyph_pixel(
    bitmap: Seq<u8>,
    gw: int,
    gh: int,
    ymin: int,
    w: int,
    h: int,
    x: int,
    y: int,
) -> u8 {
    let sx = x - spec_x_offset(w, gw);
    let sy = y - spec_y_offset(h, gh, ymin);
    if 0 <= sx < gw && 0 <= sy < gh {
        bitmap[sy * gw + sx]
    } else {
        0
    }
}

/// Renders a glyph coverage bitmap of `gw * gh` samples onto a fresh
/// `width * height` canvas, centered horizontally with its baseline at
/// three quarters of the height; `ymin` is the glyph's descent below the
/// baseline.
pub fn place_glyph(
    bitmap: &Vec<u8>,
    gw: u32,
    gh: u32,
    ymin: i32,
    width: u32,
    height: u32,
) -> (img: GrayImage)
    requires
        bitmap@.len() == gw * gh,
        width * height <= usize::MAX,
        1 <= width,
        1 <= height,
    ensures
        img.wf(),
        img.spec_width() == width,
        img.spec_height() == height,
        forall|x: int, y: int|
            0 <= x < width && 0 <= y < height ==> #[trigger] img.pix(x, y) == spec_glyph_pixel(
                bitmap@,
                gw as int,
                gh as int,
                ymin as int,
                width as int,
                height as int,
                x,
                y,
            ),
{
    let xo: i64 = if gw <= width {
        ((width - gw) / 2) as i64
    } else {
        -(((gw - width) / 2) as i64)
    };
    let yo: i64 = 3 * height as i64 / 4 - gh as i64 - ymin as i64;
    let total: u64 = width as u64 * height as u64;
    proof {
        assert(width * height < 0x1_0000_0000_0000_0000) by (nonlinear_arith)
            requires
                width <= 0xffff_ffffu32,
                height <= 0xffff_ffffu32,
        ;
    }
    let _bitmap_len: usize = bitmap.len();
    let mut pixels: Vec<u8> = Vec::new();
    let mut i: u64 = 0;
    while i < total
        invariant
            i <= total,
            total == width * height,
            1 <= width,
            1 <= height,
            bitmap@.len() == gw * gh,
            bitmap@.len() <= usize::MAX,
            xo == spec_x_offset(width as int, gw as int),
            yo == spec_y_offset(height as int, gh as int, ymin as int),
            pixels@.len() == i,
            forall|k: int| 0 <= k < i ==> #[trigger] pixels@[k] == spec_glyph_pixel(
                bitmap@,
                gw as int,
                gh as int,
                ymin as int,
                width as int,
                height as int,
                k % (width as int),
                k / (width as int),
            ),
        decreases total - i,
    {
        let x: u64 = i % width as u64;
        let y: u64 = i / width as u64;
        proof {
            lemma_fundamental_div_mod(i as int, width as int);
            assert(y < height) by (nonlinear_arith)
                requires
                    i == width * y + x,
                    0 <= x < width,
                    i < width * height,
                    1 <= width,
            ;
        }
        let sx: i64 = x as i64 - xo;
        let sy: i64 = y as i64 - yo;
        let v: u8 = if 0 <= sx && sx < gw as i64 && 0 <= sy && sy < gh as i64 {
            proof {
                lemma_row_major_index_in_range(gw as int, gh as int, sx as int, sy as int);
                assert(sy * gw + sx < 0x1_0000_0000_0000_0000) by (nonlinear_arith)
                    requires
                        0 <= sx < gw,
                        0 <= sy < gh,
                        gw <= 0xffff_ffffu32,
                        gh <= 0xffff_ffffu32,
                ;
            }
            bitmap[(sy as u64 * gw as u64 + sx as u64) as usize]
        } else {
            0
        };
        proof {
            assert(sx == x - spec_x_offset(width as int, gw as int));
            assert(sy == y - spec_y_offset(height as int, gh as int, ymin as int));
            assert(v == spec_glyph_pixel(
                bitmap@,
                gw as int,
                gh as int,
                ymin as int,
                width as int,
                height as int,
                x as int,
                y as int,
            ));
        }
        pixels.push(v);
        i = i + 1;
    }
    let img = GrayImage::from_vec(width, height, pixels).unwrap();
    proof {
        assert forall|x: int, y: int|
            0 <= x < width && 0 <= y < height implies #[trigger] img.pix(x, y)
            == spec_glyph_pixel(
            bitmap@,
            gw as int,
            gh as int,
            ymin as int,
            width as int,
            height as int,
            x,
            y,
        ) by {
            lemma_row_major_index_in_range(width as int, height as int, x, y);
            vstd::arithmetic::div_mod::lemma_fundamental_div_mod_converse(
                y * width + x,
                width as int,
                y,
                x,
            );
        }
    }
    img
}

} // verus!
