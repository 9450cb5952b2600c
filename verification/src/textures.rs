//! The texture store: an immutable 2-D grid of packed `0x00RRGGBB`
//! colors with toroidal nearest-neighbor lookup.
//!
//! A texture is built either from an encoded image (decoded by the
//! `image` crate behind a trusted wrapper) or directly from a raw RGBA
//! byte buffer; either way the alpha channel is stripped and the texels
//! are stored column-major, indexed `[x][y]` as a flat vector.

use vstd::prelude::*;
use vstd::arithmetic::div_mod::lemma_mod_multiples_vanish;

verus! {

/// An immutable grid of packed RGB texels.
pub struct Texture {
    pub width: u32,
    pub height: u32,
    pub pixels: Vec<u32>,
}

/// The color that a red/green/blue byte triple packs to.
pub open spec fn spec_pack_rgb(r: u8, g: u8, b: u8) -> int {
    r * 65536 + g * 256 + b
}

/// Width of the image that `bytes` decodes to.
/// Decoding is deterministic in the bytes alone.
pub uninterp spec fn decoded_width(bytes: Seq<u8>) -> u32;

/// Height of the image that `bytes` decodes to.
pub uninterp spec fn decoded_height(bytes: Seq<u8>) -> u32;

/// Row-major RGBA byte stream of the image that `bytes` decodes to.
pub uninterp spec fn decoded_rgba(bytes: Seq<u8>) -> Seq<u8>;

/// Whether `bytes` decode as an image at all.
pub uninterp spec fn decodes(bytes: Seq<u8>) -> bool;

/// Relies on image::load_from_memory and image::DynamicImage::to_rgba8:
/// whether the bytes decode, and to what, is a pure function of the
/// bytes alone (the format is guessed from their content); a
/// successful decode yields a row-major RGBA buffer of exactly
/// 4 * width * height bytes.
#[verifier::external_body]
fn decode_rgba(bytes: &Vec<u8>) -> (r: Option<(u32, u32, Vec<u8>)>)
    ensures
        r is Some <==> decodes(bytes@),
        r matches Some(t) ==> {
            &&& t.0 == decoded_width(bytes@)
            &&& t.1 == decoded_height(bytes@)
            &&& t.2@ == decoded_rgba(bytes@)
            &&& t.2@.len() == 4 * (t.0 as int) * (t.1 as int)
        },
{
    match image::load_from_memory(bytes.as_slice()) {
        Ok(img) => {
            let buf = img.to_rgba8();
            let w = buf.width();
            let h = buf.height();
            Some((w, h, buf.into_raw()))
        }
        Err(_) => None,
    }
}

impl Texture {
    /// A usable texture: nonempty, bounded dimensions, fully populated.
    pub open spec fn wf(self) -> bool {
        &&& 1 <= self.width <= 4096
        &&& 1 <= self.height <= 4096
        &&& self.pixels@.len() == self.width * self.height
    }

    /// The texel stored for column `x`, row `y` of the decoded grid.
    pub open spec fn spec_texel(self, x: int, y: int) -> u32
        recommends
            self.wf(),
            0 <= x < self.width,
            0 <= y < self.height,
    {
        self.pixels@[x * self.height + y]
    }

    /// Toroidal sample: coordinates are taken modulo the dimensions.
    pub open spec fn spec_sample(self, x: int, y: int) -> u32
        recommends
            self.wf(),
    {
        self.spec_texel(x % (self.width as int), y % (self.height as int))
    }

    /// Builds a texture from raw row-major RGBA bytes, stripping alpha.
    /// Succeeds exactly when the dimensions are usable and the buffer
    /// holds one 4-byte pixel per cell.
    pub fn from_rgba(width: u32, height: u32, rgba: &Vec<u8>) -> (r: Option<Texture>)
        ensures
            r is Some <==> {
                &&& 1 <= width <= 4096
                &&& 1 <= height <= 4096
                &&& rgba@.len() == 4 * width * height
            },
            r matches Some(t) ==> {
                &&& t.wf()
                &&& t.width == width
                &&& t.height == height
                &&& forall|x: int, y: int|
                    0 <= x < width && 0 <= y < height ==> t.spec_texel(x, y) == spec_pack_rgb(
                        rgba@[4 * (y * width + x)],
                        rgba@[4 * (y * width + x) + 1],
                        rgba@[4 * (y * width + x) + 2],
                    )
            },
    {
        if width < 1 || width > 4096 || height < 1 || height > 4096 {
            return None;
        }
        let w: usize = width as usize;
        let h: usize = height as usize;
        proof {
            assert((4 * w) * h <= 4 * 4096 * 4096) by (nonlinear_arith)
                requires 0 <= w <= 4096 && 0 <= h <= 4096;
        }
        if rgba.len() != 4 * w * h {
            return None;
        }
        let mut pixels: Vec<u32> = Vec::new();
        let mut x: usize = 0;
        while x < w
            invariant
                0 <= x <= w,
                w == width,
                h == height,
                1 <= width <= 4096,
                1 <= height <= 4096,
                rgba@.len() == 4 * width * height,
                pixels@.len() == x * h,
                forall|xi: int, yi: int|
                    0 <= xi < x && 0 <= yi < height ==> #[trigger] pixels@[xi * height + yi] == spec_pack_rgb(
                        rgba@[4 * (yi * width + xi)],
                        rgba@[4 * (yi * width + xi) + 1],
                        rgba@[4 * (yi * width + xi) + 2],
                    ),
            decreases w - x,
        {
            let mut y: usize = 0;
            while y < h
                invariant
                    0 <= x < w,
                    0 <= y <= h,
                    w == width,
                    h == height,
                    1 <= width <= 4096,
                    1 <= height <= 4096,
                    rgba@.len() == 4 * width * height,
                    pixels@.len() == x * h + y,
                    forall|xi: int, yi: int|
                        0 <= xi < x && 0 <= yi < height ==> #[trigger] pixels@[xi * height
                            + yi] == spec_pack_rgb(
                            rgba@[4 * (yi * width + xi)],
                            rgba@[4 * (yi * width + xi) + 1],
                            rgba@[4 * (yi * width + xi) + 2],
                        ),
                    forall|yi: int|
                        0 <= yi < y ==> #[trigger] pixels@[x * height + yi] == spec_pack_rgb(
                            rgba@[4 * (yi * width + x as int)],
                            rgba@[4 * (yi * width + x as int) + 1],
                            rgba@[4 * (yi * width + x as int) + 2],
                        ),
                decreases h - y,
            {
                proof {
                    assert(4 * (y * w + x) + 3 < 4 * ((width as int) * (height as int)))
                        by (nonlinear_arith)
                        requires
                            0 <= x && x < width as int,
                            0 <= y && y < height as int,
                            w == width as int,
                            h == height as int;
                    assert(x * height + y < (width as int) * (height as int)) by (nonlinear_arith)
                        requires
                            0 <= x && x < width as int,
                            0 <= y && y < height as int;
                    assert((width as int) * (height as int) <= 4096 * 4096) by (nonlinear_arith)
                        requires 1 <= width as int <= 4096 && 1 <= height as int <= 4096;
                    assert((4 * (width as int)) * (height as int) == 4 * ((width as int) * (
                    height as int))) by (nonlinear_arith);
                }
                let base: usize = 4 * (y * w + x);
                let red: u8 = rgba[base];
                let green: u8 = rgba[base + 1];
                let blue: u8 = rgba[base + 2];
                let color: u32 = (red as u32) * 65536 + (green as u32) * 256 + (blue as u32);
                pixels.push(color);
                proof {
                    assert forall|xi: int, yi: int|
                        0 <= xi < x && 0 <= yi < height implies #[trigger] pixels@[xi * height
                        + yi] == spec_pack_rgb(
                        rgba@[4 * (yi * width + xi)],
                        rgba@[4 * (yi * width + xi) + 1],
                        rgba@[4 * (yi * width + xi) + 2],
                    ) by {
                        assert(xi * (height as int) + yi < (x as int) * (height as int))
                            by (nonlinear_arith)
                            requires
                                0 <= xi && xi < x as int,
                                0 <= yi && yi < height as int;
                    };
                }
                y = y + 1;
            }
            x = x + 1;
            proof {
                assert((x - 1) * h + h == x * h) by (nonlinear_arith)
                    requires h >= 0;
                let xprev = x - 1;
                assert forall|xi: int, yi: int|
                    0 <= xi < x && 0 <= yi < height implies #[trigger] pixels@[xi * height + yi]
                    == spec_pack_rgb(
                    rgba@[4 * (yi * width + xi)],
                    rgba@[4 * (yi * width + xi) + 1],
                    rgba@[4 * (yi * width + xi) + 2],
                ) by {
                    if xi == xprev {
                        assert(pixels@[xprev * height + yi] == spec_pack_rgb(
                            rgba@[4 * (yi * width + xprev)],
                            rgba@[4 * (yi * width + xprev) + 1],
                            rgba@[4 * (yi * width + xprev) + 2],
                        ));
                    }
                };
            }
        }
        proof {
            assert(pixels@.len() == width * height);
        }
        Some(Texture { width, height, pixels })
    }

    /// Builds a texture from an encoded image file's bytes.
    /// Succeeds exactly when the bytes decode and the decoded
    /// dimensions are usable; the texels then pack the decoded RGBA
    /// grid.
    pub fn new(bytes: &Vec<u8>) -> (r: Option<Texture>)
        ensures
            r is Some <==> {
                &&& decodes(bytes@)
                &&& 1 <= decoded_width(bytes@) <= 4096
                &&& 1 <= decoded_height(bytes@) <= 4096
            },
            r matches Some(t) ==> {
                &&& t.wf()
                &&& t.width == decoded_width(bytes@)
                &&& t.height == decoded_height(bytes@)
                &&& forall|x: int, y: int|
                    0 <= x < t.width && 0 <= y < t.height ==> t.spec_texel(x, y) == spec_pack_rgb(
                        decoded_rgba(bytes@)[4 * (y * t.width + x)],
                        decoded_rgba(bytes@)[4 * (y * t.width + x) + 1],
                        decoded_rgba(bytes@)[4 * (y * t.width + x) + 2],
                    )
            },
    {
        match decode_rgba(bytes) {
            None => None,
            Some((w, h, data)) => Texture::from_rgba(w, h, &data),
        }
    }

    /// Toroidal nearest-neighbor lookup of a texel.
    pub fn get_pixel_color(&self, x: u32, y: u32) -> (color: u32)
        requires
            self.wf(),
        ensures
            color == self.spec_sample(x as int, y as int),
    {
        let xi: u32 = x % self.width;
        let yi: u32 = y % self.height;
        proof {
            assert((xi as int) * (self.height as int) + (yi as int) < (self.width as int) * (
            self.height as int)) by (nonlinear_arith)
                requires
                    0 <= xi as int && (xi as int) < self.width as int,
                    0 <= yi as int && (yi as int) < self.height as int;
            assert((self.width as int) * (self.height as int) <= 4096 * 4096) by (nonlinear_arith)
                requires
                    1 <= self.width as int <= 4096,
                    1 <= self.height as int <= 4096;
        }
        let idx: usize = (xi as usize) * (self.height as usize) + (yi as usize);
        self.pixels[idx]
    }

    /// Toroidal wrap-around: shifting the coordinates by whole multiples
    /// of the texture's dimensions samples the same texel.
    pub proof fn lemma_sample_toroidal(self, x: int, y: int, k: int, m: int)
        requires
            self.wf(),
        ensures
            self.spec_sample(x + k * self.width, y + m * self.height) == self.spec_sample(x, y),
    {
        lemma_mod_multiples_vanish(k, x, self.width as int);
        lemma_mod_multiples_vanish(m, y, self.height as int);
        assert(x + k * self.width == (self.width as int) * k + x);
        assert(y + m * self.height == (self.height as int) * m + y);
    }
}

} // verus!
