//! The renderer: composes sky, floor, walls, sprites and HUD into a
//! packed `0x00RRGGBB` pixel buffer, one frame at a time.

use vstd::prelude::*;
use crate::fixed::iabs;
use crate::fixed::spec_fp_mul;
use crate::fixed::fp_mul_wide;
use crate::fixed::fp_fract_any;
use crate::maze::Grid;
use crate::player::Player;
use crate::raycasting::cast_ray;
use crate::raycasting::spec_cast_ray;
use crate::textures::Texture;
use crate::trig::spec_cos_fp;
use crate::trig::cos_fp;

verus! {

/// Default width in pixels of the maze window.
pub const SCREEN_WIDTH: usize = 1040;

/// Default height in pixels of the maze window.
pub const SCREEN_HEIGHT: usize = 800;

/// A row-major grid of packed pixels, written by the render passes.
pub struct Framebuffer {
    pub width: usize,
    pub height: usize,
    pub data: Vec<u32>,
}

/// Two distinct in-range pixel coordinates never share a row-major
/// index.
pub proof fn lemma_pix_index_injective(w: int, x1: int, y1: int, x2: int, y2: int)
    requires
        0 <= x1 < w,
        0 <= x2 < w,
        0 <= y1,
        0 <= y2,
        y1 * w + x1 == y2 * w + x2,
    ensures
        x1 == x2 && y1 == y2,
{
    assert(x1 == x2 && y1 == y2) by (nonlinear_arith)
        requires
            0 <= x1 < w,
            0 <= x2 < w,
            0 <= y1,
            0 <= y2,
            y1 * w + x1 == y2 * w + x2;
}

impl Framebuffer {
    /// A usable screen: bounded, with an even height and one pixel per
    /// cell.
    pub open spec fn wf(self) -> bool {
        &&& 1 <= self.width <= 4096
        &&& 2 <= self.height <= 4096
        &&& self.height % 2 == 0
        &&& self.data@.len() == self.width * self.height
    }

    /// The pixel at column `x`, row `y`.
    pub open spec fn pix(self, x: int, y: int) -> u32
        recommends
            self.wf(),
            0 <= x < self.width,
            0 <= y < self.height,
    {
        self.data@[y * self.width + x]
    }

    /// A black framebuffer of the given size.
    pub fn new(width: usize, height: usize) -> (fb: Framebuffer)
        requires
            1 <= width <= 4096,
            2 <= height <= 4096,
            height % 2 == 0,
        ensures
            fb.wf(),
            fb.width == width,
            fb.height == height,
            forall|x: int, y: int|
                0 <= x < width && 0 <= y < height ==> fb.pix(x, y) == 0,
    {
        proof {
            assert(width * height <= 4096 * 4096) by (nonlinear_arith)
                requires 1 <= width <= 4096 && 1 <= height <= 4096;
        }
        let data: Vec<u32> = vec![0u32; width * height];
        let fb = Framebuffer { width, height, data };
        proof {
            assert forall|x: int, y: int|
                0 <= x < width && 0 <= y < height implies fb.pix(x, y) == 0 by {
                assert(0 <= y * width + x < width * height) by (nonlinear_arith)
                    requires
                        0 <= x < width,
                        0 <= y < height;
            }
        }
        fb
    }

    /// Sets every pixel to one color.
    pub fn fill(&mut self, color: u32)
        requires
            old(self).wf(),
        ensures
            final(self).wf(),
            final(self).width == old(self).width,
            final(self).height == old(self).height,
            forall|x: int, y: int|
                0 <= x < old(self).width && 0 <= y < old(self).height ==> final(self).pix(x, y)
                    == color,
    {
        let n: usize = self.data.len();
        let mut i: usize = 0;
        while i < n
            invariant
                n == self.data@.len(),
                self.width == old(self).width,
                self.height == old(self).height,
                self.data@.len() == old(self).data@.len(),
                0 <= i <= n,
                forall|j: int| 0 <= j < i ==> self.data@[j] == color,
            decreases n - i,
        {
            self.data[i] = color;
            i = i + 1;
        }
        proof {
            assert forall|x: int, y: int|
                0 <= x < old(self).width && 0 <= y < old(self).height implies self.pix(x, y)
                == color by {
                assert(0 <= y * self.width + x < self.width * self.height) by (nonlinear_arith)
                    requires
                        0 <= x < self.width,
                        0 <= y < self.height;
            }
        }
    }

    /// Fills the rectangle `[x0, x1) x [y0, y1)` with one color,
    /// leaving every other pixel as it was.
    pub fn fill_rect(&mut self, x0: usize, y0: usize, x1: usize, y1: usize, color: u32)
        requires
            old(self).wf(),
            x1 <= old(self).width,
            y1 <= old(self).height,
        ensures
            final(self).wf(),
            final(self).width == old(self).width,
            final(self).height == old(self).height,
            forall|x: int, y: int|
                0 <= x < old(self).width && 0 <= y < old(self).height ==> final(self).pix(x, y)
                    == (if x0 <= x < x1 && y0 <= y < y1 {
                    color
                } else {
                    old(self).pix(x, y)
                }),
    {
        let w: usize = self.width;
        let ghost w_i: int = w as int;
        let mut y: usize = y0;
        while y < y1
            invariant
                self.wf(),
                w == self.width,
                w_i == w as int,
                self.width == old(self).width,
                self.height == old(self).height,
                y0 <= y <= y1 || y == y0,
                y1 <= self.height,
                x1 <= self.width,
                forall|xi: int, yi: int|
                    0 <= xi < w_i && 0 <= yi < self.height ==> #[trigger] self.data@[yi * w_i
                        + xi] == (if x0 <= xi < x1 && y0 <= yi < y {
                        color
                    } else {
                        old(self).data@[yi * w_i + xi]
                    }),
            decreases y1 - y,
        {
            let mut x: usize = x0;
            while x < x1
                invariant
                    self.wf(),
                    w == self.width,
                    w_i == w as int,
                    self.width == old(self).width,
                    self.height == old(self).height,
                    y0 <= y < y1,
                    y1 <= self.height,
                    x0 <= x <= x1 || x == x0,
                    x1 <= self.width,
                    forall|xi: int, yi: int|
                        0 <= xi < w_i && 0 <= yi < self.height ==> #[trigger] self.data@[yi * w_i
                            + xi] == (if (x0 <= xi < x1 && y0 <= yi < y) || (yi == y && x0 <= xi
                            < x) {
                            color
                        } else {
                            old(self).data@[yi * w_i + xi]
                        }),
                decreases x1 - x,
            {
                proof {
                    assert(0 <= y * w_i + x < w_i * self.height) by (nonlinear_arith)
                        requires
                            0 <= x && (x as int) < w_i,
                            0 <= y < self.height;
                    assert(w_i * self.height <= 4096 * 4096) by (nonlinear_arith)
                        requires
                            1 <= w_i <= 4096,
                            1 <= self.height <= 4096;
                }
                let idx: usize = y * w + x;
                let ghost prev = self.data@;
                self.data[idx] = color;
                proof {
                    assert(self.data@ == prev.update(y * w_i + x, color));
                    assert forall|xi: int, yi: int|
                        0 <= xi < w_i && 0 <= yi < self.height implies #[trigger] self.data@[yi
                        * w_i + xi] == (if (x0 <= xi < x1 && y0 <= yi < y) || (yi == y && x0 <= xi
                        < x + 1) {
                        color
                    } else {
                        old(self).data@[yi * w_i + xi]
                    }) by {
                        assert(0 <= yi * w_i + xi < w_i * self.height) by (nonlinear_arith)
                            requires
                                0 <= xi < w_i,
                                0 <= yi < self.height;
                        if yi * w_i + xi == y * w_i + x {
                            lemma_pix_index_injective(w_i, xi, yi, x as int, y as int);
                            assert(self.data@[yi * w_i + xi] == color);
                        } else {
                            assert(self.data@[yi * w_i + xi] == prev[yi * w_i + xi]);
                        }
                    }
                }
                x = x + 1;
            }
            y = y + 1;
        }
        proof {
            assert forall|x: int, y: int|
                0 <= x < old(self).width && 0 <= y < old(self).height implies self.pix(x, y) == (
            if x0 <= x < x1 && y0 <= y < y1 {
                color
            } else {
                old(self).pix(x, y)
            }) by {
                assert(self.data@[y * w_i + x] == (if x0 <= x < x1 && y0 <= y < y1 {
                    color
                } else {
                    old(self).data@[y * w_i + x]
                }));
            }
        }
    }
}

/// The minimap palette: walls white, spawn red, goal green, floor
/// black.
pub open spec fn spec_cell_color(c: char) -> u32 {
    if c == '+' || c == '-' || c == '|' {
        0xFFFFFF
    } else if c == 'p' {
        0xFF0000
    } else if c == 'g' {
        0x00FF00
    } else {
        0x000000
    }
}

/// Executable mirror of `spec_cell_color`.
pub fn cell_color(c: char) -> (r: u32)
    ensures
        r == spec_cell_color(c),
{
    if c == '+' || c == '-' || c == '|' {
        0xFFFFFF
    } else if c == 'p' {
        0xFF0000
    } else if c == 'g' {
        0x00FF00
    } else {
        0x000000
    }
}

/// Draws one map cell of the top-down view as a colored block at pixel
/// offset `(xo, yo)`, clipped to the screen.
pub fn draw_cell(framebuffer: &mut Framebuffer, xo: usize, yo: usize, block_size: usize, cell: char)
    requires
        old(framebuffer).wf(),
        xo <= 0x10_0000,
        yo <= 0x10_0000,
        block_size <= 0x10_0000,
    ensures
        final(framebuffer).wf(),
        final(framebuffer).width == old(framebuffer).width,
        final(framebuffer).height == old(framebuffer).height,
        forall|x: int, y: int|
            0 <= x < old(framebuffer).width && 0 <= y < old(framebuffer).height ==> final(framebuffer).pix(x, y) == (if xo <= x < xo + block_size && yo <= y < yo + block_size {
                spec_cell_color(cell)
            } else {
                old(framebuffer).pix(x, y)
            }),
{
    let color = cell_color(cell);
    let w = framebuffer.width;
    let h = framebuffer.height;
    let x1 = if xo + block_size < w { xo + block_size } else { w };
    let y1 = if yo + block_size < h { yo + block_size } else { h };
    let x0 = if xo < x1 { xo } else { x1 };
    let y0 = if yo < y1 { yo } else { y1 };
    framebuffer.fill_rect(x0, y0, x1, y1, color);
}

/// Number of decimal digits of a nonnegative count.
pub open spec fn spec_digits(n: int) -> int
    decreases n,
{
    if n < 10 {
        1
    } else {
        1 + spec_digits(n / 10)
    }
}

/// Powers of ten.
pub open spec fn spec_pow10(k: nat) -> int
    decreases k,
{
    if k == 0 {
        1
    } else {
        10 * spec_pow10((k - 1) as nat)
    }
}

/// Every count has at least one digit.
pub proof fn lemma_digits_ge_one(n: int)
    requires
        0 <= n,
    ensures
        spec_digits(n) >= 1,
    decreases n,
{
    if n >= 10 {
        lemma_digits_ge_one(n / 10);
    }
}

/// A count below the `k`-th power of ten has at most `k` digits.
pub proof fn lemma_digits_bound(n: int, k: nat)
    requires
        0 <= n < spec_pow10(k),
        1 <= k,
    ensures
        spec_digits(n) <= k,
    decreases k,
{
    if n >= 10 {
        assert(spec_pow10(k) == 10 * spec_pow10((k - 1) as nat));
        assert(n / 10 < spec_pow10((k - 1) as nat)) by {
            if n / 10 >= spec_pow10((k - 1) as nat) {
                vstd::arithmetic::div_mod::lemma_fundamental_div_mod(n, 10);
                assert(10 * (n / 10) >= 10 * spec_pow10((k - 1) as nat)) by (nonlinear_arith)
                    requires n / 10 >= spec_pow10((k - 1) as nat);
            }
        }
        assert(k >= 2) by {
            if k == 1 {
                assert(spec_pow10(1nat) == 10);
            }
        }
        lemma_digits_bound(n / 10, (k - 1) as nat);
    }
}

/// Counts the decimal digits of a frame rate readout.
pub fn count_digits(n: u32) -> (d: usize)
    ensures
        d == spec_digits(n as int),
        1 <= d <= 10,
{
    proof {
        assert(spec_pow10(10nat) == 10000000000) by {
            reveal_with_fuel(spec_pow10, 11);
        }
        lemma_digits_bound(n as int, 10nat);
        lemma_digits_ge_one(n as int);
    }
    let mut d: usize = 1;
    let mut m: u32 = n;
    while m >= 10
        invariant
            1 <= d <= 10,
            spec_digits(n as int) == d - 1 + spec_digits(m as int),
        decreases m,
    {
        m = m / 10;
        d = d + 1;
        proof {
            lemma_digits_ge_one(m as int);
            assert(spec_digits(n as int) <= 10);
        }
    }
    d
}

/// Draws the frame-rate readout: a white box in the top-left corner
/// with one black marker pixel per character of the text `FPS: n`.
pub fn draw_fps_box(framebuffer: &mut Framebuffer, fps: u32)
    requires
        old(framebuffer).wf(),
        old(framebuffer).width >= 128,
        old(framebuffer).height >= 32,
    ensures
        final(framebuffer).wf(),
        final(framebuffer).width == old(framebuffer).width,
        final(framebuffer).height == old(framebuffer).height,
        forall|x: int, y: int|
            0 <= x < old(framebuffer).width && 0 <= y < old(framebuffer).height ==> final(framebuffer).pix(x, y) == (if y == 10 && 10 <= x < 10 + 8 * (5 + spec_digits(fps as int)) && (x
                - 10) % 8 == 0 {
                0x000000u32
            } else if x < 100 && y < 30 {
                0xFFFFFFu32
            } else {
                old(framebuffer).pix(x, y)
            }),
{
    framebuffer.fill_rect(0, 0, 100, 30, 0xFFFFFF);
    let n: usize = 5 + count_digits(fps);
    let mut i: usize = 0;
    while i < n
        invariant
            framebuffer.wf(),
            framebuffer.width == old(framebuffer).width,
            framebuffer.height == old(framebuffer).height,
            framebuffer.width >= 128,
            framebuffer.height >= 32,
            0 <= i <= n,
            n == 5 + spec_digits(fps as int),
            6 <= n <= 15,
            forall|x: int, y: int|
                0 <= x < framebuffer.width && 0 <= y < framebuffer.height ==> framebuffer.pix(x, y)
                    == (if y == 10 && 10 <= x < 10 + 8 * i && (x - 10) % 8 == 0 {
                    0x000000u32
                } else if x < 100 && y < 30 {
                    0xFFFFFFu32
                } else {
                    old(framebuffer).pix(x, y)
                }),
        decreases n - i,
    {
        let px: usize = 10 + i * 8;
        framebuffer.fill_rect(px, 10, px + 1, 11, 0x000000);
        proof {
            assert forall|x: int, y: int|
                0 <= x < framebuffer.width && 0 <= y < framebuffer.height implies framebuffer.pix(
                x,
                y,
            ) == (if y == 10 && 10 <= x < 10 + 8 * (i + 1) && (x - 10) % 8 == 0 {
                0x000000u32
            } else if x < 100 && y < 30 {
                0xFFFFFFu32
            } else {
                old(framebuffer).pix(x, y)
            }) by {
                if y == 10 && 10 <= x < 10 + 8 * (i + 1) && (x - 10) % 8 == 0 && !(10 <= x < 10 + 8
                    * i) {
                    vstd::arithmetic::div_mod::lemma_fundamental_div_mod((x - 10) as int, 8);
                    assert(x == 10 + 8 * i);
                }
            }
        }
        i = i + 1;
    }
}

/// Draws the sky texture over the top half of the screen, stretched to
/// fit; the bottom half is untouched.
pub fn render_sky(framebuffer: &mut Framebuffer, sky: &Texture)
    requires
        old(framebuffer).wf(),
        sky.wf(),
    ensures
        final(framebuffer).wf(),
        final(framebuffer).width == old(framebuffer).width,
        final(framebuffer).height == old(framebuffer).height,
        forall|x: int, y: int|
            0 <= x < old(framebuffer).width && 0 <= y < old(framebuffer).height ==> final(framebuffer).pix(x, y) == (if y < old(framebuffer).height / 2 {
                sky.spec_sample(
                    (x * sky.width) / (old(framebuffer).width as int),
                    (y * sky.height) / ((old(framebuffer).height / 2) as int),
                )
            } else {
                old(framebuffer).pix(x, y)
            }),
{
    let w: usize = framebuffer.width;
    let half: usize = framebuffer.height / 2;
    let ghost w_i: int = w as int;
    let mut y: usize = 0;
    while y < half
        invariant
            framebuffer.wf(),
            sky.wf(),
            w == framebuffer.width,
            w_i == w as int,
            half == framebuffer.height / 2,
            1 <= half,
            framebuffer.width == old(framebuffer).width,
            framebuffer.height == old(framebuffer).height,
            0 <= y <= half,
            forall|xi: int, yi: int|
                0 <= xi < w_i && 0 <= yi < framebuffer.height ==> #[trigger] framebuffer.data@[yi
                    * w_i + xi] == (if yi < y {
                    sky.spec_sample((xi * sky.width) / w_i, (yi * sky.height) / (half as int))
                } else {
                    old(framebuffer).data@[yi * w_i + xi]
                }),
        decreases half - y,
    {
        proof {
            assert(y * sky.height <= 4096 * 4096) by (nonlinear_arith)
                requires
                    0 <= y <= 4096,
                    0 <= sky.height <= 4096;
        }
        let ty: usize = (y * sky.height as usize) / half;
        proof {
            vstd::arithmetic::div_mod::lemma_div_nonincreasing((y * sky.height) as int, half as int);
        }
        let mut x: usize = 0;
        while x < w
            invariant
                framebuffer.wf(),
                sky.wf(),
                w == framebuffer.width,
                w_i == w as int,
                half == framebuffer.height / 2,
                1 <= half,
                framebuffer.width == old(framebuffer).width,
                framebuffer.height == old(framebuffer).height,
                0 <= y < half,
                0 <= x <= w,
                ty == (y * sky.height) / (half as int),
                forall|xi: int, yi: int|
                    0 <= xi < w_i && 0 <= yi < framebuffer.height ==> #[trigger]
                        framebuffer.data@[yi * w_i + xi] == (if yi < y || (yi == y && xi < x) {
                        sky.spec_sample((xi * sky.width) / w_i, (yi * sky.height) / (half as int))
                    } else {
                        old(framebuffer).data@[yi * w_i + xi]
                    }),
            decreases w - x,
        {
            proof {
                assert(x * sky.width <= 4096 * 4096) by (nonlinear_arith)
                    requires
                        0 <= x <= 4096,
                        0 <= sky.width <= 4096;
            }
            let tx: usize = (x * sky.width as usize) / w;
            proof {
                vstd::arithmetic::div_mod::lemma_div_nonincreasing((x * sky.width) as int, w_i);
                assert(tx < 0x1_0000_0000 && ty < 0x1_0000_0000);
            }
            let color: u32 = sky.get_pixel_color(tx as u32, ty as u32);
            proof {
                assert(0 <= y * w_i + x < w_i * framebuffer.height) by (nonlinear_arith)
                    requires
                        0 <= x && (x as int) < w_i,
                        0 <= y < framebuffer.height;
                assert(w_i * framebuffer.height <= 4096 * 4096) by (nonlinear_arith)
                    requires
                        1 <= w_i <= 4096,
                        1 <= framebuffer.height <= 4096;
            }
            let idx: usize = y * w + x;
            let ghost prev = framebuffer.data@;
            framebuffer.data[idx] = color;
            proof {
                assert(framebuffer.data@ == prev.update(y * w_i + x, color));
                assert(color == sky.spec_sample((x * sky.width) / w_i, (y * sky.height) / (
                half as int)));
                assert forall|xi: int, yi: int|
                    0 <= xi < w_i && 0 <= yi < framebuffer.height implies #[trigger]
                        framebuffer.data@[yi * w_i + xi] == (if yi < y || (yi == y && xi < x + 1) {
                    sky.spec_sample((xi * sky.width) / w_i, (yi * sky.height) / (half as int))
                } else {
                    old(framebuffer).data@[yi * w_i + xi]
                }) by {
                    assert(0 <= yi * w_i + xi < w_i * framebuffer.height) by (nonlinear_arith)
                        requires
                            0 <= xi < w_i,
                            0 <= yi < framebuffer.height;
                    if yi * w_i + xi == y * w_i + x {
                        lemma_pix_index_injective(w_i, xi, yi, x as int, y as int);
                        assert(framebuffer.data@[yi * w_i + xi] == color);
                    } else {
                        assert(framebuffer.data@[yi * w_i + xi] == prev[yi * w_i + xi]);
                    }
                }
            }
            x = x + 1;
        }
        y = y + 1;
    }
    proof {
        assert forall|x: int, y: int|
            0 <= x < old(framebuffer).width && 0 <= y < old(framebuffer).height implies final(framebuffer).pix(x, y) == (if y < old(framebuffer).height / 2 {
            sky.spec_sample(
                (x * sky.width) / (old(framebuffer).width as int),
                (y * sky.height) / ((old(framebuffer).height / 2) as int),
            )
        } else {
            old(framebuffer).pix(x, y)
        }) by {
            assert(framebuffer.data@[y * w_i + x] == (if y < half {
                sky.spec_sample((x * sky.width) / w_i, (y * sky.height) / (half as int))
            } else {
                old(framebuffer).data@[y * w_i + x]
            }));
        }
    }
}

/// Draws the floor texture over the bottom half of the screen,
/// stretched to fit; the top half is untouched.
pub fn render_floor(framebuffer: &mut Framebuffer, floor_tex: &Texture)
    requires
        old(framebuffer).wf(),
        floor_tex.wf(),
    ensures
        final(framebuffer).wf(),
        final(framebuffer).width == old(framebuffer).width,
        final(framebuffer).height == old(framebuffer).height,
        forall|x: int, y: int|
            0 <= x < old(framebuffer).width && 0 <= y < old(framebuffer).height ==> final(framebuffer).pix(x, y) == (if y >= old(framebuffer).height / 2 {
                floor_tex.spec_sample(
                    (x * floor_tex.width) / (old(framebuffer).width as int),
                    ((y - old(framebuffer).height / 2) * floor_tex.height) / ((old(framebuffer).height / 2) as int),
                )
            } else {
                old(framebuffer).pix(x, y)
            }),
{
    let w: usize = framebuffer.width;
    let h: usize = framebuffer.height;
    let half: usize = h / 2;
    let ghost w_i: int = w as int;
    let mut y: usize = half;
    while y < h
        invariant
            framebuffer.wf(),
            floor_tex.wf(),
            w == framebuffer.width,
            h == framebuffer.height,
            w_i == w as int,
            half == h / 2,
            1 <= half,
            framebuffer.width == old(framebuffer).width,
            framebuffer.height == old(framebuffer).height,
            half <= y <= h,
            forall|xi: int, yi: int|
                0 <= xi < w_i && 0 <= yi < framebuffer.height ==> #[trigger] framebuffer.data@[yi
                    * w_i + xi] == (if half <= yi < y {
                    floor_tex.spec_sample(
                        (xi * floor_tex.width) / w_i,
                        ((yi - half) * floor_tex.height) / (half as int),
                    )
                } else {
                    old(framebuffer).data@[yi * w_i + xi]
                }),
        decreases h - y,
    {
        proof {
            assert((y - half) * floor_tex.height <= 4096 * 4096) by (nonlinear_arith)
                requires
                    0 <= y - half <= 4096,
                    0 <= floor_tex.height <= 4096;
        }
        let ty: usize = ((y - half) * floor_tex.height as usize) / half;
        proof {
            vstd::arithmetic::div_mod::lemma_div_nonincreasing(
                ((y - half) * floor_tex.height) as int,
                half as int,
            );
        }
        let mut x: usize = 0;
        while x < w
            invariant
                framebuffer.wf(),
                floor_tex.wf(),
                w == framebuffer.width,
                h == framebuffer.height,
                w_i == w as int,
                half == h / 2,
                1 <= half,
                framebuffer.width == old(framebuffer).width,
                framebuffer.height == old(framebuffer).height,
                half <= y < h,
                0 <= x <= w,
                ty == ((y - half) * floor_tex.height) / (half as int),
                forall|xi: int, yi: int|
                    0 <= xi < w_i && 0 <= yi < framebuffer.height ==> #[trigger]
                        framebuffer.data@[yi * w_i + xi] == (if (half <= yi < y) || (yi == y && xi
                        < x) {
                        floor_tex.spec_sample(
                            (xi * floor_tex.width) / w_i,
                            ((yi - half) * floor_tex.height) / (half as int),
                        )
                    } else {
                        old(framebuffer).data@[yi * w_i + xi]
                    }),
            decreases w - x,
        {
            proof {
                assert(x * floor_tex.width <= 4096 * 4096) by (nonlinear_arith)
                    requires
                        0 <= x <= 4096,
                        0 <= floor_tex.width <= 4096;
            }
            let tx: usize = (x * floor_tex.width as usize) / w;
            proof {
                vstd::arithmetic::div_mod::lemma_div_nonincreasing(
                    (x * floor_tex.width) as int,
                    w_i,
                );
                assert(tx < 0x1_0000_0000 && ty < 0x1_0000_0000);
            }
            let color: u32 = floor_tex.get_pixel_color(tx as u32, ty as u32);
            proof {
                assert(0 <= y * w_i + x < w_i * framebuffer.height) by (nonlinear_arith)
                    requires
                        0 <= x && (x as int) < w_i,
                        0 <= y < framebuffer.height;
                assert(w_i * framebuffer.height <= 4096 * 4096) by (nonlinear_arith)
                    requires
                        1 <= w_i <= 4096,
                        1 <= framebuffer.height <= 4096;
            }
            let idx: usize = y * w + x;
            let ghost prev = framebuffer.data@;
            framebuffer.data[idx] = color;
            proof {
                assert(framebuffer.data@ == prev.update(y * w_i + x, color));
                assert(color == floor_tex.spec_sample(
                    (x * floor_tex.width) / w_i,
                    ((y - half) * floor_tex.height) / (half as int),
                ));
                assert forall|xi: int, yi: int|
                    0 <= xi < w_i && 0 <= yi < framebuffer.height implies #[trigger]
                        framebuffer.data@[yi * w_i + xi] == (if (half <= yi < y) || (yi == y && xi
                        < x + 1) {
                    floor_tex.spec_sample(
                        (xi * floor_tex.width) / w_i,
                        ((yi - half) * floor_tex.height) / (half as int),
                    )
                } else {
                    old(framebuffer).data@[yi * w_i + xi]
                }) by {
                    assert(0 <= yi * w_i + xi < w_i * framebuffer.height) by (nonlinear_arith)
                        requires
                            0 <= xi < w_i,
                            0 <= yi < framebuffer.height;
                    if yi * w_i + xi == y * w_i + x {
                        lemma_pix_index_injective(w_i, xi, yi, x as int, y as int);
                        assert(framebuffer.data@[yi * w_i + xi] == color);
                    } else {
                        assert(framebuffer.data@[yi * w_i + xi] == prev[yi * w_i + xi]);
                    }
                }
            }
            x = x + 1;
        }
        y = y + 1;
    }
    proof {
        assert forall|x: int, y: int|
            0 <= x < old(framebuffer).width && 0 <= y < old(framebuffer).height implies final(framebuffer).pix(x, y) == (if y >= old(framebuffer).height / 2 {
            floor_tex.spec_sample(
                (x * floor_tex.width) / (old(framebuffer).width as int),
                ((y - old(framebuffer).height / 2) * floor_tex.height) / ((old(framebuffer).height / 2) as int),
            )
        } else {
            old(framebuffer).pix(x, y)
        }) by {
            assert(framebuffer.data@[y * w_i + x] == (if half <= y < h {
                floor_tex.spec_sample(
                    (x * floor_tex.width) / w_i,
                    ((y - half) * floor_tex.height) / (half as int),
                )
            } else {
                old(framebuffer).data@[y * w_i + x]
            }));
        }
    }
}

/// The z-buffer entry for a column where no wall was struck.
pub const Z_INF: i64 = 0x7FFF_FFFF_FFFF_FFFF;

/// All textures of a scene, created once at startup and read-only
/// afterwards.
pub struct Assets {
    pub wall1: Texture,
    pub wall2: Texture,
    pub floor: Texture,
    pub sky: Texture,
    pub enemy_frames: Vec<Texture>,
}

impl Assets {
    /// Every texture usable, and at least one sprite animation frame.
    pub open spec fn wf(self) -> bool {
        &&& self.wall1.wf()
        &&& self.wall2.wf()
        &&& self.floor.wf()
        &&& self.sky.wf()
        &&& 1 <= self.enemy_frames@.len() <= 64
        &&& forall|i: int|
            0 <= i < self.enemy_frames@.len() ==> (#[trigger] self.enemy_frames@[i]).wf()
    }
}

/// The wall texture that a tile character selects: `'-'` takes the
/// horizontal-wall texture, everything else the vertical-wall one.
pub open spec fn spec_wall_texture(a: Assets, c: char) -> Texture {
    if c == '-' {
        a.wall2
    } else {
        a.wall1
    }
}

/// Samples the selected wall texture at normalized fixed-point
/// coordinates in `[0, FP_ONE)`.
pub fn cell_to_texture_color(
    assets: &Assets,
    wall_type: char,
    is_vertical: bool,
    tx: i64,
    ty: i64,
) -> (color: u32)
    requires
        assets.wf(),
        0 <= tx < 65536,
        0 <= ty < 65536,
    ensures
        color == spec_wall_texture(*assets, wall_type).spec_sample(
            (tx * spec_wall_texture(*assets, wall_type).width) / 65536,
            (ty * spec_wall_texture(*assets, wall_type).height) / 65536,
        ),
{
    let tex: &Texture = if wall_type == '-' {
        &assets.wall2
    } else {
        &assets.wall1
    };
    proof {
        assert(tx * tex.width <= 65536 * 4096) by (nonlinear_arith)
            requires
                0 <= tx <= 65536,
                0 <= tex.width <= 4096;
        assert(ty * tex.height <= 65536 * 4096) by (nonlinear_arith)
            requires
                0 <= ty <= 65536,
                0 <= tex.height <= 4096;
        assert(tx * tex.width >= 0) by (nonlinear_arith)
            requires
                0 <= tx,
                0 <= tex.width;
        assert(ty * tex.height >= 0) by (nonlinear_arith)
            requires
                0 <= ty,
                0 <= tex.height;
    }
    let u: u64 = ((tx as u64) * (tex.width as u64)) / 65536;
    let v: u64 = ((ty as u64) * (tex.height as u64)) / 65536;
    proof {
        vstd::arithmetic::div_mod::lemma_div_nonincreasing((tx * tex.width) as int, 65536);
        vstd::arithmetic::div_mod::lemma_div_nonincreasing((ty * tex.height) as int, 65536);
    }
    tex.get_pixel_color(u as u32, v as u32)
}

/// The angle of the ray for screen column `i` of `w`: the left edge of
/// the field of view plus `i/w` of it.
pub open spec fn spec_ray_angle(a: int, fov: int, i: int, w: int) -> int {
    a - fov / 2 + (fov * i) / w
}

/// The angle of column `i`'s ray relative to the view direction.
pub open spec fn spec_ray_theta(fov: int, i: int, w: int) -> int {
    (fov * i) / w - fov / 2
}

/// Fish-eye corrected distance: the raw ray distance scaled by the
/// cosine of its angle from the view direction, kept at least one
/// fixed-point step so that a struck wall always registers as closer
/// than the empty sky.
pub open spec fn spec_corrected_distance(d: int, theta: int) -> int {
    let m = spec_fp_mul(d, spec_cos_fp(theta));
    if m < 1 {
        1
    } else {
        m
    }
}

/// Applies the fish-eye correction to a raw ray distance.
pub fn correct_fisheye(d: i64, theta: i64) -> (c: i64)
    requires
        0 <= d <= 0x2000_0000_0000,
        -0x800_0000_0000_0000 <= theta <= 0x800_0000_0000_0000,
    ensures
        c == spec_corrected_distance(d as int, theta as int),
        1 <= c <= 0x2000_0000_0000,
{
    let cs: i64 = cos_fp(theta);
    let m: i64 = fp_mul_wide(d, cs);
    if m < 1 {
        1
    } else {
        m
    }
}

/// The fish-eye correction is exact up to truncation: scaled back by
/// FP_ONE, the corrected distance equals the raw distance times the
/// cosine of the angle between the ray and the view direction, within
/// one fixed-point step, whenever that product registers at all.
pub proof fn lemma_fisheye_exact(d: int, theta: int)
    requires
        0 <= d,
        spec_fp_mul(d, spec_cos_fp(theta)) >= 1,
    ensures
        65536 * spec_corrected_distance(d, theta) <= d * spec_cos_fp(theta),
        d * spec_cos_fp(theta) - 65536 < 65536 * spec_corrected_distance(d, theta),
{
    let c = spec_cos_fp(theta);
    let p = d * c;
    if p < 0 {
        assert((-p) / 65536 >= 0);
        assert(spec_fp_mul(d, c) <= 0);
        assert(false);
    }
    vstd::arithmetic::div_mod::lemma_fundamental_div_mod(p, 65536);
}

/// Resets every z-buffer entry to the no-wall sentinel, as happens at
/// the start of each frame.
pub fn clear_z_buffer(z_buffer: &mut Vec<i64>)
    ensures
        final(z_buffer)@.len() == old(z_buffer)@.len(),
        forall|i: int| 0 <= i < old(z_buffer)@.len() ==> final(z_buffer)@[i] == Z_INF,
{
    let n: usize = z_buffer.len();
    let mut i: usize = 0;
    while i < n
        invariant
            n == z_buffer@.len(),
            z_buffer@.len() == old(z_buffer)@.len(),
            0 <= i <= n,
            forall|j: int| 0 <= j < i ==> z_buffer@[j] == Z_INF,
        decreases n - i,
    {
        z_buffer[i] = Z_INF;
        i = i + 1;
    }
}

/// Height in pixels of the wall strip for a corrected distance.
pub open spec fn spec_strip_height(half_h: int, corrected: int) -> int {
    (half_h * 65536) / corrected
}

/// Projects a corrected distance to a wall strip height.
pub fn wall_strip_height(half_h: usize, corrected: i64) -> (s: usize)
    requires
        half_h <= 2048,
        1 <= corrected,
    ensures
        s == spec_strip_height(half_h as int, corrected as int),
{
    proof {
        assert(half_h * 65536 <= 2048 * 65536) by (nonlinear_arith)
            requires half_h <= 2048;
        vstd::arithmetic::div_mod::lemma_div_nonincreasing(
            (half_h * 65536) as int,
            corrected as int,
        );
        vstd::arithmetic::div_mod::lemma_div_pos_is_pos((half_h * 65536) as int, corrected as int);
    }
    (((half_h as u64) * 65536) / (corrected as u64)) as usize
}

/// What the wall pass decides for one screen column: whether its ray
/// struck, the strip's row range, the texture fraction of the hit
/// point, and the struck tile.
pub struct SpecWallColumn {
    pub hit: bool,
    pub top: int,
    pub bottom: int,
    pub frac: int,
    pub wall_type: char,
    pub is_vertical: bool,
}

/// The strip that the wall pass draws in column `i` of a `w` by `h`
/// screen, as a function of the maze, the player and the column.
pub open spec fn spec_wall_column(
    g: Grid,
    px: int,
    py: int,
    a: int,
    fov: int,
    w: int,
    h: int,
    i: int,
) -> SpecWallColumn {
    let s = spec_cast_ray(g, px, py, spec_ray_angle(a, fov, i, w));
    if s.wall_type == ' ' {
        SpecWallColumn { hit: false, top: 0, bottom: 0, frac: 0, wall_type: ' ', is_vertical: false }
    } else {
        let corrected = spec_corrected_distance(s.distance, spec_ray_theta(fov, i, w));
        let sh = spec_strip_height(h / 2, corrected);
        let sh2 = sh / 2;
        SpecWallColumn {
            hit: true,
            top: if sh2 > h / 2 {
                0
            } else {
                h / 2 - sh2
            },
            bottom: if h / 2 + sh2 < h {
                h / 2 + sh2
            } else {
                h - 1
            },
            frac: if s.is_vertical {
                s.hit_y % 65536
            } else {
                s.hit_x % 65536
            },
            wall_type: s.wall_type,
            is_vertical: s.is_vertical,
        }
    }
}

/// The texel that the wall pass paints at `(x, y)` when column `x`'s
/// strip covers row `y`.
pub open spec fn spec_wall_pixel(a: Assets, col: SpecWallColumn, y: int) -> u32 {
    spec_wall_texture(a, col.wall_type).spec_sample(
        (col.frac * spec_wall_texture(a, col.wall_type).width) / 65536,
        (spec_strip_tex_v(y, col.top, col.bottom) * spec_wall_texture(a, col.wall_type).height)
            / 65536,
    )
}

/// The wall pass: one ray per screen column.  Each column's z-buffer
/// entry is freshly set -- nothing of the previous frame survives -- to
/// the fish-eye-corrected distance of its hit, or to the sentinel when
/// the ray left the grid, and the struck wall's textured strip is drawn
/// around the horizon line.
#[verifier::rlimit(60)]
pub fn render_walls(
    framebuffer: &mut Framebuffer,
    maze: &Grid,
    player: &Player,
    z_buffer: &mut Vec<i64>,
    assets: &Assets,
)
    requires
        old(framebuffer).wf(),
        maze.wf(),
        player.wf(),
        player.in_grid(*maze),
        assets.wf(),
        old(z_buffer)@.len() == old(framebuffer).width,
    ensures
        final(framebuffer).wf(),
        final(framebuffer).width == old(framebuffer).width,
        final(framebuffer).height == old(framebuffer).height,
        final(z_buffer)@.len() == old(z_buffer)@.len(),
        forall|i: int|
            0 <= i < old(framebuffer).width ==> ({
                let s = spec_cast_ray(
                    *maze,
                    player.x as int,
                    player.y as int,
                    spec_ray_angle(
                        player.a as int,
                        player.fov as int,
                        i,
                        old(framebuffer).width as int,
                    ),
                );
                &&& (s.wall_type != ' ' ==> #[trigger] final(z_buffer)@[i]
                    == spec_corrected_distance(
                    s.distance,
                    spec_ray_theta(player.fov as int, i, old(framebuffer).width as int),
                ))
                &&& (s.wall_type == ' ' ==> final(z_buffer)@[i] == Z_INF)
            }),
        forall|i: int|
            0 <= i < old(framebuffer).width ==> 0 < #[trigger] final(z_buffer)@[i] <= Z_INF,
        forall|i: int|
            0 <= i < old(framebuffer).width ==> (#[trigger] final(z_buffer)@[i] < Z_INF
                <==> spec_cast_ray(
                *maze,
                player.x as int,
                player.y as int,
                spec_ray_angle(
                    player.a as int,
                    player.fov as int,
                    i,
                    old(framebuffer).width as int,
                ),
            ).wall_type != ' '),
        forall|x: int, y: int|
            0 <= x < old(framebuffer).width && 0 <= y < old(framebuffer).height ==> final(framebuffer).pix(x, y) == ({
                let col = spec_wall_column(
                    *maze,
                    player.x as int,
                    player.y as int,
                    player.a as int,
                    player.fov as int,
                    old(framebuffer).width as int,
                    old(framebuffer).height as int,
                    x,
                );
                if col.hit && col.top <= y < col.bottom {
                    spec_wall_pixel(*assets, col, y)
                } else {
                    old(framebuffer).pix(x, y)
                }
            }),
{
    clear_z_buffer(z_buffer);
    let w: usize = framebuffer.width;
    let h: usize = framebuffer.height;
    let half: usize = h / 2;
    let half_fov: i64 = ((player.fov as u64) / 2) as i64;
    let mut i: usize = 0;
    while i < w
        invariant
            framebuffer.wf(),
            maze.wf(),
            player.wf(),
            player.in_grid(*maze),
            assets.wf(),
            w == framebuffer.width,
            h == framebuffer.height,
            half == h / 2,
            framebuffer.width == old(framebuffer).width,
            framebuffer.height == old(framebuffer).height,
            z_buffer@.len() == old(z_buffer)@.len(),
            z_buffer@.len() == w,
            half_fov == player.fov as int / 2,
            0 <= i <= w,
            forall|j: int|
                0 <= j < i ==> ({
                    let s = spec_cast_ray(
                        *maze,
                        player.x as int,
                        player.y as int,
                        spec_ray_angle(player.a as int, player.fov as int, j, w as int),
                    );
                    &&& (s.wall_type != ' ' ==> #[trigger] z_buffer@[j] == spec_corrected_distance(
                        s.distance,
                        spec_ray_theta(player.fov as int, j, w as int),
                    ))
                    &&& (s.wall_type == ' ' ==> z_buffer@[j] == Z_INF)
                    &&& 0 < z_buffer@[j] <= Z_INF
                    &&& (z_buffer@[j] < Z_INF <==> s.wall_type != ' ')
                }),
            forall|j: int| i <= j < w ==> #[trigger] z_buffer@[j] == Z_INF,
            forall|x: int, y: int|
                0 <= x < framebuffer.width && 0 <= y < framebuffer.height ==> framebuffer.pix(x, y)
                    == ({
                    let col = spec_wall_column(
                        *maze,
                        player.x as int,
                        player.y as int,
                        player.a as int,
                        player.fov as int,
                        w as int,
                        h as int,
                        x,
                    );
                    if x < i && col.hit && col.top <= y < col.bottom {
                        spec_wall_pixel(*assets, col, y)
                    } else {
                        old(framebuffer).pix(x, y)
                    }
                }),
        decreases w - i,
    {
        proof {
            assert(player.fov * i <= 205888 * 4096) by (nonlinear_arith)
                requires
                    0 <= player.fov <= 205888,
                    0 <= i <= 4096;
            assert(player.fov * i >= 0) by (nonlinear_arith)
                requires
                    0 <= player.fov,
                    0 <= i;
        }
        let sweep: i64 = (((player.fov as u64) * (i as u64)) / (w as u64)) as i64;
        proof {
            vstd::arithmetic::div_mod::lemma_div_nonincreasing((player.fov * i) as int, w as int);
            vstd::arithmetic::div_mod::lemma_div_pos_is_pos((player.fov * i) as int, w as int);
        }
        let ray_a: i64 = player.a - half_fov + sweep;
        let theta: i64 = sweep - half_fov;
        let hit = cast_ray(maze, player, ray_a);
        proof {
            assert(ray_a as int == spec_ray_angle(player.a as int, player.fov as int, i as int, w as int));
            assert(theta as int == spec_ray_theta(player.fov as int, i as int, w as int));
        }
        if hit.wall_type != ' ' {
            let corrected: i64 = correct_fisheye(hit.distance, theta);
            z_buffer[i] = corrected;
            let sh: usize = wall_strip_height(half, corrected);
            let sh2: usize = sh / 2;
            let top: usize = if sh2 > half { 0 } else { half - sh2 };
            let bottom: usize = if half + sh2 < h { half + sh2 } else { h - 1 };
            let frac: i64 = if hit.is_vertical {
                fp_fract_any(hit.hit_y)
            } else {
                fp_fract_any(hit.hit_x)
            };
            let ghost col = spec_wall_column(
                *maze,
                player.x as int,
                player.y as int,
                player.a as int,
                player.fov as int,
                w as int,
                h as int,
                i as int,
            );
            proof {
                assert(col.hit && col.top == top && col.bottom == bottom && col.frac == frac
                    && col.wall_type == hit.wall_type);
            }
            let ghost fbmid = *framebuffer;
            draw_wall_strip(framebuffer, assets, hit.wall_type, hit.is_vertical, frac, i, top, bottom);
            proof {
                assert forall|x: int, y: int|
                    0 <= x < framebuffer.width && 0 <= y < framebuffer.height
                        implies framebuffer.pix(x, y) == ({
                    let colx = spec_wall_column(
                        *maze,
                        player.x as int,
                        player.y as int,
                        player.a as int,
                        player.fov as int,
                        w as int,
                        h as int,
                        x,
                    );
                    if x < i + 1 && colx.hit && colx.top <= y < colx.bottom {
                        spec_wall_pixel(*assets, colx, y)
                    } else {
                        old(framebuffer).pix(x, y)
                    }
                }) by {
                    assert(fbmid.pix(x, y) == (if x < i && spec_wall_column(
                        *maze,
                        player.x as int,
                        player.y as int,
                        player.a as int,
                        player.fov as int,
                        w as int,
                        h as int,
                        x,
                    ).hit && spec_wall_column(
                        *maze,
                        player.x as int,
                        player.y as int,
                        player.a as int,
                        player.fov as int,
                        w as int,
                        h as int,
                        x,
                    ).top <= y < spec_wall_column(
                        *maze,
                        player.x as int,
                        player.y as int,
                        player.a as int,
                        player.fov as int,
                        w as int,
                        h as int,
                        x,
                    ).bottom {
                        spec_wall_pixel(
                            *assets,
                            spec_wall_column(
                                *maze,
                                player.x as int,
                                player.y as int,
                                player.a as int,
                                player.fov as int,
                                w as int,
                                h as int,
                                x,
                            ),
                            y,
                        )
                    } else {
                        old(framebuffer).pix(x, y)
                    }));
                }
            }
        } else {
            proof {
                assert forall|x: int, y: int|
                    0 <= x < framebuffer.width && 0 <= y < framebuffer.height
                        implies framebuffer.pix(x, y) == ({
                    let colx = spec_wall_column(
                        *maze,
                        player.x as int,
                        player.y as int,
                        player.a as int,
                        player.fov as int,
                        w as int,
                        h as int,
                        x,
                    );
                    if x < i + 1 && colx.hit && colx.top <= y < colx.bottom {
                        spec_wall_pixel(*assets, colx, y)
                    } else {
                        old(framebuffer).pix(x, y)
                    }
                }) by {
                    if x == i {
                        assert(!spec_wall_column(
                            *maze,
                            player.x as int,
                            player.y as int,
                            player.a as int,
                            player.fov as int,
                            w as int,
                            h as int,
                            x,
                        ).hit);
                    }
                }
            }
        }
        i = i + 1;
    }
}

/// The vertical texture coordinate of screen row `y` within a strip
/// spanning `[top, bottom)`.
pub open spec fn spec_strip_tex_v(y: int, top: int, bottom: int) -> int {
    let t = ((y - top) * 65536) / (bottom - top);
    if t > 65535 {
        65535
    } else {
        t
    }
}

/// Draws one textured wall strip in column `i`, rows `[top, bottom)`:
/// each of those rows samples the selected wall texture at the hit
/// fraction and its row's height fraction, and no other pixel changes.
pub fn draw_wall_strip(
    framebuffer: &mut Framebuffer,
    assets: &Assets,
    wall_type: char,
    is_vertical: bool,
    frac: i64,
    i: usize,
    top: usize,
    bottom: usize,
)
    requires
        old(framebuffer).wf(),
        assets.wf(),
        i < old(framebuffer).width,
        bottom <= old(framebuffer).height,
        0 <= frac < 65536,
    ensures
        final(framebuffer).wf(),
        final(framebuffer).width == old(framebuffer).width,
        final(framebuffer).height == old(framebuffer).height,
        forall|x: int, y: int|
            0 <= x < old(framebuffer).width && 0 <= y < old(framebuffer).height ==> final(framebuffer).pix(x, y) == (if x == i && top <= y < bottom {
                spec_wall_texture(*assets, wall_type).spec_sample(
                    (frac * spec_wall_texture(*assets, wall_type).width) / 65536,
                    (spec_strip_tex_v(y, top as int, bottom as int) * spec_wall_texture(
                        *assets,
                        wall_type,
                    ).height) / 65536,
                )
            } else {
                old(framebuffer).pix(x, y)
            }),
{
    let w: usize = framebuffer.width;
    let h: usize = framebuffer.height;
    let ghost w_i: int = w as int;
    let mut y: usize = top;
    while y < bottom
        invariant
            framebuffer.wf(),
            assets.wf(),
            w == framebuffer.width,
            h == framebuffer.height,
            w_i == w as int,
            framebuffer.width == old(framebuffer).width,
            framebuffer.height == old(framebuffer).height,
            bottom <= h,
            top <= y,
            y <= bottom || y == top,
            0 <= i < w,
            0 <= frac < 65536,
            forall|xi: int, yi: int|
                0 <= xi < w_i && 0 <= yi < framebuffer.height ==> #[trigger] framebuffer.data@[yi
                    * w_i + xi] == (if xi == i && top <= yi < y {
                    spec_wall_texture(*assets, wall_type).spec_sample(
                        (frac * spec_wall_texture(*assets, wall_type).width) / 65536,
                        (spec_strip_tex_v(yi, top as int, bottom as int) * spec_wall_texture(
                            *assets,
                            wall_type,
                        ).height) / 65536,
                    )
                } else {
                    old(framebuffer).data@[yi * w_i + xi]
                }),
        decreases bottom - y,
    {
        proof {
            assert((y - top) * 65536 <= 4096 * 65536) by (nonlinear_arith)
                requires
                    0 <= y - top <= 4096;
        }
        let tex_v: i64 = ((((y - top) as u64) * 65536) / ((bottom - top) as u64)) as i64;
        let tv: i64 = if tex_v > 65535 { 65535 } else { tex_v };
        proof {
            vstd::arithmetic::div_mod::lemma_div_pos_is_pos(
                ((y - top) * 65536) as int,
                (bottom - top) as int,
            );
            assert(tv == spec_strip_tex_v(y as int, top as int, bottom as int));
        }
        let color: u32 = cell_to_texture_color(assets, wall_type, is_vertical, frac, tv);
        proof {
            assert(0 <= y * (w as int) + i < (w as int) * (h as int)) by (nonlinear_arith)
                requires
                    0 <= i && (i as int) < w as int,
                    0 <= y && (y as int) < h as int;
            assert((w as int) * (h as int) <= 4096 * 4096) by (nonlinear_arith)
                requires
                    1 <= w as int <= 4096,
                    1 <= h as int <= 4096;
        }
        let idx: usize = y * w + i;
        let ghost prev = framebuffer.data@;
        framebuffer.data[idx] = color;
        proof {
            assert(framebuffer.data@ == prev.update(y * w_i + i, color));
            assert forall|xi: int, yi: int|
                0 <= xi < w_i && 0 <= yi < framebuffer.height implies #[trigger]
                    framebuffer.data@[yi * w_i + xi] == (if xi == i && top <= yi < y + 1 {
                spec_wall_texture(*assets, wall_type).spec_sample(
                    (frac * spec_wall_texture(*assets, wall_type).width) / 65536,
                    (spec_strip_tex_v(yi, top as int, bottom as int) * spec_wall_texture(
                        *assets,
                        wall_type,
                    ).height) / 65536,
                )
            } else {
                old(framebuffer).data@[yi * w_i + xi]
            }) by {
                assert(0 <= yi * w_i + xi < w_i * framebuffer.height) by (nonlinear_arith)
                    requires
                        0 <= xi < w_i,
                        0 <= yi < framebuffer.height;
                if yi * w_i + xi == y * w_i + i {
                    lemma_pix_index_injective(w_i, xi, yi, i as int, y as int);
                    assert(framebuffer.data@[yi * w_i + xi] == color);
                } else {
                    assert(framebuffer.data@[yi * w_i + xi] == prev[yi * w_i + xi]);
                }
            }
        }
        y = y + 1;
    }
    proof {
        assert forall|x: int, y: int|
            0 <= x < old(framebuffer).width && 0 <= y < old(framebuffer).height implies final(framebuffer).pix(x, y) == (if x == i && top <= y < bottom {
            spec_wall_texture(*assets, wall_type).spec_sample(
                (frac * spec_wall_texture(*assets, wall_type).width) / 65536,
                (spec_strip_tex_v(y, top as int, bottom as int) * spec_wall_texture(
                    *assets,
                    wall_type,
                ).height) / 65536,
            )
        } else {
            old(framebuffer).pix(x, y)
        }) by {
            assert(framebuffer.data@[y * w_i + x] == (if x == i && top <= y < bottom {
                spec_wall_texture(*assets, wall_type).spec_sample(
                    (frac * spec_wall_texture(*assets, wall_type).width) / 65536,
                    (spec_strip_tex_v(y, top as int, bottom as int) * spec_wall_texture(
                        *assets,
                        wall_type,
                    ).height) / 65536,
                )
            } else {
                old(framebuffer).data@[y * w_i + x]
            }));
        }
    }
}

/// A billboarded enemy at a world position.
#[derive(Clone, Copy)]
pub struct Sprite {
    pub x: i64,
    pub y: i64,
}

/// The fixed list of enemy positions of the maze scene.
pub fn default_enemy_positions() -> (v: Vec<Sprite>)
    ensures
        v@.len() == 5,
        v@[0].x == 2 * 65536 && v@[0].y == 5 * 65536,
        v@[1].x == 11 * 65536 && v@[1].y == 3 * 65536 + 32768,
        v@[2].x == 5 * 65536 && v@[2].y == 5 * 65536,
        v@[3].x == 8 * 65536 && v@[3].y == 7 * 65536,
        v@[4].x == 7 * 65536 && v@[4].y == 2 * 65536,
{
    let mut v: Vec<Sprite> = Vec::new();
    v.push(Sprite { x: 2 * 65536, y: 5 * 65536 });
    v.push(Sprite { x: 11 * 65536, y: 3 * 65536 + 32768 });
    v.push(Sprite { x: 5 * 65536, y: 5 * 65536 });
    v.push(Sprite { x: 8 * 65536, y: 7 * 65536 });
    v.push(Sprite { x: 7 * 65536, y: 2 * 65536 });
    v
}

/// Sprite animation frames advance ten times a second.
pub const ANIMATION_RATE: u64 = 10;

/// The animation frame shown at `t_ms` milliseconds: frames advance at
/// `ANIMATION_RATE` per second and wrap around the frame list.
pub open spec fn spec_frame_index(t_ms: int, n: int) -> int {
    ((t_ms * 10) / 1000) % n
}

/// Picks the animation frame for elapsed time `t_ms` among `n` frames.
pub fn frame_index(t_ms: u64, n: usize) -> (i: usize)
    requires
        1 <= n,
        t_ms <= 0x100_0000_0000_0000,
    ensures
        i == spec_frame_index(t_ms as int, n as int),
        i < n,
{
    (((t_ms * ANIMATION_RATE) / 1000) % (n as u64)) as usize
}

/// The nonnegative integer square root.
pub open spec fn spec_isqrt(n: int) -> int {
    choose|r: int| 0 <= r && #[trigger] (r * r) <= n && n < (r + 1) * (r + 1)
}

/// The integer square root is unique, so any witness equals it.
pub proof fn lemma_isqrt_unique(n: int, r: int)
    requires
        0 <= r,
        r * r <= n,
        n < (r + 1) * (r + 1),
    ensures
        spec_isqrt(n) == r,
{
    let c = spec_isqrt(n);
    assert(0 <= c && c * c <= n && n < (c + 1) * (c + 1)) by {
        assert(0 <= r && r * r <= n && n < (r + 1) * (r + 1));
    }
    assert(c == r) by (nonlinear_arith)
        requires
            0 <= r,
            r * r <= n,
            n < (r + 1) * (r + 1),
            0 <= c,
            c * c <= n,
            n < (c + 1) * (c + 1);
}

/// Euclidean distance from the player to a sprite, in fixed point.
pub open spec fn spec_sprite_dist(p: Player, s: Sprite) -> int {
    spec_isqrt((s.x - p.x) * (s.x - p.x) + (s.y - p.y) * (s.y - p.y))
}

/// Angle of the sprite relative to the view direction, wrapped to one
/// half turn either side.
pub open spec fn spec_sprite_theta(p: Player, s: Sprite) -> int {
    let t = crate::trig::spec_atan2_fp(s.y - p.y, s.x - p.x) - p.a;
    if t < -205888 {
        t + 411776
    } else if t > 205888 {
        t - 411776
    } else {
        t
    }
}

/// A sprite is skipped when it lies outside the field of view or
/// closer than half a tile.
pub open spec fn spec_sprite_culled(p: Player, s: Sprite) -> bool {
    iabs(spec_sprite_theta(p, s)) > p.fov / 2 || spec_sprite_dist(p, s) < 32768
}

/// The screen column of the sprite's center, clamped to the screen.
pub open spec fn spec_sprite_screen_x(p: Player, s: Sprite, w: int) -> int {
    let ratio = crate::fixed::spec_fp_div(spec_sprite_theta(p, s), p.fov as int);
    let raw = ((w / 2) * (65536 + ratio)) / 65536;
    if raw < w {
        raw
    } else {
        w - 1
    }
}

/// Height in pixels of the sprite's billboard.
pub open spec fn spec_sprite_height(p: Player, s: Sprite, h: int) -> int {
    (h * 26214) / spec_sprite_dist(p, s)
}

/// The clamped screen bounding box `(x0, x1, y0, y1)` of the sprite's
/// billboard.
pub open spec fn spec_sprite_box(p: Player, s: Sprite, w: int, h: int) -> (int, int, int, int) {
    let sh = spec_sprite_height(p, s, h);
    let sx = spec_sprite_screen_x(p, s, w);
    let sx0 = sx - sh / 2;
    let x0 = if sx0 < 0 {
        0
    } else {
        sx0
    };
    let xe = sx0 + sh;
    let x1 = if xe < 0 {
        0
    } else if xe < w {
        xe
    } else {
        w
    };
    let y0 = h / 2 - sh / 2;
    let y1 = h / 2 + sh / 2;
    (x0, x1, y0, y1)
}

/// The frame texel that the billboard shows at screen pixel `(x, y)`,
/// for a billboard of side `sh` whose box starts at `(sx0, y0)`.
pub open spec fn spec_sprite_texel(frame: Texture, sx0: int, y0: int, sh: int, x: int, y: int) -> u32 {
    frame.spec_sample(((x - sx0) * frame.width) / sh, ((y - y0) * frame.height) / sh)
}

/// Computes the player-to-sprite distance.
pub fn sprite_distance(player: &Player, sprite: &Sprite) -> (d: i64)
    requires
        -0x1000_0000 <= player.x <= 0x1000_0000,
        -0x1000_0000 <= player.y <= 0x1000_0000,
        -0x1000_0000 <= sprite.x <= 0x1000_0000,
        -0x1000_0000 <= sprite.y <= 0x1000_0000,
    ensures
        d == spec_sprite_dist(*player, *sprite),
        0 <= d <= 0x1_0000_0000,
{
    let dx: i64 = sprite.x - player.x;
    let dy: i64 = sprite.y - player.y;
    let ux: u64 = (if dx < 0 { -dx } else { dx }) as u64;
    let uy: u64 = (if dy < 0 { -dy } else { dy }) as u64;
    proof {
        assert(ux * ux <= 0x2000_0000 * 0x2000_0000) by (nonlinear_arith)
            requires 0 <= ux as int <= 0x2000_0000;
        assert(uy * uy <= 0x2000_0000 * 0x2000_0000) by (nonlinear_arith)
            requires 0 <= uy as int <= 0x2000_0000;
        assert(ux as int * ux as int == (dx as int) * (dx as int)) by (nonlinear_arith)
            requires ux as int == iabs(dx as int);
        assert(uy as int * uy as int == (dy as int) * (dy as int)) by (nonlinear_arith)
            requires uy as int == iabs(dy as int);
    }
    let sq: u64 = ux * ux + uy * uy;
    let r: u64 = crate::trig::isqrt(sq);
    proof {
        lemma_isqrt_unique(sq as int, r as int);
        assert(r as int * r as int <= 0x4000_0000_0000_0000);
        assert(r <= 0x1_0000_0000) by (nonlinear_arith)
            requires
                0 <= r as int,
                r as int * r as int <= 0x4000_0000_0000_0000;
    }
    r as i64
}

/// Draws one enemy as a billboard: culled outside the view cone or
/// when too close, occluded when a wall is nearer at its center
/// column; when drawn, only pixels inside its bounding box change, and
/// its center column's depth is recorded.
#[verifier::rlimit(60)]
pub fn render_enemy(
    framebuffer: &mut Framebuffer,
    player: &Player,
    sprite: &Sprite,
    z_buffer: &mut Vec<i64>,
    t_ms: u64,
    assets: &Assets,
)
    requires
        old(framebuffer).wf(),
        player.wf(),
        assets.wf(),
        -0x1000_0000 <= player.x <= 0x1000_0000,
        -0x1000_0000 <= player.y <= 0x1000_0000,
        -0x1000_0000 <= sprite.x <= 0x1000_0000,
        -0x1000_0000 <= sprite.y <= 0x1000_0000,
        old(z_buffer)@.len() == old(framebuffer).width,
        t_ms <= 0x100_0000_0000_0000,
    ensures
        final(framebuffer).wf(),
        final(framebuffer).width == old(framebuffer).width,
        final(framebuffer).height == old(framebuffer).height,
        final(z_buffer)@.len() == old(z_buffer)@.len(),
        ({
            let culled = spec_sprite_culled(*player, *sprite);
            let sx = spec_sprite_screen_x(*player, *sprite, old(framebuffer).width as int);
            let dist = spec_sprite_dist(*player, *sprite);
            if culled || old(z_buffer)@[sx] <= dist {
                final(framebuffer).data@ == old(framebuffer).data@ && final(z_buffer)@ == old(
                    z_buffer,
                )@
            } else {
                let bx = spec_sprite_box(
                    *player,
                    *sprite,
                    old(framebuffer).width as int,
                    old(framebuffer).height as int,
                );
                &&& final(z_buffer)@ == old(z_buffer)@.update(sx, dist as i64)
                &&& 0 <= sx < old(z_buffer)@.len()
                &&& dist >= 32768
                &&& forall|x: int, y: int|
                    0 <= x < old(framebuffer).width && 0 <= y < old(framebuffer).height && !(bx.0
                        <= x < bx.1 && bx.2 <= y < bx.3) ==> final(framebuffer).pix(x, y) == old(
                        framebuffer,
                    ).pix(x, y)
                &&& forall|x: int, y: int|
                    0 <= x < old(framebuffer).width && 0 <= y < old(framebuffer).height && bx.0
                        <= x < bx.1 && bx.2 <= y < bx.3 ==> final(framebuffer).pix(x, y) == ({
                        let frame = assets.enemy_frames@[spec_frame_index(
                            t_ms as int,
                            assets.enemy_frames@.len() as int,
                        )];
                        let sh = spec_sprite_height(
                            *player,
                            *sprite,
                            old(framebuffer).height as int,
                        );
                        let texel = spec_sprite_texel(
                            frame,
                            spec_sprite_screen_x(
                                *player,
                                *sprite,
                                old(framebuffer).width as int,
                            ) - sh / 2,
                            bx.2,
                            sh,
                            x,
                            y,
                        );
                        if texel != 0x000000 {
                            texel
                        } else {
                            old(framebuffer).pix(x, y)
                        }
                    })
            }
        }),
{
    let w: usize = framebuffer.width;
    let h: usize = framebuffer.height;
    let dx: i64 = sprite.x - player.x;
    let dy: i64 = sprite.y - player.y;
    let dist: i64 = sprite_distance(player, sprite);
    if dist < 32768 {
        return ;
    }
    proof {
        if dx == 0 && dy == 0 {
            lemma_isqrt_unique(0, 0);
            assert(false);
        }
    }
    let t0: i64 = crate::trig::atan2_fp(dy, dx) - player.a;
    let theta: i64 = if t0 < -205888 {
        t0 + 411776
    } else if t0 > 205888 {
        t0 - 411776
    } else {
        t0
    };
    let half_fov: i64 = ((player.fov as u64) / 2) as i64;
    let abs_theta: i64 = if theta < 0 { -theta } else { theta };
    if abs_theta > half_fov {
        return ;
    }
    let ratio: i64 = crate::fixed::fp_div(theta, player.fov);
    proof {
        assert(iabs(theta as int) * 65536 == (2 * iabs(theta as int)) * 32768) by (nonlinear_arith);
        assert((2 * iabs(theta as int)) * 32768 <= player.fov * 32768) by (nonlinear_arith)
            requires 2 * iabs(theta as int) <= player.fov as int;
        vstd::arithmetic::div_mod::lemma_div_is_ordered(
            iabs(theta as int) * 65536,
            (player.fov as int) * 32768,
            player.fov as int,
        );
        assert(((player.fov as int) * 32768) / (player.fov as int) == 32768) by {
            vstd::arithmetic::div_mod::lemma_div_by_multiple(32768, player.fov as int);
        }
        assert(iabs(ratio as int) <= 32768);
    }
    proof {
        assert(((w / 2) as int) * ((65536 + ratio) as int) <= 2048 * 98304) by (nonlinear_arith)
            requires
                0 <= (w / 2) as int <= 2048,
                0 <= (65536 + ratio) as int <= 98304;
    }
    let scaled: u64 = ((w / 2) as u64) * ((65536 + ratio) as u64);
    let raw_sx: usize = (scaled / 65536) as usize;
    let screen_x: usize = if raw_sx < w {
        raw_sx
    } else {
        w - 1
    };
    let occ: i64 = z_buffer[screen_x];
    if occ <= dist {
        return ;
    }
    let ghost zprev = z_buffer@;
    z_buffer[screen_x] = dist;
    proof {
        assert(z_buffer@ == zprev.update(screen_x as int, dist));
    }
    let fi: usize = frame_index(t_ms, assets.enemy_frames.len());
    let frame: &Texture = &assets.enemy_frames[fi];
    proof {
        assert(h * 26214 <= 4096 * 26214) by (nonlinear_arith)
            requires h <= 4096;
    }
    let sh: usize = (((h as u64) * 26214) / (dist as u64)) as usize;
    proof {
        vstd::arithmetic::div_mod::lemma_div_is_ordered_by_denominator(
            (h * 26214) as int,
            32768,
            dist as int,
        );
        assert(((h * 26214) as int) / 32768 <= h) by {
            vstd::arithmetic::div_mod::lemma_div_is_ordered(
                (h * 26214) as int,
                (h * 32768) as int,
                32768,
            );
            vstd::arithmetic::div_mod::lemma_div_by_multiple(h as int, 32768);
            assert(h * 26214 <= h * 32768) by (nonlinear_arith)
                requires h >= 0;
        }
        vstd::arithmetic::div_mod::lemma_div_pos_is_pos((h * 26214) as int, dist as int);
    }
    let sh2: usize = sh / 2;
    let half: usize = h / 2;
    let y0: usize = half - sh2;
    let y1: usize = half + sh2;
    let sx0: i64 = (screen_x as i64) - (sh2 as i64);
    let x0: usize = if sx0 < 0 {
        0
    } else {
        sx0 as usize
    };
    let xe: i64 = sx0 + (sh as i64);
    let x1: usize = if xe < 0 {
        0
    } else if (xe as usize) < w {
        xe as usize
    } else {
        w
    };
    let ghost bx = spec_sprite_box(*player, *sprite, w as int, h as int);
    proof {
        assert(bx.0 == x0 && bx.1 == x1 && bx.2 == y0 && bx.3 == y1);
    }
    if sh == 0 {
        return ;
    }
    let ghost w_i: int = w as int;
    let ghost fb0 = old(framebuffer).data@;
    let mut x: usize = x0;
    while x < x1
        invariant
            framebuffer.wf(),
            frame.wf(),
            w == framebuffer.width,
            h == framebuffer.height,
            w_i == w as int,
            framebuffer.width == old(framebuffer).width,
            framebuffer.height == old(framebuffer).height,
            z_buffer@.len() == old(z_buffer)@.len(),
            fb0 == old(framebuffer).data@,
            x0 <= x,
            x <= x1 || x == x0,
            x1 <= w,
            y0 <= y1 <= h,
            1 <= sh <= 4096,
            sx0 <= x0,
            x0 as int <= sx0 + sh,
            frame == assets.enemy_frames@[spec_frame_index(
                t_ms as int,
                assets.enemy_frames@.len() as int,
            )],
            forall|xi: int, yi: int|
                0 <= xi < w_i && 0 <= yi < framebuffer.height && !(x0 <= xi < x && y0 <= yi < y1)
                    ==> #[trigger] framebuffer.data@[yi * w_i + xi] == fb0[yi * w_i + xi],
            forall|xi: int, yi: int|
                0 <= xi < w_i && 0 <= yi < framebuffer.height && x0 <= xi < x && y0 <= yi < y1
                    ==> #[trigger] framebuffer.data@[yi * w_i + xi] == ({
                    let texel = spec_sprite_texel(*frame, sx0 as int, y0 as int, sh as int, xi, yi);
                    if texel != 0x000000 {
                        texel
                    } else {
                        fb0[yi * w_i + xi]
                    }
                }),
        decreases x1 - x,
    {
        proof {
            assert(((x - sx0) as int) * (frame.width as int) <= 8192 * 4096) by (nonlinear_arith)
                requires
                    0 <= (x - sx0) as int <= 8192,
                    0 <= frame.width <= 4096;
        }
        let tx: u64 = (((x as i64) - sx0) as u64) * (frame.width as u64) / (sh as u64);
        let mut y: usize = y0;
        while y < y1
            invariant
                framebuffer.wf(),
                frame.wf(),
                w == framebuffer.width,
                h == framebuffer.height,
                w_i == w as int,
                framebuffer.width == old(framebuffer).width,
                framebuffer.height == old(framebuffer).height,
                z_buffer@.len() == old(z_buffer)@.len(),
                fb0 == old(framebuffer).data@,
                x0 <= x < x1,
                x1 <= w,
                y0 <= y,
                y <= y1 || y == y0,
                y1 <= h,
                1 <= sh <= 4096,
                sx0 <= x0,
                tx <= 0x1_0000_0000,
                tx as int == (((x as int) - sx0) * frame.width) / (sh as int),
                frame == assets.enemy_frames@[spec_frame_index(
                    t_ms as int,
                    assets.enemy_frames@.len() as int,
                )],
                forall|xi: int, yi: int|
                    0 <= xi < w_i && 0 <= yi < framebuffer.height && !((x0 <= xi < x && y0 <= yi
                        < y1) || (xi == x && y0 <= yi < y)) ==> #[trigger] framebuffer.data@[yi
                        * w_i + xi] == fb0[yi * w_i + xi],
                forall|xi: int, yi: int|
                    0 <= xi < w_i && 0 <= yi < framebuffer.height && ((x0 <= xi < x && y0 <= yi
                        < y1) || (xi == x && y0 <= yi < y)) ==> #[trigger] framebuffer.data@[yi
                        * w_i + xi] == ({
                        let texel = spec_sprite_texel(
                            *frame,
                            sx0 as int,
                            y0 as int,
                            sh as int,
                            xi,
                            yi,
                        );
                        if texel != 0x000000 {
                            texel
                        } else {
                            fb0[yi * w_i + xi]
                        }
                    }),
            decreases y1 - y,
        {
            proof {
                assert(((y - y0) as int) * (frame.height as int) <= 4096 * 4096)
                    by (nonlinear_arith)
                    requires
                        0 <= (y - y0) as int <= 4096,
                        0 <= frame.height <= 4096;
            }
            let ty: u64 = (((y - y0) as u64) * (frame.height as u64)) / (sh as u64);
            proof {
                vstd::arithmetic::div_mod::lemma_div_nonincreasing(
                    ((y - y0) * frame.height) as int,
                    sh as int,
                );
            }
            let color: u32 = frame.get_pixel_color(tx as u32, ty as u32);
            proof {
                assert(color == spec_sprite_texel(
                    *frame,
                    sx0 as int,
                    y0 as int,
                    sh as int,
                    x as int,
                    y as int,
                ));
            }
            if color != 0x000000 {
                proof {
                    assert(0 <= y * (w as int) + x < (w as int) * (h as int)) by (nonlinear_arith)
                        requires
                            0 <= x && (x as int) < w as int,
                            0 <= y && (y as int) < h as int;
                    assert((w as int) * (h as int) <= 4096 * 4096) by (nonlinear_arith)
                        requires
                            1 <= w as int <= 4096,
                            1 <= h as int <= 4096;
                }
                let idx: usize = y * w + x;
                let ghost prev = framebuffer.data@;
                framebuffer.data[idx] = color;
                proof {
                    assert(framebuffer.data@ == prev.update(y * w_i + x, color));
                    assert forall|xi: int, yi: int|
                        0 <= xi < w_i && 0 <= yi < framebuffer.height implies #[trigger]
                            framebuffer.data@[yi * w_i + xi] == (if xi == x && yi == y {
                        color
                    } else {
                        prev[yi * w_i + xi]
                    }) by {
                        assert(0 <= yi * w_i + xi < w_i * framebuffer.height) by (nonlinear_arith)
                            requires
                                0 <= xi < w_i,
                                0 <= yi < framebuffer.height;
                        if yi * w_i + xi == y * w_i + x {
                            lemma_pix_index_injective(w_i, xi, yi, x as int, y as int);
                        }
                    }
                }
            }
            y = y + 1;
        }
        x = x + 1;
    }
    proof {
        assert forall|x: int, y: int|
            0 <= x < old(framebuffer).width && 0 <= y < old(framebuffer).height && !(bx.0 <= x
                < bx.1 && bx.2 <= y < bx.3) implies final(framebuffer).pix(x, y) == old(
            framebuffer,
        ).pix(x, y) by {
            assert(framebuffer.data@[y * w_i + x] == fb0[y * w_i + x]);
        }
        let sxs = spec_sprite_screen_x(*player, *sprite, w as int);
        let shs = spec_sprite_height(*player, *sprite, h as int);
        assert(sh as int == shs);
        assert(sx0 as int == sxs - shs / 2);
        assert forall|x: int, y: int|
            0 <= x < old(framebuffer).width && 0 <= y < old(framebuffer).height && bx.0 <= x
                < bx.1 && bx.2 <= y < bx.3 implies final(framebuffer).pix(x, y) == ({
            let fr = assets.enemy_frames@[spec_frame_index(
                t_ms as int,
                assets.enemy_frames@.len() as int,
            )];
            let texel = spec_sprite_texel(fr, sxs - shs / 2, bx.2, shs, x, y);
            if texel != 0x000000 {
                texel
            } else {
                old(framebuffer).pix(x, y)
            }
        }) by {
            assert(framebuffer.data@[y * w_i + x] == ({
                let texel = spec_sprite_texel(*frame, sx0 as int, y0 as int, sh as int, x, y);
                if texel != 0x000000 {
                    texel
                } else {
                    fb0[y * w_i + x]
                }
            }));
        }
    }
}

/// Whether pixel `(x, y)` lies in the sprite's clamped bounding box.
pub open spec fn spec_in_sprite_box(p: Player, s: Sprite, w: int, h: int, x: int, y: int) -> bool {
    let bx = spec_sprite_box(p, s, w, h);
    bx.0 <= x < bx.1 && bx.2 <= y < bx.3
}

/// The z-buffer after drawing the first `n` sprites of the list in
/// order over `z`: each sprite that is neither culled nor occluded at
/// its center column records its distance there.
pub open spec fn spec_enemies_zpass(
    p: Player,
    sprites: Seq<Sprite>,
    w: int,
    z: Seq<i64>,
    n: nat,
) -> Seq<i64>
    decreases n,
{
    if n == 0 {
        z
    } else {
        let prev = spec_enemies_zpass(p, sprites, w, z, (n - 1) as nat);
        let s = sprites[n - 1];
        let sx = spec_sprite_screen_x(p, s, w);
        let dist = spec_sprite_dist(p, s);
        if spec_sprite_culled(p, s) || prev[sx] <= dist {
            prev
        } else {
            prev.update(sx, dist as i64)
        }
    }
}

/// Whether the sprite at index `k` of the list gets drawn: neither
/// culled nor occluded by the depth recorded at its center column
/// after the sprites before it were processed over `z0`.
pub open spec fn spec_sprite_drawn(
    p: Player,
    sprites: Seq<Sprite>,
    w: int,
    z0: Seq<i64>,
    k: int,
) -> bool {
    let prev = spec_enemies_zpass(p, sprites, w, z0, k as nat);
    let s = sprites[k];
    !spec_sprite_culled(p, s) && prev[spec_sprite_screen_x(p, s, w)] > spec_sprite_dist(p, s)
}

/// Draws every enemy in the list, in order.  The z-buffer afterwards
/// is exactly the fold of the per-sprite update over the list, its
/// entries never increase, and pixels outside every drawn sprite's
/// bounding box are untouched.
pub fn render_enemies(
    framebuffer: &mut Framebuffer,
    player: &Player,
    sprites: &Vec<Sprite>,
    z_buffer: &mut Vec<i64>,
    t_ms: u64,
    assets: &Assets,
)
    requires
        old(framebuffer).wf(),
        player.wf(),
        assets.wf(),
        -0x1000_0000 <= player.x <= 0x1000_0000,
        -0x1000_0000 <= player.y <= 0x1000_0000,
        forall|k: int|
            0 <= k < sprites@.len() ==> -0x1000_0000 <= (#[trigger] sprites@[k]).x <= 0x1000_0000
                && -0x1000_0000 <= sprites@[k].y <= 0x1000_0000,
        old(z_buffer)@.len() == old(framebuffer).width,
        t_ms <= 0x100_0000_0000_0000,
    ensures
        final(framebuffer).wf(),
        final(framebuffer).width == old(framebuffer).width,
        final(framebuffer).height == old(framebuffer).height,
        final(z_buffer)@.len() == old(z_buffer)@.len(),
        final(z_buffer)@ == spec_enemies_zpass(
            *player,
            sprites@,
            old(framebuffer).width as int,
            old(z_buffer)@,
            sprites@.len() as nat,
        ),
        forall|j: int|
            0 <= j < old(z_buffer)@.len() ==> #[trigger] final(z_buffer)@[j] <= old(z_buffer)@[j],
        forall|j: int|
            0 <= j < old(z_buffer)@.len() ==> #[trigger] final(z_buffer)@[j] == old(z_buffer)@[j]
                || final(z_buffer)@[j] >= 32768,
        forall|x: int, y: int|
            0 <= x < old(framebuffer).width && 0 <= y < old(framebuffer).height && (forall|kk: int|
                0 <= kk < sprites@.len() ==> !spec_in_sprite_box(
                    *player,
                    #[trigger] sprites@[kk],
                    old(framebuffer).width as int,
                    old(framebuffer).height as int,
                    x,
                    y,
                )) ==> final(framebuffer).pix(x, y) == old(framebuffer).pix(x, y),
        forall|x: int, y: int|
            0 <= x < old(framebuffer).width && 0 <= y < old(framebuffer).height && (forall|kk: int|
                0 <= kk < sprites@.len() && #[trigger] spec_sprite_drawn(
                    *player,
                    sprites@,
                    old(framebuffer).width as int,
                    old(z_buffer)@,
                    kk,
                ) ==> !spec_in_sprite_box(
                    *player,
                    sprites@[kk],
                    old(framebuffer).width as int,
                    old(framebuffer).height as int,
                    x,
                    y,
                )) ==> final(framebuffer).pix(x, y) == old(framebuffer).pix(x, y),
{
    let n: usize = sprites.len();
    let mut k: usize = 0;
    while k < n
        invariant
            framebuffer.wf(),
            player.wf(),
            assets.wf(),
            -0x1000_0000 <= player.x <= 0x1000_0000,
            -0x1000_0000 <= player.y <= 0x1000_0000,
            forall|j: int|
                0 <= j < sprites@.len() ==> -0x1000_0000 <= (#[trigger] sprites@[j]).x
                    <= 0x1000_0000 && -0x1000_0000 <= sprites@[j].y <= 0x1000_0000,
            n == sprites@.len(),
            0 <= k <= n,
            framebuffer.width == old(framebuffer).width,
            framebuffer.height == old(framebuffer).height,
            z_buffer@.len() == old(z_buffer)@.len(),
            z_buffer@.len() == framebuffer.width,
            t_ms <= 0x100_0000_0000_0000,
            z_buffer@ == spec_enemies_zpass(
                *player,
                sprites@,
                framebuffer.width as int,
                old(z_buffer)@,
                k as nat,
            ),
            forall|j: int|
                0 <= j < old(z_buffer)@.len() ==> #[trigger] z_buffer@[j] <= old(z_buffer)@[j],
            forall|j: int|
                0 <= j < old(z_buffer)@.len() ==> #[trigger] z_buffer@[j] == old(z_buffer)@[j]
                    || z_buffer@[j] >= 32768,
            forall|x: int, y: int|
                0 <= x < framebuffer.width && 0 <= y < framebuffer.height && (forall|kk: int|
                    0 <= kk < k ==> !(#[trigger] spec_sprite_drawn(
                        *player,
                        sprites@,
                        framebuffer.width as int,
                        old(z_buffer)@,
                        kk,
                    ) && spec_in_sprite_box(
                        *player,
                        sprites@[kk],
                        framebuffer.width as int,
                        framebuffer.height as int,
                        x,
                        y,
                    ))) ==> framebuffer.pix(x, y) == old(framebuffer).pix(x, y),
        decreases n - k,
    {
        let sp: Sprite = sprites[k];
        let ghost zmid = z_buffer@;
        let ghost fbmid = framebuffer.data@;
        render_enemy(framebuffer, player, &sp, z_buffer, t_ms, assets);
        proof {
            let culled = spec_sprite_culled(*player, sp);
            let sx = spec_sprite_screen_x(*player, sp, framebuffer.width as int);
            let dist = spec_sprite_dist(*player, sp);
            assert(z_buffer@ == spec_enemies_zpass(
                *player,
                sprites@,
                framebuffer.width as int,
                old(z_buffer)@,
                (k + 1) as nat,
            ));
            assert forall|j: int|
                0 <= j < old(z_buffer)@.len() implies #[trigger] z_buffer@[j] <= old(
                z_buffer,
            )@[j] by {
                if culled || zmid[sx] <= dist {
                    assert(z_buffer@[j] == zmid[j]);
                } else {
                    assert(z_buffer@ == zmid.update(sx, dist as i64));
                    if j == sx {
                        assert(z_buffer@[j] == dist as i64);
                        assert(dist < zmid[sx]);
                    } else {
                        assert(z_buffer@[j] == zmid[j]);
                    }
                }
            }
            assert forall|j: int|
                0 <= j < old(z_buffer)@.len() implies #[trigger] z_buffer@[j] == old(
                z_buffer,
            )@[j] || z_buffer@[j] >= 32768 by {
                if culled || zmid[sx] <= dist {
                    assert(z_buffer@[j] == zmid[j]);
                } else {
                    assert(z_buffer@ == zmid.update(sx, dist as i64));
                    if j == sx {
                        assert(z_buffer@[j] == dist as i64);
                    } else {
                        assert(z_buffer@[j] == zmid[j]);
                    }
                }
            }
            assert forall|x: int, y: int|
                0 <= x < framebuffer.width && 0 <= y < framebuffer.height && (forall|kk: int|
                    0 <= kk < k + 1 ==> !(#[trigger] spec_sprite_drawn(
                        *player,
                        sprites@,
                        framebuffer.width as int,
                        old(z_buffer)@,
                        kk,
                    ) && spec_in_sprite_box(
                        *player,
                        sprites@[kk],
                        framebuffer.width as int,
                        framebuffer.height as int,
                        x,
                        y,
                    ))) implies framebuffer.pix(x, y) == old(framebuffer).pix(x, y) by {
                if culled || zmid[sx] <= dist {
                    assert(!spec_sprite_drawn(
                        *player,
                        sprites@,
                        framebuffer.width as int,
                        old(z_buffer)@,
                        k as int,
                    ));
                    assert(framebuffer.data@ == fbmid);
                } else {
                    assert(spec_sprite_drawn(
                        *player,
                        sprites@,
                        framebuffer.width as int,
                        old(z_buffer)@,
                        k as int,
                    ));
                    assert(!spec_in_sprite_box(
                        *player,
                        sprites@[k as int],
                        framebuffer.width as int,
                        framebuffer.height as int,
                        x,
                        y,
                    ));
                    assert(framebuffer.pix(x, y) == fbmid[y * (framebuffer.width as int) + x]);
                }
            }
        }
        k = k + 1;
    }
    proof {
        assert forall|x: int, y: int|
            0 <= x < framebuffer.width && 0 <= y < framebuffer.height && (forall|kk: int|
                0 <= kk < sprites@.len() ==> !spec_in_sprite_box(
                    *player,
                    #[trigger] sprites@[kk],
                    framebuffer.width as int,
                    framebuffer.height as int,
                    x,
                    y,
                )) implies framebuffer.pix(x, y) == old(framebuffer).pix(x, y) by {
            assert forall|kk: int|
                0 <= kk < n implies !(#[trigger] spec_sprite_drawn(
                *player,
                sprites@,
                framebuffer.width as int,
                old(z_buffer)@,
                kk,
            ) && spec_in_sprite_box(
                *player,
                sprites@[kk],
                framebuffer.width as int,
                framebuffer.height as int,
                x,
                y,
            )) by {
                assert(!spec_in_sprite_box(
                    *player,
                    sprites@[kk],
                    framebuffer.width as int,
                    framebuffer.height as int,
                    x,
                    y,
                ));
            }
        }
    }
}

/// The palette of the top-down views: walls white, spawn red; the
/// full map view also shows the goal green, the minimap leaves it
/// black.
pub open spec fn spec_tile_color(c: char, map_view: bool) -> u32 {
    if map_view {
        spec_cell_color(c)
    } else if c == '+' || c == '-' || c == '|' {
        0xFFFFFF
    } else if c == 'p' {
        0xFF0000
    } else {
        0x000000
    }
}

/// Executable mirror of `spec_tile_color`.
pub fn tile_color(c: char, map_view: bool) -> (r: u32)
    ensures
        r == spec_tile_color(c, map_view),
{
    if map_view {
        cell_color(c)
    } else if c == '+' || c == '-' || c == '|' {
        0xFFFFFF
    } else if c == 'p' {
        0xFF0000
    } else {
        0x000000
    }
}

/// Paints the whole maze as colored blocks of side `scale` starting at
/// pixel offset `(x_off, y_off)`, clipped to the screen: afterwards
/// every screen pixel inside the painted region shows its tile's
/// palette color, and every other pixel is untouched.
pub fn draw_tile_grid(
    framebuffer: &mut Framebuffer,
    maze: &Grid,
    x_off: usize,
    y_off: usize,
    scale: usize,
    map_view: bool,
)
    requires
        old(framebuffer).wf(),
        maze.wf(),
        x_off <= 16,
        y_off <= 16,
        1 <= scale <= 256,
    ensures
        final(framebuffer).wf(),
        final(framebuffer).width == old(framebuffer).width,
        final(framebuffer).height == old(framebuffer).height,
        forall|x: int, y: int|
            0 <= x < old(framebuffer).width && 0 <= y < old(framebuffer).height ==> final(framebuffer).pix(x, y) == (if x_off <= x < x_off + maze.spec_width() * scale && y_off <= y < y_off
                + maze.spec_height() * scale {
                spec_tile_color(
                    maze.cell((x - x_off) / (scale as int), (y - y_off) / (scale as int)),
                    map_view,
                )
            } else {
                old(framebuffer).pix(x, y)
            }),
{
    let rows: usize = maze.height();
    let cols: usize = maze.width();
    let mut r: usize = 0;
    while r < rows
        invariant
            framebuffer.wf(),
            maze.wf(),
            framebuffer.width == old(framebuffer).width,
            framebuffer.height == old(framebuffer).height,
            rows == maze.spec_height(),
            cols == maze.spec_width(),
            1 <= scale <= 256,
            x_off <= 16,
            y_off <= 16,
            0 <= r <= rows,
            forall|x: int, y: int|
                0 <= x < old(framebuffer).width && 0 <= y < old(framebuffer).height
                    ==> framebuffer.pix(x, y) == (if x_off <= x < x_off + maze.spec_width() * scale
                    && y_off <= y < y_off + r * scale {
                    spec_tile_color(
                        maze.cell((x - x_off) / (scale as int), (y - y_off) / (scale as int)),
                        map_view,
                    )
                } else {
                    old(framebuffer).pix(x, y)
                }),
        decreases rows - r,
    {
        let mut c: usize = 0;
        while c < cols
            invariant
                framebuffer.wf(),
                maze.wf(),
                framebuffer.width == old(framebuffer).width,
                framebuffer.height == old(framebuffer).height,
                rows == maze.spec_height(),
                cols == maze.spec_width(),
                1 <= scale <= 256,
                x_off <= 16,
                y_off <= 16,
                0 <= r < rows,
                0 <= c <= cols,
                forall|x: int, y: int|
                    0 <= x < old(framebuffer).width && 0 <= y < old(framebuffer).height
                        ==> framebuffer.pix(x, y) == (if x_off <= x < x_off + maze.spec_width()
                        * scale && y_off <= y < y_off + r * scale {
                        spec_tile_color(
                            maze.cell((x - x_off) / (scale as int), (y - y_off) / (scale as int)),
                            map_view,
                        )
                    } else if y_off + r * scale <= y < y_off + r * scale + scale && x_off <= x
                        < x_off + c * scale {
                        spec_tile_color(
                            maze.cell((x - x_off) / (scale as int), (y - y_off) / (scale as int)),
                            map_view,
                        )
                    } else {
                        old(framebuffer).pix(x, y)
                    }),
            decreases cols - c,
        {
            let color: u32 = tile_color(maze.at(c, r), map_view);
            proof {
                assert(c * scale + scale <= 4096 * 256 + 256) by (nonlinear_arith)
                    requires
                        0 <= c <= 4096,
                        1 <= scale <= 256;
                assert(r * scale + scale <= 4096 * 256 + 256) by (nonlinear_arith)
                    requires
                        0 <= r <= 4096,
                        1 <= scale <= 256;
            }
            let xo: usize = x_off + c * scale;
            let yo: usize = y_off + r * scale;
            let w: usize = framebuffer.width;
            let h: usize = framebuffer.height;
            let rx1: usize = if xo + scale < w { xo + scale } else { w };
            let ry1: usize = if yo + scale < h { yo + scale } else { h };
            let rx0: usize = if xo < rx1 { xo } else { rx1 };
            let ry0: usize = if yo < ry1 { yo } else { ry1 };
            framebuffer.fill_rect(rx0, ry0, rx1, ry1, color);
            proof {
                assert forall|x: int, y: int|
                    0 <= x < old(framebuffer).width && 0 <= y < old(framebuffer).height
                        implies framebuffer.pix(x, y) == (if x_off <= x < x_off
                        + maze.spec_width() * scale && y_off <= y < y_off + r * scale {
                    spec_tile_color(
                        maze.cell((x - x_off) / (scale as int), (y - y_off) / (scale as int)),
                        map_view,
                    )
                } else if y_off + r * scale <= y < y_off + r * scale + scale && x_off <= x < x_off
                    + (c + 1) * scale {
                    spec_tile_color(
                        maze.cell((x - x_off) / (scale as int), (y - y_off) / (scale as int)),
                        map_view,
                    )
                } else {
                    old(framebuffer).pix(x, y)
                }) by {
                    assert((c + 1) * scale == c * scale + scale) by (nonlinear_arith);
                    if xo <= x < xo + scale && yo <= y < yo + scale {
                        // the freshly painted tile: its indices are (c, r)
                        vstd::arithmetic::div_mod::lemma_fundamental_div_mod_converse(
                            x - x_off,
                            scale as int,
                            c as int,
                            x - x_off - (c as int) * (scale as int),
                        );
                        vstd::arithmetic::div_mod::lemma_fundamental_div_mod_converse(
                            y - y_off,
                            scale as int,
                            r as int,
                            y - y_off - (r as int) * (scale as int),
                        );
                        assert((x - x_off) / (scale as int) == c);
                        assert((y - y_off) / (scale as int) == r);
                    } else if x_off <= x < x_off + maze.spec_width() * scale && y_off + r * scale
                        <= y < y_off + r * scale + scale && x_off <= x < x_off + (c + 1) * scale
                        && !(x_off <= x < x_off + (c as int) * scale) {
                        // also lands in the new tile horizontally
                        assert(xo <= x < xo + scale);
                    }
                }
            }
            c = c + 1;
        }
        proof {
            assert((r + 1) * scale == r * scale + scale) by (nonlinear_arith);
            assert forall|x: int, y: int|
                0 <= x < old(framebuffer).width && 0 <= y < old(framebuffer).height
                    implies framebuffer.pix(x, y) == (if x_off <= x < x_off + maze.spec_width()
                    * scale && y_off <= y < y_off + (r + 1) * scale {
                spec_tile_color(
                    maze.cell((x - x_off) / (scale as int), (y - y_off) / (scale as int)),
                    map_view,
                )
            } else {
                old(framebuffer).pix(x, y)
            }) by {
                assert(cols * scale == maze.spec_width() * scale);
            }
        }
        r = r + 1;
    }
}

/// Renders the top-down map view: the maze as blocks of `block_size`
/// pixels, then the player as a red square a quarter block wide.
pub fn render2d(framebuffer: &mut Framebuffer, maze: &Grid, block_size: usize, player: &Player)
    requires
        old(framebuffer).wf(),
        maze.wf(),
        player.wf(),
        player.in_grid(*maze),
        4 <= block_size <= 256,
    ensures
        final(framebuffer).wf(),
        final(framebuffer).width == old(framebuffer).width,
        final(framebuffer).height == old(framebuffer).height,
        ({
            let px = (player.x * block_size) / 65536;
            let py = (player.y * block_size) / 65536;
            let sz = block_size / 4;
            forall|x: int, y: int|
                0 <= x < old(framebuffer).width && 0 <= y < old(framebuffer).height ==> final(framebuffer).pix(x, y) == (if px <= x < px + sz && py <= y < py + sz {
                    0xFF0000u32
                } else if 0 <= x < maze.spec_width() * block_size && 0 <= y < maze.spec_height()
                    * block_size {
                    spec_cell_color(maze.cell(x / (block_size as int), y / (block_size as int)))
                } else {
                    old(framebuffer).pix(x, y)
                })
        }),
{
    draw_tile_grid(framebuffer, maze, 0, 0, block_size, true);
    proof {
        assert(player.x * block_size <= 0x1000_0000 * 256) by (nonlinear_arith)
            requires
                0 <= player.x <= 0x1000_0000,
                0 <= block_size <= 256;
        assert(player.x * block_size >= 0) by (nonlinear_arith)
            requires
                0 <= player.x,
                0 <= block_size;
        assert(player.y * block_size <= 0x1000_0000 * 256) by (nonlinear_arith)
            requires
                0 <= player.y <= 0x1000_0000,
                0 <= block_size <= 256;
        assert(player.y * block_size >= 0) by (nonlinear_arith)
            requires
                0 <= player.y,
                0 <= block_size;
    }
    let px: usize = ((player.x as u64) * (block_size as u64) / 65536) as usize;
    let py: usize = ((player.y as u64) * (block_size as u64) / 65536) as usize;
    let sz: usize = block_size / 4;
    let w: usize = framebuffer.width;
    let h: usize = framebuffer.height;
    proof {
        vstd::arithmetic::div_mod::lemma_div_nonincreasing(
            (player.x * block_size) as int,
            65536,
        );
        vstd::arithmetic::div_mod::lemma_div_nonincreasing(
            (player.y * block_size) as int,
            65536,
        );
    }
    let mx1: usize = if px + sz < w { px + sz } else { w };
    let my1: usize = if py + sz < h { py + sz } else { h };
    let mx0: usize = if px < mx1 { px } else { mx1 };
    let my0: usize = if py < my1 { py } else { my1 };
    framebuffer.fill_rect(mx0, my0, mx1, my1, 0xFF0000);
}

/// Renders the minimap in the top-left corner: each tile as a 20-pixel
/// block at offset 10, walls white and floor black, then the player as
/// an 8-pixel red square.
pub fn render_minimap(framebuffer: &mut Framebuffer, maze: &Grid, player: &Player)
    requires
        old(framebuffer).wf(),
        maze.wf(),
        player.wf(),
        player.in_grid(*maze),
    ensures
        final(framebuffer).wf(),
        final(framebuffer).width == old(framebuffer).width,
        final(framebuffer).height == old(framebuffer).height,
        ({
            let px = 10 + (player.x * 20) / 65536;
            let py = 10 + (player.y * 20) / 65536;
            forall|x: int, y: int|
                0 <= x < old(framebuffer).width && 0 <= y < old(framebuffer).height ==> final(framebuffer).pix(x, y) == (if px <= x < px + 8 && py <= y < py + 8 {
                    0xFF0000u32
                } else if 10 <= x < 10 + maze.spec_width() * 20 && 10 <= y < 10 + maze.spec_height()
                    * 20 {
                    spec_tile_color(maze.cell((x - 10) / 20, (y - 10) / 20), false)
                } else {
                    old(framebuffer).pix(x, y)
                })
        }),
{
    draw_tile_grid(framebuffer, maze, 10, 10, 20, false);
    proof {
        assert(player.x * 20 <= 0x1000_0000 * 20) by (nonlinear_arith)
            requires 0 <= player.x <= 0x1000_0000;
        assert(player.x * 20 >= 0) by (nonlinear_arith)
            requires 0 <= player.x;
        assert(player.y * 20 <= 0x1000_0000 * 20) by (nonlinear_arith)
            requires 0 <= player.y <= 0x1000_0000;
        assert(player.y * 20 >= 0) by (nonlinear_arith)
            requires 0 <= player.y;
    }
    let px: usize = 10 + ((player.x as u64) * 20 / 65536) as usize;
    let py: usize = 10 + ((player.y as u64) * 20 / 65536) as usize;
    proof {
        vstd::arithmetic::div_mod::lemma_div_nonincreasing((player.x * 20) as int, 65536);
        vstd::arithmetic::div_mod::lemma_div_nonincreasing((player.y * 20) as int, 65536);
    }
    let w: usize = framebuffer.width;
    let h: usize = framebuffer.height;
    let mx1: usize = if px + 8 < w { px + 8 } else { w };
    let my1: usize = if py + 8 < h { py + 8 } else { h };
    let mx0: usize = if px < mx1 { px } else { mx1 };
    let my0: usize = if py < my1 { py } else { my1 };
    framebuffer.fill_rect(mx0, my0, mx1, my1, 0xFF0000);
}

/// The z-buffer that the wall pass alone computes: one entry per
/// column, the fish-eye-corrected hit distance or the sentinel.
pub open spec fn spec_walls_z(g: Grid, p: Player, w: int) -> Seq<i64> {
    Seq::new(
        w as nat,
        |i: int|
            {
                let s = spec_cast_ray(
                    g,
                    p.x as int,
                    p.y as int,
                    spec_ray_angle(p.a as int, p.fov as int, i, w),
                );
                if s.wall_type != ' ' {
                    spec_corrected_distance(
                        s.distance,
                        spec_ray_theta(p.fov as int, i, w),
                    ) as i64
                } else {
                    0x7FFF_FFFF_FFFF_FFFFi64
                }
            },
    )
}

/// The frame pixel at `(x, y)` after the sky, floor and wall passes:
/// the wall strip's texel where the column's strip covers the row, the
/// stretched sky above the horizon otherwise, the stretched floor
/// below it.
pub open spec fn spec_scene_pixel(g: Grid, p: Player, a: Assets, w: int, h: int, x: int, y: int) -> u32 {
    let col = spec_wall_column(g, p.x as int, p.y as int, p.a as int, p.fov as int, w, h, x);
    if col.hit && col.top <= y < col.bottom {
        spec_wall_pixel(a, col, y)
    } else if y < h / 2 {
        a.sky.spec_sample((x * a.sky.width) / w, (y * a.sky.height) / (h / 2))
    } else {
        a.floor.spec_sample((x * a.floor.width) / w, ((y - h / 2) * a.floor.height) / (h / 2))
    }
}

/// Renders one full first-person frame: sky, floor, textured walls
/// gated by a fresh z-buffer, enemy billboards, and the minimap.  The
/// z-buffer afterwards is exactly the sprite fold over the wall pass's
/// depths -- nothing of the previous frame survives -- and every pixel
/// outside the sprite boxes shows the minimap or the scene.
pub fn render3d(
    framebuffer: &mut Framebuffer,
    maze: &Grid,
    player: &Player,
    z_buffer: &mut Vec<i64>,
    sprites: &Vec<Sprite>,
    t_ms: u64,
    assets: &Assets,
)
    requires
        old(framebuffer).wf(),
        maze.wf(),
        player.wf(),
        player.in_grid(*maze),
        assets.wf(),
        old(z_buffer)@.len() == old(framebuffer).width,
        forall|k: int|
            0 <= k < sprites@.len() ==> -0x1000_0000 <= (#[trigger] sprites@[k]).x <= 0x1000_0000
                && -0x1000_0000 <= sprites@[k].y <= 0x1000_0000,
        t_ms <= 0x100_0000_0000_0000,
    ensures
        final(framebuffer).wf(),
        final(framebuffer).width == old(framebuffer).width,
        final(framebuffer).height == old(framebuffer).height,
        final(z_buffer)@.len() == old(z_buffer)@.len(),
        final(z_buffer)@ == spec_enemies_zpass(
            *player,
            sprites@,
            old(framebuffer).width as int,
            spec_walls_z(*maze, *player, old(framebuffer).width as int),
            sprites@.len() as nat,
        ),
        forall|i: int| 0 <= i < old(z_buffer)@.len() ==> 0 < #[trigger] final(z_buffer)@[i] <= Z_INF,
        ({
            let w = old(framebuffer).width as int;
            let h = old(framebuffer).height as int;
            let px = 10 + (player.x * 20) / 65536;
            let py = 10 + (player.y * 20) / 65536;
            forall|x: int, y: int|
                0 <= x < w && 0 <= y < h && !(px <= x < px + 8 && py <= y < py + 8) && !(10 <= x
                    < 10 + maze.spec_width() * 20 && 10 <= y < 10 + maze.spec_height() * 20) && (
                forall|kk: int|
                    0 <= kk < sprites@.len() ==> !spec_in_sprite_box(
                        *player,
                        #[trigger] sprites@[kk],
                        w,
                        h,
                        x,
                        y,
                    )) ==> final(framebuffer).pix(x, y) == spec_scene_pixel(
                    *maze,
                    *player,
                    *assets,
                    w,
                    h,
                    x,
                    y,
                )
        }),
        ({
            let px = 10 + (player.x * 20) / 65536;
            let py = 10 + (player.y * 20) / 65536;
            forall|x: int, y: int|
                0 <= x < old(framebuffer).width && 0 <= y < old(framebuffer).height ==> (px <= x
                    < px + 8 && py <= y < py + 8 ==> final(framebuffer).pix(x, y) == 0xFF0000u32)
                    && (!(px <= x < px + 8 && py <= y < py + 8) && 10 <= x < 10 + maze.spec_width()
                    * 20 && 10 <= y < 10 + maze.spec_height() * 20 ==> final(framebuffer).pix(x, y)
                    == spec_tile_color(maze.cell((x - 10) / 20, (y - 10) / 20), false))
        }),
{
    let ghost w_i: int = framebuffer.width as int;
    let ghost h_i: int = framebuffer.height as int;
    render_sky(framebuffer, &assets.sky);
    let ghost fb_sky = *framebuffer;
    render_floor(framebuffer, &assets.floor);
    let ghost fb_floor = *framebuffer;
    proof {
        assert forall|x: int, y: int|
            0 <= x < w_i && 0 <= y < h_i implies fb_floor.pix(x, y) == (if y < h_i / 2 {
            assets.sky.spec_sample((x * assets.sky.width) / w_i, (y * assets.sky.height) / (h_i
                / 2))
        } else {
            assets.floor.spec_sample(
                (x * assets.floor.width) / w_i,
                ((y - h_i / 2) * assets.floor.height) / (h_i / 2),
            )
        }) by {
            assert(fb_sky.pix(x, y) == (if y < h_i / 2 {
                assets.sky.spec_sample(
                    (x * assets.sky.width) / w_i,
                    (y * assets.sky.height) / (h_i / 2),
                )
            } else {
                old(framebuffer).pix(x, y)
            }));
        }
    }
    render_walls(framebuffer, maze, player, z_buffer, assets);
    let ghost fb_walls = *framebuffer;
    let ghost z_walls = z_buffer@;
    proof {
        assert(z_walls =~= spec_walls_z(*maze, *player, w_i));
        assert forall|x: int, y: int|
            0 <= x < w_i && 0 <= y < h_i implies fb_walls.pix(x, y) == spec_scene_pixel(
            *maze,
            *player,
            *assets,
            w_i,
            h_i,
            x,
            y,
        ) by {
            assert(fb_walls.pix(x, y) == ({
                let col = spec_wall_column(
                    *maze,
                    player.x as int,
                    player.y as int,
                    player.a as int,
                    player.fov as int,
                    w_i,
                    h_i,
                    x,
                );
                if col.hit && col.top <= y < col.bottom {
                    spec_wall_pixel(*assets, col, y)
                } else {
                    fb_floor.pix(x, y)
                }
            }));
        }
    }
    render_enemies(framebuffer, player, sprites, z_buffer, t_ms, assets);
    render_minimap(framebuffer, maze, player);
}

} // verus!
