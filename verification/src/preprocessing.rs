//! Integer image operations used to prepare captured frames for OCR: the
//! BGRA to BGR conversion, the brightest-channel extraction and the 3×3
//! cross-shaped erosion and sharpening filters.

use vstd::prelude::*;
use crate::capture::Frame;
use crate::ocr::ImageBuffer;

verus! {

/// Image preprocessor for OCR.
pub struct Preprocessor {
    outline_mode: bool,
}

impl Preprocessor {
    /// Whether frames go through the outlined-white-text enhancement.
    pub closed spec fn outline_spec(&self) -> bool {
        self.outline_mode
    }

    /// Creates a preprocessor with the outline mode on.
    pub fn new() -> (p: Self)
        ensures
            p.outline_spec(),
    {
        Preprocessor { outline_mode: true }
    }

    /// Turns the outline mode on or off.
    pub fn with_outline_mode(self, enabled: bool) -> (p: Self)
        ensures
            p.outline_spec() == enabled,
    {
        Preprocessor { outline_mode: enabled }
    }

    /// Whether the outline mode is on.
    pub fn outline_mode(&self) -> (b: bool)
        ensures
            b == self.outline_spec(),
    {
        self.outline_mode
    }

    /// Copies a frame into a packed BGR buffer of the same size (the path
    /// taken when the outline mode is off).
    pub fn frame_to_bgr(&self, frame: &Frame) -> (img: ImageBuffer)
        requires
            frame.wf(),
            frame.width * frame.height <= u32::MAX,
        ensures
            img.width == frame.width,
            img.height == frame.height,
            img.wf(),
            forall|x: int, y: int, c: int|
                0 <= x < frame.width && 0 <= y < frame.height && 0 <= c < 3
                    ==> #[trigger] img.data@[bgr_index(frame.width as int, x, y, c)]
                        == frame.bgra@[bgra_index(frame.stride as int, x, y, c)],
    {
        let w = frame.width as usize;
        let h = frame.height as usize;
        let stride = frame.stride;
        let total = frame.bgra.len();
        let mut data: Vec<u8> = Vec::new();
        let mut y: usize = 0;
        while y < h
            invariant
                w == frame.width,
                h == frame.height,
                stride == frame.stride,
                frame.wf(),
                total == frame.bgra@.len(),
                w * h <= u32::MAX,
                y <= h,
                data@.len() == 3 * (y * w),
                forall|x2: int, y2: int, c: int|
                    0 <= x2 < w && 0 <= y2 < y && 0 <= c < 3
                        ==> #[trigger] data@[bgr_index(w as int, x2, y2, c)]
                            == frame.bgra@[bgra_index(stride as int, x2, y2, c)],
            decreases h - y,
        {
            proof {
                lemma_row_fits(w as int, h as int, y as int);
                assert((y + 1) * w == y * w + w) by (nonlinear_arith);
                assert(y * stride + stride <= stride * h) by (nonlinear_arith)
                    requires
                        y < h,
                ;
            }
            let row: usize = y * stride;
            let mut x: usize = 0;
            while x < w
                invariant
                    w == frame.width,
                    h == frame.height,
                    stride == frame.stride,
                    frame.wf(),
                    total == frame.bgra@.len(),
                    w * h <= u32::MAX,
                    y < h,
                    y * w + w <= w * h,
                    row == y * stride,
                    row + stride <= frame.bgra@.len(),
                    x <= w,
                    data@.len() == 3 * (y * w + x),
                    forall|x2: int, y2: int, c: int|
                        0 <= x2 < w && 0 <= y2 < y && 0 <= c < 3
                            ==> #[trigger] data@[bgr_index(w as int, x2, y2, c)]
                                == frame.bgra@[bgra_index(stride as int, x2, y2, c)],
                    forall|x2: int, c: int|
                        0 <= x2 < x && 0 <= c < 3
                            ==> #[trigger] data@[bgr_index(w as int, x2, y as int, c)]
                                == frame.bgra@[bgra_index(stride as int, x2, y as int, c)],
                decreases w - x,
            {
                let o = row + x * 4;
                let ghost before = data@;
                data.push(frame.bgra[o]);
                data.push(frame.bgra[o + 1]);
                data.push(frame.bgra[o + 2]);
                proof {
                    assert forall|x2: int, y2: int, c: int|
                        0 <= x2 < w && 0 <= y2 < y && 0 <= c < 3
                            implies #[trigger] data@[bgr_index(w as int, x2, y2, c)]
                                == frame.bgra@[bgra_index(stride as int, x2, y2, c)] by {
                        lemma_bgr_index_before(w as int, x2, y2, c, x as int, y as int);
                        assert(data@[bgr_index(w as int, x2, y2, c)] == before[bgr_index(w as int, x2, y2, c)]);
                    }
                    assert forall|x2: int, c: int|
                        0 <= x2 < x + 1 && 0 <= c < 3
                            implies #[trigger] data@[bgr_index(w as int, x2, y as int, c)]
                                == frame.bgra@[bgra_index(stride as int, x2, y as int, c)] by {
                        if x2 < x {
                            lemma_bgr_index_before(w as int, x2, y as int, c, x as int, y as int);
                            assert(data@[bgr_index(w as int, x2, y as int, c)] == before[bgr_index(w as int, x2, y as int, c)]);
                        }
                    }
                }
                x += 1;
            }
            y += 1;
        }
        proof {
            assert(3 * (h * w) == w * h * 3) by (nonlinear_arith);
        }
        ImageBuffer { width: frame.width, height: frame.height, data }
    }

    /// The brightest of the blue, green and red bytes of each 4-byte pixel.
    pub fn extract_max_channel(&self, bgra: &[u8], width: usize, height: usize) -> (r: Vec<u8>)
        ensures
            r@.len() == bgra@.len() / 4,
            forall|i: int| 0 <= i < r@.len() ==> #[trigger] r@[i] == max3(bgra@[4 * i], bgra@[4 * i + 1], bgra@[4 * i + 2]),
    {
        let total = bgra.len();
        let n = total / 4;
        let mut r: Vec<u8> = Vec::new();
        let mut i: usize = 0;
        while i < n
            invariant
                n == bgra@.len() / 4,
                total == bgra@.len(),
                i <= n,
                r@.len() == i,
                forall|k: int| 0 <= k < i ==> #[trigger] r@[k] == max3(bgra@[4 * k], bgra@[4 * k + 1], bgra@[4 * k + 2]),
            decreases n - i,
        {
            assert(4 * i + 3 < total) by (nonlinear_arith)
                requires
                    i < n,
                    n == total / 4,
            ;
            let b = bgra[4 * i];
            let g = bgra[4 * i + 1];
            let rr = bgra[4 * i + 2];
            let m1 = if b > g { b } else { g };
            let m = if m1 > rr { m1 } else { rr };
            r.push(m);
            i += 1;
        }
        r
    }

    /// Erosion with a cross-shaped 3×3 kernel: each inner pixel becomes the
    /// smallest of itself and its four neighbours; border pixels are kept.
    pub fn apply_erosion(&self, img: &[u8], width: usize, height: usize) -> (r: Vec<u8>)
        requires
            width >= 1,
            height >= 1,
            width * height <= img@.len(),
        ensures
            r@.len() == width * height,
            forall|x: int, y: int| 0 <= x < width && 0 <= y < height
                ==> #[trigger] r@[px(width as int, x, y)] == stencil_px(Stencil::Erode, img@, width as int, height as int, x, y),
    {
        filter3(img, width, height, Stencil::Erode)
    }

    /// Sharpening with the kernel `[0 -1 0; -1 5 -1; 0 -1 0]`, clamped to
    /// 0..=255; border pixels are kept.
    pub fn apply_sharpening(&self, img: &[u8], width: usize, height: usize) -> (r: Vec<u8>)
        requires
            width >= 1,
            height >= 1,
            width * height <= img@.len(),
        ensures
            r@.len() == width * height,
            forall|x: int, y: int| 0 <= x < width && 0 <= y < height
                ==> #[trigger] r@[px(width as int, x, y)] == stencil_px(Stencil::Sharpen, img@, width as int, height as int, x, y),
    {
        filter3(img, width, height, Stencil::Sharpen)
    }
}

pub open spec fn bgr_index(width: int, x: int, y: int, c: int) -> int {
    3 * (y * width + x) + c
}

pub open spec fn bgra_index(stride: int, x: int, y: int, c: int) -> int {
    y * stride + 4 * x + c
}

/// Index of pixel (x, y) in a packed single-channel image.
pub open spec fn px(width: int, x: int, y: int) -> int {
    y * width + x
}

pub open spec fn max3(a: u8, b: u8, c: u8) -> u8 {
    let m = if a > b { a } else { b };
    if m > c { m } else { c }
}

pub open spec fn min_u8(a: u8, b: u8) -> u8 {
    if a < b { a } else { b }
}

pub open spec fn clamp_byte(v: int) -> u8 {
    if v < 0 {
        0
    } else if v > 255 {
        255
    } else {
        v as u8
    }
}

/// The two cross-shaped 3×3 filters.
#[derive(Clone, Copy, PartialEq, Eq, Structural)]
pub enum Stencil {
    Erode,
    Sharpen,
}

pub open spec fn is_border(w: int, h: int, x: int, y: int) -> bool {
    x == 0 || y == 0 || x == w - 1 || y == h - 1
}

/// The filtered value of pixel (x, y).
pub open spec fn stencil_px(op: Stencil, img: Seq<u8>, w: int, h: int, x: int, y: int) -> u8 {
    let c = img[px(w, x, y)];
    if is_border(w, h, x, y) {
        c
    } else {
        let up = img[px(w, x, y - 1)];
        let left = img[px(w, x - 1, y)];
        let right = img[px(w, x + 1, y)];
        let down = img[px(w, x, y + 1)];
        match op {
            Stencil::Erode => min_u8(min_u8(min_u8(min_u8(min_u8(255u8, up), left), c), right), down),
            Stencil::Sharpen => clamp_byte(5 * c - up - down - left - right),
        }
    }
}

/// The brightest channel is at least as bright as each of the three and is
/// one of them.
pub proof fn lemma_max_channel_is_brightest(b: u8, g: u8, r: u8)
    ensures
        max3(b, g, r) >= b && max3(b, g, r) >= g && max3(b, g, r) >= r,
        max3(b, g, r) == b || max3(b, g, r) == g || max3(b, g, r) == r,
{
}

/// Erosion never brightens a pixel: the result is at most the pixel and,
/// inside the border, at most each of its four neighbours, and it is one of
/// those values.
pub proof fn lemma_erosion_takes_darkest(img: Seq<u8>, w: int, h: int, x: int, y: int)
    ensures
        stencil_px(Stencil::Erode, img, w, h, x, y) <= img[px(w, x, y)],
        !is_border(w, h, x, y) ==> {
            let v = stencil_px(Stencil::Erode, img, w, h, x, y);
            &&& v <= img[px(w, x, y - 1)] && v <= img[px(w, x - 1, y)]
            &&& v <= img[px(w, x + 1, y)] && v <= img[px(w, x, y + 1)]
            &&& v == img[px(w, x, y)] || v == img[px(w, x, y - 1)] || v == img[px(w, x - 1, y)]
                || v == img[px(w, x + 1, y)] || v == img[px(w, x, y + 1)]
        },
        is_border(w, h, x, y) ==> stencil_px(Stencil::Erode, img, w, h, x, y) == img[px(w, x, y)],
{
}

/// Sharpening leaves a pixel whose four neighbours share its value as it
/// is, and keeps the border.
pub proof fn lemma_sharpen_keeps_flat(img: Seq<u8>, w: int, h: int, x: int, y: int)
    ensures
        img[px(w, x, y - 1)] == img[px(w, x, y)] && img[px(w, x - 1, y)] == img[px(w, x, y)]
            && img[px(w, x + 1, y)] == img[px(w, x, y)] && img[px(w, x, y + 1)] == img[px(w, x, y)]
            ==> stencil_px(Stencil::Sharpen, img, w, h, x, y) == img[px(w, x, y)],
        is_border(w, h, x, y) ==> stencil_px(Stencil::Sharpen, img, w, h, x, y) == img[px(w, x, y)],
{
}

proof fn lemma_row_fits(w: int, h: int, y: int)
    requires
        0 <= y < h,
        0 <= w,
    ensures
        y * w + w <= w * h,
        0 <= y * w,
{
    assert(y * w + w <= w * h) by (nonlinear_arith)
        requires
            0 <= y < h,
            0 <= w,
    ;
    assert(0 <= y * w) by (nonlinear_arith)
        requires
            0 <= y,
            0 <= w,
    ;
}

proof fn lemma_bgr_index_before(w: int, x2: int, y2: int, c: int, x: int, y: int)
    requires
        0 <= x2 < w,
        0 <= c < 3,
        0 <= x <= w,
        (y2 < y) || (y2 == y && x2 < x),
        0 <= y2,
    ensures
        0 <= bgr_index(w, x2, y2, c) < 3 * (y * w + x),
{
    if y2 < y {
        assert(y2 * w + w <= y * w) by (nonlinear_arith)
            requires
                y2 < y,
                0 <= w,
        ;
    }
    assert(0 <= y2 * w) by (nonlinear_arith)
        requires
            0 <= y2,
            0 <= w,
    ;
}

fn stencil_at(img: &[u8], w: usize, h: usize, x: usize, y: usize, row: usize, op: Stencil) -> (v: u8)
    requires
        x < w,
        y < h,
        row == y * w,
        w * h <= img@.len(),
    ensures
        v == stencil_px(op, img@, w as int, h as int, x as int, y as int),
{
    let total = img.len();
    proof {
        lemma_row_fits(w as int, h as int, y as int);
    }
    let c = img[row + x];
    if x == 0 || y == 0 || x == w - 1 || y == h - 1 {
        return c;
    }
    proof {
        assert(px(w as int, x as int, y - 1) == row + x - w) by (nonlinear_arith)
            requires
                row == y * w,
        ;
        assert(px(w as int, x as int, y + 1) == row + x + w) by (nonlinear_arith)
            requires
                row == y * w,
        ;
        lemma_row_fits(w as int, h as int, (y + 1) as int);
    }
    let up = img[row + x - w];
    let left = img[row + x - 1];
    let right = img[row + x + 1];
    let down = img[row + x + w];
    match op {
        Stencil::Erode => {
            let mut m: u8 = 255;
            if up < m { m = up; }
            if left < m { m = left; }
            if c < m { m = c; }
            if right < m { m = right; }
            if down < m { m = down; }
            m
        },
        Stencil::Sharpen => {
            let s: i32 = 5 * (c as i32) - (up as i32) - (down as i32) - (left as i32) - (right as i32);
            if s < 0 {
                0
            } else if s > 255 {
                255
            } else {
                s as u8
            }
        },
    }
}

fn filter3(img: &[u8], w: usize, h: usize, op: Stencil) -> (r: Vec<u8>)
    requires
        w >= 1,
        h >= 1,
        w * h <= img@.len(),
    ensures
        r@.len() == w * h,
        forall|x: int, y: int| 0 <= x < w && 0 <= y < h
            ==> #[trigger] r@[px(w as int, x, y)] == stencil_px(op, img@, w as int, h as int, x, y),
{
    let total = img.len();
    let mut r: Vec<u8> = Vec::new();
    let mut y: usize = 0;
    let mut row: usize = 0;
    while y < h
        invariant
            w >= 1,
            w * h <= img@.len(),
            total == img@.len(),
            y <= h,
            row == y * w,
            r@.len() == row,
            forall|x2: int, y2: int| 0 <= x2 < w && 0 <= y2 < y
                ==> #[trigger] r@[px(w as int, x2, y2)] == stencil_px(op, img@, w as int, h as int, x2, y2),
        decreases h - y,
    {
        proof {
            lemma_row_fits(w as int, h as int, y as int);
        }
        let mut x: usize = 0;
        while x < w
            invariant
                w >= 1,
                w * h <= img@.len(),
                y < h,
                row == y * w,
                row + w <= w * h,
                x <= w,
                r@.len() == row + x,
                forall|x2: int, y2: int| 0 <= x2 < w && 0 <= y2 < y
                    ==> #[trigger] r@[px(w as int, x2, y2)] == stencil_px(op, img@, w as int, h as int, x2, y2),
                forall|x2: int| 0 <= x2 < x
                    ==> #[trigger] r@[px(w as int, x2, y as int)] == stencil_px(op, img@, w as int, h as int, x2, y as int),
            decreases w - x,
        {
            let v = stencil_at(img, w, h, x, y, row, op);
            let ghost before = r@;
            r.push(v);
            proof {
                assert forall|x2: int, y2: int| 0 <= x2 < w && 0 <= y2 < y
                    implies #[trigger] r@[px(w as int, x2, y2)] == stencil_px(op, img@, w as int, h as int, x2, y2) by {
                    lemma_px_before(w as int, x2, y2, y as int);
                    assert(r@[px(w as int, x2, y2)] == before[px(w as int, x2, y2)]);
                }
                assert forall|x2: int| 0 <= x2 < x + 1
                    implies #[trigger] r@[px(w as int, x2, y as int)] == stencil_px(op, img@, w as int, h as int, x2, y as int) by {
                    assert(px(w as int, x2, y as int) == row + x2);
                    if x2 < x {
                        assert(r@[px(w as int, x2, y as int)] == before[px(w as int, x2, y as int)]);
                    }
                }
            }
            x += 1;
        }
        proof {
            assert((y + 1) * w == y * w + w) by (nonlinear_arith);
            assert forall|x2: int, y2: int| 0 <= x2 < w && 0 <= y2 < y + 1
                implies #[trigger] r@[px(w as int, x2, y2)] == stencil_px(op, img@, w as int, h as int, x2, y2) by {
                if y2 == y {
                    assert(r@[px(w as int, x2, y as int)] == stencil_px(op, img@, w as int, h as int, x2, y as int));
                }
            }
        }
        row = row + w;
        y += 1;
    }
    proof {
        assert(h * w == w * h) by (nonlinear_arith);
    }
    r
}

proof fn lemma_px_before(w: int, x2: int, y2: int, y: int)
    requires
        0 <= x2 < w,
        0 <= y2 < y,
    ensures
        0 <= px(w, x2, y2) < y * w,
{
    assert(y2 * w + w <= y * w) by (nonlinear_arith)
        requires
            y2 < y,
            0 <= w,
    ;
    assert(0 <= y2 * w) by (nonlinear_arith)
        requires
            0 <= y2,
            0 <= w,
    ;
}

} // verus!
