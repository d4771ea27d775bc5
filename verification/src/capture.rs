//! Capture regions and BGRA frames.

use vstd::prelude::*;
use crate::region::{CaptureGeometry, MonitorRect};

verus! {

/// A rectangular region on the screen to capture, in pixels.
#[derive(Debug, Clone, Copy, PartialEq, Eq)]
pub struct CaptureRegion {
    /// X coordinate of the top-left corner
    pub left: u32,
    /// Y coordinate of the top-left corner
    pub top: u32,
    /// Width of the region in pixels
    pub width: u32,
    /// Height of the region in pixels
    pub height: u32,
}

impl CaptureRegion {
    /// Creates a new capture region.
    pub fn new(left: u32, top: u32, width: u32, height: u32) -> (r: Self)
        ensures
            r.left == left,
            r.top == top,
            r.width == width,
            r.height == height,
    {
        CaptureRegion { left, top, width, height }
    }

    /// Returns true if the region has non-zero dimensions.
    pub fn is_valid(&self) -> (b: bool)
        ensures
            b == (self.width > 0 && self.height > 0),
    {
        self.width > 0 && self.height > 0
    }

    /// Returns the area of the region in pixels.
    pub fn area(&self) -> (a: u64)
        ensures
            a == self.width * self.height,
    {
        proof {
            vstd::arithmetic::mul::lemma_mul_upper_bound(
                self.width as int, u32::MAX as int, self.height as int, u32::MAX as int);
        }
        self.width as u64 * self.height as u64
    }
}

/// Errors that can occur during screen capture operations.
#[derive(Debug)]
pub enum CaptureError {
    /// The capture device was lost.
    DeviceLost,
    /// The requested capture region is invalid.
    InvalidRegion { details: String },
    /// The monitor could not be found or accessed.
    MonitorNotFound { monitor_index: usize },
    /// Windows Graphics Capture initialization failed.
    WgcInitFailed { reason: String },
    /// DXGI initialization failed.
    DxgiInitFailed { reason: String },
    /// Frame buffer size mismatch.
    InvalidFrameSize { expected: usize, actual: usize },
    /// Frame stride is too small for the given width.
    InvalidStride { width: u32, stride: usize, min_stride: usize },
    /// GPU to CPU memory copy failed.
    GpuCopyFailed { reason: String },
    /// Generic capture error.
    Other(String),
}

/// A screen capture backend.
pub trait CaptureSource {
    /// Binds the source to a monitor (zero-based, 0 = primary) and prepares
    /// it for capture.
    fn bind_monitor(&mut self, monitor_index: usize) -> Result<(), CaptureError>;

    /// Captures the given region.
    fn grab(&mut self, region: &CaptureRegion) -> Result<Frame, CaptureError>;

    /// Whether the backend works on this system.
    fn is_supported(&self) -> bool;

    /// The backend's display name.
    fn backend_name(&self) -> &'static str;
}

/// A captured frame with BGRA pixel data, row-major, 4 bytes per pixel.
#[derive(Debug, Clone)]
pub struct Frame {
    /// Width of the frame in pixels
    pub width: u32,
    /// Height of the frame in pixels
    pub height: u32,
    /// Number of bytes per row (may be more than width * 4)
    pub stride: usize,
    /// Pixel data in BGRA format
    pub bgra: Vec<u8>,
}

impl Frame {
    /// The structural invariant of a frame: rows hold at least `width` pixels
    /// and the buffer holds exactly `height` rows.
    pub open spec fn wf(&self) -> bool {
        &&& self.stride >= self.width * 4
        &&& self.bgra@.len() == self.stride * self.height
    }

    /// Creates a new frame with a zeroed pixel buffer of `stride * height` bytes.
    pub fn new(width: u32, height: u32, stride: usize) -> (f: Self)
        requires
            stride * height <= usize::MAX,
        ensures
            f.width == width,
            f.height == height,
            f.stride == stride,
            f.bgra@.len() == stride * height,
            forall|i: int| 0 <= i < f.bgra@.len() ==> f.bgra@[i] == 0u8,
    {
        let buffer_size = stride * height as usize;
        Frame { width, height, stride, bgra: vec![0u8; buffer_size] }
    }

    /// Creates a frame from existing pixel data; fails when the buffer is not
    /// exactly `stride * height` bytes long.
    pub fn from_data(width: u32, height: u32, stride: usize, bgra: Vec<u8>) -> (r: Result<Self, CaptureError>)
        requires
            stride * height <= usize::MAX,
        ensures
            bgra@.len() == stride * height <==> r is Ok,
            r matches Ok(f) ==> f.width == width && f.height == height && f.stride == stride
                && f.bgra@ == bgra@,
            r matches Err(e) ==> e == (CaptureError::InvalidFrameSize {
                expected: (stride * height) as usize,
                actual: bgra@.len() as usize,
            }),
    {
        let expected_size = stride * height as usize;
        if bgra.len() != expected_size {
            return Err(CaptureError::InvalidFrameSize { expected: expected_size, actual: bgra.len() });
        }
        Ok(Frame { width, height, stride, bgra })
    }

    /// Checks the frame invariants: the stride check comes first, then the
    /// buffer size check.
    pub fn validate(&self) -> (r: Result<(), CaptureError>)
        requires
            self.stride * self.height <= usize::MAX,
            self.width * 4 <= usize::MAX,
        ensures
            r is Ok <==> self.wf(),
            self.stride < self.width * 4 ==> r == Err::<(), CaptureError>(CaptureError::InvalidStride {
                width: self.width,
                stride: self.stride,
                min_stride: (self.width * 4) as usize,
            }),
            self.stride >= self.width * 4 && self.bgra@.len() != self.stride * self.height
                ==> r == Err::<(), CaptureError>(CaptureError::InvalidFrameSize {
                expected: (self.stride * self.height) as usize,
                actual: self.bgra@.len() as usize,
            }),
    {
        let min_stride = self.width as usize * 4;
        if self.stride < min_stride {
            return Err(CaptureError::InvalidStride { width: self.width, stride: self.stride, min_stride });
        }
        let expected_size = self.stride * self.height as usize;
        if self.bgra.len() != expected_size {
            return Err(CaptureError::InvalidFrameSize { expected: expected_size, actual: self.bgra.len() });
        }
        Ok(())
    }

    /// The pixel bytes of row `y` (without the row padding).
    pub fn row(&self, y: u32) -> (r: &[u8])
        requires
            y < self.height,
            self.wf(),
        ensures
            r@ == self.bgra@.subrange(y * self.stride, y * self.stride + self.width * 4),
    {
        assert(y * self.stride + self.width * 4 <= self.stride * self.height) by (nonlinear_arith)
            requires
                y < self.height,
                self.stride >= self.width * 4,
        ;
        let len = self.bgra.len();
        assert(y * self.stride == (y as usize) as int * self.stride);
        let start = y as usize * self.stride;
        let end = start + (self.width as usize * 4);
        vstd::slice::slice_subrange(self.bgra.as_slice(), start, end)
    }

    /// Returns the total number of pixels.
    pub fn pixel_count(&self) -> (n: u64)
        ensures
            n == self.width * self.height,
    {
        proof {
            vstd::arithmetic::mul::lemma_mul_upper_bound(
                self.width as int, u32::MAX as int, self.height as int, u32::MAX as int);
        }
        self.width as u64 * self.height as u64
    }
}


/// Byte `b` of row `y` of two frames stacked (`top` over `bottom`, `gap`
/// black rows between them, rows as wide as the wider frame).
pub open spec fn stacked_byte(top: Frame, bottom: Frame, gap: u32, y: int, b: int) -> u8 {
    if y < top.height && b < top.width * 4 {
        top.bgra@[y * top.stride + b]
    } else if top.height + gap <= y && y < top.height + gap + bottom.height && b < bottom.width * 4 {
        bottom.bgra@[(y - top.height - gap) * bottom.stride + b]
    } else {
        0u8
    }
}

proof fn lemma_row_in(y: int, stride: int, b: int, h: int)
    requires
        0 <= y < h,
        0 <= b < stride,
    ensures
        0 <= y * stride + b < h * stride,
        y * stride + stride <= h * stride,
        h * stride == stride * h,
{
    assert(h * stride == stride * h) by (nonlinear_arith);
    assert(y * stride + stride <= h * stride) by (nonlinear_arith)
        requires
            0 <= y < h,
            0 <= stride,
    ;
    assert(0 <= y * stride) by (nonlinear_arith)
        requires
            0 <= y,
            0 <= stride,
    ;
}

proof fn lemma_before_row(y2: int, b2: int, y: int, b: int, stride: int)
    requires
        0 <= b2 < stride,
        0 <= b <= stride,
        0 <= y2,
        (y2 < y) || (y2 == y && b2 < b),
    ensures
        0 <= y2 * stride + b2 < y * stride + b,
{
    if y2 < y {
        assert(y2 * stride + stride <= y * stride) by (nonlinear_arith)
            requires
                y2 < y,
                0 <= stride,
        ;
    }
    assert(0 <= y2 * stride) by (nonlinear_arith)
        requires
            0 <= y2,
            0 <= stride,
    ;
}

/// Stacks two frames vertically (top over bottom) with `gap` black rows
/// between them, into one tightly packed frame as wide as the wider of the
/// two (at least one pixel); uncovered bytes are zero.
pub fn stack_frames(top: &Frame, bottom: &Frame, gap: u32) -> (f: Frame)
    requires
        top.wf(),
        bottom.wf(),
        top.height + gap + bottom.height <= u32::MAX,
        ({
            let w = if top.width >= bottom.width { top.width as int } else { bottom.width as int };
            let w1 = if w >= 1 { w } else { 1 };
            w1 * 4 * (top.height + gap + bottom.height) <= usize::MAX
        }),
    ensures
        f.width == (if top.width >= bottom.width { if top.width >= 1 { top.width } else { 1 } } else { bottom.width }),
        f.height == top.height + gap + bottom.height,
        f.stride == f.width * 4,
        f.wf(),
        forall|y: int, b: int| 0 <= y < f.height && 0 <= b < f.stride
            ==> #[trigger] f.bgra@[y * f.stride + b] == stacked_byte(*top, *bottom, gap, y, b),
{
    let w0 = if top.width >= bottom.width { top.width } else { bottom.width };
    let w: u32 = if w0 >= 1 { w0 } else { 1 };
    let h: u32 = top.height + gap + bottom.height;
    let stride: usize = (w as usize) * 4;
    let top_len = top.bgra.len();
    let bottom_len = bottom.bgra.len();
    let mut bgra: Vec<u8> = Vec::new();
    let mut y: u32 = 0;
    while y < h
        invariant
            top.wf(),
            bottom.wf(),
            top_len == top.bgra@.len(),
            bottom_len == bottom.bgra@.len(),
            h == top.height + gap + bottom.height,
            stride == w * 4,
            w >= 1,
            w >= top.width,
            w >= bottom.width,
            stride * h <= usize::MAX,
            y <= h,
            bgra@.len() == y * stride,
            forall|y2: int, b2: int| 0 <= y2 < y && 0 <= b2 < stride
                ==> #[trigger] bgra@[y2 * stride + b2] == stacked_byte(*top, *bottom, gap, y2, b2),
        decreases h - y,
    {
        proof {
            lemma_row_in(y as int, stride as int, 0, h as int);
        }
        let mut b: usize = 0;
        while b < stride
            invariant
                top.wf(),
                bottom.wf(),
                top_len == top.bgra@.len(),
                bottom_len == bottom.bgra@.len(),
                h == top.height + gap + bottom.height,
                stride == w * 4,
                w >= 1,
                w >= top.width,
                w >= bottom.width,
                stride * h <= usize::MAX,
                y < h,
                y * stride + stride <= h * stride,
                b <= stride,
                bgra@.len() == y * stride + b,
                forall|y2: int, b2: int| 0 <= y2 < y && 0 <= b2 < stride
                    ==> #[trigger] bgra@[y2 * stride + b2] == stacked_byte(*top, *bottom, gap, y2, b2),
                forall|b2: int| 0 <= b2 < b
                    ==> #[trigger] bgra@[y * stride + b2] == stacked_byte(*top, *bottom, gap, y as int, b2),
            decreases stride - b,
        {
            let v: u8 = if y < top.height && b < (top.width as usize) * 4 {
                proof {
                    lemma_row_in(y as int, top.stride as int, b as int, top.height as int);
                }
                top.bgra[(y as usize) * top.stride + b]
            } else if top.height + gap <= y && b < (bottom.width as usize) * 4 {
                let yb: u32 = y - top.height - gap;
                proof {
                    lemma_row_in(yb as int, bottom.stride as int, b as int, bottom.height as int);
                }
                bottom.bgra[(yb as usize) * bottom.stride + b]
            } else {
                0u8
            };
            let ghost before = bgra@;
            bgra.push(v);
            proof {
                assert forall|y2: int, b2: int| 0 <= y2 < y && 0 <= b2 < stride
                    implies #[trigger] bgra@[y2 * stride + b2] == stacked_byte(*top, *bottom, gap, y2, b2) by {
                    lemma_before_row(y2, b2, y as int, b as int, stride as int);
                    assert(bgra@[y2 * stride + b2] == before[y2 * stride + b2]);
                }
                assert forall|b2: int| 0 <= b2 < b + 1
                    implies #[trigger] bgra@[y * stride + b2] == stacked_byte(*top, *bottom, gap, y as int, b2) by {
                    if b2 < b {
                        assert(bgra@[y * stride + b2] == before[y * stride + b2]);
                    }
                }
            }
            b += 1;
        }
        proof {
            assert((y + 1) * stride == y * stride + stride) by (nonlinear_arith);
            assert forall|y2: int, b2: int| 0 <= y2 < y + 1 && 0 <= b2 < stride
                implies #[trigger] bgra@[y2 * stride + b2] == stacked_byte(*top, *bottom, gap, y2, b2) by {
                if y2 == y {
                    assert(bgra@[y * stride + b2] == stacked_byte(*top, *bottom, gap, y as int, b2));
                }
            }
        }
        y += 1;
    }
    proof {
        assert(h * stride == stride * h) by (nonlinear_arith);
    }
    Frame { width: w, height: h, stride, bgra }
}


/// The source pixel that output pixel (dx, dy) is taken from when a
/// `copy_w × copy_h` crop at (src_x, src_y) is resized to `dst_w × dst_h`.
pub open spec fn nearest_source(src_x: int, src_y: int, copy_w: int, copy_h: int, dst_w: int, dst_h: int, dx: int, dy: int) -> (int, int) {
    (src_x + (dx * copy_w) / dst_w, src_y + (dy * copy_h) / dst_h)
}

/// Byte `c` of output pixel (dx, dy): the source pixel's blue, green and red,
/// and an opaque alpha.
pub open spec fn resampled_byte(
    src: Seq<u8>, src_width: int, src_x: int, src_y: int, copy_w: int, copy_h: int,
    dst_w: int, dst_h: int, dx: int, dy: int, c: int,
) -> u8 {
    let (sx, sy) = nearest_source(src_x, src_y, copy_w, copy_h, dst_w, dst_h, dx, dy);
    if c == 3 {
        255u8
    } else {
        src[sy * (src_width * 4) + sx * 4 + c]
    }
}

proof fn lemma_scaled_below(d: int, copy: int, dst: int)
    requires
        0 <= d < dst,
        1 <= copy,
    ensures
        0 <= (d * copy) / dst < copy,
{
    assert(0 <= d * copy) by (nonlinear_arith)
        requires
            0 <= d,
            1 <= copy,
    ;
    assert(d * copy < dst * copy) by (nonlinear_arith)
        requires
            0 <= d < dst,
            1 <= copy,
    ;
    assert((d * copy) / dst < copy) by (nonlinear_arith)
        requires
            0 <= d * copy < dst * copy,
            1 <= dst,
    ;
}

/// Every output pixel is taken from inside the crop, and resizing a crop to
/// its own size takes each output pixel from the same place in the crop.
pub proof fn lemma_nearest_source_in_crop(
    src_x: int, src_y: int, copy_w: int, copy_h: int, dst_w: int, dst_h: int, dx: int, dy: int,
)
    requires
        copy_w >= 1,
        copy_h >= 1,
        0 <= dx < dst_w,
        0 <= dy < dst_h,
    ensures
        src_x <= nearest_source(src_x, src_y, copy_w, copy_h, dst_w, dst_h, dx, dy).0 < src_x + copy_w,
        src_y <= nearest_source(src_x, src_y, copy_w, copy_h, dst_w, dst_h, dx, dy).1 < src_y + copy_h,
        dst_w == copy_w && dst_h == copy_h
            ==> nearest_source(src_x, src_y, copy_w, copy_h, dst_w, dst_h, dx, dy) == (src_x + dx, src_y + dy),
{
    lemma_scaled_below(dx, copy_w, dst_w);
    lemma_scaled_below(dy, copy_h, dst_h);
    if dst_w == copy_w {
        vstd::arithmetic::div_mod::lemma_div_multiples_vanish(dx, copy_w);
        assert(dx * copy_w == copy_w * dx) by (nonlinear_arith);
    }
    if dst_h == copy_h {
        vstd::arithmetic::div_mod::lemma_div_multiples_vanish(dy, copy_h);
        assert(dy * copy_h == copy_h * dy) by (nonlinear_arith);
    }
}

/// Nearest-neighbour resize of the `copy_w × copy_h` crop at (src_x, src_y)
/// of a tightly packed BGRA image `src_width` pixels wide into a
/// `dst_w × dst_h` BGRA buffer with opaque alpha.
pub fn resample_nearest(
    src: &[u8], src_width: usize, src_x: usize, src_y: usize, copy_w: usize, copy_h: usize,
    dst_w: usize, dst_h: usize,
) -> (out: Vec<u8>)
    requires
        dst_w >= 1,
        dst_h >= 1,
        copy_w >= 1,
        copy_h >= 1,
        src_x + copy_w <= src_width,
        (src_y + copy_h) * (src_width * 4) <= src@.len(),
        dst_w * copy_w <= usize::MAX,
        dst_h * copy_h <= usize::MAX,
        dst_w * 4 * dst_h <= usize::MAX,
    ensures
        out@.len() == dst_w * 4 * dst_h,
        forall|dx: int, dy: int, c: int| 0 <= dx < dst_w && 0 <= dy < dst_h && 0 <= c < 4
            ==> #[trigger] out@[dy * (dst_w * 4) + dx * 4 + c]
                == resampled_byte(src@, src_width as int, src_x as int, src_y as int, copy_w as int,
                    copy_h as int, dst_w as int, dst_h as int, dx, dy, c),
{
    let src_len = src.len();
    proof {
        assert(src_width * 4 <= src@.len() && src_y + copy_h <= src@.len()) by (nonlinear_arith)
            requires
                (src_y + copy_h) * (src_width * 4) <= src@.len(),
                src_y + copy_h >= 1,
                src_width >= 1,
        ;
        assert(dst_w * 4 <= usize::MAX) by (nonlinear_arith)
            requires
                dst_w * 4 * dst_h <= usize::MAX,
                dst_h >= 1,
        ;
    }
    let src_stride: usize = src_width * 4;
    let dst_stride: usize = dst_w * 4;
    let mut out: Vec<u8> = Vec::new();
    let mut dy: usize = 0;
    while dy < dst_h
        invariant
            dst_w >= 1,
            dst_h >= 1,
            copy_w >= 1,
            copy_h >= 1,
            src_len == src@.len(),
            src_stride == src_width * 4,
            dst_stride == dst_w * 4,
            src_x + copy_w <= src_width,
            (src_y + copy_h) * src_stride <= src@.len(),
            src_y + copy_h <= src@.len(),
            dst_w * copy_w <= usize::MAX,
            dst_h * copy_h <= usize::MAX,
            dst_stride * dst_h <= usize::MAX,
            dy <= dst_h,
            out@.len() == dy * dst_stride,
            forall|dx: int, dy2: int, c: int| 0 <= dx < dst_w && 0 <= dy2 < dy && 0 <= c < 4
                ==> #[trigger] out@[dy2 * dst_stride + dx * 4 + c]
                    == resampled_byte(src@, src_width as int, src_x as int, src_y as int, copy_w as int,
                        copy_h as int, dst_w as int, dst_h as int, dx, dy2, c),
        decreases dst_h - dy,
    {
        proof {
            lemma_scaled_below(dy as int, copy_h as int, dst_h as int);
            assert(dy * copy_h <= dst_h * copy_h) by (nonlinear_arith)
                requires
                    dy < dst_h,
            ;
            lemma_row_in(dy as int, dst_stride as int, 0, dst_h as int);
        }
        let sy: usize = src_y + (dy * copy_h) / dst_h;
        proof {
            assert(sy * src_stride + src_stride <= (src_y + copy_h) * src_stride) by (nonlinear_arith)
                requires
                    sy < src_y + copy_h,
            ;
        }
        let src_row: usize = sy * src_stride;
        let dst_row: usize = dy * dst_stride;
        let mut dx: usize = 0;
        while dx < dst_w
            invariant
                dst_w >= 1,
                dst_h >= 1,
                copy_w >= 1,
                copy_h >= 1,
                src_len == src@.len(),
                src_stride == src_width * 4,
                dst_stride == dst_w * 4,
                src_x + copy_w <= src_width,
                dst_w * copy_w <= usize::MAX,
                dst_stride * dst_h <= usize::MAX,
                dy < dst_h,
                sy == src_y + (dy * copy_h) as int / (dst_h as int),
                src_row == sy * src_stride,
                src_row + src_stride <= src@.len(),
                dst_row == dy * dst_stride,
                dst_row + dst_stride <= dst_stride * dst_h,
                dx <= dst_w,
                out@.len() == dst_row + dx * 4,
                forall|dx2: int, dy2: int, c: int| 0 <= dx2 < dst_w && 0 <= dy2 < dy && 0 <= c < 4
                    ==> #[trigger] out@[dy2 * dst_stride + dx2 * 4 + c]
                        == resampled_byte(src@, src_width as int, src_x as int, src_y as int, copy_w as int,
                            copy_h as int, dst_w as int, dst_h as int, dx2, dy2, c),
                forall|dx2: int, c: int| 0 <= dx2 < dx && 0 <= c < 4
                    ==> #[trigger] out@[dy * dst_stride + dx2 * 4 + c]
                        == resampled_byte(src@, src_width as int, src_x as int, src_y as int, copy_w as int,
                            copy_h as int, dst_w as int, dst_h as int, dx2, dy as int, c),
            decreases dst_w - dx,
        {
            proof {
                lemma_scaled_below(dx as int, copy_w as int, dst_w as int);
                assert(dx * copy_w <= dst_w * copy_w) by (nonlinear_arith)
                    requires
                        dx < dst_w,
                ;
            }
            let sx: usize = src_x + (dx * copy_w) / dst_w;
            let s: usize = src_row + sx * 4;
            let ghost before = out@;
            out.push(src[s]);
            out.push(src[s + 1]);
            out.push(src[s + 2]);
            out.push(255u8);
            proof {
                assert forall|dx2: int, dy2: int, c: int| 0 <= dx2 < dst_w && 0 <= dy2 < dy && 0 <= c < 4
                    implies #[trigger] out@[dy2 * dst_stride + dx2 * 4 + c]
                        == resampled_byte(src@, src_width as int, src_x as int, src_y as int, copy_w as int,
                            copy_h as int, dst_w as int, dst_h as int, dx2, dy2, c) by {
                    lemma_before_row(dy2, dx2 * 4 + c, dy as int, (dx * 4) as int, dst_stride as int);
                    assert(out@[dy2 * dst_stride + dx2 * 4 + c] == before[dy2 * dst_stride + dx2 * 4 + c]);
                }
                assert forall|dx2: int, c: int| 0 <= dx2 < dx + 1 && 0 <= c < 4
                    implies #[trigger] out@[dy * dst_stride + dx2 * 4 + c]
                        == resampled_byte(src@, src_width as int, src_x as int, src_y as int, copy_w as int,
                            copy_h as int, dst_w as int, dst_h as int, dx2, dy as int, c) by {
                    if dx2 < dx {
                        assert(out@[dy * dst_stride + dx2 * 4 + c] == before[dy * dst_stride + dx2 * 4 + c]);
                    }
                }
            }
            dx += 1;
        }
        proof {
            assert((dy + 1) * dst_stride == dy * dst_stride + dst_stride) by (nonlinear_arith);
            assert forall|dx2: int, dy2: int, c: int| 0 <= dx2 < dst_w && 0 <= dy2 < dy + 1 && 0 <= c < 4
                implies #[trigger] out@[dy2 * dst_stride + dx2 * 4 + c]
                    == resampled_byte(src@, src_width as int, src_x as int, src_y as int, copy_w as int,
                        copy_h as int, dst_w as int, dst_h as int, dx2, dy2, c) by {
                if dy2 == dy {
                    assert(out@[dy * dst_stride + dx2 * 4 + c]
                        == resampled_byte(src@, src_width as int, src_x as int, src_y as int, copy_w as int,
                            copy_h as int, dst_w as int, dst_h as int, dx2, dy as int, c));
                }
            }
        }
        dy += 1;
    }
    proof {
        assert(dst_h * dst_stride == dst_w * 4 * dst_h) by (nonlinear_arith)
            requires
                dst_stride == dst_w * 4,
        ;
    }
    out
}

// ---------------------------------------------------------------------------
// What one capture tick grabs
// ---------------------------------------------------------------------------

/// The capture region of a configured rectangle (coordinates converted as
/// an `as u32` cast does).
pub open spec fn region_of(r: MonitorRect) -> CaptureRegion {
    CaptureRegion { left: r.left as u32, top: r.top as u32, width: r.width, height: r.height }
}

/// The regions one capture tick grabs: both configured regions, in order,
/// when the second one is enabled (they are read together), else the active one.
pub fn capture_regions(geometry: &CaptureGeometry, active: &MonitorRect) -> (r: Vec<CaptureRegion>)
    ensures
        r@ == if geometry.monitor2_enabled {
            seq![region_of(geometry.monitor), region_of(geometry.monitor2_rect())]
        } else {
            seq![region_of(*active)]
        },
{
    let mut r: Vec<CaptureRegion> = Vec::new();
    if geometry.monitor2_enabled {
        let m = geometry.monitor;
        r.push(CaptureRegion::new(m.left as u32, m.top as u32, m.width, m.height));
        r.push(CaptureRegion::new(
            geometry.monitor2_left as u32,
            geometry.monitor2_top as u32,
            geometry.monitor2_width,
            geometry.monitor2_height,
        ));
    } else {
        r.push(CaptureRegion::new(active.left as u32, active.top as u32, active.width, active.height));
    }
    r
}

/// Rows of black between two stacked regions: the taller frame's height,
/// and at least 40, so the two regions always read as separate dialogues.
pub open spec fn stack_gap(h1: u32, h2: u32) -> u32 {
    let m = if h1 >= h2 { h1 } else { h2 };
    if m >= 40 { m } else { 40 }
}

/// Whether two frames can be stacked with `stack_gap` rows between them.
pub open spec fn stackable(top: Frame, bottom: Frame) -> bool {
    let gap = stack_gap(top.height, bottom.height);
    let w = if top.width >= bottom.width { top.width as int } else { bottom.width as int };
    let w1 = if w >= 1 { w } else { 1 };
    &&& top.wf()
    &&& bottom.wf()
    &&& top.height + gap + bottom.height <= u32::MAX
    &&& w1 * 4 * (top.height + gap + bottom.height) <= usize::MAX
}

/// The frame read from a two-region tick: both regions stacked (as one
/// region at the origin) when the second grab succeeded, else the first
/// region alone.
pub fn combine_grabs(first: Frame, region1: CaptureRegion, second: Result<Frame, CaptureError>) -> (r: (Frame, CaptureRegion))
    requires
        second matches Ok(f2) ==> stackable(first, f2),
    ensures
        match second {
            Ok(f2) => {
                let gap = stack_gap(first.height, f2.height);
                &&& r.0.width == (if first.width >= f2.width { if first.width >= 1 { first.width } else { 1 } } else { f2.width })
                &&& r.0.height == first.height + gap + f2.height
                &&& r.0.stride == r.0.width * 4
                &&& r.0.wf()
                &&& forall|y: int, b: int| 0 <= y < r.0.height && 0 <= b < r.0.stride
                    ==> #[trigger] r.0.bgra@[y * r.0.stride + b] == stacked_byte(first, f2, gap, y, b)
                &&& r.1 == (CaptureRegion { left: 0, top: 0, width: r.0.width, height: r.0.height })
            },
            Err(_) => r.0 == first && r.1 == region1,
        },
{
    match second {
        Ok(f2) => {
            let m = if first.height >= f2.height { first.height } else { f2.height };
            let gap = if m >= 40 { m } else { 40 };
            let stacked = stack_frames(&first, &f2, gap);
            let region = CaptureRegion::new(0, 0, stacked.width, stacked.height);
            (stacked, region)
        },
        Err(_) => (first, region1),
    }
}

} // verus!
