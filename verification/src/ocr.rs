//! Image buffers handed to the OCR engine, and its errors.

use vstd::prelude::*;
use crate::text::{append_chars, chars_of, string_of};

verus! {

/// RGB image buffer for OCR input (3 bytes per pixel, rows packed).
#[derive(Debug, Clone)]
pub struct ImageBuffer {
    pub width: u32,
    pub height: u32,
    pub data: Vec<u8>,
}

impl ImageBuffer {
    /// The data holds exactly three bytes per pixel.
    pub open spec fn wf(&self) -> bool {
        self.data@.len() == self.width * self.height * 3
    }

    /// Creates a buffer; the data must hold exactly `width × height × 3` bytes.
    pub fn new(width: u32, height: u32, data: Vec<u8>) -> (b: Self)
        requires
            width * height * 3 <= u32::MAX,
            data@.len() == width * height * 3,
        ensures
            b.width == width,
            b.height == height,
            b.data@ == data@,
            b.wf(),
    {
        ImageBuffer { width, height, data }
    }

    /// Number of bytes a `width × height` buffer holds.
    pub fn expected_len(width: u32, height: u32) -> (n: usize)
        requires
            width * height * 3 <= u32::MAX,
        ensures
            n == width * height * 3,
    {
        assert(width * height * 3 <= u32::MAX);
        let wh: u32 = width * height;
        (wh * 3) as usize
    }
}

/// Errors of the OCR engine.
#[derive(Debug, Clone, PartialEq, Eq)]
pub enum OcrError {
    ModelNotFound(String),
    InitializationFailed(String),
    InvalidImageBuffer(String),
    InferenceFailed(String),
    /// An I/O failure, with its message.
    IoError(String),
    Other(String),
}

/// The message of an OCR error.
pub open spec fn ocr_error_message(e: OcrError) -> Seq<char> {
    match e {
        OcrError::ModelNotFound(s) => "Model file not found: "@ + s@,
        OcrError::InitializationFailed(s) => "Failed to initialize OCR engine: "@ + s@,
        OcrError::InvalidImageBuffer(s) => "Invalid image buffer: "@ + s@,
        OcrError::InferenceFailed(s) => "OCR inference failed: "@ + s@,
        OcrError::IoError(s) => "I/O error: "@ + s@,
        OcrError::Other(s) => "OCR error: "@ + s@,
    }
}

fn prefixed(prefix: &str, s: &String) -> (r: String)
    ensures
        r@ == prefix@ + s@,
{
    let mut c = chars_of(prefix);
    append_chars(&mut c, chars_of(s.as_str()).as_slice());
    string_of(c.as_slice())
}

impl OcrError {
    /// The error's message.
    pub fn to_string(&self) -> (r: String)
        ensures
            r@ == ocr_error_message(*self),
    {
        match self {
            OcrError::ModelNotFound(s) => prefixed("Model file not found: ", s),
            OcrError::InitializationFailed(s) => prefixed("Failed to initialize OCR engine: ", s),
            OcrError::InvalidImageBuffer(s) => prefixed("Invalid image buffer: ", s),
            OcrError::InferenceFailed(s) => prefixed("OCR inference failed: ", s),
            OcrError::IoError(s) => prefixed("I/O error: ", s),
            OcrError::Other(s) => prefixed("OCR error: ", s),
        }
    }
}

} // verus!
