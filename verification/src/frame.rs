//! Rendered frames: raw BGRA8 pixel buffers with their dimensions.
//!
//! A frame is the only thing the cache knows about pixels: eight bits per
//! channel in blue, green, red, alpha order, rows packed without padding, so
//! that one row takes `width * 4` bytes.

use std::sync::Arc;
use vstd::prelude::*;

verus! {

/// Number of bytes in a tightly packed BGRA8 buffer of the given dimensions.
pub open spec fn buffer_len(width: int, height: int) -> int {
    width * height * 4
}

/// Whether `len` bytes are exactly one BGRA8 image of `width` by `height`
/// pixels, neither dimension being zero.
pub open spec fn is_bgra_buffer(width: int, height: int, len: int) -> bool {
    &&& width > 0
    &&& height > 0
    &&& len == buffer_len(width, height)
}

/// An immutable rendered frame. Its pixel buffer is shared, so that a clone
/// is a new handle to the same bytes.
#[derive(Debug, PartialEq, Eq)]
pub struct Frame {
    width: usize,
    height: usize,
    pixels: Arc<Vec<u8>>,
}

/// A new handle to a shared pixel buffer.
///
/// Calls `Arc::clone` of std, of which it claims what the documentation says:
/// the result points to the same allocation, hence holds the same bytes.
#[verifier::external_body]
fn share(pixels: &Arc<Vec<u8>>) -> (handle: Arc<Vec<u8>>)
    ensures
        handle == *pixels,
{
    Arc::clone(pixels)
}

impl Frame {
    /// Every frame holds a buffer that matches its dimensions.
    #[verifier::type_invariant]
    closed spec fn shaped(self) -> bool {
        is_bgra_buffer(self.width as int, self.height as int, self.pixels@.len() as int)
    }

    /// Width in pixels.
    pub closed spec fn spec_width(&self) -> nat {
        self.width as nat
    }

    /// Height in pixels.
    pub closed spec fn spec_height(&self) -> nat {
        self.height as nat
    }

    /// The bytes of the frame, row after row.
    pub closed spec fn spec_pixels(&self) -> Seq<u8> {
        self.pixels@
    }

    /// Wraps a raw buffer of `width` by `height` BGRA8 pixels. The buffer is
    /// accepted exactly when both dimensions are positive and its length is
    /// `width * height * 4`; otherwise the render counts as failed and there
    /// is no frame.
    pub fn new(width: usize, height: usize, pixels: Vec<u8>) -> (frame: Option<Frame>)
        ensures
            frame.is_some() == is_bgra_buffer(width as int, height as int, pixels@.len() as int),
            frame matches Some(f) ==> {
                &&& f.spec_width() == width
                &&& f.spec_height() == height
                &&& f.spec_pixels() == pixels@
            },
    {
        let len = pixels.len();
        if width == 0 || height == 0 {
            return None;
        }
        let area = match width.checked_mul(height) {
            Some(area) => area,
            None => {
                proof {
                    lemma_area_exceeds(width as int, height as int);
                }
                return None;
            },
        };
        let expected = match area.checked_mul(4) {
            Some(expected) => expected,
            None => {
                return None;
            },
        };
        if len != expected {
            return None;
        }
        Some(Frame { width, height, pixels: Arc::new(pixels) })
    }

    /// Width in pixels.
    pub fn width(&self) -> (w: usize)
        ensures
            w == self.spec_width(),
            w > 0,
    {
        proof {
            use_type_invariant(self);
        }
        self.width
    }

    /// Height in pixels.
    pub fn height(&self) -> (h: usize)
        ensures
            h == self.spec_height(),
            h > 0,
    {
        proof {
            use_type_invariant(self);
        }
        self.height
    }

    /// Number of bytes from the start of one row to the start of the next.
    pub fn stride(&self) -> (s: usize)
        ensures
            s == self.spec_width() * 4,
    {
        proof {
            use_type_invariant(self);
            lemma_row_fits(self.width as int, self.height as int);
            assert(self.pixels.len() == self.pixels@.len());
        }
        self.width * 4
    }

    /// The bytes of the frame, row after row.
    pub fn pixels(&self) -> (bytes: &[u8])
        ensures
            bytes@ == self.spec_pixels(),
            bytes@.len() == buffer_len(self.spec_width() as int, self.spec_height() as int),
    {
        proof {
            use_type_invariant(self);
        }
        self.pixels.as_slice()
    }
}

impl Clone for Frame {
    /// A clone is the same frame: same dimensions, same bytes.
    fn clone(&self) -> (copy: Self)
        ensures
            copy == *self,
    {
        proof {
            use_type_invariant(self);
        }
        Frame { width: self.width, height: self.height, pixels: share(&self.pixels) }
    }
}

/// Four bytes for each pixel are no fewer than the pixels.
proof fn lemma_area_exceeds(width: int, height: int)
    requires
        width > 0,
        height > 0,
    ensures
        buffer_len(width, height) >= width * height,
{
    assert(width * height >= 1) by (nonlinear_arith)
        requires
            width > 0,
            height > 0,
    ;
}

/// One row is no longer than the whole buffer.
proof fn lemma_row_fits(width: int, height: int)
    requires
        width > 0,
        height > 0,
    ensures
        width * 4 <= buffer_len(width, height),
{
    assert(width * height >= width) by (nonlinear_arith)
        requires
            width > 0,
            height > 0,
    ;
}

} // verus!
