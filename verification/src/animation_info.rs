//! What is known of an animation once it is decoded.

use std::time::Duration;
use vstd::prelude::*;

verus! {

/// Snapshot taken once, when the animation is decoded; it does not change
/// while the session lives.
#[derive(Debug, Clone, Copy)]
pub struct AnimationInfo {
    /// Number of frames.
    pub totalframe: usize,
    /// Intrinsic width and height in pixels.
    pub default_size: (i32, i32),
    /// Time between two frames, from the declared frame rate.
    pub frame_delay: Duration,
}

} // verus!
