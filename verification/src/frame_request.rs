//! Requests for one cell: a frame index at a pixel size.

use vstd::prelude::*;
use vstd::std_specs::cmp::PartialEqSpecImpl;

verus! {

/// A cell of the cache: a pixel size and a frame index. Two requests are for
/// the same cell exactly when their indices are equal.
#[derive(Debug, Clone, Copy, Eq)]
pub struct FrameRequestIndex {
    pub size: (usize, usize),
    pub frame_num: usize,
}

impl PartialEq for FrameRequestIndex {
    fn eq(&self, other: &Self) -> (same: bool) {
        self.size.0 == other.size.0 && self.size.1 == other.size.1 && self.frame_num
            == other.frame_num
    }
}

impl PartialEqSpecImpl for FrameRequestIndex {
    open spec fn obeys_eq_spec() -> bool {
        true
    }

    open spec fn eq_spec(&self, other: &Self) -> bool {
        *self == *other
    }
}

/// A request for one cell, with the callback that waits for the frame, if
/// any. The callback is whatever the caller wants handed back together with
/// the frame once it is there; the cache never looks inside.
#[derive(Debug)]
pub struct FrameRequest<C> {
    pub size: (usize, usize),
    pub frame_num: usize,
    pub callback: Option<C>,
}

impl<C> FrameRequest<C> {
    /// A request for frame `index` at `width` by `height` pixels, on whose
    /// completion `callback` is handed back.
    pub fn new(width: usize, height: usize, index: usize, callback: C) -> (request: Self)
        ensures
            request.size == (width, height),
            request.frame_num == index,
            request.callback == Some(callback),
    {
        FrameRequest { size: (width, height), frame_num: index, callback: Some(callback) }
    }

    /// A request for frame `index` at `width` by `height` pixels that nobody
    /// waits for.
    pub fn silent(width: usize, height: usize, index: usize) -> (request: Self)
        ensures
            request.size == (width, height),
            request.frame_num == index,
            request.callback.is_none(),
    {
        FrameRequest { size: (width, height), frame_num: index, callback: None }
    }

    /// The cell that the request asks for.
    pub open spec fn cell(&self) -> FrameRequestIndex {
        FrameRequestIndex { size: self.size, frame_num: self.frame_num }
    }

    /// The cell that the request asks for.
    pub fn index(&self) -> (index: FrameRequestIndex)
        ensures
            index == self.cell(),
    {
        FrameRequestIndex { size: self.size, frame_num: self.frame_num }
    }
}

impl<C> PartialEq for FrameRequest<C> {
    /// Requests are equal when they ask for the same cell, whatever their
    /// callbacks.
    fn eq(&self, other: &Self) -> (same: bool) {
        self.size.0 == other.size.0 && self.size.1 == other.size.1 && self.frame_num
            == other.frame_num
    }
}

impl<C> Eq for FrameRequest<C> {

}

impl<C> PartialEqSpecImpl for FrameRequest<C> {
    open spec fn obeys_eq_spec() -> bool {
        true
    }

    open spec fn eq_spec(&self, other: &Self) -> bool {
        self.cell() == other.cell()
    }
}

} // verus!
