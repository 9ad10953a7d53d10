//! The session as a state machine: what it holds, and what each operation
//! makes of it.
//!
//! Apart from the two types that travel between a session and its driver,
//! render results in and deliveries out, everything here is specification.
//! The executable session refines it: each of its operations ends in the
//! state that the function of the same name computes here.

use crate::animation_info::AnimationInfo;
use crate::collection_map::recent;
use crate::collection_map::size_le;
use crate::frame::is_bgra_buffer;
use crate::frame::Frame;
use crate::frame_collection::CollectionView;
use crate::frame_request::FrameRequest;
use crate::frame_request::FrameRequestIndex;
use vstd::prelude::*;

verus! {

/// A collection that nothing has used for this many seconds is dropped.
pub const IDLE_LIMIT_SECS: u64 = 10;

/// A frame on its way to the caller who waits for it.
#[derive(Debug, PartialEq, Eq)]
pub struct Delivery<C> {
    pub callback: C,
    pub frame: Frame,
}

/// What a render worker reports: the cell it was given, and the frame, or no
/// frame if the render failed.
#[derive(Debug, PartialEq, Eq)]
pub struct RenderResult {
    pub index: FrameRequestIndex,
    pub frame: Option<Frame>,
}

impl RenderResult {
    /// What a worker reports for the cell `index` after the renderer has
    /// filled `pixels`: the frame, if the buffer is a BGRA8 image of the
    /// size of the cell; else a failed render.
    pub fn from_buffer(index: FrameRequestIndex, pixels: Vec<u8>) -> (result: RenderResult)
        ensures
            result.index == index,
            result.frame.is_some() == is_bgra_buffer(
                index.size.0 as int,
                index.size.1 as int,
                pixels@.len() as int,
            ),
            result.frame matches Some(frame) ==> {
                &&& frame.spec_width() == index.size.0
                &&& frame.spec_height() == index.size.1
                &&& frame.spec_pixels() == pixels@
            },
    {
        RenderResult { index, frame: Frame::new(index.size.0, index.size.1, pixels) }
    }

    /// What a worker reports for the cell `index` when the renderer gave
    /// nothing.
    pub fn failed(index: FrameRequestIndex) -> (result: RenderResult)
        ensures
            result.index == index,
            result.frame.is_none(),
    {
        RenderResult { index, frame: None }
    }
}

/// Whether one of the requests asks for `cell`.
pub open spec fn asks_for<C>(requests: Seq<FrameRequest<C>>, cell: FrameRequestIndex) -> bool {
    exists|i: int| 0 <= i < requests.len() && (#[trigger] requests[i]).cell() == cell
}

/// Whether no two of the requests ask for the same cell.
pub open spec fn distinct_cells<C>(requests: Seq<FrameRequest<C>>) -> bool {
    forall|i: int, j: int|
        0 <= i < j < requests.len() ==> (#[trigger] requests[i]).cell() != (
        #[trigger] requests[j]).cell()
}

/// Whether every request asks for a frame that the animation has.
pub open spec fn in_range<C>(requests: Seq<FrameRequest<C>>, totalframe: usize) -> bool {
    forall|i: int| 0 <= i < requests.len() ==> (#[trigger] requests[i]).frame_num < totalframe
}

/// The requests that ask for `cell`, in their order.
pub open spec fn matching<C>(requests: Seq<FrameRequest<C>>, cell: FrameRequestIndex) -> Seq<
    FrameRequest<C>,
>
    decreases requests.len(),
{
    if requests.len() == 0 {
        Seq::empty()
    } else if requests.last().cell() == cell {
        matching(requests.drop_last(), cell).push(requests.last())
    } else {
        matching(requests.drop_last(), cell)
    }
}

/// The requests that ask for another cell than `cell`, in their order.
pub open spec fn without<C>(requests: Seq<FrameRequest<C>>, cell: FrameRequestIndex) -> Seq<
    FrameRequest<C>,
>
    decreases requests.len(),
{
    if requests.len() == 0 {
        Seq::empty()
    } else if requests.last().cell() == cell {
        without(requests.drop_last(), cell)
    } else {
        without(requests.drop_last(), cell).push(requests.last())
    }
}

/// One delivery of `frame` for each of the requests that carries a
/// callback, in their order.
pub open spec fn handoffs<C>(requests: Seq<FrameRequest<C>>, frame: Frame) -> Seq<Delivery<C>>
    decreases requests.len(),
{
    if requests.len() == 0 {
        Seq::empty()
    } else {
        match requests.last().callback {
            Some(callback) => handoffs(requests.drop_last(), frame).push(
                Delivery { callback, frame },
            ),
            None => handoffs(requests.drop_last(), frame),
        }
    }
}

/// Whether every result is for a frame that the animation has.
pub open spec fn results_in_range(results: Seq<RenderResult>, totalframe: usize) -> bool {
    forall|k: int| 0 <= k < results.len() ==> (#[trigger] results[k]).index.frame_num < totalframe
}

/// The state of a session.
#[verifier::ext_equal]
pub struct SessionView<C> {
    /// What is known of the animation.
    pub info: AnimationInfo,
    /// The frames rendered so far, by pixel size.
    pub collections: Map<(usize, usize), CollectionView>,
    /// Requests that wait to be looked at, oldest first.
    pub requests: Seq<FrameRequest<C>>,
    /// Requests whose cell a worker is rendering.
    pub processing: Seq<FrameRequest<C>>,
}

/// One operation on a session, with its arguments.
pub enum Step<C> {
    /// A request that nobody waits for.
    RequestFrame { size: (usize, usize), index: usize, now: u64 },
    /// A request with a callback.
    RequestFrameWithCallback { size: (usize, usize), index: usize, callback: C, now: u64 },
    /// A look at the cache for one cell.
    Frame { size: (usize, usize), now: u64 },
    /// A look at the cache for the best frame at hand.
    NearestFrame { size: (usize, usize), now: u64 },
    /// Dispatch of the queue.
    ProcessRequests { now: u64 },
    /// Collection of render results.
    FinishProcessed { results: Seq<RenderResult>, now: u64 },
    /// Eviction of idle collections.
    ClearOutdatedEntries { now: u64 },
    /// A whole maintenance pass.
    Tick { results: Seq<RenderResult>, now: u64 },
}

/// A session together with what its driver has to do: renders to start,
/// frames to hand to callbacks, and the number of frames that were rendered
/// though their slot was already filled.
#[verifier::ext_equal]
pub struct Progress<C> {
    pub session: SessionView<C>,
    pub renders: Seq<FrameRequestIndex>,
    pub deliveries: Seq<Delivery<C>>,
    pub redundant: nat,
}

impl<C> SessionView<C> {
    /// The session of a freshly decoded animation.
    pub open spec fn new(info: AnimationInfo) -> SessionView<C> {
        SessionView {
            info,
            collections: Map::empty(),
            requests: Seq::empty(),
            processing: Seq::empty(),
        }
    }

    /// What holds of every session: each collection has one slot for each
    /// frame, every request is for a frame that exists, and no cell is being
    /// rendered twice.
    pub open spec fn wf(self) -> bool {
        &&& forall|size: (usize, usize)| #[trigger]
            self.collections.contains_key(size) ==> self.collections[size].slots.len()
                == self.info.totalframe
        &&& in_range(self.requests, self.info.totalframe)
        &&& in_range(self.processing, self.info.totalframe)
        &&& distinct_cells(self.processing)
    }

    /// The frame cached for frame `index` at `size`, if any.
    pub open spec fn cached(self, size: (usize, usize), index: int) -> Option<Frame> {
        if self.collections.contains_key(size) {
            self.collections[size].get(index)
        } else {
            None
        }
    }

    /// Whether a worker is rendering `cell`.
    pub open spec fn rendering(self, cell: FrameRequestIndex) -> bool {
        asks_for(self.processing, cell)
    }

    /// The session after the collection for `size`, if there is one, was
    /// used at time `now`.
    pub open spec fn touch(self, size: (usize, usize), now: u64) -> SessionView<C> {
        if self.collections.contains_key(size) {
            SessionView {
                info: self.info,
                collections: self.collections.insert(size, self.collections[size].touch(now)),
                requests: self.requests,
                processing: self.processing,
            }
        } else {
            self
        }
    }

    /// The collection for `size` as a store or a request finds it at time
    /// `now`: the one that is there, or else a new one without frames.
    pub open spec fn collection_or_new(self, size: (usize, usize), now: u64) -> CollectionView {
        if self.collections.contains_key(size) {
            self.collections[size]
        } else {
            CollectionView::empty(self.info.totalframe as nat, now)
        }
    }

    /// The session after the collection for `size` was created, unless it
    /// was there, and used at time `now`.
    pub open spec fn opened(self, size: (usize, usize), now: u64) -> SessionView<C> {
        SessionView {
            info: self.info,
            collections: self.collections.insert(size, self.collection_or_new(size, now).touch(now)),
            requests: self.requests,
            processing: self.processing,
        }
    }

    /// The session with one more request at the end of its queue.
    pub open spec fn enqueue(self, request: FrameRequest<C>) -> SessionView<C> {
        SessionView {
            info: self.info,
            collections: self.collections,
            requests: self.requests.push(request),
            processing: self.processing,
        }
    }

    /// A request that nobody waits for: it is queued unless the frame is
    /// cached or the queue already holds a request for the cell. The
    /// collection for the size is created if need be, and counts as used.
    pub open spec fn request_frame(self, size: (usize, usize), index: usize, now: u64) -> SessionView<
        C,
    > {
        let cell = FrameRequestIndex { size, frame_num: index };
        if self.cached(size, index as int).is_some() || asks_for(self.requests, cell) {
            self.opened(size, now)
        } else {
            self.opened(size, now).enqueue(FrameRequest { size, frame_num: index, callback: None })
        }
    }

    /// A request with a callback: it is queued unless the frame is cached.
    /// The collection for the size is created if need be, and counts as used.
    pub open spec fn request_frame_with_callback(
        self,
        size: (usize, usize),
        index: usize,
        callback: C,
        now: u64,
    ) -> SessionView<C> {
        if self.cached(size, index as int).is_some() {
            self.opened(size, now)
        } else {
            self.opened(size, now).enqueue(
                FrameRequest { size, frame_num: index, callback: Some(callback) },
            )
        }
    }

    /// Whether the collection for `key` exists and holds at least one frame.
    pub open spec fn usable(self, key: (usize, usize)) -> bool {
        self.collections.contains_key(key) && self.collections[key].has_frame()
    }

    /// Whether the collection for `key` is the one that serves a request at
    /// `size` when the exact frame may be missing: the collection for `size`
    /// itself if it holds a frame; else the first, in the order of keys, of
    /// those wider than `size` that hold a frame; else the first of all that
    /// hold a frame.
    pub open spec fn is_nearest_key(self, size: (usize, usize), key: (usize, usize)) -> bool {
        &&& self.usable(key)
        &&& if self.usable(size) {
            key == size
        } else if exists|wider: (usize, usize)| #[trigger] self.usable(wider) && wider.0 > size.0 {
            &&& key.0 > size.0
            &&& forall|wider: (usize, usize)| #[trigger]
                self.usable(wider) && wider.0 > size.0 ==> size_le(key, wider)
        } else {
            forall|other: (usize, usize)| #[trigger] self.usable(other) ==> size_le(key, other)
        }
    }

    /// At most one collection serves a request.
    pub proof fn lemma_nearest_key_unique(
        self,
        size: (usize, usize),
        a: (usize, usize),
        b: (usize, usize),
    )
        requires
            self.is_nearest_key(size, a),
            self.is_nearest_key(size, b),
        ensures
            a == b,
    {
    }

    /// The key of the collection that serves a request at `size`, if any
    /// collection holds a frame.
    pub open spec fn nearest_key(self, size: (usize, usize)) -> Option<(usize, usize)> {
        if exists|key: (usize, usize)| self.is_nearest_key(size, key) {
            Some(choose|key: (usize, usize)| self.is_nearest_key(size, key))
        } else {
            None
        }
    }

    /// The best frame at hand for frame `index` at `size`: from the
    /// collection that serves the request, the frame nearest to `index`.
    pub open spec fn nearest_frame(self, size: (usize, usize), index: int) -> Option<Frame> {
        match self.nearest_key(size) {
            Some(key) => match self.collections[key].nearest_slot(index) {
                Some(i) => self.collections[key].slots[i],
                None => None,
            },
            None => None,
        }
    }

    /// Whether a look for the best frame at hand for `size` reads the
    /// collection for `key`. The look goes through the collections until one
    /// serves: first the one for `size`; then, if that one holds no frame,
    /// the wider ones in the order of keys; then, if none of those holds a
    /// frame either, all of them in the order of keys. So it reads the
    /// collection for `size` always; a wider one if no wider one that holds
    /// a frame comes before it; and any one if neither `size` nor a wider
    /// size holds a frame and no collection that holds one comes before it.
    pub open spec fn reads(self, size: (usize, usize), key: (usize, usize)) -> bool {
        ||| key == size
        ||| {
            &&& !self.usable(size)
            &&& key.0 > size.0
            &&& forall|wider: (usize, usize)| #[trigger]
                self.usable(wider) && wider.0 > size.0 ==> size_le(key, wider)
        }
        ||| {
            &&& !self.usable(size)
            &&& forall|wider: (usize, usize)| !(#[trigger] self.usable(wider) && wider.0 > size.0)
            &&& forall|other: (usize, usize)| #[trigger] self.usable(other) ==> size_le(key, other)
        }
    }

    /// The session after each collection whose size `which` holds of was
    /// used at time `now`.
    pub open spec fn touch_each(self, which: spec_fn((usize, usize)) -> bool, now: u64) -> SessionView<
        C,
    > {
        SessionView {
            info: self.info,
            collections: Map::new(
                |key: (usize, usize)| self.collections.contains_key(key),
                |key: (usize, usize)|
                    if which(key) {
                        self.collections[key].touch(now)
                    } else {
                        self.collections[key]
                    },
            ),
            requests: self.requests,
            processing: self.processing,
        }
    }

    /// The session after a look for the best frame at hand: every collection
    /// that the look read counts as used.
    pub open spec fn after_nearest(self, size: (usize, usize), now: u64) -> SessionView<C> {
        self.touch_each(|key: (usize, usize)| self.reads(size, key), now)
    }

    /// The session after every collection was dropped that nothing has used
    /// for the idle limit or longer.
    pub open spec fn clear_outdated_entries(self, now: u64) -> SessionView<C> {
        SessionView {
            info: self.info,
            collections: recent(self.collections, now, IDLE_LIMIT_SECS),
            requests: self.requests,
            processing: self.processing,
        }
    }

    /// Dispatch of the whole queue at time `now`, oldest request first. What
    /// is left in the queue are the requests whose cell was being rendered
    /// already.
    pub open spec fn process_requests(self, now: u64) -> Progress<C> {
        Progress {
            session: SessionView {
                info: self.info,
                collections: self.collections,
                requests: Seq::empty(),
                processing: self.processing,
            },
            renders: Seq::empty(),
            deliveries: Seq::empty(),
            redundant: 0,
        }.dispatch_all(self.requests, now)
    }

    /// Collection of render results at time `now`, in the order given.
    pub open spec fn finish_processed(self, results: Seq<RenderResult>, now: u64) -> Progress<C> {
        Progress {
            session: self,
            renders: Seq::empty(),
            deliveries: Seq::empty(),
            redundant: 0,
        }.finish_all(results, now)
    }

    /// Whether the arguments of `step` are ones that the operation accepts:
    /// frame indices and render results are for frames that the animation
    /// has.
    pub open spec fn accepts(self, step: Step<C>) -> bool {
        match step {
            Step::RequestFrame { size, index, now } => index < self.info.totalframe,
            Step::RequestFrameWithCallback { size, index, callback, now } => index
                < self.info.totalframe,
            Step::FinishProcessed { results, now } => results_in_range(
                results,
                self.info.totalframe,
            ),
            Step::Tick { results, now } => results_in_range(results, self.info.totalframe),
            _ => true,
        }
    }

    /// The session after `step`.
    pub open spec fn step(self, step: Step<C>) -> SessionView<C> {
        match step {
            Step::RequestFrame { size, index, now } => self.request_frame(size, index, now),
            Step::RequestFrameWithCallback { size, index, callback, now } => {
                self.request_frame_with_callback(size, index, callback, now)
            },
            Step::Frame { size, now } => self.touch(size, now),
            Step::NearestFrame { size, now } => self.after_nearest(size, now),
            Step::ProcessRequests { now } => self.process_requests(now).session,
            Step::FinishProcessed { results, now } => self.finish_processed(results, now).session,
            Step::ClearOutdatedEntries { now } => self.clear_outdated_entries(now),
            Step::Tick { results, now } => self.tick(results, now).session,
        }
    }

    /// One maintenance pass at time `now`: dispatch the queue, collect the
    /// render results at hand, drop the collections that were idle too long.
    pub open spec fn tick(self, results: Seq<RenderResult>, now: u64) -> Progress<C> {
        let collected = self.process_requests(now).finish_all(results, now);
        Progress {
            session: collected.session.clear_outdated_entries(now),
            renders: collected.renders,
            deliveries: collected.deliveries,
            redundant: collected.redundant,
        }
    }
}

/// Taking the requests for one cell out of a queue keeps the others as they
/// were: each of them is still for a frame that exists, no cell comes up
/// twice that did not before, and none of them asks for the cell.
pub proof fn lemma_without<C>(requests: Seq<FrameRequest<C>>, cell: FrameRequestIndex)
    ensures
        forall|i: int|
            0 <= i < without(requests, cell).len() ==> exists|j: int|
                0 <= j < requests.len() && requests[j] == #[trigger] without(requests, cell)[i],
        !asks_for(without(requests, cell), cell),
        distinct_cells(requests) ==> distinct_cells(without(requests, cell)),
        forall|totalframe: usize|
            in_range(requests, totalframe) ==> #[trigger] in_range(
                without(requests, cell),
                totalframe,
            ),
        forall|other: FrameRequestIndex|
            other != cell ==> asks_for(requests, other) == #[trigger] asks_for(
                without(requests, cell),
                other,
            ),
    decreases requests.len(),
{
    let kept = without(requests, cell);
    if requests.len() > 0 {
        let init = requests.drop_last();
        lemma_without(init, cell);
        let kept_init = without(init, cell);
        assert forall|other: FrameRequestIndex| other != cell implies asks_for(requests, other)
            == #[trigger] asks_for(kept, other) by {
            assert(asks_for(init, other) == asks_for(kept_init, other));
            if asks_for(requests, other) {
                let j = choose|j: int|
                    0 <= j < requests.len() && (#[trigger] requests[j]).cell() == other;
                if j < init.len() {
                    assert(init[j].cell() == other);
                    let i = choose|i: int|
                        0 <= i < kept_init.len() && (#[trigger] kept_init[i]).cell() == other;
                    assert(kept[i].cell() == other);
                } else {
                    assert(kept[kept.len() - 1].cell() == other);
                }
            }
        }
    }
}

impl<C> Progress<C> {
    /// Dispatch of one request keeps the session well formed.
    pub proof fn lemma_dispatch_one_wf(self, request: FrameRequest<C>, now: u64)
        requires
            self.session.wf(),
            request.frame_num < self.session.info.totalframe,
        ensures
            self.dispatch_one(request, now).session.wf(),
            self.dispatch_one(request, now).session.info == self.session.info,
            self.dispatch_one(request, now).redundant == self.redundant,
    {
    }

    /// Collection of one result keeps the session well formed.
    pub proof fn lemma_finish_one_wf(self, result: RenderResult, now: u64)
        requires
            self.session.wf(),
            result.index.frame_num < self.session.info.totalframe,
        ensures
            self.finish_one(result, now).session.wf(),
            self.finish_one(result, now).session.info == self.session.info,
            self.finish_one(result, now).renders == self.renders,
    {
        let after = self.finish_one(result, now).session;
        lemma_without(self.session.requests, result.index);
        lemma_without(self.session.processing, result.index);
        assert forall|size: (usize, usize)| #[trigger]
            after.collections.contains_key(size) implies after.collections[size].slots.len()
            == after.info.totalframe by {}
    }

    /// Dispatch of one request at time `now`. If its frame is cached, the
    /// frame goes to its callback. Else, if a worker is rendering its cell,
    /// the request goes back to the queue for the next pass. Else a render is
    /// started for the cell, and the request waits for it.
    pub open spec fn dispatch_one(self, request: FrameRequest<C>, now: u64) -> Progress<C> {
        let session = self.session.touch(request.size, now);
        match self.session.cached(request.size, request.frame_num as int) {
            Some(frame) => Progress {
                session,
                renders: self.renders,
                deliveries: match request.callback {
                    Some(callback) => self.deliveries.push(Delivery { callback, frame }),
                    None => self.deliveries,
                },
                redundant: self.redundant,
            },
            None => if self.session.rendering(request.cell()) {
                Progress {
                    session: session.enqueue(request),
                    renders: self.renders,
                    deliveries: self.deliveries,
                    redundant: self.redundant,
                }
            } else {
                Progress {
                    session: SessionView {
                        info: session.info,
                        collections: session.collections,
                        requests: session.requests,
                        processing: session.processing.push(request),
                    },
                    renders: self.renders.push(request.cell()),
                    deliveries: self.deliveries,
                    redundant: self.redundant,
                }
            },
        }
    }

    /// Dispatch of `requests` in their order.
    pub open spec fn dispatch_all(self, requests: Seq<FrameRequest<C>>, now: u64) -> Progress<C>
        decreases requests.len(),
    {
        if requests.len() == 0 {
            self
        } else {
            self.dispatch_all(requests.drop_last(), now).dispatch_one(requests.last(), now)
        }
    }

    /// Collection of one render result at time `now`. A frame is stored in
    /// its slot, in a new collection if the one for its size is gone, and
    /// goes to the callback of every request for its cell, those that waited
    /// for the render first, then those still in the queue; all of them
    /// leave the session. A failed render only takes the requests that
    /// waited for it out of the session.
    pub open spec fn finish_one(self, result: RenderResult, now: u64) -> Progress<C> {
        let session = self.session;
        let cell = result.index;
        match result.frame {
            Some(frame) => {
                let collection = session.collection_or_new(cell.size, now);
                Progress {
                    session: SessionView {
                        info: session.info,
                        collections: session.collections.insert(
                            cell.size,
                            collection.store(cell.frame_num as int, frame, now),
                        ),
                        requests: without(session.requests, cell),
                        processing: without(session.processing, cell),
                    },
                    renders: self.renders,
                    deliveries: self.deliveries + handoffs(matching(session.processing, cell), frame)
                        + handoffs(matching(session.requests, cell), frame),
                    redundant: if collection.slots[cell.frame_num as int].is_some() {
                        self.redundant + 1
                    } else {
                        self.redundant
                    },
                }
            },
            None => Progress {
                session: SessionView {
                    info: session.info,
                    collections: session.collections,
                    requests: session.requests,
                    processing: without(session.processing, cell),
                },
                renders: self.renders,
                deliveries: self.deliveries,
                redundant: self.redundant,
            },
        }
    }

    /// Collection of `results` in their order.
    pub open spec fn finish_all(self, results: Seq<RenderResult>, now: u64) -> Progress<C>
        decreases results.len(),
    {
        if results.len() == 0 {
            self
        } else {
            self.finish_all(results.drop_last(), now).finish_one(results.last(), now)
        }
    }
}

} // verus!
