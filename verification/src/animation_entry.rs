//! The session of one decoded animation: its cache of rendered frames and
//! the requests that wait for frames.
//!
//! The session decides; it neither renders nor calls back. Its operations
//! return what the driver has to do: cells to render, and frames to hand to
//! the callbacks that wait for them. The driver reports the renders that
//! finished with the next maintenance pass.

use crate::animation_info::AnimationInfo;
use crate::collection_map::CollectionMap;
use crate::frame::Frame;
use crate::frame_request::FrameRequest;
use crate::frame_request::FrameRequestIndex;
use crate::collection_map::increasing;
use crate::collection_map::size_le;
use crate::collection_map::size_lt;
use crate::session::asks_for;
use crate::session::handoffs;
use crate::session::in_range;
use crate::session::matching;
use crate::session::results_in_range;
use crate::session::without;
use crate::session::Delivery;
use crate::session::Progress;
use crate::session::RenderResult;
use crate::session::SessionView;
use crate::session::IDLE_LIMIT_SECS;
use std::collections::VecDeque;
use vstd::prelude::*;

verus! {

/// The session of one decoded animation. `C` is the type of the callbacks
/// that wait for frames.
#[derive(Debug)]
pub struct AnimationEntry<C> {
    info: AnimationInfo,
    frame_collections: CollectionMap,
    requests: VecDeque<FrameRequest<C>>,
    processing: VecDeque<FrameRequest<C>>,
}

impl<C> View for AnimationEntry<C> {
    type V = SessionView<C>;

    closed spec fn view(&self) -> SessionView<C> {
        SessionView {
            info: self.info,
            collections: self.frame_collections@,
            requests: self.requests@,
            processing: self.processing@,
        }
    }
}

/// What the driver of a session has to do after one of its passes.
#[derive(Debug)]
pub struct Work<C> {
    /// Cells to render, one worker each.
    pub renders: Vec<FrameRequestIndex>,
    /// Frames to hand to the callbacks that waited for them.
    pub deliveries: Vec<Delivery<C>>,
    /// Number of frames that arrived for a slot that was already filled.
    pub redundant: usize,
}

impl<C> Work<C> {
    /// The work together with the session that it left behind.
    pub open spec fn progress(&self, session: SessionView<C>) -> Progress<C> {
        Progress {
            session,
            renders: self.renders@,
            deliveries: self.deliveries@,
            redundant: self.redundant as nat,
        }
    }

    /// Nothing to do.
    pub fn new() -> (work: Self)
        ensures
            work.renders@.len() == 0,
            work.deliveries@.len() == 0,
            work.redundant == 0,
    {
        Work { renders: Vec::new(), deliveries: Vec::new(), redundant: 0 }
    }
}

/// Takes the requests for `cell` out of `queue` and returns them. Both parts
/// keep their order.
fn split_cell<C>(queue: &mut VecDeque<FrameRequest<C>>, cell: FrameRequestIndex) -> (taken:
    VecDeque<FrameRequest<C>>)
    ensures
        final(queue)@ == without(old(queue)@, cell),
        taken@ == matching(old(queue)@, cell),
{
    let mut rest: VecDeque<FrameRequest<C>> = VecDeque::new();
    std::mem::swap(queue, &mut rest);
    let mut taken: VecDeque<FrameRequest<C>> = VecDeque::new();
    let ghost all = rest@;
    while rest.len() > 0
        invariant
            rest@.len() <= all.len(),
            rest@ == all.skip(all.len() - rest@.len()),
            queue@ == without(all.take(all.len() - rest@.len()), cell),
            taken@ == matching(all.take(all.len() - rest@.len()), cell),
        decreases rest@.len(),
    {
        let ghost k = all.len() - rest@.len();
        match rest.pop_front() {
            Some(request) => {
                proof {
                    assert(all.take(k + 1).drop_last() =~= all.take(k));
                }
                if request.index() == cell {
                    taken.push_back(request);
                } else {
                    queue.push_back(request);
                }
            },
            None => {},
        }
    }
    taken
}

/// Hands `frame` to the callback of each of `requests`, in their order.
fn hand_out<C>(requests: VecDeque<FrameRequest<C>>, frame: &Frame, deliveries: &mut Vec<Delivery<C>>)
    ensures
        final(deliveries)@ == old(deliveries)@ + handoffs(requests@, *frame),
{
    let mut rest = requests;
    let ghost all = rest@;
    while rest.len() > 0
        invariant
            rest@.len() <= all.len(),
            rest@ == all.skip(all.len() - rest@.len()),
            deliveries@ == old(deliveries)@ + handoffs(all.take(all.len() - rest@.len()), *frame),
        decreases rest@.len(),
    {
        let ghost k = all.len() - rest@.len();
        match rest.pop_front() {
            Some(request) => {
                proof {
                    assert(all.take(k + 1).drop_last() =~= all.take(k));
                }
                let FrameRequest { size: _, frame_num: _, callback } = request;
                match callback {
                    Some(callback) => {
                        deliveries.push(Delivery { callback, frame: frame.clone() });
                    },
                    None => {},
                }
            },
            None => {},
        }
    }
}

/// Whether one of the requests in `queue` asks for `cell`.
fn contains_cell<C>(queue: &VecDeque<FrameRequest<C>>, cell: FrameRequestIndex) -> (found: bool)
    ensures
        found == asks_for(queue@, cell),
{
    let mut i: usize = 0;
    while i < queue.len()
        invariant
            i <= queue@.len(),
            forall|j: int| 0 <= j < i ==> (#[trigger] queue@[j]).cell() != cell,
        decreases queue@.len() - i,
    {
        if queue[i].index() == cell {
            return true;
        }
        i += 1;
    }
    false
}

/// Whether a look for the best frame at hand for `size` has read the
/// collection for `key`, once it has gone through the wider collections
/// before position `wide` and through all collections before position `all`.
spec fn read_so_far(
    keys: Seq<(usize, usize)>,
    size: (usize, usize),
    wide: int,
    all: int,
    key: (usize, usize),
) -> bool {
    ||| key == size
    ||| key.0 > size.0 && exists|j: int| 0 <= j < wide && #[trigger] keys[j] == key
    ||| exists|j: int| 0 <= j < all && #[trigger] keys[j] == key
}

/// Whether `keys` are the sizes that have a collection in `session`, in
/// increasing order.
spec fn covers<C>(keys: Seq<(usize, usize)>, session: SessionView<C>) -> bool {
    &&& increasing(keys)
    &&& forall|j: int| 0 <= j < keys.len() ==> session.collections.contains_key(#[trigger] keys[j])
    &&& forall|key: (usize, usize)|
        session.collections.contains_key(key) ==> exists|j: int|
            0 <= j < keys.len() && #[trigger] keys[j] == key
}

impl<C> AnimationEntry<C> {
    /// The collections are kept in the order of their sizes.
    pub closed spec fn ordered(&self) -> bool {
        self.frame_collections.wf()
    }

    /// What holds of every session between two calls.
    pub open spec fn wf(&self) -> bool {
        self.ordered() && self@.wf()
    }

    /// The session of a freshly decoded animation: nothing cached, nothing
    /// requested.
    pub fn new(info: AnimationInfo) -> (entry: Self)
        ensures
            entry.wf(),
            entry@ == SessionView::<C>::new(info),
    {
        AnimationEntry {
            info,
            frame_collections: CollectionMap::new(),
            requests: VecDeque::new(),
            processing: VecDeque::new(),
        }
    }

    /// What is known of the animation.
    pub fn info(&self) -> (info: AnimationInfo)
        ensures
            info == self@.info,
    {
        self.info
    }

    /// Asks for frame `index` at `width` by `height` pixels without waiting
    /// for it. Unless the frame is cached or already asked for, the request
    /// is queued for the next maintenance pass.
    pub fn request_frame(&mut self, width: usize, height: usize, index: usize, now: u64)
        requires
            old(self).wf(),
            index < old(self)@.info.totalframe,
        ensures
            final(self).wf(),
            final(self)@ == old(self)@.request_frame((width, height), index, now),
    {
        let size = (width, height);
        let p = self.frame_collections.open(size, self.info.totalframe, now);
        let cached = self.frame_collections.frame_at(p, index, now);
        if cached.is_none() {
            let cell = FrameRequestIndex { size, frame_num: index };
            if !contains_cell(&self.requests, cell) {
                self.requests.push_back(FrameRequest::silent(width, height, index));
            }
        }
        assert(self@.collections =~= old(self)@.opened(size, now).collections);
    }

    /// Asks for frame `index` at `width` by `height` pixels on behalf of
    /// `callback`. If the frame is cached it comes back at once, together
    /// with the callback. Otherwise the request is queued, and the callback
    /// gets the frame from a later maintenance pass.
    pub fn request_frame_with_callback(
        &mut self,
        width: usize,
        height: usize,
        index: usize,
        callback: C,
        now: u64,
    ) -> (ready: Option<Delivery<C>>)
        requires
            old(self).wf(),
            index < old(self)@.info.totalframe,
        ensures
            final(self).wf(),
            final(self)@ == old(self)@.request_frame_with_callback(
                (width, height),
                index,
                callback,
                now,
            ),
            ready == match old(self)@.cached((width, height), index as int) {
                Some(frame) => Some(Delivery { callback, frame }),
                None => None,
            },
    {
        let size = (width, height);
        let p = self.frame_collections.open(size, self.info.totalframe, now);
        let cached = self.frame_collections.frame_at(p, index, now);
        assert(self@.collections =~= old(self)@.opened(size, now).collections);
        match cached {
            Some(frame) => {
                Some(Delivery { callback, frame })
            },
            None => {
                self.requests.push_back(FrameRequest::new(width, height, index, callback));
                None
            },
        }
    }

    /// The cached frame `index` at `width` by `height` pixels, if there is
    /// one. Nothing is rendered or queued. Looking counts as a use of the
    /// collection for that size.
    pub fn frame(&mut self, width: usize, height: usize, index: usize, now: u64) -> (frame: Option<
        Frame,
    >)
        requires
            old(self).wf(),
        ensures
            final(self).wf(),
            frame == old(self)@.cached((width, height), index as int),
            final(self)@ == old(self)@.touch((width, height), now),
    {
        let size = (width, height);
        match self.frame_collections.position(size) {
            Some(p) => {
                let frame = self.frame_collections.frame_at(p, index, now);
                frame
            },
            None => None,
        }
    }
    /// Whether the session holds a collection for `width` by `height`
    /// pixels.
    pub fn has_collection(&self, width: usize, height: usize) -> (present: bool)
        requires
            self.wf(),
        ensures
            present == self@.collections.contains_key((width, height)),
    {
        self.frame_collections.position((width, height)).is_some()
    }

    /// Whether a worker is rendering `cell`.
    pub fn is_rendering(&self, cell: FrameRequestIndex) -> (rendering: bool)
        ensures
            rendering == self@.rendering(cell),
    {
        contains_cell(&self.processing, cell)
    }

    /// Whether the queue holds a request for `cell`.
    pub fn is_queued(&self, cell: FrameRequestIndex) -> (queued: bool)
        ensures
            queued == asks_for(self@.requests, cell),
    {
        contains_cell(&self.requests, cell)
    }

    /// The best frame at hand for frame `index` at `width` by `height`
    /// pixels. The collection for that size serves if it holds any frame;
    /// else the first collection, in the order of sizes, among those that are
    /// wider and hold a frame; else the first of all that hold a frame. From
    /// the collection that serves comes the frame nearest to `index`: the
    /// last one at or before `index`, or the first one after it. Nothing is
    /// rendered or queued. Every collection that the look goes through
    /// counts as used at time `now`.
    pub fn nearest_frame(&mut self, width: usize, height: usize, index: usize, now: u64) -> (frame:
        Option<Frame>)
        requires
            old(self).wf(),
        ensures
            final(self).wf(),
            frame == old(self)@.nearest_frame((width, height), index as int),
            frame.is_some() == (exists|key: (usize, usize)| old(self)@.usable(key)),
            final(self)@ == old(self)@.after_nearest((width, height), now),
    {
        let size = (width, height);
        let ghost before = self@;
        let ghost keys = self.frame_collections.keys();
        proof {
            self.frame_collections.lemma_keys();
        }
        match self.frame_collections.position(size) {
            Some(p) => {
                match self.frame_collections.nearest_at(p, index, now) {
                    Some(i) => {
                        let frame = self.frame_collections.frame_at(p, i, now);
                        proof {
                            assert(before.is_nearest_key(size, size));
                            before.lemma_nearest_key_unique(
                                size,
                                size,
                                choose|key: (usize, usize)| before.is_nearest_key(size, key),
                            );
                            assert(self@ =~= before.after_nearest(size, now));
                        }
                        return frame;
                    },
                    None => {},
                }
            },
            None => {},
        }
        assert(self@ =~= before.touch_each(
            |key: (usize, usize)| read_so_far(keys, size, 0, 0, key),
            now,
        ));
        let count = self.frame_collections.len();
        let mut q: usize = 0;
        while q < count
            invariant
                q <= count,
                count == keys.len(),
                keys == self.frame_collections.keys(),
                covers(keys, before),
                self.wf(),
                before == old(self)@,
                before.wf(),
                self@ == before.touch_each(
                    |key: (usize, usize)| read_so_far(keys, size, q as int, 0, key),
                    now,
                ),
                !before.usable(size),
                size == (width, height),
                forall|j: int| 0 <= j < q ==> !(before.usable(#[trigger] keys[j]) && keys[j].0 > width),
            decreases count - q,
        {
            let key = self.frame_collections.size_at(q);
            if key.0 > width {
                match self.frame_collections.nearest_at(q, index, now) {
                    Some(i) => {
                        let frame = self.frame_collections.frame_at(q, i, now);
                        proof {
                            assert(before.usable(key));
                            assert forall|wider: (usize, usize)| #[trigger]
                                before.usable(wider) && wider.0 > size.0 implies size_le(
                                key,
                                wider,
                            ) by {
                                let j = choose|j: int|
                                    0 <= j < keys.len() && #[trigger] keys[j] == wider;
                                if j < q {
                                    assert(!(before.usable(keys[j]) && keys[j].0 > width));
                                } else if j > q {
                                    assert(size_lt(keys[q as int], keys[j]));
                                }
                            }
                            assert(before.is_nearest_key(size, key));
                            before.lemma_nearest_key_unique(
                                size,
                                key,
                                choose|key: (usize, usize)| before.is_nearest_key(size, key),
                            );
                            assert forall|other: (usize, usize)|
                                before.collections.contains_key(other) implies before.reads(
                                size,
                                other,
                            ) == read_so_far(keys, size, q + 1, 0, other) by {
                                let j = choose|j: int|
                                    0 <= j < keys.len() && #[trigger] keys[j] == other;
                                if other.0 > size.0 && j <= q {
                                    assert(keys[j] == other);
                                }
                            }
                            assert(self@ =~= before.after_nearest(size, now));
                        }
                        return frame;
                    },
                    None => {},
                }
            }
            proof {
                assert(self@ =~= before.touch_each(
                    |key: (usize, usize)| read_so_far(keys, size, q + 1, 0, key),
                    now,
                ));
            }
            q += 1;
        }
        proof {
            assert forall|wider: (usize, usize)| !(#[trigger] before.usable(wider) && wider.0
                > size.0) by {
                if before.usable(wider) && wider.0 > size.0 {
                    let j = choose|j: int| 0 <= j < keys.len() && #[trigger] keys[j] == wider;
                    assert(!(before.usable(keys[j]) && keys[j].0 > width));
                }
            }
            assert(self@ =~= before.touch_each(
                |key: (usize, usize)| read_so_far(keys, size, count as int, 0, key),
                now,
            ));
        }
        q = 0;
        while q < count
            invariant
                q <= count,
                count == keys.len(),
                keys == self.frame_collections.keys(),
                covers(keys, before),
                self.wf(),
                before == old(self)@,
                before.wf(),
                self@ == before.touch_each(
                    |key: (usize, usize)| read_so_far(keys, size, count as int, q as int, key),
                    now,
                ),
                !before.usable(size),
                size == (width, height),
                forall|wider: (usize, usize)| !(#[trigger] before.usable(wider) && wider.0 > size.0),
                forall|j: int| 0 <= j < q ==> !before.usable(#[trigger] keys[j]),
            decreases count - q,
        {
            let key = self.frame_collections.size_at(q);
            match self.frame_collections.nearest_at(q, index, now) {
                Some(i) => {
                    let frame = self.frame_collections.frame_at(q, i, now);
                    proof {
                        assert(before.usable(key));
                        assert(!read_so_far(keys, size, count as int, q as int, key));
                        assert forall|other: (usize, usize)| #[trigger]
                            before.usable(other) implies size_le(key, other) by {
                            let j = choose|j: int| 0 <= j < keys.len() && #[trigger] keys[j] == other;
                            if j < q {
                                assert(!before.usable(keys[j]));
                            } else if j > q {
                                assert(size_lt(keys[q as int], keys[j]));
                            }
                        }
                        assert(before.is_nearest_key(size, key));
                        before.lemma_nearest_key_unique(
                            size,
                            key,
                            choose|key: (usize, usize)| before.is_nearest_key(size, key),
                        );
                        assert forall|other: (usize, usize)|
                            before.collections.contains_key(other) implies before.reads(size, other)
                            == read_so_far(keys, size, count as int, q + 1, other) by {
                            let j = choose|j: int| 0 <= j < keys.len() && #[trigger] keys[j] == other;
                            if j <= q {
                                assert(keys[j] == other);
                            }
                        }
                        assert(self@ =~= before.after_nearest(size, now));
                    }
                    return frame;
                },
                None => {},
            }
            proof {
                assert(self@ =~= before.touch_each(
                    |key: (usize, usize)| read_so_far(keys, size, count as int, q + 1, key),
                    now,
                ));
            }
            q += 1;
        }
        proof {
            assert forall|key: (usize, usize)| !before.usable(key) by {
                if before.usable(key) {
                    let j = choose|j: int| 0 <= j < keys.len() && #[trigger] keys[j] == key;
                    assert(!before.usable(keys[j]));
                }
            }
            assert forall|other: (usize, usize)|
                before.collections.contains_key(other) implies before.reads(size, other)
                == read_so_far(keys, size, count as int, count as int, other) by {
                let j = choose|j: int| 0 <= j < keys.len() && #[trigger] keys[j] == other;
                assert(keys[j] == other);
            }
            assert(self@ =~= before.after_nearest(size, now));
        }
        None
    }

    /// Dispatches the queued requests at time `now`, oldest first, on top of
    /// the work gathered so far.
    fn dispatch(&mut self, now: u64, work: &mut Work<C>)
        requires
            old(self).wf(),
        ensures
            final(self).wf(),
            final(self)@.info == old(self)@.info,
            final(work).redundant == old(work).redundant,
            final(work).progress(final(self)@) == old(work).progress(
                SessionView {
                    info: old(self)@.info,
                    collections: old(self)@.collections,
                    requests: Seq::empty(),
                    processing: old(self)@.processing,
                },
            ).dispatch_all(old(self)@.requests, now),
    {
        let mut queue: VecDeque<FrameRequest<C>> = VecDeque::new();
        std::mem::swap(&mut self.requests, &mut queue);
        let ghost all = queue@;
        let ghost start = work.progress(self@);
        let ghost totalframe = self.info.totalframe;
        while queue.len() > 0
            invariant
                self.wf(),
                self@.info == start.session.info,
                totalframe == self@.info.totalframe,
                in_range(all, totalframe),
                work.redundant == start.redundant,
                queue@.len() <= all.len(),
                queue@ == all.skip(all.len() - queue@.len()),
                work.progress(self@) == start.dispatch_all(all.take(all.len() - queue@.len()), now),
            decreases queue@.len(),
        {
            let ghost k = all.len() - queue@.len();
            let ghost before = work.progress(self@);
            match queue.pop_front() {
                Some(request) => {
                    proof {
                        assert(all.take(k + 1).drop_last() =~= all.take(k));
                        before.lemma_dispatch_one_wf(request, now);
                    }
                    let cell = request.index();
                    let cached = match self.frame_collections.position(request.size) {
                        Some(p) => self.frame_collections.frame_at(p, request.frame_num, now),
                        None => None,
                    };
                    match cached {
                        Some(frame) => {
                            let FrameRequest { size: _, frame_num: _, callback } = request;
                            match callback {
                                Some(callback) => {
                                    work.deliveries.push(Delivery { callback, frame });
                                },
                                None => {},
                            }
                        },
                        None => {
                            if contains_cell(&self.processing, cell) {
                                self.requests.push_back(request);
                            } else {
                                work.renders.push(cell);
                                self.processing.push_back(request);
                            }
                        },
                    }
                },
                None => {},
            }
        }
    }

    /// Collects render results at time `now`, in the order given, on top of
    /// the work gathered so far.
    fn collect(&mut self, results: &Vec<RenderResult>, now: u64, work: &mut Work<C>)
        requires
            old(self).wf(),
            results_in_range(results@, old(self)@.info.totalframe),
            old(work).redundant + results.len() <= usize::MAX,
        ensures
            final(self).wf(),
            final(self)@.info == old(self)@.info,
            final(work).progress(final(self)@) == old(work).progress(old(self)@).finish_all(
                results@,
                now,
            ),
    {
        let ghost start = work.progress(self@);
        let ghost totalframe = self.info.totalframe;
        let mut k: usize = 0;
        while k < results.len()
            invariant
                k <= results@.len(),
                self.wf(),
                self@.info == start.session.info,
                totalframe == self@.info.totalframe,
                results_in_range(results@, totalframe),
                work.redundant <= start.redundant + k,
                start.redundant + results@.len() <= usize::MAX,
                work.progress(self@) == start.finish_all(results@.take(k as int), now),
            decreases results@.len() - k,
        {
            let ghost before = work.progress(self@);
            let cell = results[k].index;
            proof {
                assert(results@.take(k + 1).drop_last() =~= results@.take(k as int));
                before.lemma_finish_one_wf(results@[k as int], now);
            }
            match &results[k].frame {
                Some(frame) => {
                    let p = self.frame_collections.open(cell.size, self.info.totalframe, now);
                    let replaced = self.frame_collections.set_frame_at(
                        p,
                        cell.frame_num,
                        frame.clone(),
                        now,
                    );
                    let waited = split_cell(&mut self.processing, cell);
                    hand_out(waited, frame, &mut work.deliveries);
                    let queued = split_cell(&mut self.requests, cell);
                    hand_out(queued, frame, &mut work.deliveries);
                    if replaced {
                        work.redundant += 1;
                    }
                    assert(self@.collections =~= before.finish_one(
                        results@[k as int],
                        now,
                    ).session.collections);
                },
                None => {
                    split_cell(&mut self.processing, cell);
                },
            }
            k += 1;
        }
        assert(results@.take(k as int) =~= results@);
    }

    /// Dispatches the queued requests at time `now`, oldest first. A request
    /// whose frame is cached is answered at once. Of the others, the first
    /// for a cell that no worker is rendering starts a render and waits for
    /// it; a request for a cell that is being rendered stays in the queue
    /// for the next pass.
    pub fn process_requests(&mut self, now: u64) -> (work: Work<C>)
        requires
            old(self).wf(),
        ensures
            final(self).wf(),
            work.progress(final(self)@) == old(self)@.process_requests(now),
    {
        let mut work = Work::new();
        assert(work.renders@ =~= Seq::empty() && work.deliveries@ =~= Seq::empty());
        self.dispatch(now, &mut work);
        work
    }

    /// Takes in the results of renders at time `now`, in the order given.
    /// Each frame is stored in its slot and handed to every request for its
    /// cell; a failed render only releases the requests that waited for it.
    pub fn finish_processed(&mut self, results: Vec<RenderResult>, now: u64) -> (work: Work<C>)
        requires
            old(self).wf(),
            results_in_range(results@, old(self)@.info.totalframe),
        ensures
            final(self).wf(),
            work.progress(final(self)@) == old(self)@.finish_processed(results@, now),
    {
        let mut work = Work::new();
        assert(work.renders@ =~= Seq::empty() && work.deliveries@ =~= Seq::empty());
        self.collect(&results, now, &mut work);
        work
    }

    /// Drops every collection that nothing has used for the idle limit or
    /// longer, as seen at time `now`.
    pub fn clear_outdated_entries(&mut self, now: u64)
        requires
            old(self).wf(),
        ensures
            final(self).wf(),
            final(self)@ == old(self)@.clear_outdated_entries(now),
    {
        self.frame_collections.retain_recent(now, IDLE_LIMIT_SECS);
        assert(self@ =~= old(self)@.clear_outdated_entries(now));
    }

    /// One maintenance pass at time `now`: dispatches the queue, takes in
    /// the render results at hand, then drops the collections that were idle
    /// too long. Returns the renders to start and the frames to hand out.
    pub fn tick(&mut self, results: Vec<RenderResult>, now: u64) -> (work: Work<C>)
        requires
            old(self).wf(),
            results_in_range(results@, old(self)@.info.totalframe),
        ensures
            final(self).wf(),
            work.progress(final(self)@) == old(self)@.tick(results@, now),
    {
        let mut work = Work::new();
        assert(work.renders@ =~= Seq::empty() && work.deliveries@ =~= Seq::empty());
        self.dispatch(now, &mut work);
        self.collect(&results, now, &mut work);
        self.clear_outdated_entries(now);
        work
    }
}

} // verus!
