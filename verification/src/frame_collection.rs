//! The frames rendered so far at one pixel size.

use crate::frame::Frame;
use vstd::prelude::*;

verus! {

/// What a collection holds: one slot for each frame of the animation, empty
/// or filled, and the time of its last use in whole seconds of a monotonic
/// clock.
#[verifier::ext_equal]
pub struct CollectionView {
    pub slots: Seq<Option<Frame>>,
    pub last_use: u64,
}

impl CollectionView {
    /// The collection as it is when created at time `now`: `frame_count`
    /// empty slots.
    pub open spec fn empty(frame_count: nat, now: u64) -> CollectionView {
        CollectionView { slots: Seq::new(frame_count, |i: int| None::<Frame>), last_use: now }
    }

    /// The frame in slot `index`, if the slot exists and is filled.
    pub open spec fn get(self, index: int) -> Option<Frame> {
        if 0 <= index < self.slots.len() {
            self.slots[index]
        } else {
            None
        }
    }

    /// Whether at least one slot is filled.
    pub open spec fn has_frame(self) -> bool {
        exists|i: int| 0 <= i < self.slots.len() && (#[trigger] self.slots[i]).is_some()
    }

    /// The collection after a use at time `now`: the time of last use never
    /// goes back.
    pub open spec fn touch(self, now: u64) -> CollectionView {
        CollectionView {
            slots: self.slots,
            last_use: if now > self.last_use {
                now
            } else {
                self.last_use
            },
        }
    }

    /// The collection after `frame` is stored in slot `index` at time `now`.
    pub open spec fn store(self, index: int, frame: Frame, now: u64) -> CollectionView {
        CollectionView {
            slots: self.slots.update(index, Some(frame)),
            last_use: self.touch(now).last_use,
        }
    }

    /// The collection after every slot but `index` was emptied.
    pub open spec fn only(self, index: int) -> CollectionView {
        CollectionView {
            slots: Seq::new(
                self.slots.len(),
                |i: int|
                    if i == index {
                        self.slots[i]
                    } else {
                        None
                    },
            ),
            last_use: self.last_use,
        }
    }

    /// The collection after each of `entries` is stored in turn at time `now`.
    pub open spec fn store_all(self, entries: Seq<(usize, Frame)>, now: u64) -> CollectionView
        decreases entries.len(),
    {
        if entries.len() == 0 {
            self
        } else {
            self.store_all(entries.drop_last(), now).store(
                entries.last().0 as int,
                entries.last().1,
                now,
            )
        }
    }

    /// Whole seconds between the last use and `now`; zero when `now` is not
    /// later than the last use.
    pub open spec fn idle(self, now: u64) -> int {
        if now >= self.last_use {
            now - self.last_use
        } else {
            0
        }
    }

    /// The filled slot nearest to `index`, if any slot is filled.
    pub open spec fn nearest_slot(self, index: int) -> Option<int> {
        if exists|i: int| self.is_nearest(index, i) {
            Some(choose|i: int| self.is_nearest(index, i))
        } else {
            None
        }
    }

    /// No two slots are nearest to the same index.
    pub proof fn lemma_nearest_unique(self, index: int, i: int, j: int)
        requires
            self.is_nearest(index, i),
            self.is_nearest(index, j),
        ensures
            i == j,
    {
    }

    /// Whether slot `i` is the filled slot nearest to `index`: the last
    /// filled slot at or before `index`, or, when none is filled there, the
    /// first filled slot after it.
    pub open spec fn is_nearest(self, index: int, i: int) -> bool {
        &&& 0 <= i < self.slots.len()
        &&& self.slots[i].is_some()
        &&& if i <= index {
            forall|j: int|
                i < j <= index && j < self.slots.len() ==> (#[trigger] self.slots[j]).is_none()
        } else {
            forall|j: int| 0 <= j < i ==> (#[trigger] self.slots[j]).is_none()
        }
    }
}

/// The frames rendered so far at one pixel size: a slot array as long as the
/// animation has frames, whose length never changes, and the time of the last
/// use.
#[derive(Debug)]
pub struct FrameCollection {
    frames: Vec<Option<Frame>>,
    last_use_time: u64,
}

impl View for FrameCollection {
    type V = CollectionView;

    closed spec fn view(&self) -> CollectionView {
        CollectionView { slots: self.frames@, last_use: self.last_use_time }
    }
}

impl FrameCollection {
    /// A collection of `frame_count` empty slots, created at time `now`.
    pub fn new(frame_count: usize, now: u64) -> (collection: Self)
        ensures
            collection@ == CollectionView::empty(frame_count as nat, now),
    {
        let mut frames: Vec<Option<Frame>> = Vec::new();
        let mut i: usize = 0;
        while i < frame_count
            invariant
                i <= frame_count,
                frames@.len() == i,
                forall|j: int| 0 <= j < i ==> (#[trigger] frames@[j]).is_none(),
            decreases frame_count - i,
        {
            frames.push(None);
            i += 1;
        }
        FrameCollection { frames, last_use_time: now }
    }

    /// Number of slots.
    pub fn len(&self) -> (len: usize)
        ensures
            len == self@.slots.len(),
    {
        self.frames.len()
    }

    /// The frame in slot `index`, if there is one. Reading counts as a use at
    /// time `now`.
    pub fn frame(&mut self, index: usize, now: u64) -> (frame: Option<Frame>)
        ensures
            frame == old(self)@.get(index as int),
            final(self)@ == old(self)@.touch(now),
    {
        self.update_last_use_time(now);
        if index < self.frames.len() {
            match &self.frames[index] {
                Some(frame) => Some(frame.clone()),
                None => None,
            }
        } else {
            None
        }
    }

    /// Stores `frame` in slot `index`, which counts as a use at time `now`.
    /// Returns whether the slot was already filled: then a frame was rendered
    /// that was not needed.
    pub fn set_frame(&mut self, index: usize, frame: Frame, now: u64) -> (replaced: bool)
        requires
            index < old(self)@.slots.len(),
        ensures
            final(self)@ == old(self)@.store(index as int, frame, now),
            replaced == old(self)@.slots[index as int].is_some(),
    {
        self.update_last_use_time(now);
        let replaced = self.frames[index].is_some();
        self.frames[index] = Some(frame);
        replaced
    }

    /// Stores several frames at time `now`, in the order given.
    pub fn set_many_frames(&mut self, frames: Vec<(usize, Frame)>, now: u64)
        requires
            forall|j: int|
                0 <= j < frames@.len() ==> (#[trigger] frames@[j]).0 < old(self)@.slots.len(),
        ensures
            final(self)@ == old(self)@.store_all(frames@, now),
    {
        let mut k: usize = 0;
        while k < frames.len()
            invariant
                k <= frames@.len(),
                self@ == old(self)@.store_all(frames@.take(k as int), now),
                self@.slots.len() == old(self)@.slots.len(),
                forall|j: int|
                    0 <= j < frames@.len() ==> (#[trigger] frames@[j]).0 < old(self)@.slots.len(),
            decreases frames@.len() - k,
        {
            let index = frames[k].0;
            let frame = frames[k].1.clone();
            proof {
                assert(frames@.take(k + 1).drop_last() =~= frames@.take(k as int));
            }
            self.set_frame(index, frame, now);
            k += 1;
        }
        assert(frames@.take(k as int) =~= frames@);
    }

    /// Empties every slot but `index`, to give memory back while one frame
    /// stays on show. This does not count as a use.
    pub fn clear_except(&mut self, index: usize)
        ensures
            final(self)@ == old(self)@.only(index as int),
    {
        let mut i: usize = 0;
        while i < self.frames.len()
            invariant
                i <= self.frames@.len(),
                self.frames@.len() == old(self).frames@.len(),
                self.last_use_time == old(self).last_use_time,
                forall|j: int|
                    0 <= j < i ==> #[trigger] self.frames@[j] == if j == index {
                        old(self).frames@[j]
                    } else {
                        None
                    },
                forall|j: int|
                    i <= j < self.frames@.len() ==> #[trigger] self.frames@[j] == old(self).frames@[j],
            decreases self.frames@.len() - i,
        {
            if i != index {
                self.frames[i] = None;
            }
            i += 1;
        }
    }

    /// The filled slot nearest to `index`: the last filled slot at or before
    /// `index`, or, when none is filled there, the first filled slot after
    /// it. Looking through the slots counts as a use at time `now`.
    pub fn nearest(&mut self, index: usize, now: u64) -> (found: Option<usize>)
        ensures
            match found {
                Some(i) => old(self)@.nearest_slot(index as int) == Some(i as int),
                None => old(self)@.nearest_slot(index as int).is_none(),
            },
            found.is_some() == old(self)@.has_frame(),
            final(self)@ == old(self)@.touch(now),
    {
        self.update_last_use_time(now);
        let mut found: Option<usize> = None;
        let mut i: usize = 0;
        while i < self.frames.len() && (found.is_none() || i <= index)
            invariant
                i <= self.frames@.len(),
                self@ == old(self)@.touch(now),
                match found {
                    Some(n) => {
                        &&& n < i
                        &&& self.frames@[n as int].is_some()
                        &&& n <= index ==> forall|j: int|
                            n < j < i ==> (#[trigger] self.frames@[j]).is_none()
                        &&& n > index ==> forall|j: int|
                            0 <= j < n ==> (#[trigger] self.frames@[j]).is_none()
                        &&& n > index ==> i == n + 1
                    },
                    None => forall|j: int| 0 <= j < i ==> (#[trigger] self.frames@[j]).is_none(),
                },
            decreases self.frames@.len() - i,
        {
            if self.frames[i].is_some() {
                found = Some(i);
            }
            i += 1;
        }
        proof {
            match found {
                Some(n) => {
                    assert(old(self)@.is_nearest(index as int, n as int));
                    old(self)@.lemma_nearest_unique(
                        index as int,
                        n as int,
                        choose|i: int| old(self)@.is_nearest(index as int, i),
                    );
                },
                None => {},
            }
        }
        found
    }

    /// All slots, for reading. Reading them counts as a use at time `now`.
    pub fn snapshot_all(&mut self, now: u64) -> (slots: &Vec<Option<Frame>>)
        ensures
            slots@ == old(self)@.slots,
            final(self)@ == old(self)@.touch(now),
    {
        self.update_last_use_time(now);
        &self.frames
    }

    /// Whole seconds since the last use, as seen at time `now`.
    pub fn seconds_since_last_use(&self, now: u64) -> (seconds: u64)
        ensures
            seconds == self@.idle(now),
    {
        now.saturating_sub(self.last_use_time)
    }

    /// Counts a use at time `now`. The time of last use never goes back.
    fn update_last_use_time(&mut self, now: u64)
        ensures
            final(self)@ == old(self)@.touch(now),
    {
        if now > self.last_use_time {
            self.last_use_time = now;
        }
    }
}

} // verus!
