//! Frame collections keyed by pixel size, kept in the order of their keys.

use crate::frame::Frame;
use crate::frame_collection::CollectionView;
use crate::frame_collection::FrameCollection;
use vstd::prelude::*;

verus! {

/// The order of size keys: by width first, then by height.
pub open spec fn size_lt(a: (usize, usize), b: (usize, usize)) -> bool {
    a.0 < b.0 || (a.0 == b.0 && a.1 < b.1)
}

/// `a` comes before `b` in the order of size keys, or is `b`.
pub open spec fn size_le(a: (usize, usize), b: (usize, usize)) -> bool {
    a == b || size_lt(a, b)
}

/// Whether the keys stand in strictly increasing order.
pub open spec fn increasing(keys: Seq<(usize, usize)>) -> bool {
    forall|p: int, q: int|
        0 <= p < q < keys.len() ==> size_lt(#[trigger] keys[p], #[trigger] keys[q])
}

/// The collections that outlive an eviction pass at time `now`: those used
/// less than `limit` seconds ago.
pub open spec fn recent(
    map: Map<(usize, usize), CollectionView>,
    now: u64,
    limit: u64,
) -> Map<(usize, usize), CollectionView> {
    Map::new(
        |size: (usize, usize)| map.contains_key(size) && map[size].idle(now) < limit,
        |size: (usize, usize)| map[size],
    )
}

/// Compares two size keys.
pub fn size_before(a: (usize, usize), b: (usize, usize)) -> (before: bool)
    ensures
        before == size_lt(a, b),
{
    a.0 < b.0 || (a.0 == b.0 && a.1 < b.1)
}

#[derive(Debug)]
struct SizedCollection {
    size: (usize, usize),
    frames: FrameCollection,
}

/// A map from pixel size to frame collection that can be walked in the order
/// of its keys. No size occurs twice.
#[derive(Debug)]
pub struct CollectionMap {
    entries: Vec<SizedCollection>,
}

spec fn keys_of(entries: Seq<SizedCollection>) -> Seq<(usize, usize)> {
    Seq::new(entries.len(), |p: int| entries[p].size)
}

spec fn has_size(entries: Seq<SizedCollection>, size: (usize, usize), p: int) -> bool {
    0 <= p < entries.len() && entries[p].size == size
}

spec fn map_of(entries: Seq<SizedCollection>) -> Map<(usize, usize), CollectionView> {
    Map::new(
        |size: (usize, usize)| exists|p: int| has_size(entries, size, p),
        |size: (usize, usize)| entries[choose|p: int| has_size(entries, size, p)].frames@,
    )
}

proof fn lemma_entry(entries: Seq<SizedCollection>, p: int)
    requires
        increasing(keys_of(entries)),
        0 <= p < entries.len(),
    ensures
        map_of(entries).contains_key(entries[p].size),
        map_of(entries)[entries[p].size] == entries[p].frames@,
{
    let size = entries[p].size;
    assert(has_size(entries, size, p));
    let chosen = choose|q: int| has_size(entries, size, q);
    if chosen != p {
        if chosen < p {
            assert(size_lt(keys_of(entries)[chosen], keys_of(entries)[p]));
        } else {
            assert(size_lt(keys_of(entries)[p], keys_of(entries)[chosen]));
        }
    }
}

proof fn lemma_update(before: Seq<SizedCollection>, after: Seq<SizedCollection>, p: int)
    requires
        increasing(keys_of(before)),
        0 <= p < before.len(),
        after.len() == before.len(),
        after[p].size == before[p].size,
        forall|q: int| 0 <= q < before.len() && q != p ==> after[q] == before[q],
    ensures
        keys_of(after) == keys_of(before),
        map_of(after) == map_of(before).insert(before[p].size, after[p].frames@),
{
    assert(keys_of(after) =~= keys_of(before));
    let key = before[p].size;
    let expected = map_of(before).insert(key, after[p].frames@);
    assert forall|size: (usize, usize)|
        map_of(after).dom().contains(size) == expected.dom().contains(size) by {
        if map_of(after).dom().contains(size) {
            let q = choose|q: int| has_size(after, size, q);
            assert(has_size(before, size, q));
        }
        if expected.dom().contains(size) {
            if size == key {
                assert(has_size(after, size, p));
            } else {
                let q = choose|q: int| has_size(before, size, q);
                assert(has_size(after, size, q));
            }
        }
    }
    assert forall|size: (usize, usize)| map_of(after).dom().contains(size) implies map_of(
        after,
    )[size] == expected[size] by {
        let q = choose|q: int| has_size(after, size, q);
        lemma_entry(after, q);
        if q != p {
            lemma_entry(before, q);
            if q < p {
                assert(size_lt(keys_of(before)[q], keys_of(before)[p]));
            } else {
                assert(size_lt(keys_of(before)[p], keys_of(before)[q]));
            }
        }
    }
}

proof fn lemma_insert(before: Seq<SizedCollection>, p: int, entry: SizedCollection)
    requires
        increasing(keys_of(before)),
        0 <= p <= before.len(),
        forall|q: int| 0 <= q < p ==> size_lt((#[trigger] before[q]).size, entry.size),
        forall|q: int| p <= q < before.len() ==> size_lt(entry.size, (#[trigger] before[q]).size),
    ensures
        increasing(keys_of(before.insert(p, entry))),
        map_of(before.insert(p, entry)) == map_of(before).insert(entry.size, entry.frames@),
        !map_of(before).contains_key(entry.size),
{
    let after = before.insert(p, entry);
    assert forall|a: int, b: int| 0 <= a < b < keys_of(after).len() implies size_lt(
        #[trigger] keys_of(after)[a],
        #[trigger] keys_of(after)[b],
    ) by {
        let a0 = if a < p { a } else { a - 1 };
        let b0 = if b < p { b } else { b - 1 };
        if a != p && b != p {
            assert(size_lt(keys_of(before)[a0], keys_of(before)[b0]));
        }
    }
    let expected = map_of(before).insert(entry.size, entry.frames@);
    assert forall|size: (usize, usize)| map_of(after).contains_key(size) implies (
    #[trigger] expected.contains_key(size)) && expected[size] == map_of(after)[size] by {
        let q = choose|q: int| has_size(after, size, q);
        lemma_entry(after, q);
        if q != p {
            let q0 = if q < p { q } else { q - 1 };
            lemma_entry(before, q0);
        }
    }
    assert forall|size: (usize, usize)| #[trigger] expected.contains_key(size) implies map_of(
        after,
    ).contains_key(size) by {
        if size == entry.size {
            assert(has_size(after, size, p));
        } else {
            let q = choose|q: int| has_size(before, size, q);
            let q1 = if q < p { q } else { q + 1 };
            assert(has_size(after, size, q1));
        }
    }
}

proof fn lemma_remove(before: Seq<SizedCollection>, p: int)
    requires
        increasing(keys_of(before)),
        0 <= p < before.len(),
    ensures
        increasing(keys_of(before.remove(p))),
        map_of(before.remove(p)) == map_of(before).remove(before[p].size),
{
    let after = before.remove(p);
    assert forall|a: int, b: int| 0 <= a < b < keys_of(after).len() implies size_lt(
        #[trigger] keys_of(after)[a],
        #[trigger] keys_of(after)[b],
    ) by {
        let a0 = if a < p { a } else { a + 1 };
        let b0 = if b < p { b } else { b + 1 };
        assert(size_lt(keys_of(before)[a0], keys_of(before)[b0]));
    }
    let expected = map_of(before).remove(before[p].size);
    assert forall|size: (usize, usize)| map_of(after).contains_key(size) implies (
    #[trigger] expected.contains_key(size)) && expected[size] == map_of(after)[size] by {
        let q = choose|q: int| has_size(after, size, q);
        lemma_entry(after, q);
        let q0 = if q < p { q } else { q + 1 };
        lemma_entry(before, q0);
        if size == before[p].size {
            if q0 < p {
                assert(size_lt(keys_of(before)[q0], keys_of(before)[p]));
            } else {
                assert(size_lt(keys_of(before)[p], keys_of(before)[q0]));
            }
        }
    }
    assert forall|size: (usize, usize)| #[trigger] expected.contains_key(size) implies map_of(
        after,
    ).contains_key(size) by {
        let q = choose|q: int| has_size(before, size, q);
        let q1 = if q < p { q } else { q - 1 };
        assert(has_size(after, size, q1));
    }
}

impl View for CollectionMap {
    type V = Map<(usize, usize), CollectionView>;

    closed spec fn view(&self) -> Map<(usize, usize), CollectionView> {
        map_of(self.entries@)
    }
}

impl CollectionMap {
    /// The sizes that have a collection, in increasing order.
    pub closed spec fn keys(&self) -> Seq<(usize, usize)> {
        keys_of(self.entries@)
    }

    /// The keys are in strictly increasing order, so that none occurs twice.
    pub closed spec fn wf(&self) -> bool {
        increasing(keys_of(self.entries@))
    }

    /// The keys are the domain of the map, in increasing order.
    pub proof fn lemma_keys(&self)
        requires
            self.wf(),
        ensures
            increasing(self.keys()),
            forall|p: int| 0 <= p < self.keys().len() ==> self@.contains_key(#[trigger] self.keys()[p]),
            forall|size: (usize, usize)|
                self@.contains_key(size) ==> exists|p: int|
                    0 <= p < self.keys().len() && #[trigger] self.keys()[p] == size,
    {
        assert forall|p: int| 0 <= p < self.keys().len() implies self@.contains_key(
            #[trigger] self.keys()[p],
        ) by {
            lemma_entry(self.entries@, p);
        }
        assert forall|size: (usize, usize)| self@.contains_key(size) implies exists|p: int|
            0 <= p < self.keys().len() && #[trigger] self.keys()[p] == size by {
            let p = choose|p: int| has_size(self.entries@, size, p);
            assert(self.keys()[p] == size);
        }
    }

    /// A map without collections.
    pub fn new() -> (map: Self)
        ensures
            map.wf(),
            map@ == Map::<(usize, usize), CollectionView>::empty(),
            map.keys().len() == 0,
    {
        let map = CollectionMap { entries: Vec::new() };
        map
    }

    /// Number of collections.
    pub fn len(&self) -> (len: usize)
        ensures
            len == self.keys().len(),
    {
        self.entries.len()
    }

    /// The key at position `p` in the order of keys.
    pub fn size_at(&self, p: usize) -> (size: (usize, usize))
        requires
            p < self.keys().len(),
        ensures
            size == self.keys()[p as int],
    {
        self.entries[p].size
    }

    /// The position of `size` among the keys, if it has a collection.
    pub fn position(&self, size: (usize, usize)) -> (found: Option<usize>)
        requires
            self.wf(),
        ensures
            found.is_some() == self@.contains_key(size),
            found matches Some(p) ==> p < self.keys().len() && self.keys()[p as int] == size,
    {
        let mut p: usize = 0;
        while p < self.entries.len()
            invariant
                p <= self.entries@.len(),
                increasing(keys_of(self.entries@)),
                forall|q: int| 0 <= q < p ==> (#[trigger] self.entries@[q]).size != size,
            decreases self.entries@.len() - p,
        {
            if self.entries[p].size.0 == size.0 && self.entries[p].size.1 == size.1 {
                proof {
                    lemma_entry(self.entries@, p as int);
                }
                return Some(p);
            }
            p += 1;
        }
        None
    }

    /// The position of the collection for `size`, which is created with
    /// `frame_count` empty slots at time `now` if there is none yet.
    pub fn open(&mut self, size: (usize, usize), frame_count: usize, now: u64) -> (p: usize)
        requires
            old(self).wf(),
        ensures
            final(self).wf(),
            p < final(self).keys().len(),
            final(self).keys()[p as int] == size,
            final(self)@ == old(self)@.insert(
                size,
                if old(self)@.contains_key(size) {
                    old(self)@[size]
                } else {
                    CollectionView::empty(frame_count as nat, now)
                },
            ),
    {
        let mut p: usize = 0;
        while p < self.entries.len() && size_before(self.entries[p].size, size)
            invariant
                p <= self.entries@.len(),
                forall|q: int| 0 <= q < p ==> size_lt((#[trigger] self.entries@[q]).size, size),
            decreases self.entries@.len() - p,
        {
            p += 1;
        }
        if p < self.entries.len() && self.entries[p].size.0 == size.0 && self.entries[p].size.1
            == size.1 {
            proof {
                lemma_entry(self.entries@, p as int);
            }
            return p;
        }
        let entry = SizedCollection { size, frames: FrameCollection::new(frame_count, now) };
        proof {
            assert forall|q: int| p <= q < self.entries@.len() implies size_lt(
                size,
                (#[trigger] self.entries@[q]).size,
            ) by {
                if q > p {
                    assert(size_lt(keys_of(self.entries@)[p as int], keys_of(self.entries@)[q]));
                }
            }
            lemma_insert(self.entries@, p as int, entry);
        }
        self.entries.insert(p, entry);
        p
    }

    /// The frame in slot `index` of the collection at position `p`, if there
    /// is one. Reading counts as a use of that collection at time `now`.
    pub fn frame_at(&mut self, p: usize, index: usize, now: u64) -> (frame: Option<Frame>)
        requires
            old(self).wf(),
            p < old(self).keys().len(),
        ensures
            final(self).wf(),
            final(self).keys() == old(self).keys(),
            frame == old(self)@[old(self).keys()[p as int]].get(index as int),
            final(self)@ == old(self)@.insert(
                old(self).keys()[p as int],
                old(self)@[old(self).keys()[p as int]].touch(now),
            ),
    {
        proof {
            lemma_entry(self.entries@, p as int);
        }
        let frame = self.entries[p].frames.frame(index, now);
        proof {
            lemma_update(old(self).entries@, self.entries@, p as int);
        }
        frame
    }

    /// Stores `frame` in slot `index` of the collection at position `p`,
    /// which counts as a use of that collection at time `now`. Returns
    /// whether the slot was already filled.
    pub fn set_frame_at(&mut self, p: usize, index: usize, frame: Frame, now: u64) -> (replaced:
        bool)
        requires
            old(self).wf(),
            p < old(self).keys().len(),
            index < old(self)@[old(self).keys()[p as int]].slots.len(),
        ensures
            final(self).wf(),
            final(self).keys() == old(self).keys(),
            replaced == old(self)@[old(self).keys()[p as int]].slots[index as int].is_some(),
            final(self)@ == old(self)@.insert(
                old(self).keys()[p as int],
                old(self)@[old(self).keys()[p as int]].store(index as int, frame, now),
            ),
    {
        proof {
            lemma_entry(self.entries@, p as int);
        }
        let replaced = self.entries[p].frames.set_frame(index, frame, now);
        proof {
            lemma_update(old(self).entries@, self.entries@, p as int);
        }
        replaced
    }

    /// In the collection at position `p`, the filled slot nearest to
    /// `index`. Looking through the slots counts as a use of that collection
    /// at time `now`.
    pub fn nearest_at(&mut self, p: usize, index: usize, now: u64) -> (found: Option<usize>)
        requires
            old(self).wf(),
            p < old(self).keys().len(),
        ensures
            final(self).wf(),
            final(self).keys() == old(self).keys(),
            match found {
                Some(i) => old(self)@[old(self).keys()[p as int]].nearest_slot(index as int) == Some(
                    i as int,
                ),
                None => old(self)@[old(self).keys()[p as int]].nearest_slot(index as int).is_none(),
            },
            found.is_some() == old(self)@[old(self).keys()[p as int]].has_frame(),
            final(self)@ == old(self)@.insert(
                old(self).keys()[p as int],
                old(self)@[old(self).keys()[p as int]].touch(now),
            ),
    {
        proof {
            lemma_entry(self.entries@, p as int);
        }
        let found = self.entries[p].frames.nearest(index, now);
        proof {
            lemma_update(old(self).entries@, self.entries@, p as int);
        }
        found
    }

    /// Drops every collection whose last use lies `limit` seconds or more
    /// before `now`.
    pub fn retain_recent(&mut self, now: u64, limit: u64)
        requires
            old(self).wf(),
        ensures
            final(self).wf(),
            final(self)@ == recent(old(self)@, now, limit),
    {
        let mut p: usize = 0;
        while p < self.entries.len()
            invariant
                p <= self.entries@.len(),
                increasing(keys_of(self.entries@)),
                forall|q: int|
                    0 <= q < p ==> (#[trigger] self.entries@[q]).frames@.idle(now) < limit,
                forall|size: (usize, usize)| #[trigger]
                    self@.contains_key(size) ==> old(self)@.contains_key(size) && self@[size] == old(
                        self,
                    )@[size],
                forall|size: (usize, usize)|
                    old(self)@.contains_key(size) && old(self)@[size].idle(now) < limit
                        ==> #[trigger] self@.contains_key(size),
            decreases self.entries@.len() - p,
        {
            let ghost before = self.entries@;
            let ghost before_map = self@;
            if self.entries[p].frames.seconds_since_last_use(now) < limit {
                p += 1;
            } else {
                proof {
                    lemma_entry(before, p as int);
                    lemma_remove(before, p as int);
                }
                self.entries.remove(p);
                assert(self@ == before_map.remove(before[p as int].size));
            }
        }
        proof {
            assert forall|size: (usize, usize)| self@.contains_key(size) implies self@[size].idle(
                now,
            ) < limit by {
                let q = choose|q: int| has_size(self.entries@, size, q);
                lemma_entry(self.entries@, q);
            }
        }
    }
}

} // verus!
