//! The registry of animations by source path.
//!
//! The first caller who opens a path starts its decode. Callers who open the
//! same path while the decode runs wait for the same result. Once the
//! session is there, every caller gets a handle to that one session.
//!
//! The registry decides; it neither decodes nor calls back. `W` is what
//! waits for a session (a callback), `S` is the handle to a session that is
//! shared among the callers.

use std::collections::VecDeque;
use vstd::prelude::*;

verus! {

/// What the registry holds for one path.
pub enum EntryView<W, S> {
    /// The decode is under way; these wait for it, first come first.
    Uninitialized(Seq<W>),
    /// The session is there.
    Initialized(S),
}

/// What the registry holds for one path: the callers that wait for the
/// decode, or the session. An entry goes from the first to the second, once,
/// and never back.
#[derive(Debug)]
pub enum AnimationManagerEntry<W, S> {
    Uninitialized(VecDeque<W>),
    Initialized(S),
}

impl<W, S> View for AnimationManagerEntry<W, S> {
    type V = EntryView<W, S>;

    open spec fn view(&self) -> EntryView<W, S> {
        match self {
            AnimationManagerEntry::Uninitialized(callbacks) => EntryView::Uninitialized(callbacks@),
            AnimationManagerEntry::Initialized(session) => EntryView::Initialized(*session),
        }
    }
}

impl<W, S> EntryView<W, S> {
    /// The entry after `callback` asked for the session: it waits, unless
    /// the session is there.
    pub open spec fn push_callback(self, callback: W) -> EntryView<W, S> {
        match self {
            EntryView::Uninitialized(callbacks) => EntryView::Uninitialized(callbacks.push(callback)),
            EntryView::Initialized(session) => self,
        }
    }

    /// Whether no decode is to be started for the entry: the session is
    /// there, or more than one caller waits, so that the first of them has
    /// started the decode.
    pub open spec fn skip_init(self) -> bool {
        match self {
            EntryView::Uninitialized(callbacks) => callbacks.len() > 1,
            EntryView::Initialized(session) => true,
        }
    }

    /// The callers that wait for the decode.
    pub open spec fn waiting(self) -> Seq<W> {
        match self {
            EntryView::Uninitialized(callbacks) => callbacks,
            EntryView::Initialized(session) => Seq::empty(),
        }
    }
}

/// Whether each of `ready` pairs the waiter at its place in `waiting` with a
/// handle cloned from `session`.
pub open spec fn served<W, S: Clone>(ready: Seq<(W, S)>, waiting: Seq<W>, session: S) -> bool {
    &&& ready.len() == waiting.len()
    &&& forall|i: int|
        0 <= i < ready.len() ==> (#[trigger] ready[i]).0 == waiting[i] && cloned(session, ready[i].1)
}

impl<W, S: Clone> AnimationManagerEntry<W, S> {
    /// An entry for a path whose decode has not finished, with nobody
    /// waiting yet.
    pub fn new() -> (entry: Self)
        ensures
            entry@ == EntryView::<W, S>::Uninitialized(Seq::empty()),
    {
        AnimationManagerEntry::Uninitialized(VecDeque::new())
    }

    /// Registers `callback`. If the session is there, the callback comes
    /// back at once with a handle to it; else it waits for the decode.
    pub fn push_callback(&mut self, callback: W) -> (ready: Option<(W, S)>)
        ensures
            final(self)@ == old(self)@.push_callback(callback),
            match old(self)@ {
                EntryView::Uninitialized(callbacks) => ready.is_none(),
                EntryView::Initialized(session) => ready.is_some() && ready.unwrap().0 == callback
                    && cloned(session, ready.unwrap().1),
            },
    {
        match self {
            AnimationManagerEntry::Initialized(session) => Some((callback, session.clone())),
            AnimationManagerEntry::Uninitialized(callbacks) => {
                callbacks.push_back(callback);
                None
            },
        }
    }

    /// Whether no decode is to be started for the entry.
    pub fn skip_init(&self) -> (skip: bool)
        ensures
            skip == self@.skip_init(),
    {
        match self {
            AnimationManagerEntry::Uninitialized(callbacks) => callbacks.len() > 1,
            AnimationManagerEntry::Initialized(_) => true,
        }
    }

    /// Whether the decode has not finished.
    pub fn is_uninitialized(&self) -> (waiting: bool)
        ensures
            waiting == (self@ is Uninitialized),
    {
        match self {
            AnimationManagerEntry::Uninitialized(_) => true,
            AnimationManagerEntry::Initialized(_) => false,
        }
    }

    /// The decode has finished: the entry holds `session` from now on, and
    /// every caller that waited comes back with a handle to it, first come
    /// first.
    pub fn init(&mut self, session: S) -> (ready: Vec<(W, S)>)
        requires
            old(self)@ is Uninitialized,
        ensures
            final(self)@ == EntryView::<W, S>::Initialized(session),
            served(ready@, old(self)@.waiting(), session),
    {
        let mut ready: Vec<(W, S)> = Vec::new();
        let mut rest: VecDeque<W> = VecDeque::new();
        match self {
            AnimationManagerEntry::Uninitialized(callbacks) => {
                std::mem::swap(callbacks, &mut rest);
            },
            AnimationManagerEntry::Initialized(_) => {},
        }
        let ghost all = rest@;
        while rest.len() > 0
            invariant
                rest@.len() <= all.len(),
                rest@ == all.skip(all.len() - rest@.len()),
                served(ready@, all.take(all.len() - rest@.len()), session),
            decreases rest@.len(),
        {
            match rest.pop_front() {
                Some(callback) => {
                    ready.push((callback, session.clone()));
                },
                None => {},
            }
        }
        *self = AnimationManagerEntry::Initialized(session);
        ready
    }

    /// The session, once it is there.
    pub fn session(&self) -> (session: Option<&S>)
        ensures
            match self@ {
                EntryView::Uninitialized(callbacks) => session.is_none(),
                EntryView::Initialized(held) => session == Some(&held),
            },
    {
        match self {
            AnimationManagerEntry::Uninitialized(_) => None,
            AnimationManagerEntry::Initialized(session) => Some(session),
        }
    }
}

/// What the registry holds: an entry for each path that was opened, and
/// whether its maintenance was started.
#[verifier::ext_equal]
pub struct RegistryView<W, S> {
    pub entries: Map<Seq<char>, EntryView<W, S>>,
    pub initialized: bool,
}

impl<W, S> RegistryView<W, S> {
    /// The entry for `path`, or the entry that a first open creates.
    pub open spec fn entry_or_new(self, path: Seq<char>) -> EntryView<W, S> {
        if self.entries.contains_key(path) {
            self.entries[path]
        } else {
            EntryView::Uninitialized(Seq::empty())
        }
    }

    /// The registry after `callback` opened `path`.
    pub open spec fn open_animation(self, path: Seq<char>, callback: W) -> RegistryView<W, S> {
        RegistryView {
            entries: self.entries.insert(path, self.entry_or_new(path).push_callback(callback)),
            initialized: self.initialized,
        }
    }

    /// Whether `callback`, opening `path`, is the caller that starts the
    /// decode.
    pub open spec fn starts_decode(self, path: Seq<char>, callback: W) -> bool {
        !self.entry_or_new(path).push_callback(callback).skip_init()
    }

    /// Whether a decode of `path` is under way.
    pub open spec fn awaits_decode(self, path: Seq<char>) -> bool {
        self.entries.contains_key(path) && self.entries[path] is Uninitialized
    }

    /// The callers that wait for the decode of `path`.
    pub open spec fn waiting(self, path: Seq<char>) -> Seq<W> {
        if self.entries.contains_key(path) {
            self.entries[path].waiting()
        } else {
            Seq::empty()
        }
    }

    /// The registry after the decode of `path` gave `session`.
    pub open spec fn complete_open(self, path: Seq<char>, session: S) -> RegistryView<W, S> {
        RegistryView {
            entries: self.entries.insert(path, EntryView::Initialized(session)),
            initialized: self.initialized,
        }
    }

    /// The registry after the decode of `path` failed: the path is as if it
    /// had never been opened, so that a later open starts a new decode.
    pub open spec fn fail_open(self, path: Seq<char>) -> RegistryView<W, S> {
        if self.awaits_decode(path) {
            RegistryView { entries: self.entries.remove(path), initialized: self.initialized }
        } else {
            self
        }
    }

    /// The registry after its maintenance was started.
    pub open spec fn init(self) -> RegistryView<W, S> {
        RegistryView { entries: self.entries, initialized: true }
    }
}

/// What the caller of `open_animation` has to do.
#[derive(Debug)]
pub enum Opened<W, S> {
    /// Start the decode of the path; the callback waits for it.
    Decode,
    /// Nothing: a decode of the path is under way, and the callback waits
    /// for it.
    Waiting,
    /// Call the callback with this handle to the session.
    Ready(W, S),
}

#[derive(Debug)]
struct PathEntry<W, S> {
    path: String,
    entry: AnimationManagerEntry<W, S>,
}

/// The registry of animations by source path. No path has two entries.
#[derive(Debug)]
pub struct AnimationManager<W, S> {
    entries: Vec<PathEntry<W, S>>,
    initialized: bool,
}

spec fn has_path<W, S>(entries: Seq<PathEntry<W, S>>, path: Seq<char>, i: int) -> bool {
    0 <= i < entries.len() && entries[i].path@ == path
}

spec fn distinct_paths<W, S>(entries: Seq<PathEntry<W, S>>) -> bool {
    forall|i: int, j: int|
        0 <= i < j < entries.len() ==> (#[trigger] entries[i]).path@ != (#[trigger] entries[j]).path@
}

spec fn map_of<W, S>(entries: Seq<PathEntry<W, S>>) -> Map<Seq<char>, EntryView<W, S>> {
    Map::new(
        |path: Seq<char>| exists|i: int| has_path(entries, path, i),
        |path: Seq<char>| entries[choose|i: int| has_path(entries, path, i)].entry@,
    )
}

proof fn lemma_entry<W, S>(entries: Seq<PathEntry<W, S>>, i: int)
    requires
        distinct_paths(entries),
        0 <= i < entries.len(),
    ensures
        map_of(entries).contains_key(entries[i].path@),
        map_of(entries)[entries[i].path@] == entries[i].entry@,
{
    let path = entries[i].path@;
    assert(has_path(entries, path, i));
}

proof fn lemma_update<W, S>(before: Seq<PathEntry<W, S>>, after: Seq<PathEntry<W, S>>, i: int)
    requires
        distinct_paths(before),
        0 <= i < before.len(),
        after.len() == before.len(),
        after[i].path@ == before[i].path@,
        forall|j: int| 0 <= j < before.len() && j != i ==> after[j] == before[j],
    ensures
        distinct_paths(after),
        map_of(after) == map_of(before).insert(before[i].path@, after[i].entry@),
{
    let key = before[i].path@;
    let expected = map_of(before).insert(key, after[i].entry@);
    assert forall|path: Seq<char>|
        map_of(after).dom().contains(path) == expected.dom().contains(path) by {
        if map_of(after).dom().contains(path) {
            let j = choose|j: int| has_path(after, path, j);
            assert(has_path(before, path, j));
        }
        if expected.dom().contains(path) {
            if path == key {
                assert(has_path(after, path, i));
            } else {
                let j = choose|j: int| has_path(before, path, j);
                assert(has_path(after, path, j));
            }
        }
    }
    assert forall|path: Seq<char>| map_of(after).dom().contains(path) implies map_of(after)[path]
        == expected[path] by {
        let j = choose|j: int| has_path(after, path, j);
        lemma_entry(after, j);
        if j != i {
            lemma_entry(before, j);
        }
    }
}

proof fn lemma_push<W, S>(before: Seq<PathEntry<W, S>>, entry: PathEntry<W, S>)
    requires
        distinct_paths(before),
        forall|j: int| 0 <= j < before.len() ==> (#[trigger] before[j]).path@ != entry.path@,
    ensures
        distinct_paths(before.push(entry)),
        map_of(before.push(entry)) == map_of(before).insert(entry.path@, entry.entry@),
        !map_of(before).contains_key(entry.path@),
{
    let after = before.push(entry);
    let n = before.len() as int;
    assert forall|a: int, b: int| 0 <= a < b < after.len() implies (#[trigger] after[a]).path@ != (
    #[trigger] after[b]).path@ by {}
    let expected = map_of(before).insert(entry.path@, entry.entry@);
    assert forall|path: Seq<char>|
        map_of(after).dom().contains(path) == expected.dom().contains(path) by {
        if map_of(after).dom().contains(path) {
            let j = choose|j: int| has_path(after, path, j);
            if j < n {
                assert(has_path(before, path, j));
            }
        }
        if expected.dom().contains(path) {
            if path == entry.path@ {
                assert(has_path(after, path, n));
            } else {
                let j = choose|j: int| has_path(before, path, j);
                assert(has_path(after, path, j));
            }
        }
    }
    assert forall|path: Seq<char>| map_of(after).dom().contains(path) implies map_of(after)[path]
        == expected[path] by {
        let j = choose|j: int| has_path(after, path, j);
        lemma_entry(after, j);
        if j < n {
            lemma_entry(before, j);
        }
    }
}

proof fn lemma_remove<W, S>(before: Seq<PathEntry<W, S>>, i: int)
    requires
        distinct_paths(before),
        0 <= i < before.len(),
    ensures
        distinct_paths(before.remove(i)),
        map_of(before.remove(i)) == map_of(before).remove(before[i].path@),
{
    let after = before.remove(i);
    assert forall|a: int, b: int| 0 <= a < b < after.len() implies (#[trigger] after[a]).path@ != (
    #[trigger] after[b]).path@ by {}
    let key = before[i].path@;
    let expected = map_of(before).remove(key);
    assert forall|path: Seq<char>|
        map_of(after).dom().contains(path) == expected.dom().contains(path) by {
        if map_of(after).dom().contains(path) {
            let j = choose|j: int| has_path(after, path, j);
            let j0 = if j < i { j } else { j + 1 };
            assert(has_path(before, path, j0));
        }
        if expected.dom().contains(path) {
            let j = choose|j: int| has_path(before, path, j);
            let j1 = if j < i { j } else { j - 1 };
            assert(has_path(after, path, j1));
        }
    }
    assert forall|path: Seq<char>| map_of(after).dom().contains(path) implies map_of(after)[path]
        == expected[path] by {
        let j = choose|j: int| has_path(after, path, j);
        lemma_entry(after, j);
        let j0 = if j < i { j } else { j + 1 };
        lemma_entry(before, j0);
    }
}

impl<W, S> View for AnimationManager<W, S> {
    type V = RegistryView<W, S>;

    closed spec fn view(&self) -> RegistryView<W, S> {
        RegistryView { entries: map_of(self.entries@), initialized: self.initialized }
    }
}

impl<W, S: Clone> AnimationManager<W, S> {
    /// No path has two entries.
    pub closed spec fn wf(&self) -> bool {
        distinct_paths(self.entries@)
    }

    /// A registry without entries, whose maintenance has not been started.
    pub fn new() -> (manager: Self)
        ensures
            manager.wf(),
            manager@ == (RegistryView::<W, S> { entries: Map::empty(), initialized: false }),
    {
        let manager = AnimationManager { entries: Vec::new(), initialized: false };
        manager
    }

    fn find(&self, path: &String) -> (found: Option<usize>)
        requires
            self.wf(),
        ensures
            found.is_some() == self@.entries.contains_key(path@),
            found matches Some(i) ==> i < self.entries@.len() && self.entries@[i as int].path@ == path@,
    {
        let mut i: usize = 0;
        while i < self.entries.len()
            invariant
                i <= self.entries@.len(),
                distinct_paths(self.entries@),
                forall|j: int| 0 <= j < i ==> (#[trigger] self.entries@[j]).path@ != path@,
            decreases self.entries@.len() - i,
        {
            if self.entries[i].path == *path {
                proof {
                    lemma_entry(self.entries@, i as int);
                }
                return Some(i);
            }
            i += 1;
        }
        None
    }

    /// Registers `callback` for the session of `path` and says what the
    /// caller has to do. The first caller for a path starts its decode;
    /// those who come while the decode runs wait for it; once the session is
    /// there, each caller gets a handle to it at once.
    pub fn open_animation(&mut self, path: &str, callback: W) -> (outcome: Opened<W, S>)
        requires
            old(self).wf(),
        ensures
            final(self).wf(),
            final(self)@ == old(self)@.open_animation(path@, callback),
            (outcome is Decode) == old(self)@.starts_decode(path@, callback),
            (outcome is Ready) == (old(self)@.entry_or_new(path@) is Initialized),
            outcome matches Opened::Ready(waiter, handle) ==> waiter == callback && cloned(
                old(self)@.entry_or_new(path@)->Initialized_0,
                handle,
            ),
    {
        let owned = path.to_owned();
        let i = match self.find(&owned) {
            Some(i) => {
                proof {
                    lemma_entry(self.entries@, i as int);
                }
                i
            },
            None => {
                let entry = PathEntry { path: owned, entry: AnimationManagerEntry::new() };
                proof {
                    assert forall|j: int| 0 <= j < self.entries@.len() implies (
                    #[trigger] self.entries@[j]).path@ != entry.path@ by {
                        if self.entries@[j].path@ == path@ {
                            lemma_entry(self.entries@, j);
                        }
                    }
                    lemma_push(self.entries@, entry);
                }
                self.entries.push(entry);
                self.entries.len() - 1
            },
        };
        let ghost before = self.entries@;
        let ready = self.entries[i].entry.push_callback(callback);
        proof {
            lemma_update(before, self.entries@, i as int);
        }
        match ready {
            Some((waiter, handle)) => Opened::Ready(waiter, handle),
            None => {
                if self.entries[i].entry.skip_init() {
                    Opened::Waiting
                } else {
                    Opened::Decode
                }
            },
        }
    }

    /// Whether a decode of `path` is under way.
    pub fn is_decoding(&self, path: &str) -> (decoding: bool)
        requires
            self.wf(),
        ensures
            decoding == self@.awaits_decode(path@),
    {
        let owned = path.to_owned();
        match self.find(&owned) {
            Some(i) => {
                proof {
                    lemma_entry(self.entries@, i as int);
                }
                self.entries[i].entry.is_uninitialized()
            },
            None => false,
        }
    }

    /// The decode of `path` gave `session`: the registry holds it from now
    /// on, and every caller that waited comes back with a handle to it,
    /// first come first.
    pub fn complete_open(&mut self, path: &str, session: S) -> (ready: Vec<(W, S)>)
        requires
            old(self).wf(),
            old(self)@.awaits_decode(path@),
        ensures
            final(self).wf(),
            final(self)@ == old(self)@.complete_open(path@, session),
            served(ready@, old(self)@.waiting(path@), session),
    {
        let owned = path.to_owned();
        match self.find(&owned) {
            Some(i) => {
                let ghost before = self.entries@;
                proof {
                    lemma_entry(before, i as int);
                }
                let ready = self.entries[i].entry.init(session);
                proof {
                    lemma_update(before, self.entries@, i as int);
                }
                ready
            },
            None => Vec::new(),
        }
    }

    /// The decode of `path` failed: the registry forgets the path, so that a
    /// later open tries again, and the callers that waited come back, first
    /// come first, to be told.
    pub fn fail_open(&mut self, path: &str) -> (waiting: Vec<W>)
        requires
            old(self).wf(),
        ensures
            final(self).wf(),
            final(self)@ == old(self)@.fail_open(path@),
            waiting@ == if old(self)@.awaits_decode(path@) {
                old(self)@.waiting(path@)
            } else {
                Seq::empty()
            },
    {
        let mut waiting: Vec<W> = Vec::new();
        let owned = path.to_owned();
        match self.find(&owned) {
            Some(i) => {
                proof {
                    lemma_entry(self.entries@, i as int);
                }
                if self.entries[i].entry.is_uninitialized() {
                    proof {
                        lemma_remove(self.entries@, i as int);
                    }
                    let removed = self.entries.remove(i);
                    match removed.entry {
                        AnimationManagerEntry::Uninitialized(callbacks) => {
                            let mut rest = callbacks;
                            let ghost all = rest@;
                            while rest.len() > 0
                                invariant
                                    rest@.len() <= all.len(),
                                    rest@ == all.skip(all.len() - rest@.len()),
                                    waiting@ == all.take(all.len() - rest@.len()),
                                decreases rest@.len(),
                            {
                                match rest.pop_front() {
                                    Some(callback) => {
                                        waiting.push(callback);
                                    },
                                    None => {},
                                }
                            }
                        },
                        AnimationManagerEntry::Initialized(_) => {},
                    }
                }
            },
            None => {},
        }
        waiting
    }

    /// Marks the maintenance of the registry as started, and says whether
    /// this call is the one that has to start it: the first.
    pub fn init(&mut self) -> (start: bool)
        ensures
            start == !old(self)@.initialized,
            final(self)@ == old(self)@.init(),
            old(self).wf() ==> final(self).wf(),
    {
        let start = !self.initialized;
        self.initialized = true;
        start
    }

    /// A handle to each session that is there, with its path: the sessions
    /// that a maintenance pass has to go through.
    pub fn sessions(&self) -> (live: Vec<(String, S)>)
        requires
            self.wf(),
        ensures
            forall|k: int|
                0 <= k < live@.len() ==> {
                    &&& self@.entries.contains_key((#[trigger] live@[k]).0@)
                    &&& self@.entries[live@[k].0@] is Initialized
                    &&& cloned(self@.entries[live@[k].0@]->Initialized_0, live@[k].1)
                },
            forall|a: int, b: int|
                0 <= a < b < live@.len() ==> (#[trigger] live@[a]).0@ != (#[trigger] live@[b]).0@,
            forall|path: Seq<char>|
                self@.entries.contains_key(path) && self@.entries[path] is Initialized ==> exists|
                    k: int,
                |
                    0 <= k < live@.len() && (#[trigger] live@[k]).0@ == path,
    {
        let mut live: Vec<(String, S)> = Vec::new();
        let ghost mut from: Seq<int> = Seq::empty();
        let mut i: usize = 0;
        while i < self.entries.len()
            invariant
                i <= self.entries@.len(),
                distinct_paths(self.entries@),
                from.len() == live@.len(),
                forall|k: int|
                    0 <= k < live@.len() ==> {
                        &&& 0 <= #[trigger] from[k] < i
                        &&& live@[k].0@ == self.entries@[from[k]].path@
                        &&& self.entries@[from[k]].entry@ is Initialized
                        &&& cloned(self.entries@[from[k]].entry@->Initialized_0, live@[k].1)
                    },
                forall|a: int, b: int| 0 <= a < b < from.len() ==> from[a] < from[b],
                forall|j: int|
                    0 <= j < i && (#[trigger] self.entries@[j]).entry@ is Initialized ==> exists|k: int|
                        0 <= k < from.len() && #[trigger] from[k] == j,
            decreases self.entries@.len() - i,
        {
            match self.entries[i].entry.session() {
                Some(session) => {
                    let ghost before = from;
                    live.push((self.entries[i].path.clone(), session.clone()));
                    proof {
                        from = from.push(i as int);
                        assert forall|j: int|
                            0 <= j < i + 1 && (#[trigger] self.entries@[j]).entry@
                                is Initialized implies exists|k: int|
                            0 <= k < from.len() && #[trigger] from[k] == j by {
                            if j < i {
                                let k = choose|k: int|
                                    0 <= k < before.len() && #[trigger] before[k] == j;
                                assert(from[k] == j);
                            } else {
                                assert(from[from.len() - 1] == j);
                            }
                        }
                    }
                },
                None => {},
            }
            i += 1;
        }
        proof {
            assert forall|k: int| 0 <= k < live@.len() implies {
                &&& self@.entries.contains_key((#[trigger] live@[k]).0@)
                &&& self@.entries[live@[k].0@] is Initialized
                &&& cloned(self@.entries[live@[k].0@]->Initialized_0, live@[k].1)
            } by {
                lemma_entry(self.entries@, from[k]);
            }
            assert forall|a: int, b: int| 0 <= a < b < live@.len() implies (#[trigger] live@[a]).0@ != (
            #[trigger] live@[b]).0@ by {
                assert(self.entries@[from[a]].path@ != self.entries@[from[b]].path@);
            }
            assert forall|path: Seq<char>|
                self@.entries.contains_key(path) && self@.entries[path] is Initialized implies exists|
                k: int,
            | 0 <= k < live@.len() && (#[trigger] live@[k]).0@ == path by {
                let j = choose|j: int| has_path(self.entries@, path, j);
                lemma_entry(self.entries@, j);
            }
        }
        live
    }
}

impl<W, S: Clone> Default for AnimationManager<W, S> {
    fn default() -> (manager: Self)
        ensures
            manager.wf(),
            manager@ == (RegistryView::<W, S> { entries: Map::empty(), initialized: false }),
    {
        AnimationManager::new()
    }
}

/// A path is decoded once: the caller that finds no entry for it starts the
/// decode, and no caller after it does, whether the decode is still under
/// way or the session is there.
pub proof fn law_one_decode_per_path<W, S>(
    registry: RegistryView<W, S>,
    path: Seq<char>,
    first: W,
    next: W,
)
    ensures
        !registry.entries.contains_key(path) ==> registry.starts_decode(path, first),
        !registry.open_animation(path, first).starts_decode(path, next),
{
}

/// Two callers that open a path before its decode is done both wait for it,
/// and the one session goes to both of them, first come first; whoever
/// opens the path afterwards finds that session.
pub proof fn law_session_goes_to_every_waiter<W, S>(
    registry: RegistryView<W, S>,
    path: Seq<char>,
    first: W,
    second: W,
    session: S,
)
    requires
        !registry.entries.contains_key(path),
    ensures
        registry.open_animation(path, first).open_animation(path, second).awaits_decode(path),
        registry.open_animation(path, first).open_animation(path, second).waiting(path)
            == seq![first, second],
        registry.open_animation(path, first).open_animation(path, second).complete_open(
            path,
            session,
        ).entry_or_new(path) == EntryView::<W, S>::Initialized(session),
{
}

/// An entry that holds a session holds it for good: no opening, no end of
/// a decode of another path and no failed decode takes it away or replaces
/// it.
pub proof fn law_session_stays<W, S>(
    registry: RegistryView<W, S>,
    path: Seq<char>,
    other: Seq<char>,
    callback: W,
    session: S,
)
    requires
        registry.entries.contains_key(path),
        registry.entries[path] is Initialized,
    ensures
        registry.open_animation(other, callback).entry_or_new(path) == registry.entries[path],
        registry.fail_open(other).entry_or_new(path) == registry.entries[path],
        registry.init().entry_or_new(path) == registry.entries[path],
        other != path ==> registry.complete_open(other, session).entry_or_new(path)
            == registry.entries[path],
{
}

} // verus!
