//! What holds of every session, whatever was done to it.

use crate::frame_request::FrameRequest;
use crate::frame_request::FrameRequestIndex;
use crate::session::distinct_cells;
use crate::session::in_range;
use crate::session::results_in_range;
use crate::session::Progress;
use crate::session::RenderResult;
use crate::session::SessionView;
use crate::session::Step;
use crate::session::IDLE_LIMIT_SECS;
use vstd::prelude::*;

verus! {

/// Whether collection `after` holds what `before` held, and was used no
/// earlier: filled slots stay filled, and the time of last use does not go
/// back.
spec fn kept<C>(before: SessionView<C>, after: SessionView<C>, size: (usize, usize)) -> bool {
    &&& after.collections.contains_key(size)
    &&& after.collections[size].last_use >= before.collections[size].last_use
    &&& after.collections[size].slots.len() == before.collections[size].slots.len()
    &&& forall|i: int|
        0 <= i < before.collections[size].slots.len() && (
        #[trigger] before.collections[size].slots[i]).is_some()
            ==> after.collections[size].slots[i].is_some()
}

/// Whether `after` holds every collection that `before` held, as `kept`
/// says.
spec fn all_kept<C>(before: SessionView<C>, after: SessionView<C>) -> bool {
    forall|size: (usize, usize)| #[trigger]
        before.collections.contains_key(size) ==> kept(before, after, size)
}

/// What dispatch leaves as it was, and what it adds.
spec fn dispatched<C>(start: Progress<C>, cur: Progress<C>) -> bool {
    &&& cur.session.wf()
    &&& cur.session.info == start.session.info
    &&& cur.redundant == start.redundant
    &&& cur.session.collections.dom() == start.session.collections.dom()
    &&& forall|size: (usize, usize)| #[trigger]
        start.session.collections.contains_key(size) ==> {
            &&& cur.session.collections[size].slots == start.session.collections[size].slots
            &&& cur.session.collections[size].last_use >= start.session.collections[size].last_use
        }
    &&& forall|cell: FrameRequestIndex| #[trigger]
        start.session.rendering(cell) ==> cur.session.rendering(cell)
    &&& forall|cell: FrameRequestIndex| #[trigger]
        cur.session.rendering(cell) ==> start.session.rendering(cell) || cur.renders.contains(cell)
    &&& forall|i: int|
        0 <= i < cur.renders.len() ==> {
            ||| i < start.renders.len() && cur.renders[i] == start.renders[i]
            ||| {
                &&& cur.session.rendering(#[trigger] cur.renders[i])
                &&& !start.session.rendering(cur.renders[i])
                &&& start.session.cached(cur.renders[i].size, cur.renders[i].frame_num as int).is_none()
                &&& forall|j: int| 0 <= j < i ==> cur.renders[j] != cur.renders[i]
            }
        }
    &&& start.renders.len() <= cur.renders.len()
}

proof fn lemma_dispatch_all<C>(start: Progress<C>, requests: Seq<FrameRequest<C>>, now: u64)
    requires
        start.session.wf(),
        in_range(requests, start.session.info.totalframe),
        forall|i: int|
            0 <= i < start.renders.len() ==> start.session.rendering(#[trigger] start.renders[i]),
    ensures
        dispatched(start, start.dispatch_all(requests, now)),
        forall|k: int|
            0 <= k < requests.len() && start.session.cached(
                (#[trigger] requests[k]).size,
                requests[k].frame_num as int,
            ).is_none() ==> start.dispatch_all(requests, now).session.rendering(requests[k].cell()),
    decreases requests.len(),
{
    let end = start.dispatch_all(requests, now);
    if requests.len() > 0 {
        let init = requests.drop_last();
        let last = requests.last();
        let mid = start.dispatch_all(init, now);
        lemma_dispatch_all(start, init, now);
        mid.lemma_dispatch_one_wf(last, now);
        assert(end.session.collections.dom() =~= start.session.collections.dom());
        assert(mid.session.cached(last.size, last.frame_num as int) == start.session.cached(
            last.size,
            last.frame_num as int,
        ));
        assert forall|cell: FrameRequestIndex| #[trigger]
            start.session.rendering(cell) implies end.session.rendering(cell) by {
            let i = choose|i: int|
                0 <= i < mid.session.processing.len() && (#[trigger] mid.session.processing[i]).cell()
                    == cell;
            assert(end.session.processing[i].cell() == cell);
        }
        assert forall|cell: FrameRequestIndex| #[trigger]
            end.session.rendering(cell) implies start.session.rendering(cell)
            || end.renders.contains(cell) by {
            let i = choose|i: int|
                0 <= i < end.session.processing.len() && (#[trigger] end.session.processing[i]).cell()
                    == cell;
            if i < mid.session.processing.len() {
                assert(mid.session.rendering(cell));
                if mid.renders.contains(cell) {
                    let j = choose|j: int| 0 <= j < mid.renders.len() && mid.renders[j] == cell;
                    assert(end.renders[j] == cell);
                }
            } else {
                assert(end.renders[end.renders.len() - 1] == cell);
            }
        }
        assert forall|i: int| 0 <= i < end.renders.len() implies {
            ||| i < start.renders.len() && end.renders[i] == start.renders[i]
            ||| {
                &&& end.session.rendering(#[trigger] end.renders[i])
                &&& !start.session.rendering(end.renders[i])
                &&& start.session.cached(end.renders[i].size, end.renders[i].frame_num as int).is_none()
                &&& forall|j: int| 0 <= j < i ==> end.renders[j] != end.renders[i]
            }
        } by {
            if i < mid.renders.len() {
                if !(i < start.renders.len() && mid.renders[i] == start.renders[i]) {
                    let p = choose|p: int|
                        0 <= p < mid.session.processing.len() && (
                        #[trigger] mid.session.processing[p]).cell() == mid.renders[i];
                    assert(end.session.processing[p].cell() == mid.renders[i]);
                }
            } else {
                let cell = last.cell();
                assert(end.session.processing[end.session.processing.len() - 1].cell() == cell);
            }
        }
        assert forall|k: int|
            0 <= k < requests.len() && start.session.cached(
                (#[trigger] requests[k]).size,
                requests[k].frame_num as int,
            ).is_none() implies end.session.rendering(requests[k].cell()) by {
            if k < init.len() {
                let p = choose|p: int|
                    0 <= p < mid.session.processing.len() && (
                    #[trigger] mid.session.processing[p]).cell() == init[k].cell();
                assert(end.session.processing[p].cell() == init[k].cell());
            } else {
                if !mid.session.rendering(last.cell()) {
                    assert(end.session.processing[end.session.processing.len() - 1].cell()
                        == last.cell());
                }
            }
        }
    }
}

/// Dispatch does not touch a collection for whose size no request is queued.
proof fn lemma_dispatch_all_leaves<C>(
    start: Progress<C>,
    requests: Seq<FrameRequest<C>>,
    now: u64,
    size: (usize, usize),
)
    requires
        forall|k: int| 0 <= k < requests.len() ==> (#[trigger] requests[k]).size != size,
    ensures
        start.dispatch_all(requests, now).session.collections.contains_key(size)
            == start.session.collections.contains_key(size),
        start.dispatch_all(requests, now).session.collections[size]
            == start.session.collections[size],
    decreases requests.len(),
{
    if requests.len() > 0 {
        let init = requests.drop_last();
        lemma_dispatch_all_leaves(start, init, now, size);
    }
}

/// Taking in results keeps the session well formed and loses no frame.
proof fn lemma_finish_all<C>(start: Progress<C>, results: Seq<RenderResult>, now: u64)
    requires
        start.session.wf(),
        results_in_range(results, start.session.info.totalframe),
    ensures
        start.finish_all(results, now).session.wf(),
        start.finish_all(results, now).session.info == start.session.info,
        start.finish_all(results, now).renders == start.renders,
        all_kept(start.session, start.finish_all(results, now).session),
        forall|k: int|
            0 <= k < results.len() && (#[trigger] results[k]).frame.is_some() ==> {
                &&& start.finish_all(results, now).session.cached(
                    results[k].index.size,
                    results[k].index.frame_num as int,
                ).is_some()
                &&& start.finish_all(results, now).session.collections[results[k].index.size].last_use
                    >= now
            },
    decreases results.len(),
{
    let end = start.finish_all(results, now);
    if results.len() > 0 {
        let init = results.drop_last();
        let last = results.last();
        let mid = start.finish_all(init, now);
        lemma_finish_all(start, init, now);
        mid.lemma_finish_one_wf(last, now);
        lemma_finish_one_keeps(mid, last, now);
        assert forall|k: int|
            0 <= k < results.len() && (#[trigger] results[k]).frame.is_some() implies {
            &&& end.session.cached(results[k].index.size, results[k].index.frame_num as int).is_some()
            &&& end.session.collections[results[k].index.size].last_use >= now
        } by {
            let cell = results[k].index;
            if k < init.len() {
                assert(init[k] == results[k]);
            } else {
                assert(mid.session.collection_or_new(cell.size, now).slots.len()
                    == mid.session.info.totalframe);
            }
        }
    }
}

/// Taking in one result loses no frame.
proof fn lemma_finish_one_keeps<C>(before: Progress<C>, result: RenderResult, now: u64)
    requires
        before.session.wf(),
        result.index.frame_num < before.session.info.totalframe,
    ensures
        all_kept(before.session, before.finish_one(result, now).session),
{
}

/// Taking in results does not touch a collection for whose size no result
/// came.
proof fn lemma_finish_all_leaves<C>(
    start: Progress<C>,
    results: Seq<RenderResult>,
    now: u64,
    size: (usize, usize),
)
    requires
        forall|k: int| 0 <= k < results.len() ==> (#[trigger] results[k]).index.size != size,
    ensures
        start.finish_all(results, now).session.collections.contains_key(size)
            == start.session.collections.contains_key(size),
        start.finish_all(results, now).session.collections[size] == start.session.collections[size],
    decreases results.len(),
{
    if results.len() > 0 {
        let init = results.drop_last();
        lemma_finish_all_leaves(start, init, now, size);
    }
}

/// A use of a collection keeps the session well formed.
proof fn lemma_touched<C>(session: SessionView<C>, size: (usize, usize), now: u64)
    requires
        session.wf(),
    ensures
        session.touch(size, now).wf(),
        session.touch(size, now).info == session.info,
{
}

/// Uses of collections keep the session well formed and every frame where
/// it is.
proof fn lemma_touched_each<C>(
    session: SessionView<C>,
    which: spec_fn((usize, usize)) -> bool,
    now: u64,
)
    requires
        session.wf(),
    ensures
        session.touch_each(which, now).wf(),
        session.touch_each(which, now).info == session.info,
        forall|size: (usize, usize), index: int|
            #[trigger] session.touch_each(which, now).cached(size, index) == session.cached(
                size,
                index,
            ),
{
}

/// Creating a collection keeps the session well formed.
proof fn lemma_opened<C>(session: SessionView<C>, size: (usize, usize), now: u64)
    requires
        session.wf(),
    ensures
        session.opened(size, now).wf(),
        session.opened(size, now).info == session.info,
{
    let after = session.opened(size, now);
    assert forall|other: (usize, usize)| #[trigger]
        after.collections.contains_key(other) implies after.collections[other].slots.len()
        == after.info.totalframe by {}
}

/// Eviction keeps the session well formed.
proof fn lemma_evicted<C>(session: SessionView<C>, now: u64)
    requires
        session.wf(),
    ensures
        session.clear_outdated_entries(now).wf(),
        session.clear_outdated_entries(now).info == session.info,
{
    let after = session.clear_outdated_entries(now);
    assert forall|other: (usize, usize)| #[trigger]
        after.collections.contains_key(other) implies after.collections[other].slots.len()
        == after.info.totalframe by {}
}

/// The progress from which dispatch of a session's queue starts.
spec fn dispatch_start<C>(session: SessionView<C>) -> Progress<C> {
    Progress {
        session: SessionView {
            info: session.info,
            collections: session.collections,
            requests: Seq::empty(),
            processing: session.processing,
        },
        renders: Seq::empty(),
        deliveries: Seq::empty(),
        redundant: 0,
    }
}

/// Every operation keeps a session well formed.
pub proof fn law_steps_keep_sessions_well_formed<C>(session: SessionView<C>, step: Step<C>)
    requires
        session.wf(),
        session.accepts(step),
    ensures
        session.step(step).wf(),
        session.step(step).info == session.info,
{
    match step {
        Step::RequestFrame { size, index, now } => {
            lemma_opened(session, size, now);
        },
        Step::RequestFrameWithCallback { size, index, callback, now } => {
            lemma_opened(session, size, now);
        },
        Step::Frame { size, now } => {
            lemma_touched(session, size, now);
        },
        Step::NearestFrame { size, now } => {
            lemma_touched_each(session, |key: (usize, usize)| session.reads(size, key), now);
        },
        Step::ProcessRequests { now } => {
            lemma_dispatch_all(dispatch_start(session), session.requests, now);
        },
        Step::FinishProcessed { results, now } => {
            lemma_finish_all(session.finish_processed(Seq::empty(), now), results, now);
        },
        Step::ClearOutdatedEntries { now } => {
            lemma_evicted(session, now);
        },
        Step::Tick { results, now } => {
            lemma_dispatch_all(dispatch_start(session), session.requests, now);
            lemma_finish_all(session.process_requests(now), results, now);
            lemma_evicted(session.process_requests(now).finish_all(results, now).session, now);
        },
    }
}

/// Once the render of a cell has been taken in, its frame is cached: the
/// maintenance pass that takes it in leaves the cell filled, and does not
/// evict the collection that it has just stored into.
pub proof fn law_rendered_frame_is_cached<C>(
    session: SessionView<C>,
    results: Seq<RenderResult>,
    now: u64,
    k: int,
)
    requires
        session.wf(),
        results_in_range(results, session.info.totalframe),
        0 <= k < results.len(),
        results[k].frame.is_some(),
    ensures
        session.finish_processed(results, now).session.cached(
            results[k].index.size,
            results[k].index.frame_num as int,
        ).is_some(),
        session.tick(results, now).session.cached(
            results[k].index.size,
            results[k].index.frame_num as int,
        ).is_some(),
{
    lemma_finish_all(session.finish_processed(Seq::empty(), now), results, now);
    lemma_dispatch_all(dispatch_start(session), session.requests, now);
    lemma_finish_all(session.process_requests(now), results, now);
}

/// A cached frame stays cached for as long as the collection of its size is
/// not evicted: whatever is done to the session, if the collection is still
/// there afterwards, so is a frame for the cell.
pub proof fn law_cached_frame_stays_until_evicted<C>(
    session: SessionView<C>,
    step: Step<C>,
    size: (usize, usize),
    index: int,
)
    requires
        session.wf(),
        session.accepts(step),
        session.cached(size, index).is_some(),
        session.step(step).collections.contains_key(size),
    ensures
        session.step(step).cached(size, index).is_some(),
{
    match step {
        Step::ProcessRequests { now } => {
            lemma_dispatch_all(dispatch_start(session), session.requests, now);
        },
        Step::FinishProcessed { results, now } => {
            lemma_finish_all(session.finish_processed(Seq::empty(), now), results, now);
        },
        Step::Tick { results, now } => {
            lemma_dispatch_all(dispatch_start(session), session.requests, now);
            lemma_finish_all(session.process_requests(now), results, now);
        },
        Step::NearestFrame { size: asked, now } => {
            lemma_touched_each(session, |key: (usize, usize)| session.reads(asked, key), now);
        },
        _ => {},
    }
}

/// However many requests ask for a cell, at most one render is started for
/// it. A dispatch starts no render for a cell that a worker is rendering or
/// whose frame is cached, and none twice; no cell is under render twice
/// afterwards; and every queued request whose frame is not cached finds its
/// cell under render afterwards.
pub proof fn law_one_render_per_cell<C>(session: SessionView<C>, now: u64)
    requires
        session.wf(),
    ensures
        session.process_requests(now).renders.no_duplicates(),
        distinct_cells(session.process_requests(now).session.processing),
        forall|cell: FrameRequestIndex| #[trigger]
            session.process_requests(now).renders.contains(cell) ==> {
                &&& !session.rendering(cell)
                &&& session.cached(cell.size, cell.frame_num as int).is_none()
                &&& session.process_requests(now).session.rendering(cell)
            },
        forall|cell: FrameRequestIndex| #[trigger]
            session.rendering(cell) ==> session.process_requests(now).session.rendering(cell),
        forall|k: int|
            0 <= k < session.requests.len() && session.cached(
                (#[trigger] session.requests[k]).size,
                session.requests[k].frame_num as int,
            ).is_none() ==> session.process_requests(now).session.rendering(
                session.requests[k].cell(),
            ),
{
    let start = dispatch_start(session);
    let end = session.process_requests(now);
    lemma_dispatch_all(start, session.requests, now);
    assert forall|cell: FrameRequestIndex| #[trigger]
        session.rendering(cell) implies end.session.rendering(cell) by {
        assert(start.session.rendering(cell));
    }
}

/// Taking in results on top of work gathered before adds to that work what
/// taking them in alone gives.
proof fn lemma_finish_all_on_top<C>(start: Progress<C>, results: Seq<RenderResult>, now: u64)
    ensures
        start.finish_all(results, now).session == start.session.finish_processed(
            results,
            now,
        ).session,
        start.finish_all(results, now).renders == start.renders,
        start.finish_all(results, now).deliveries == start.deliveries
            + start.session.finish_processed(results, now).deliveries,
        start.finish_all(results, now).redundant == start.redundant
            + start.session.finish_processed(results, now).redundant,
    decreases results.len(),
{
    let alone = Progress {
        session: start.session,
        renders: Seq::empty(),
        deliveries: Seq::empty(),
        redundant: 0,
    };
    if results.len() > 0 {
        let init = results.drop_last();
        let last = results.last();
        lemma_finish_all_on_top(start, init, now);
        let mid = start.finish_all(init, now);
        let mid_alone = alone.finish_all(init, now);
        assert(mid.finish_one(last, now).deliveries =~= start.deliveries + mid_alone.finish_one(
            last,
            now,
        ).deliveries);
    }
}

/// A maintenance pass is a dispatch, then the taking in of the results, then
/// an eviction, each at the same time `now`; what it hands to the driver is
/// what the dispatch and the taking in hand out, in that order.
pub proof fn law_tick_is_three_passes<C>(
    session: SessionView<C>,
    results: Seq<RenderResult>,
    now: u64,
)
    ensures
        session.tick(results, now).session == session.process_requests(
            now,
        ).session.finish_processed(results, now).session.clear_outdated_entries(now),
        session.tick(results, now).renders == session.process_requests(now).renders,
        session.tick(results, now).deliveries == session.process_requests(now).deliveries
            + session.process_requests(now).session.finish_processed(results, now).deliveries,
        session.tick(results, now).redundant == session.process_requests(
            now,
        ).session.finish_processed(results, now).redundant,
{
    lemma_dispatch_all_counts(dispatch_start(session), session.requests, now);
    lemma_finish_all_on_top(session.process_requests(now), results, now);
}

/// Dispatch finds no frame rendered in vain.
proof fn lemma_dispatch_all_counts<C>(
    start: Progress<C>,
    requests: Seq<FrameRequest<C>>,
    now: u64,
)
    ensures
        start.dispatch_all(requests, now).redundant == start.redundant,
    decreases requests.len(),
{
    if requests.len() > 0 {
        lemma_dispatch_all_counts(start, requests.drop_last(), now);
    }
}

/// Eviction drops exactly the collections that nothing has used for the idle
/// limit or longer, and leaves the others as they are.
pub proof fn law_eviction_drops_the_idle<C>(session: SessionView<C>, now: u64, size: (usize, usize))
    requires
        session.collections.contains_key(size),
    ensures
        session.clear_outdated_entries(now).collections.contains_key(size) == (
        session.collections[size].idle(now) < IDLE_LIMIT_SECS),
        session.clear_outdated_entries(now).collections.contains_key(size)
            ==> session.clear_outdated_entries(now).collections[size] == session.collections[size],
{
}

/// A collection that nothing has used for the idle limit or longer is gone
/// after a maintenance pass, provided the pass itself does not use it: no
/// queued request and no render result is for its size.
pub proof fn law_tick_drops_the_idle<C>(
    session: SessionView<C>,
    results: Seq<RenderResult>,
    now: u64,
    size: (usize, usize),
)
    requires
        session.collections.contains_key(size),
        session.collections[size].idle(now) >= IDLE_LIMIT_SECS,
        forall|k: int|
            0 <= k < session.requests.len() ==> (#[trigger] session.requests[k]).size != size,
        forall|k: int| 0 <= k < results.len() ==> (#[trigger] results[k]).index.size != size,
    ensures
        !session.tick(results, now).session.collections.contains_key(size),
{
    lemma_dispatch_all_leaves(dispatch_start(session), session.requests, now, size);
    lemma_finish_all_leaves(session.process_requests(now), results, now, size);
}

/// A collection that was used less than the idle limit ago is still there
/// after a maintenance pass, with every frame it held.
pub proof fn law_tick_keeps_the_recent<C>(
    session: SessionView<C>,
    results: Seq<RenderResult>,
    now: u64,
    size: (usize, usize),
)
    requires
        session.wf(),
        results_in_range(results, session.info.totalframe),
        session.collections.contains_key(size),
        session.collections[size].idle(now) < IDLE_LIMIT_SECS,
    ensures
        session.tick(results, now).session.collections.contains_key(size),
        forall|i: int|
            0 <= i < session.collections[size].slots.len() && (
            #[trigger] session.collections[size].slots[i]).is_some() ==> session.tick(
                results,
                now,
            ).session.collections[size].slots[i].is_some(),
{
    lemma_dispatch_all(dispatch_start(session), session.requests, now);
    let dispatched = session.process_requests(now);
    lemma_finish_all(dispatched, results, now);
}

/// The best frame at hand comes from a collection narrower than the size
/// asked only when neither that size nor any wider one holds a frame.
pub proof fn law_narrower_only_as_last_resort<C>(
    session: SessionView<C>,
    size: (usize, usize),
    other: (usize, usize),
)
    requires
        session.nearest_key(size).is_some(),
        session.nearest_key(size).unwrap().0 < size.0,
        session.usable(other),
    ensures
        other != size,
        other.0 <= size.0,
{
}

/// A look for the best frame at hand uses what it reads and nothing else:
/// the collection for the size asked and the collection that serves are
/// used at the time of the look, a collection that the look does not read
/// is left exactly as it was, and no collection comes or goes.
pub proof fn law_look_uses_what_it_reads<C>(
    session: SessionView<C>,
    size: (usize, usize),
    now: u64,
    key: (usize, usize),
)
    requires
        session.collections.contains_key(key),
    ensures
        session.after_nearest(size, now).collections.contains_key(key),
        session.reads(size, key) ==> session.after_nearest(size, now).collections[key]
            == session.collections[key].touch(now),
        !session.reads(size, key) ==> session.after_nearest(size, now).collections[key]
            == session.collections[key],
        session.reads(size, size),
        session.nearest_key(size) == Some(key) ==> session.reads(size, key),
        session.after_nearest(size, now).collections.dom() == session.collections.dom(),
{
    assert(session.after_nearest(size, now).collections.dom() =~= session.collections.dom());
    if session.nearest_key(size) == Some(key) {
        assert(session.is_nearest_key(size, key));
    }
}

/// The best frame at hand is a frame of the collection that serves the
/// request, and there is one whenever the session holds any frame for the
/// size asked.
pub proof fn law_nearest_frame_is_cached<C>(session: SessionView<C>, size: (usize, usize), index: int)
    ensures
        session.nearest_frame(size, index).is_some() ==> {
            &&& session.nearest_key(size).is_some()
            &&& session.usable(session.nearest_key(size).unwrap())
        },
        session.usable(size) ==> session.nearest_key(size) == Some(size),
        session.cached(size, index).is_some() ==> session.nearest_frame(size, index)
            == session.cached(size, index),
{
    if session.usable(size) {
        let key = choose|key: (usize, usize)| session.is_nearest_key(size, key);
        session.lemma_nearest_key_unique(size, size, key);
    }
    if session.cached(size, index).is_some() {
        let collection = session.collections[size];
        assert(collection.is_nearest(index, index));
        let i = choose|i: int| collection.is_nearest(index, i);
        collection.lemma_nearest_unique(index, index, i);
    }
}

} // verus!
