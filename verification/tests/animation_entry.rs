use gtk_rlottie::animation_entry::AnimationEntry;
use gtk_rlottie::animation_info::AnimationInfo;
use gtk_rlottie::frame::Frame;
use gtk_rlottie::frame_request::FrameRequestIndex;
use gtk_rlottie::session::Delivery;
use gtk_rlottie::session::RenderResult;
use gtk_rlottie::session::IDLE_LIMIT_SECS;
use std::time::Duration;

fn info(totalframe: usize) -> AnimationInfo {
    AnimationInfo {
        totalframe,
        default_size: (100, 100),
        frame_delay: Duration::from_secs_f64(1.0 / 60.0),
    }
}

fn cell(width: usize, height: usize, frame_num: usize) -> FrameRequestIndex {
    FrameRequestIndex { size: (width, height), frame_num }
}

fn picture(width: usize, height: usize, value: u8) -> Frame {
    Frame::new(width, height, vec![value; width * height * 4]).expect("a buffer of the right length")
}

fn rendered(width: usize, height: usize, frame_num: usize, value: u8) -> RenderResult {
    RenderResult::from_buffer(cell(width, height, frame_num), vec![value; width * height * 4])
}

fn session_with(frames: &[(usize, usize, usize, u8)]) -> AnimationEntry<u32> {
    let mut entry: AnimationEntry<u32> = AnimationEntry::new(info(10));
    let results = frames.iter().map(|&(w, h, i, v)| rendered(w, h, i, v)).collect();
    entry.finish_processed(results, 0);
    entry
}

#[test]
fn session_new_holds_nothing() {
    let mut entry: AnimationEntry<u32> = AnimationEntry::new(info(10));
    assert_eq!(entry.info().totalframe, 10);
    assert_eq!(entry.info().default_size, (100, 100));
    assert!(!entry.has_collection(50, 50));
    assert!(entry.frame(50, 50, 3, 0).is_none());
    assert!(entry.nearest_frame(50, 50, 3, 0).is_none());
    let work = entry.tick(Vec::new(), 0);
    assert!(work.renders.is_empty());
    assert!(work.deliveries.is_empty());
    assert_eq!(work.redundant, 0);
}

#[test]
fn request_creates_the_collection_and_queues() {
    let mut entry: AnimationEntry<u32> = AnimationEntry::new(info(10));
    entry.request_frame(50, 50, 3, 0);
    assert!(entry.has_collection(50, 50));
    assert!(entry.is_queued(cell(50, 50, 3)));
    assert!(!entry.is_rendering(cell(50, 50, 3)));
}

#[test]
fn request_without_callback_is_queued_once() {
    let mut entry: AnimationEntry<u32> = AnimationEntry::new(info(10));
    entry.request_frame(50, 50, 3, 0);
    entry.request_frame(50, 50, 3, 0);
    let work = entry.process_requests(0);
    assert_eq!(work.renders, vec![cell(50, 50, 3)]);
    assert!(!entry.is_queued(cell(50, 50, 3)));
    assert!(entry.is_rendering(cell(50, 50, 3)));
}

#[test]
fn request_for_a_cached_frame_is_not_queued() {
    let mut entry = session_with(&[(50, 50, 3, 9)]);
    entry.request_frame(50, 50, 3, 0);
    assert!(!entry.is_queued(cell(50, 50, 3)));
    let work = entry.process_requests(0);
    assert!(work.renders.is_empty());
}

#[test]
fn request_with_callback_for_a_cached_frame_is_answered_at_once() {
    let mut entry = session_with(&[(50, 50, 3, 9)]);
    let ready = entry.request_frame_with_callback(50, 50, 3, 41, 0);
    assert_eq!(ready, Some(Delivery { callback: 41, frame: picture(50, 50, 9) }));
    assert!(!entry.is_queued(cell(50, 50, 3)));
}

#[test]
fn request_with_callback_waits_for_one_render() {
    let mut entry: AnimationEntry<u32> = AnimationEntry::new(info(10));
    assert!(entry.request_frame_with_callback(50, 50, 3, 1, 0).is_none());
    let first = entry.tick(Vec::new(), 0);
    assert_eq!(first.renders, vec![cell(50, 50, 3)]);
    assert!(first.deliveries.is_empty());

    assert!(entry.request_frame_with_callback(50, 50, 3, 2, 0).is_none());
    let second = entry.tick(Vec::new(), 0);
    assert!(second.renders.is_empty());
    assert!(second.deliveries.is_empty());
    assert!(entry.is_rendering(cell(50, 50, 3)));
    assert!(entry.is_queued(cell(50, 50, 3)));

    let third = entry.tick(vec![rendered(50, 50, 3, 5)], 1);
    assert!(third.renders.is_empty());
    assert_eq!(
        third.deliveries,
        vec![
            Delivery { callback: 1, frame: picture(50, 50, 5) },
            Delivery { callback: 2, frame: picture(50, 50, 5) },
        ]
    );
    assert_eq!(third.redundant, 0);
    assert!(!entry.is_rendering(cell(50, 50, 3)));
    assert!(!entry.is_queued(cell(50, 50, 3)));
    assert_eq!(entry.frame(50, 50, 3, 1), Some(picture(50, 50, 5)));
}

#[test]
fn many_requests_for_one_cell_start_one_render() {
    let mut entry: AnimationEntry<u32> = AnimationEntry::new(info(10));
    for callback in 0..5 {
        assert!(entry.request_frame_with_callback(64, 64, 7, callback, 0).is_none());
    }
    let work = entry.process_requests(0);
    assert_eq!(work.renders, vec![cell(64, 64, 7)]);
    for callback in 5..9 {
        assert!(entry.request_frame_with_callback(64, 64, 7, callback, 0).is_none());
    }
    assert!(entry.process_requests(0).renders.is_empty());
    assert!(entry.process_requests(1).renders.is_empty());
    let done = entry.finish_processed(vec![rendered(64, 64, 7, 1)], 1);
    let callbacks: Vec<u32> = done.deliveries.iter().map(|d| d.callback).collect();
    assert_eq!(callbacks, vec![0, 1, 2, 3, 4, 5, 6, 7, 8]);
    assert!(done.deliveries.iter().all(|d| d.frame == picture(64, 64, 1)));
}

#[test]
fn dispatch_starts_one_render_for_each_cell() {
    let mut entry: AnimationEntry<u32> = AnimationEntry::new(info(10));
    entry.request_frame_with_callback(10, 10, 1, 1, 0);
    entry.request_frame_with_callback(10, 10, 2, 2, 0);
    entry.request_frame_with_callback(20, 10, 1, 3, 0);
    entry.request_frame_with_callback(10, 10, 1, 4, 0);
    let work = entry.process_requests(0);
    assert_eq!(work.renders, vec![cell(10, 10, 1), cell(10, 10, 2), cell(20, 10, 1)]);
    assert!(entry.is_queued(cell(10, 10, 1)));
    assert!(!entry.is_queued(cell(10, 10, 2)));
}

#[test]
fn dispatch_answers_a_request_whose_frame_came_meanwhile() {
    let mut entry: AnimationEntry<u32> = AnimationEntry::new(info(10));
    entry.request_frame_with_callback(10, 10, 1, 1, 0);
    entry.finish_processed(vec![rendered(10, 10, 1, 8)], 0);
    entry.request_frame(10, 10, 2, 0);
    let work = entry.process_requests(0);
    assert_eq!(work.renders, vec![cell(10, 10, 2)]);
    assert!(work.deliveries.is_empty());
}

#[test]
fn results_reach_queued_and_waiting_requests_alike() {
    let mut entry: AnimationEntry<u32> = AnimationEntry::new(info(10));
    entry.request_frame_with_callback(10, 10, 1, 1, 0);
    entry.process_requests(0);
    entry.request_frame_with_callback(10, 10, 1, 2, 0);
    entry.request_frame_with_callback(10, 10, 2, 3, 0);
    let done = entry.finish_processed(vec![rendered(10, 10, 1, 8)], 0);
    let callbacks: Vec<u32> = done.deliveries.iter().map(|d| d.callback).collect();
    assert_eq!(callbacks, vec![1, 2]);
    assert!(entry.is_queued(cell(10, 10, 2)));
    assert!(!entry.is_queued(cell(10, 10, 1)));
}

#[test]
fn a_result_out_of_order_is_taken_in() {
    let mut entry: AnimationEntry<u32> = AnimationEntry::new(info(10));
    entry.request_frame_with_callback(10, 10, 1, 1, 0);
    entry.request_frame_with_callback(10, 10, 2, 2, 0);
    entry.process_requests(0);
    let done = entry.finish_processed(vec![rendered(10, 10, 2, 2), rendered(10, 10, 1, 1)], 0);
    assert_eq!(
        done.deliveries,
        vec![
            Delivery { callback: 2, frame: picture(10, 10, 2) },
            Delivery { callback: 1, frame: picture(10, 10, 1) },
        ]
    );
}

#[test]
fn a_second_result_for_a_cell_is_counted_as_redundant() {
    let mut entry = session_with(&[(10, 10, 1, 1)]);
    let done = entry.finish_processed(vec![rendered(10, 10, 1, 2), rendered(10, 10, 2, 3)], 0);
    assert_eq!(done.redundant, 1);
    assert_eq!(entry.frame(10, 10, 1, 0), Some(picture(10, 10, 2)));
    assert_eq!(entry.frame(10, 10, 2, 0), Some(picture(10, 10, 3)));
}

#[test]
fn a_failed_render_frees_the_cell_for_another_try() {
    let mut entry: AnimationEntry<u32> = AnimationEntry::new(info(10));
    entry.request_frame_with_callback(10, 10, 1, 1, 0);
    assert_eq!(entry.process_requests(0).renders, vec![cell(10, 10, 1)]);
    let done = entry.finish_processed(vec![RenderResult::failed(cell(10, 10, 1))], 0);
    assert!(done.deliveries.is_empty());
    assert!(!entry.is_rendering(cell(10, 10, 1)));
    assert!(entry.frame(10, 10, 1, 0).is_none());
    entry.request_frame_with_callback(10, 10, 1, 2, 0);
    assert_eq!(entry.process_requests(0).renders, vec![cell(10, 10, 1)]);
}

#[test]
fn a_buffer_of_the_wrong_length_is_a_failed_render() {
    let result = RenderResult::from_buffer(cell(10, 10, 1), vec![0u8; 399]);
    assert_eq!(result, RenderResult::failed(cell(10, 10, 1)));
    let result = RenderResult::from_buffer(cell(0, 10, 1), Vec::new());
    assert_eq!(result, RenderResult::failed(cell(0, 10, 1)));
}

#[test]
fn a_result_for_an_evicted_size_is_stored_all_the_same() {
    let mut entry: AnimationEntry<u32> = AnimationEntry::new(info(10));
    entry.request_frame_with_callback(10, 10, 1, 1, 0);
    entry.tick(Vec::new(), 0);
    entry.tick(Vec::new(), 20);
    assert!(!entry.has_collection(10, 10));
    let work = entry.tick(vec![rendered(10, 10, 1, 4)], 21);
    assert_eq!(work.deliveries, vec![Delivery { callback: 1, frame: picture(10, 10, 4) }]);
    assert!(entry.has_collection(10, 10));
    assert_eq!(entry.frame(10, 10, 1, 21), Some(picture(10, 10, 4)));
}

#[test]
fn frame_lookup_does_not_render_or_queue() {
    let mut entry: AnimationEntry<u32> = AnimationEntry::new(info(10));
    assert!(entry.frame(10, 10, 1, 0).is_none());
    assert!(!entry.has_collection(10, 10));
    assert!(!entry.is_queued(cell(10, 10, 1)));
    assert!(entry.tick(Vec::new(), 0).renders.is_empty());
}

#[test]
fn frame_lookup_past_the_last_frame_is_empty() {
    let mut entry = session_with(&[(10, 10, 9, 1)]);
    assert!(entry.frame(10, 10, 10, 0).is_none());
}

#[test]
fn rendered_frame_stays_cached_until_eviction() {
    let mut entry = session_with(&[(10, 10, 1, 1)]);
    entry.request_frame(10, 10, 2, 1);
    entry.request_frame_with_callback(20, 20, 1, 7, 2);
    entry.nearest_frame(30, 30, 1, 3);
    entry.tick(Vec::new(), 4);
    entry.tick(vec![rendered(10, 10, 2, 2), rendered(20, 20, 1, 3)], 5);
    assert_eq!(entry.frame(10, 10, 1, 6), Some(picture(10, 10, 1)));
    entry.tick(Vec::new(), 6 + IDLE_LIMIT_SECS - 1);
    assert_eq!(entry.frame(10, 10, 1, 6 + IDLE_LIMIT_SECS - 1), Some(picture(10, 10, 1)));
    entry.tick(Vec::new(), 6 + 2 * IDLE_LIMIT_SECS);
    assert!(!entry.has_collection(10, 10));
    assert!(entry.frame(10, 10, 1, 6 + 2 * IDLE_LIMIT_SECS).is_none());
}

#[test]
fn idle_collection_is_gone_after_the_next_pass() {
    let mut entry = session_with(&[(10, 10, 1, 1), (20, 20, 1, 2)]);
    entry.frame(20, 20, 1, 5);
    entry.tick(Vec::new(), 10);
    assert!(!entry.has_collection(10, 10));
    assert!(entry.has_collection(20, 20));
    entry.tick(Vec::new(), 14);
    assert!(entry.has_collection(20, 20));
    entry.tick(Vec::new(), 15);
    assert!(!entry.has_collection(20, 20));
}

#[test]
fn idle_limit_is_ten_seconds() {
    assert_eq!(IDLE_LIMIT_SECS, 10);
    let mut entry = session_with(&[(10, 10, 1, 1)]);
    entry.clear_outdated_entries(9);
    assert!(entry.has_collection(10, 10));
    entry.clear_outdated_entries(10);
    assert!(!entry.has_collection(10, 10));
}

#[test]
fn a_request_at_an_evicted_size_starts_from_nothing() {
    let mut entry = session_with(&[(10, 10, 1, 1)]);
    entry.tick(Vec::new(), 10);
    assert!(entry.request_frame_with_callback(10, 10, 1, 3, 11).is_none());
    assert_eq!(entry.tick(Vec::new(), 11).renders, vec![cell(10, 10, 1)]);
}

#[test]
fn a_queued_request_keeps_its_collection_alive() {
    let mut entry = session_with(&[(10, 10, 1, 1)]);
    entry.request_frame(10, 10, 2, 3);
    entry.tick(Vec::new(), 12);
    assert!(entry.has_collection(10, 10));
}

#[test]
fn nearest_frame_is_the_exact_frame_when_cached() {
    let mut entry = session_with(&[(80, 80, 4, 4), (80, 80, 5, 5), (80, 80, 6, 6)]);
    assert_eq!(entry.nearest_frame(80, 80, 5, 0), Some(picture(80, 80, 5)));
}

#[test]
fn nearest_frame_prefers_the_frame_before() {
    let mut entry = session_with(&[(80, 80, 2, 2), (80, 80, 6, 6)]);
    assert_eq!(entry.nearest_frame(80, 80, 5, 0), Some(picture(80, 80, 2)));
}

#[test]
fn nearest_frame_takes_the_frame_after_when_none_before() {
    let mut entry = session_with(&[(80, 80, 6, 6), (80, 80, 8, 8)]);
    assert_eq!(entry.nearest_frame(80, 80, 5, 0), Some(picture(80, 80, 6)));
}

#[test]
fn nearest_frame_stays_at_the_size_asked_if_it_can() {
    let mut entry = session_with(&[(80, 80, 0, 1), (90, 90, 5, 2), (70, 70, 5, 3)]);
    assert_eq!(entry.nearest_frame(80, 80, 5, 0), Some(picture(80, 80, 1)));
}

#[test]
fn nearest_frame_goes_to_the_first_wider_size() {
    let mut entry = session_with(&[(70, 70, 5, 1), (90, 90, 4, 2), (100, 100, 5, 3)]);
    assert_eq!(entry.nearest_frame(80, 80, 5, 0), Some(picture(90, 90, 2)));
}

#[test]
fn nearest_frame_skips_wider_sizes_without_frames() {
    let mut entry = session_with(&[(100, 100, 5, 3)]);
    entry.request_frame(90, 90, 5, 0);
    assert_eq!(entry.nearest_frame(80, 80, 5, 0), Some(picture(100, 100, 3)));
}

#[test]
fn nearest_frame_takes_a_narrower_size_only_as_a_last_resort() {
    let mut entry = session_with(&[(60, 60, 5, 1), (70, 70, 5, 2)]);
    assert_eq!(entry.nearest_frame(80, 80, 5, 0), Some(picture(60, 60, 1)));
    entry.finish_processed(vec![rendered(81, 1, 9, 7)], 0);
    assert_eq!(entry.nearest_frame(80, 80, 5, 0), Some(picture(81, 1, 7)));
}

#[test]
fn nearest_frame_counts_same_width_as_not_wider() {
    let mut entry = session_with(&[(80, 90, 5, 1), (60, 60, 5, 2)]);
    assert_eq!(entry.nearest_frame(80, 80, 5, 0), Some(picture(60, 60, 2)));
}

#[test]
fn nearest_frame_while_the_frame_is_rendering() {
    let mut entry: AnimationEntry<u32> = AnimationEntry::new(info(10));
    entry.request_frame(80, 80, 5, 0);
    entry.tick(Vec::new(), 0);
    assert!(entry.is_rendering(cell(80, 80, 5)));
    assert!(entry.nearest_frame(80, 80, 5, 0).is_none());
    entry.finish_processed(vec![rendered(40, 40, 2, 6)], 0);
    assert_eq!(entry.nearest_frame(80, 80, 5, 0), Some(picture(40, 40, 6)));
    assert!(entry.is_rendering(cell(80, 80, 5)));
    assert!(entry.tick(Vec::new(), 0).renders.is_empty());
}

#[test]
fn nearest_frame_counts_as_use_of_the_size_that_served() {
    let mut entry = session_with(&[(90, 90, 4, 2), (60, 60, 1, 1)]);
    assert_eq!(entry.nearest_frame(80, 80, 5, 7), Some(picture(90, 90, 2)));
    entry.clear_outdated_entries(10);
    assert!(entry.has_collection(90, 90));
    assert!(!entry.has_collection(60, 60));
}

#[test]
fn nearest_frame_counts_as_use_of_every_size_it_goes_through() {
    let mut entry = session_with(&[(60, 60, 1, 1)]);
    entry.request_frame(80, 80, 5, 0);
    entry.request_frame(90, 90, 5, 0);
    entry.request_frame(50, 50, 5, 0);
    entry.request_frame(70, 70, 5, 0);
    assert_eq!(entry.nearest_frame(80, 80, 5, 7), Some(picture(60, 60, 1)));
    entry.clear_outdated_entries(10);
    assert!(entry.has_collection(80, 80));
    assert!(entry.has_collection(90, 90));
    assert!(entry.has_collection(50, 50));
    assert!(entry.has_collection(60, 60));
    assert!(!entry.has_collection(70, 70));
}

#[test]
fn nearest_frame_stops_going_through_sizes_where_it_is_served() {
    let mut entry = session_with(&[(90, 90, 4, 2), (100, 100, 4, 3)]);
    entry.request_frame(85, 85, 5, 0);
    assert_eq!(entry.nearest_frame(80, 80, 5, 7), Some(picture(90, 90, 2)));
    entry.clear_outdated_entries(10);
    assert!(entry.has_collection(85, 85));
    assert!(entry.has_collection(90, 90));
    assert!(!entry.has_collection(100, 100));
}

#[test]
fn nearest_frame_that_finds_nothing_has_gone_through_all_sizes() {
    let mut entry: AnimationEntry<u32> = AnimationEntry::new(info(10));
    entry.request_frame(50, 50, 5, 0);
    entry.request_frame(90, 90, 5, 0);
    assert!(entry.nearest_frame(80, 80, 5, 7).is_none());
    entry.clear_outdated_entries(10);
    assert!(entry.has_collection(50, 50));
    assert!(entry.has_collection(90, 90));
}

#[test]
fn tick_dispatches_then_collects_then_evicts() {
    let mut entry = session_with(&[(10, 10, 1, 1)]);
    entry.request_frame_with_callback(20, 20, 2, 5, 3);
    let work = entry.tick(vec![rendered(30, 30, 3, 3)], 10);
    assert_eq!(work.renders, vec![cell(20, 20, 2)]);
    assert!(work.deliveries.is_empty());
    assert_eq!(work.redundant, 0);
    assert!(!entry.has_collection(10, 10));
    assert!(entry.has_collection(20, 20));
    assert!(entry.has_collection(30, 30));
    assert!(entry.is_rendering(cell(20, 20, 2)));
}

#[test]
fn tick_answers_a_queued_request_from_the_cache() {
    let mut entry: AnimationEntry<u32> = AnimationEntry::new(info(10));
    entry.request_frame_with_callback(20, 20, 2, 5, 0);
    entry.finish_processed(vec![rendered(20, 20, 3, 1)], 0);
    entry.request_frame_with_callback(20, 20, 4, 6, 0);
    entry.finish_processed(vec![rendered(20, 20, 4, 2)], 0);
    entry.request_frame_with_callback(20, 20, 5, 7, 0);
    let work = entry.tick(vec![rendered(20, 20, 2, 9)], 0);
    assert_eq!(work.renders, vec![cell(20, 20, 2), cell(20, 20, 5)]);
    assert_eq!(work.deliveries, vec![Delivery { callback: 5, frame: picture(20, 20, 9) }]);
}
