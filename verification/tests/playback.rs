use gtk_rlottie::playback::clock_frame;
use gtk_rlottie::playback::clock_start;
use gtk_rlottie::playback::clock_ticks;
use gtk_rlottie::playback::neighbour_frame;
use gtk_rlottie::playback::shown_frame;
use gtk_rlottie::playback::stops_at;

#[test]
fn clock_runs_at_sixty_ticks_a_second() {
    assert_eq!(clock_ticks(0), 0);
    assert_eq!(clock_ticks(1_000_000), 60);
    assert_eq!(clock_ticks(16_666), 0);
    assert_eq!(clock_ticks(16_667), 1);
    assert_eq!(clock_ticks(2_500_000), 150);
}

#[test]
fn clock_frame_counts_round_the_frames() {
    assert_eq!(clock_frame(100, 100, 10), 0);
    assert_eq!(clock_frame(107, 100, 10), 7);
    assert_eq!(clock_frame(110, 100, 10), 0);
    assert_eq!(clock_frame(135, 100, 10), 5);
    assert_eq!(clock_frame(5, -5, 7), 3);
    assert_eq!(clock_frame(42, 0, 1), 0);
}

#[test]
fn clock_before_the_start_counts_round_from_the_top() {
    assert_eq!(clock_frame(99, 100, 10), 5);
    assert_eq!(clock_frame(0, 16, 16), 0);
    assert_eq!(clock_frame(-3, 0, 7), ((u64::MAX - 2) % 7) as usize);
    assert_eq!(clock_frame(i64::MIN, 0, 1000), ((1u64 << 63) % 1000) as usize);
}

#[test]
fn clock_start_puts_the_frame_on_the_clock() {
    assert_eq!(clock_start(100, 0), 100);
    assert_eq!(clock_start(100, 7), 93);
    assert_eq!(clock_start(3, 7), -4);
    assert_eq!(clock_frame(100, clock_start(100, 7), 10), 7);
}

#[test]
fn shown_frame_forwards_and_in_reverse() {
    assert_eq!(shown_frame(0, 10, false), 0);
    assert_eq!(shown_frame(3, 10, false), 3);
    assert_eq!(shown_frame(0, 10, true), 9);
    assert_eq!(shown_frame(3, 10, true), 6);
    assert_eq!(shown_frame(9, 10, true), 0);
    assert_eq!(shown_frame(shown_frame(4, 10, true), 10, true), 4);
}

#[test]
fn playback_stops_at_the_last_frame_unless_it_loops() {
    assert!(stops_at(9, 10, false));
    assert!(!stops_at(9, 10, true));
    assert!(!stops_at(8, 10, false));
    assert!(!stops_at(0, 10, false));
    assert!(stops_at(0, 1, false));
}

#[test]
fn neighbour_frames_go_round() {
    assert_eq!(neighbour_frame(0, 10, false), 1);
    assert_eq!(neighbour_frame(8, 10, false), 9);
    assert_eq!(neighbour_frame(9, 10, false), 0);
    assert_eq!(neighbour_frame(9, 10, true), 8);
    assert_eq!(neighbour_frame(1, 10, true), 0);
    assert_eq!(neighbour_frame(0, 10, true), 9);
    assert_eq!(neighbour_frame(0, 1, false), 0);
    assert_eq!(neighbour_frame(0, 1, true), 0);
    for frame in 0..10 {
        assert_eq!(neighbour_frame(neighbour_frame(frame, 10, false), 10, true), frame);
    }
}
