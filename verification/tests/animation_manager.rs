use gtk_rlottie::animation_entry::AnimationEntry;
use gtk_rlottie::animation_info::AnimationInfo;
use gtk_rlottie::animation_manager::AnimationManager;
use gtk_rlottie::animation_manager::AnimationManagerEntry;
use gtk_rlottie::animation_manager::Opened;
use gtk_rlottie::frame_request::FrameRequestIndex;
use gtk_rlottie::session::RenderResult;
use std::sync::Arc;
use std::sync::Mutex;
use std::time::Duration;

type Shared = Arc<Mutex<AnimationEntry<u32>>>;

fn decoded(totalframe: usize, width: i32, height: i32) -> Shared {
    Arc::new(Mutex::new(AnimationEntry::new(AnimationInfo {
        totalframe,
        default_size: (width, height),
        frame_delay: Duration::from_secs_f64(1.0 / 30.0),
    })))
}

#[test]
fn entry_new_waits_with_nobody() {
    let entry: AnimationManagerEntry<u8, u8> = AnimationManagerEntry::new();
    assert!(entry.is_uninitialized());
    assert!(!entry.skip_init());
    assert!(entry.session().is_none());
}

#[test]
fn entry_first_callback_starts_the_decode() {
    let mut entry: AnimationManagerEntry<u8, u8> = AnimationManagerEntry::new();
    assert!(entry.push_callback(1).is_none());
    assert!(!entry.skip_init());
    assert!(entry.push_callback(2).is_none());
    assert!(entry.skip_init());
}

#[test]
fn entry_init_serves_the_waiters_in_order() {
    let mut entry: AnimationManagerEntry<u8, u16> = AnimationManagerEntry::new();
    entry.push_callback(1);
    entry.push_callback(2);
    entry.push_callback(3);
    assert_eq!(entry.init(700), vec![(1, 700), (2, 700), (3, 700)]);
    assert!(!entry.is_uninitialized());
    assert!(entry.skip_init());
    assert_eq!(entry.session(), Some(&700));
}

#[test]
fn entry_with_a_session_answers_at_once() {
    let mut entry: AnimationManagerEntry<u8, u16> = AnimationManagerEntry::new();
    assert!(entry.init(700).is_empty());
    assert_eq!(entry.push_callback(9), Some((9, 700)));
    assert_eq!(entry.session(), Some(&700));
}

#[test]
fn manager_starts_its_maintenance_once() {
    let mut manager: AnimationManager<u8, u8> = AnimationManager::new();
    assert!(manager.init());
    assert!(!manager.init());
    assert!(!manager.init());
}

#[test]
fn manager_default_is_empty() {
    let mut manager: AnimationManager<u8, u8> = AnimationManager::default();
    assert!(manager.sessions().is_empty());
    assert!(!manager.is_decoding("a.anim"));
    assert!(manager.init());
}

#[test]
fn opening_a_path_twice_decodes_it_once() {
    let mut manager: AnimationManager<&'static str, Shared> = AnimationManager::new();
    assert!(matches!(manager.open_animation("a.anim", "first"), Opened::Decode));
    assert!(matches!(manager.open_animation("a.anim", "second"), Opened::Waiting));
    assert!(manager.is_decoding("a.anim"));
    assert!(manager.sessions().is_empty());

    let session = decoded(10, 100, 100);
    let ready = manager.complete_open("a.anim", session.clone());
    assert_eq!(ready.len(), 2);
    assert_eq!(ready[0].0, "first");
    assert_eq!(ready[1].0, "second");
    assert!(Arc::ptr_eq(&ready[0].1, &session));
    assert!(Arc::ptr_eq(&ready[1].1, &session));
    assert!(!manager.is_decoding("a.anim"));

    match manager.open_animation("a.anim", "third") {
        Opened::Ready(callback, handle) => {
            assert_eq!(callback, "third");
            assert!(Arc::ptr_eq(&handle, &session));
        }
        other => panic!("expected the session, got {:?}", other),
    }
}

#[test]
fn open_twice_then_request_renders_once() {
    let mut manager: AnimationManager<u8, Shared> = AnimationManager::new();
    let mut decodes = 0;
    for caller in 0..2 {
        if let Opened::Decode = manager.open_animation("a.anim", caller) {
            decodes += 1;
        }
    }
    assert_eq!(decodes, 1);
    let ready = manager.complete_open("a.anim", decoded(10, 100, 100));
    assert_eq!(ready.len(), 2);
    assert!(Arc::ptr_eq(&ready[0].1, &ready[1].1));

    let cell = FrameRequestIndex { size: (50, 50), frame_num: 3 };
    let mut fired: Vec<u32> = Vec::new();
    let mut renders = 0;
    {
        let mut session = ready[0].1.lock().unwrap();
        assert_eq!(session.info().totalframe, 10);
        assert_eq!(session.info().default_size, (100, 100));
        if let Some(delivery) = session.request_frame_with_callback(50, 50, 3, 1, 0) {
            fired.push(delivery.callback);
        }
        renders += session.tick(Vec::new(), 0).renders.len();
    }
    {
        let mut session = ready[1].1.lock().unwrap();
        if let Some(delivery) = session.request_frame_with_callback(50, 50, 3, 2, 0) {
            fired.push(delivery.callback);
        }
        renders += session.tick(Vec::new(), 0).renders.len();
    }
    assert_eq!(renders, 1);
    assert!(fired.is_empty());
    let work = ready[0]
        .1
        .lock()
        .unwrap()
        .tick(vec![RenderResult::from_buffer(cell, vec![0u8; 50 * 50 * 4])], 0);
    fired.extend(work.deliveries.iter().map(|d| d.callback));
    assert_eq!(fired, vec![1, 2]);
    assert!(work.renders.is_empty());
}

#[test]
fn paths_are_decoded_apart() {
    let mut manager: AnimationManager<u8, u16> = AnimationManager::new();
    assert!(matches!(manager.open_animation("a.anim", 1), Opened::Decode));
    assert!(matches!(manager.open_animation("b.anim", 2), Opened::Decode));
    assert!(matches!(manager.open_animation("a.anim", 3), Opened::Waiting));
    assert_eq!(manager.complete_open("b.anim", 20), vec![(2, 20)]);
    assert!(manager.is_decoding("a.anim"));
    assert_eq!(manager.complete_open("a.anim", 10), vec![(1, 10), (3, 10)]);
    let mut live = manager.sessions();
    live.sort();
    assert_eq!(live, vec![("a.anim".to_string(), 10), ("b.anim".to_string(), 20)]);
}

#[test]
fn sessions_lists_only_what_is_decoded() {
    let mut manager: AnimationManager<u8, u16> = AnimationManager::new();
    manager.open_animation("a.anim", 1);
    manager.open_animation("b.anim", 2);
    manager.complete_open("b.anim", 20);
    assert_eq!(manager.sessions(), vec![("b.anim".to_string(), 20)]);
}

#[test]
fn a_failed_decode_forgets_the_path() {
    let mut manager: AnimationManager<u8, u16> = AnimationManager::new();
    manager.open_animation("a.anim", 1);
    manager.open_animation("a.anim", 2);
    assert_eq!(manager.fail_open("a.anim"), vec![1, 2]);
    assert!(!manager.is_decoding("a.anim"));
    assert!(matches!(manager.open_animation("a.anim", 3), Opened::Decode));
}

#[test]
fn a_failure_report_for_a_decoded_path_changes_nothing() {
    let mut manager: AnimationManager<u8, u16> = AnimationManager::new();
    manager.open_animation("a.anim", 1);
    manager.complete_open("a.anim", 10);
    assert!(manager.fail_open("a.anim").is_empty());
    assert!(manager.fail_open("never-opened.anim").is_empty());
    assert!(matches!(manager.open_animation("a.anim", 2), Opened::Ready(2, 10)));
}
