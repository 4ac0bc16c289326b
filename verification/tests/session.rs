use subtitle_fast::frame::FrameTime;
use subtitle_fast::session::SessionStore;

#[test]
fn sessions_get_increasing_ids_and_are_found() {
    let mut store: SessionStore<u32> = SessionStore::new();
    let a = store.add_session("/videos/a.mp4".to_string(), "a.mp4".to_string(), 7);
    let b = store.add_session("/videos/b.mkv".to_string(), "b.mkv".to_string(), 9);
    assert_eq!((a, b), (1, 2));
    assert_eq!(store.sessions_snapshot().len(), 2);
    let found = store.session(b).expect("session");
    assert_eq!(found.label, "b.mkv");
    assert_eq!(found.detection, 9);
    assert!(store.session(3).is_none());
    assert!(store.session(0).is_none());
}

#[test]
fn active_session_is_remembered() {
    let mut store: SessionStore<()> = SessionStore::new();
    assert_eq!(store.active_id(), None);
    let id = store.add_session("x".to_string(), "x".to_string(), ());
    store.set_active(id);
    assert_eq!(store.active_id(), Some(id));
}

#[test]
fn playback_keeps_what_is_not_given() {
    let mut store: SessionStore<()> = SessionStore::new();
    let id = store.add_session("x".to_string(), "x".to_string(), ());
    store.update_playback(id, Some(FrameTime { secs: 4, nanos: 0 }), None);
    store.update_playback(id, None, Some(120));
    let s = store.session(id).expect("session");
    assert_eq!(s.last_timestamp, Some(FrameTime { secs: 4, nanos: 0 }));
    assert_eq!(s.last_frame_index, Some(120));
    store.update_playback(id, Some(FrameTime { secs: 5, nanos: 0 }), Some(150));
    let s = store.session(id).expect("session");
    assert_eq!(s.last_timestamp, Some(FrameTime { secs: 5, nanos: 0 }));
    assert_eq!(s.last_frame_index, Some(150));
    // An unknown id changes nothing.
    store.update_playback(id + 1, None, Some(1));
    assert_eq!(store.session(id).expect("session").last_frame_index, Some(150));
}
