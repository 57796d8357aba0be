use tinykeeper::protocol::{SessionId, WatchEventType, WatchNotification};
use tinykeeper::watch_state::{WatchState, WatchType};

#[test]
fn notification_is_header_then_event() {
    let bytes = WatchNotification { event_type: WatchEventType::Created, path: "/a" }.to_bytes();
    assert_eq!(&bytes[0..4], &(-1i32).to_be_bytes());
    assert_eq!(&bytes[4..12], &(-1i64).to_be_bytes());
    assert_eq!(&bytes[12..16], &0i32.to_be_bytes());
    assert_eq!(&bytes[16..20], &1i32.to_be_bytes());
    assert_eq!(&bytes[20..24], &3i32.to_be_bytes());
    assert_eq!(&bytes[24..28], &2i32.to_be_bytes());
    assert_eq!(&bytes[28..30], b"/a");
    assert_eq!(bytes.len(), 30);
}

#[test]
fn one_shot_watch_fires_once() {
    let mut watches = WatchState::new();
    watches.register(SessionId(1), "/a".to_string(), WatchType::Watch);
    watches.register(SessionId(1), "/a".to_string(), WatchType::Watch);
    let first = watches.fire("/a", WatchEventType::Changed);
    assert_eq!(first.len(), 1);
    assert_eq!(first[0].session_id, SessionId(1));
    assert!(watches.fire("/a", WatchEventType::Changed).is_empty());
}

#[test]
fn deletion_tells_list_watchers_of_the_node_and_its_parent() {
    let mut watches = WatchState::new();
    watches.register(SessionId(1), "/a/b".to_string(), WatchType::Watch);
    watches.register(SessionId(2), "/a/b".to_string(), WatchType::ListWatch);
    watches.register(SessionId(3), "/a".to_string(), WatchType::ListWatch);
    watches.register(SessionId(4), "/other".to_string(), WatchType::Watch);
    let events = watches.fire("/a/b", WatchEventType::Deleted);
    let sessions: Vec<SessionId> = events.iter().map(|e| e.session_id).collect();
    assert_eq!(sessions, vec![SessionId(1), SessionId(2), SessionId(3)]);
    assert_eq!(watches.fire("/other", WatchEventType::Changed).len(), 1);
}

#[test]
fn creation_at_top_level_tells_root_list_watchers() {
    let mut watches = WatchState::new();
    watches.register(SessionId(5), "/".to_string(), WatchType::ListWatch);
    let events = watches.fire("/new", WatchEventType::Created);
    assert_eq!(events.len(), 1);
    assert_eq!(events[0].session_id, SessionId(5));
}

#[test]
fn clear_drops_a_sessions_watches() {
    let mut watches = WatchState::new();
    watches.register(SessionId(1), "/a".to_string(), WatchType::Watch);
    watches.register(SessionId(2), "/a".to_string(), WatchType::Watch);
    watches.clear(SessionId(1));
    let events = watches.fire("/a", WatchEventType::Changed);
    assert_eq!(events.len(), 1);
    assert_eq!(events[0].session_id, SessionId(2));
}

#[test]
fn clearing_one_session_leaves_the_others_notifications() {
    let build = || {
        let mut watches = WatchState::new();
        watches.register(SessionId(1), "/a/b".to_string(), WatchType::Watch);
        watches.register(SessionId(2), "/a/b".to_string(), WatchType::ListWatch);
        watches.register(SessionId(1), "/a".to_string(), WatchType::ListWatch);
        watches.register(SessionId(3), "/a".to_string(), WatchType::ListWatch);
        watches
    };
    let mut plain = build();
    let all: Vec<(SessionId, Vec<u8>)> = plain
        .fire("/a/b", WatchEventType::Deleted)
        .into_iter()
        .map(|e| (e.session_id, e.payload))
        .collect();
    let mut cleared = build();
    cleared.clear(SessionId(1));
    let rest: Vec<(SessionId, Vec<u8>)> = cleared
        .fire("/a/b", WatchEventType::Deleted)
        .into_iter()
        .map(|e| (e.session_id, e.payload))
        .collect();
    let expected: Vec<(SessionId, Vec<u8>)> = all.into_iter().filter(|e| e.0 != SessionId(1)).collect();
    assert_eq!(rest, expected);
    assert_eq!(rest.len(), 2);
    let mut untouched = build();
    untouched.clear(SessionId(9));
    assert_eq!(untouched.fire("/a/b", WatchEventType::Deleted).len(), 4);
}
