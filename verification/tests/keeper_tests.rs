use tinykeeper::keeper_server::{
    apply, apply_fits, close_session, complete, create_session, replay, session_fits, Step,
    WalOperation,
};
use tinykeeper::protocol::{OpCode, SessionId};
use tinykeeper::storage::KeeperStorage;
use tinykeeper::watch_state::ApplyResult;

fn jute(bytes: &[u8]) -> Vec<u8> {
    let mut out = (bytes.len() as i32).to_be_bytes().to_vec();
    out.extend_from_slice(bytes);
    out
}

fn request(xid: i32, op: OpCode, body: &[u8]) -> Vec<u8> {
    let mut out = xid.to_be_bytes().to_vec();
    out.extend_from_slice(&op.code().to_be_bytes());
    out.extend_from_slice(body);
    out
}

fn create_body(path: &str, data: &[u8], flags: i32) -> Vec<u8> {
    let mut body = jute(path.as_bytes());
    body.extend(jute(data));
    body.extend_from_slice(&1i32.to_be_bytes());
    body.extend_from_slice(&31i32.to_be_bytes());
    body.extend(jute(b"world"));
    body.extend(jute(b"anyone"));
    body.extend_from_slice(&flags.to_be_bytes());
    body
}

fn path_watch_body(path: &str, watch: bool) -> Vec<u8> {
    let mut body = jute(path.as_bytes());
    body.push(watch as u8);
    body
}

fn path_version_body(path: &str, version: i32) -> Vec<u8> {
    let mut body = jute(path.as_bytes());
    body.extend_from_slice(&version.to_be_bytes());
    body
}

fn set_body(path: &str, data: &[u8], version: i32) -> Vec<u8> {
    let mut body = jute(path.as_bytes());
    body.extend(jute(data));
    body.extend_from_slice(&version.to_be_bytes());
    body
}

fn err_of(response: &[u8]) -> i32 {
    i32::from_be_bytes([response[12], response[13], response[14], response[15]])
}

fn zxid_of(response: &[u8]) -> i64 {
    let mut b = [0u8; 8];
    b.copy_from_slice(&response[4..12]);
    i64::from_be_bytes(b)
}

/// Runs a request to its end, writing the log entry successfully.
fn run(tree: &mut KeeperStorage, payload: &[u8], session: SessionId, now: i64) -> ApplyResult {
    assert!(apply_fits(tree, session, now));
    match apply(tree, payload, session, now) {
        Step::Reply(result) => result,
        Step::Persist { pending, .. } => complete(tree, pending, true),
    }
}

#[test]
fn heartbeat_answers_with_the_header() {
    let mut tree = KeeperStorage::new(500);
    let result = run(&mut tree, &request(42, OpCode::Heartbeat, &[]), SessionId(1), 0);
    assert_eq!(result.response.len(), 16);
    assert_eq!(&result.response[0..4], &42i32.to_be_bytes());
    assert_eq!(err_of(&result.response), 0);
}

#[test]
fn short_payload_is_bad_arguments_with_xid_zero() {
    let mut tree = KeeperStorage::new(500);
    let result = run(&mut tree, &[0, 0, 0], SessionId(1), 0);
    assert_eq!(&result.response[0..4], &0i32.to_be_bytes());
    assert_eq!(err_of(&result.response), -8);
}

#[test]
fn unknown_operation_gets_no_reply() {
    let mut tree = KeeperStorage::new(500);
    let mut payload = 5i32.to_be_bytes().to_vec();
    payload.extend_from_slice(&10i32.to_be_bytes());
    let result = run(&mut tree, &payload, SessionId(1), 0);
    assert!(result.response.is_empty());
}

#[test]
fn create_logs_then_answers_with_the_path() {
    let mut tree = KeeperStorage::new(500);
    let payload = request(7, OpCode::Create, &create_body("/a", b"v", 0));
    match apply(&mut tree, &payload, SessionId(1), 1234) {
        Step::Persist { zxid, entry, pending } => {
            assert_eq!(zxid, 1);
            match &entry {
                WalOperation::Create { path, data, timestamp, flags, session_id } => {
                    assert_eq!(path, "/a");
                    assert_eq!(data, &b"v".to_vec());
                    assert_eq!(*timestamp, 1234);
                    assert_eq!(*flags, 0);
                    assert_eq!(*session_id, 1);
                }
                _ => panic!("wrong entry"),
            }
            let result = complete(&mut tree, pending, true);
            assert_eq!(err_of(&result.response), 0);
            assert_eq!(zxid_of(&result.response), 1);
            assert_eq!(&result.response[16..], &jute(b"/a")[..]);
        }
        Step::Reply(_) => panic!("create should wait for the log"),
    }
    assert_eq!(tree.traverse("/a").unwrap().data, b"v".to_vec());
}

#[test]
fn failed_log_write_is_system_error() {
    let mut tree = KeeperStorage::new(500);
    let payload = request(7, OpCode::Create, &create_body("/a", b"v", 0));
    match apply(&mut tree, &payload, SessionId(1), 0) {
        Step::Persist { pending, .. } => {
            let result = complete(&mut tree, pending, false);
            assert_eq!(err_of(&result.response), -1);
        }
        Step::Reply(_) => panic!("create should wait for the log"),
    }
    assert!(!tree.path_exists("/a"));
}

#[test]
fn create_refusals() {
    let mut tree = KeeperStorage::new(500);
    run(&mut tree, &request(1, OpCode::Create, &create_body("/a", b"", 0)), SessionId(1), 0);
    let again = run(&mut tree, &request(2, OpCode::Create, &create_body("/a", b"", 0)), SessionId(1), 0);
    assert_eq!(err_of(&again.response), -110);
    let orphan = run(&mut tree, &request(3, OpCode::Create, &create_body("/x/y", b"", 0)), SessionId(1), 0);
    assert_eq!(err_of(&orphan.response), -101);
    let root = run(&mut tree, &request(4, OpCode::Create, &create_body("/", b"", 0)), SessionId(1), 0);
    assert_eq!(err_of(&root.response), -110);
    let short = run(&mut tree, &request(5, OpCode::Create, &jute(b"/b")), SessionId(1), 0);
    assert!(short.response.is_empty());
    let mut malformed = jute(&[0xff]);
    malformed.extend(jute(b""));
    malformed.extend_from_slice(&0i32.to_be_bytes());
    malformed.extend_from_slice(&0i32.to_be_bytes());
    let bad = run(&mut tree, &request(6, OpCode::Create, &malformed), SessionId(1), 0);
    assert_eq!(err_of(&bad.response), -8);
}

#[test]
fn get_data_returns_data_and_stat() {
    let mut tree = KeeperStorage::new(500);
    run(&mut tree, &request(1, OpCode::Create, &create_body("/a", b"xyz", 0)), SessionId(1), 0);
    let got = run(&mut tree, &request(2, OpCode::Get, &path_watch_body("/a", false)), SessionId(1), 0);
    assert_eq!(err_of(&got.response), 0);
    assert_eq!(&got.response[16..23], &jute(b"xyz")[..]);
    assert_eq!(got.response.len(), 16 + 7 + 68);
    let missing = run(&mut tree, &request(3, OpCode::Get, &path_watch_body("/b", false)), SessionId(1), 0);
    assert_eq!(err_of(&missing.response), -101);
    assert_eq!(missing.response.len(), 16);
}

#[test]
fn data_watch_fires_once_on_change() {
    let mut tree = KeeperStorage::new(500);
    run(&mut tree, &request(1, OpCode::Create, &create_body("/a", b"", 0)), SessionId(1), 0);
    run(&mut tree, &request(2, OpCode::Get, &path_watch_body("/a", true)), SessionId(2), 0);
    let first = run(&mut tree, &request(3, OpCode::SetData, &set_body("/a", b"1", -1)), SessionId(1), 0);
    assert_eq!(err_of(&first.response), 0);
    assert_eq!(first.watch_events.len(), 1);
    assert_eq!(first.watch_events[0].session_id, SessionId(2));
    let second = run(&mut tree, &request(4, OpCode::SetData, &set_body("/a", b"2", -1)), SessionId(1), 0);
    assert!(second.watch_events.is_empty());
}

#[test]
fn list_watch_hears_of_new_children() {
    let mut tree = KeeperStorage::new(500);
    run(&mut tree, &request(1, OpCode::List, &path_watch_body("/", true)), SessionId(2), 0);
    let created = run(&mut tree, &request(2, OpCode::Create, &create_body("/k", b"", 0)), SessionId(1), 0);
    assert_eq!(created.watch_events.len(), 1);
    assert_eq!(created.watch_events[0].session_id, SessionId(2));
}

#[test]
fn set_data_checks_the_version() {
    let mut tree = KeeperStorage::new(500);
    run(&mut tree, &request(1, OpCode::Create, &create_body("/a", b"", 0)), SessionId(1), 0);
    let wrong = run(&mut tree, &request(2, OpCode::SetData, &set_body("/a", b"1", 3)), SessionId(1), 0);
    assert_eq!(err_of(&wrong.response), -103);
    let right = run(&mut tree, &request(3, OpCode::SetData, &set_body("/a", b"1", 0)), SessionId(1), 0);
    assert_eq!(err_of(&right.response), 0);
    assert_eq!(tree.traverse("/a").unwrap().stat.version, 1);
    let missing = run(&mut tree, &request(4, OpCode::SetData, &set_body("/b", b"1", -1)), SessionId(1), 0);
    assert_eq!(err_of(&missing.response), -101);
}

#[test]
fn delete_refusals_and_success() {
    let mut tree = KeeperStorage::new(500);
    run(&mut tree, &request(1, OpCode::Create, &create_body("/a", b"", 0)), SessionId(1), 0);
    run(&mut tree, &request(2, OpCode::Create, &create_body("/a/b", b"", 0)), SessionId(1), 0);
    let busy = run(&mut tree, &request(3, OpCode::Remove, &path_version_body("/a", -1)), SessionId(1), 0);
    assert_eq!(err_of(&busy.response), -111);
    let version = run(&mut tree, &request(4, OpCode::Remove, &path_version_body("/a/b", 9)), SessionId(1), 0);
    assert_eq!(err_of(&version.response), -103);
    let ok = run(&mut tree, &request(5, OpCode::Remove, &path_version_body("/a/b", 0)), SessionId(1), 0);
    assert_eq!(err_of(&ok.response), 0);
    assert!(!tree.path_exists("/a/b"));
}

#[test]
fn children_come_back_sorted() {
    let mut tree = KeeperStorage::new(500);
    for (xid, p) in [(1, "/z"), (2, "/m"), (3, "/b")] {
        run(&mut tree, &request(xid, OpCode::Create, &create_body(p, b"", 0)), SessionId(1), 0);
    }
    let listed = run(&mut tree, &request(4, OpCode::SimpleList, &path_watch_body("/", false)), SessionId(1), 0);
    let mut expected = 3i32.to_be_bytes().to_vec();
    expected.extend(jute(b"b"));
    expected.extend(jute(b"m"));
    expected.extend(jute(b"z"));
    assert_eq!(&listed.response[16..], &expected[..]);
    let with_stat = run(&mut tree, &request(5, OpCode::List, &path_watch_body("/", false)), SessionId(1), 0);
    assert_eq!(with_stat.response.len(), 16 + expected.len() + 68);
}

fn multi_body(ops: &[(i32, Vec<u8>)]) -> Vec<u8> {
    let mut body = Vec::new();
    for (op, op_body) in ops {
        body.extend_from_slice(&op.to_be_bytes());
        body.push(0);
        body.extend_from_slice(&(-1i32).to_be_bytes());
        body.extend_from_slice(op_body);
    }
    body.extend_from_slice(&(-1i32).to_be_bytes());
    body.push(1);
    body.extend_from_slice(&(-1i32).to_be_bytes());
    body
}

#[test]
fn failed_batch_changes_nothing() {
    let mut tree = KeeperStorage::new(500);
    let body = multi_body(&[
        (1, create_body("/a", b"", 0)),
        (1, create_body("/a", b"", 0)),
        (13, path_version_body("/a", -1)),
    ]);
    let result = run(&mut tree, &request(9, OpCode::Multi, &body), SessionId(1), 0);
    assert_eq!(err_of(&result.response), 0);
    assert!(!tree.path_exists("/a"));
    assert_eq!(tree.last_zxid(), 0);
    let mut expected = Vec::new();
    for code in [0i32, -110, -2] {
        expected.extend_from_slice(&(-1i32).to_be_bytes());
        expected.push(0);
        expected.extend_from_slice(&code.to_be_bytes());
        expected.extend_from_slice(&code.to_be_bytes());
    }
    expected.extend_from_slice(&(-1i32).to_be_bytes());
    expected.push(1);
    expected.extend_from_slice(&(-1i32).to_be_bytes());
    assert_eq!(&result.response[16..], &expected[..]);
}

#[test]
fn successful_batch_applies_every_operation() {
    let mut tree = KeeperStorage::new(500);
    let body = multi_body(&[
        (1, create_body("/a", b"1", 0)),
        (5, set_body("/a", b"2", 0)),
        (13, path_version_body("/a", 1)),
        (1, create_body("/b", b"", 0)),
        (2, path_version_body("/b", -1)),
    ]);
    let payload = request(9, OpCode::Multi, &body);
    match apply(&mut tree, &payload, SessionId(1), 0) {
        Step::Persist { zxid, entry, pending } => {
            assert_eq!(zxid, 1);
            match &entry {
                WalOperation::Multi { operations, .. } => assert_eq!(operations.len(), 4),
                _ => panic!("wrong entry"),
            }
            assert!(!tree.path_exists("/a"));
            let result = complete(&mut tree, pending, true);
            assert_eq!(zxid_of(&result.response), 1);
        }
        Step::Reply(_) => panic!("batch should wait for the log"),
    }
    assert_eq!(tree.traverse("/a").unwrap().data, b"2".to_vec());
    assert!(!tree.path_exists("/b"));
    assert_eq!(tree.last_zxid(), 1);
}

#[test]
fn close_deletes_ephemeral_nodes() {
    let mut tree = KeeperStorage::new(500);
    assert!(session_fits(&tree, 5000, 0));
    let (session, entry, zxid) = create_session(&mut tree, 5000, 0);
    assert_eq!(session, SessionId(1));
    assert_eq!(zxid, 1);
    assert!(matches!(entry, WalOperation::CreateSession { session_id: 1, timeout_ms: 5000 }));
    run(&mut tree, &request(1, OpCode::Create, &create_body("/eph", b"", 1)), session, 0);
    run(&mut tree, &request(2, OpCode::Create, &create_body("/keep", b"", 0)), session, 0);
    let closed = run(&mut tree, &request(3, OpCode::Close, &[]), session, 0);
    assert_eq!(err_of(&closed.response), 0);
    assert!(!tree.path_exists("/eph"));
    assert!(tree.path_exists("/keep"));
    assert!(!tree.session_state.is_alive(session));
}

#[test]
fn expired_session_is_logged_and_cleaned() {
    let mut tree = KeeperStorage::new(500);
    let (session, _, _) = create_session(&mut tree, 1000, 0);
    run(&mut tree, &request(1, OpCode::Create, &create_body("/e", b"", 1)), session, 0);
    assert_eq!(tree.session_state.get_expired(1000), vec![session]);
    let (entry, zxid) = close_session(&mut tree, session);
    assert!(matches!(entry, WalOperation::CloseSession { session_id: 1 }));
    assert_eq!(zxid, tree.last_zxid());
    assert!(!tree.path_exists("/e"));
}

#[test]
fn replaying_the_log_rebuilds_the_tree() {
    let mut live = KeeperStorage::new(500);
    let mut log: Vec<(u64, WalOperation)> = Vec::new();
    let (session, entry, zxid) = create_session(&mut live, 5000, 0);
    log.push((zxid as u64, entry));
    let payloads = [
        request(1, OpCode::Create, &create_body("/a", b"1", 0)),
        request(2, OpCode::Create, &create_body("/a/s-", b"", 2)),
        request(3, OpCode::SetData, &set_body("/a", b"2", -1)),
        request(4, OpCode::Create, &create_body("/e", b"", 1)),
        request(5, OpCode::Multi, &multi_body(&[(1, create_body("/m", b"", 0)), (2, path_version_body("/e", -1))])),
    ];
    for payload in payloads.iter() {
        match apply(&mut live, payload, session, 10) {
            Step::Persist { zxid, entry, pending } => {
                log.push((zxid as u64, entry));
                complete(&mut live, pending, true);
            }
            Step::Reply(_) => panic!("every request here writes the log"),
        }
    }
    let mut restored = KeeperStorage::new(500);
    for (index, entry) in log.iter() {
        replay(&mut restored, *index, entry).unwrap();
    }
    for path in ["/", "/a", "/a/s-0000000000", "/m"] {
        let a = live.traverse(path).unwrap();
        let b = restored.traverse(path).unwrap();
        assert_eq!(a.data, b.data);
        assert_eq!(a.children, b.children);
        assert_eq!(a.stat, b.stat);
    }
    assert!(!restored.path_exists("/e"));
    assert_eq!(live.last_zxid(), restored.last_zxid());
    assert!(restored.session_state.is_alive(session));
}

#[test]
fn replay_reports_an_inconsistent_log() {
    let mut tree = KeeperStorage::new(500);
    let entry = WalOperation::Delete { path: "/missing".to_string() };
    let err = replay(&mut tree, 1, &entry).unwrap_err();
    assert_eq!(err.message(), "WAL replay of Delete failed: log is inconsistent with state");
}

#[test]
fn replay_errors_name_the_failing_entry() {
    let mut tree = KeeperStorage::new(500);
    let orphan = WalOperation::Create {
        path: "/x/y".to_string(),
        data: vec![],
        timestamp: 0,
        flags: 0,
        session_id: 1,
    };
    let err = replay(&mut tree, 1, &orphan).unwrap_err();
    assert_eq!(err.message(), "WAL replay of Create failed: log is inconsistent with state");
    let set = WalOperation::SetData { path: "/nope".to_string(), data: vec![], timestamp: 0 };
    assert_eq!(replay(&mut tree, 2, &set).unwrap_err().message(), "WAL replay of Set failed: log is inconsistent with state");
    let batch = WalOperation::Multi {
        operations: vec![tinykeeper::keeper_server::MultiWalOperation::Delete { path: "/nope".to_string() }],
        timestamp: 0,
        session_id: 1,
    };
    assert_eq!(replay(&mut tree, 3, &batch).unwrap_err().message(), "WAL replay of Multi Delete: node missing");
}

#[test]
fn replayed_close_after_a_replayed_delete_succeeds() {
    let mut tree = KeeperStorage::new(500);
    let create = WalOperation::Create { path: "/x".to_string(), data: vec![], timestamp: 0, flags: 1, session_id: 5 };
    replay(&mut tree, 1, &create).unwrap();
    replay(&mut tree, 2, &WalOperation::Delete { path: "/x".to_string() }).unwrap();
    replay(&mut tree, 3, &WalOperation::CloseSession { session_id: 5 }).unwrap();
    assert!(!tree.path_exists("/x"));
    assert_eq!(tree.last_zxid(), 3);
}

#[test]
fn replayed_close_fails_on_a_missing_ephemeral_node() {
    let mut tree = KeeperStorage::new(500);
    let create = WalOperation::Create { path: "/x".to_string(), data: vec![], timestamp: 0, flags: 1, session_id: 0 };
    replay(&mut tree, 1, &create).unwrap();
    replay(&mut tree, 2, &WalOperation::Delete { path: "/x".to_string() }).unwrap();
    let err = replay(&mut tree, 3, &WalOperation::CloseSession { session_id: 0 }).unwrap_err();
    assert_eq!(err.message(), "WAL replay of CloseSession cleanup failed");
}

#[test]
fn replay_sets_the_change_id_to_the_index() {
    let mut tree = KeeperStorage::new(500);
    replay(&mut tree, 41, &WalOperation::CreateSession { session_id: 9, timeout_ms: 100 }).unwrap();
    assert_eq!(tree.last_zxid(), 41);
    assert!(tree.session_state.is_alive(SessionId(9)));
    let create = WalOperation::Create { path: "/n".to_string(), data: vec![1], timestamp: 5, flags: 0, session_id: 9 };
    replay(&mut tree, 42, &create).unwrap();
    assert_eq!(tree.traverse("/n").unwrap().stat.czxid, 42);
}

#[test]
fn ephemeral_bookkeeping_follows_the_tree() {
    let mut tree = KeeperStorage::new(500);
    let (a, _, _) = create_session(&mut tree, 5000, 0);
    let (b, _, _) = create_session(&mut tree, 5000, 0);
    run(&mut tree, &request(1, OpCode::Create, &create_body("/a1", b"", 1)), a, 0);
    run(&mut tree, &request(2, OpCode::Create, &create_body("/a2", b"", 1)), a, 0);
    run(&mut tree, &request(3, OpCode::Create, &create_body("/b1", b"", 1)), b, 0);
    let before = tree.last_zxid();
    let under = run(&mut tree, &request(4, OpCode::Create, &create_body("/a1/x", b"", 0)), a, 0);
    assert_eq!(err_of(&under.response), -108);
    assert_eq!(zxid_of(&under.response), before);
    assert_eq!(tree.last_zxid(), before);
    assert!(!tree.path_exists("/a1/x"));
    let deleted = run(&mut tree, &request(5, OpCode::Remove, &path_version_body("/a2", -1)), a, 0);
    assert_eq!(err_of(&deleted.response), 0);
    let closed = run(&mut tree, &request(6, OpCode::Close, &[]), a, 0);
    assert_eq!(err_of(&closed.response), 0);
    assert!(!tree.path_exists("/a1"));
    assert!(!tree.path_exists("/a2"));
    assert!(tree.path_exists("/b1"));
    close_session(&mut tree, b);
    assert!(!tree.path_exists("/b1"));
    assert!(tree.path_exists("/"));
}

/// Runs a request and returns its step, checking that it writes no log entry.
fn reply_only(tree: &mut KeeperStorage, payload: &[u8], session: SessionId) -> ApplyResult {
    match apply(tree, payload, session, 0) {
        Step::Reply(result) => result,
        Step::Persist { .. } => panic!("a refused request writes no log entry"),
    }
}

#[test]
fn refused_creates_write_no_log_entry() {
    let mut tree = KeeperStorage::new(500);
    let (session, _, _) = create_session(&mut tree, 5000, 0);
    run(&mut tree, &request(1, OpCode::Create, &create_body("/eph", b"", 1)), session, 0);
    run(&mut tree, &request(2, OpCode::Create, &create_body("/q", b"", 0)), session, 0);
    run(&mut tree, &request(3, OpCode::Create, &create_body("/q/n0000000001", b"", 0)), session, 0);
    assert!(tree.path_exists("/q/n0000000001"));
    let before = tree.last_zxid();
    let under = reply_only(&mut tree, &request(5, OpCode::Create, &create_body("/eph/c", b"", 0)), session);
    assert_eq!(err_of(&under.response), -108);
    let taken = reply_only(&mut tree, &request(6, OpCode::Create, &create_body("/q/n", b"", 2)), session);
    assert_eq!(err_of(&taken.response), -110);
    assert_eq!(tree.last_zxid(), before);
}

#[test]
fn deleting_the_root_is_refused_without_a_log_entry() {
    let mut tree = KeeperStorage::new(500);
    let before = tree.last_zxid();
    let root = reply_only(&mut tree, &request(1, OpCode::Remove, &path_version_body("/", -1)), SessionId(1));
    assert_eq!(err_of(&root.response), -8);
    assert_eq!(tree.last_zxid(), before);
    assert!(tree.path_exists("/"));
}

#[test]
fn a_client_close_is_logged_and_replays() {
    let mut live = KeeperStorage::new(500);
    let mut log: Vec<(u64, WalOperation)> = Vec::new();
    let (session, entry, zxid) = create_session(&mut live, 5000, 0);
    log.push((zxid as u64, entry));
    let payloads = [
        request(1, OpCode::Create, &create_body("/e1", b"", 1)),
        request(2, OpCode::Create, &create_body("/e2", b"", 1)),
        request(3, OpCode::Remove, &path_version_body("/e1", -1)),
        request(4, OpCode::Close, &[]),
    ];
    let mut last = None;
    for payload in payloads.iter() {
        match apply(&mut live, payload, session, 10) {
            Step::Persist { zxid, entry, pending } => {
                log.push((zxid as u64, entry));
                last = Some(complete(&mut live, pending, true));
            }
            Step::Reply(_) => panic!("every request here writes the log"),
        }
    }
    let closed = last.unwrap();
    assert_eq!(err_of(&closed.response), 0);
    assert_eq!(zxid_of(&closed.response), 5);
    assert!(matches!(log[4].1, WalOperation::CloseSession { session_id: 1 }));
    assert!(!live.session_state.is_alive(session));
    let mut restored = KeeperStorage::new(500);
    for (index, entry) in log.iter() {
        replay(&mut restored, *index, entry).unwrap();
    }
    assert!(!restored.session_state.is_alive(session));
    assert!(!restored.path_exists("/e1"));
    assert!(!restored.path_exists("/e2"));
    assert_eq!(restored.last_zxid(), live.last_zxid());
}

#[test]
fn a_close_whose_log_write_failed_keeps_the_session() {
    let mut tree = KeeperStorage::new(500);
    let (session, _, _) = create_session(&mut tree, 5000, 0);
    run(&mut tree, &request(1, OpCode::Create, &create_body("/e", b"", 1)), session, 0);
    match apply(&mut tree, &request(2, OpCode::Close, &[]), session, 0) {
        Step::Persist { pending, .. } => {
            let r = complete(&mut tree, pending, false);
            assert_eq!(err_of(&r.response), -1);
        }
        Step::Reply(_) => panic!("a close writes the log"),
    }
    assert!(tree.session_state.is_alive(session));
    assert!(tree.path_exists("/e"));
}
