use tinykeeper::protocol::SessionId;
use tinykeeper::storage::{KeeperStorage, SessionState, StorageError};

#[test]
fn new_tree_holds_only_the_root() {
    let tree = KeeperStorage::new(500);
    assert!(tree.path_exists("/"));
    assert!(!tree.path_exists("/a"));
    assert_eq!(tree.last_zxid(), 0);
    let root = tree.traverse("/").unwrap();
    assert!(root.children.is_empty());
    assert_eq!(root.stat.version, 0);
}

#[test]
fn create_then_read_gives_the_node() {
    let mut tree = KeeperStorage::new(500);
    tree.set_last_zxid(7);
    let path = tree.create("/a", b"hello".to_vec(), 1000, SessionId(3), 0).unwrap();
    assert_eq!(path, "/a");
    let node = tree.traverse("/a").unwrap();
    assert_eq!(node.data, b"hello".to_vec());
    assert_eq!(node.stat.czxid, 7);
    assert_eq!(node.stat.ctime, 1000);
    assert_eq!(node.stat.ephemeral_owner, SessionId(0));
    let root = tree.traverse("/").unwrap();
    assert_eq!(root.children, vec!["a".to_string()]);
    assert_eq!(root.stat.cversion, 1);
    assert_eq!(root.stat.pzxid, 7);
}

#[test]
fn create_errors_in_order() {
    let mut tree = KeeperStorage::new(500);
    assert_eq!(tree.create("a", vec![], 0, SessionId(1), 0), Err(StorageError::InvalidPath));
    assert_eq!(tree.create("/", vec![], 0, SessionId(1), 0), Err(StorageError::CreateRoot));
    assert_eq!(tree.create("/x/y", vec![], 0, SessionId(1), 0), Err(StorageError::ParentMissing));
    tree.create("/x", vec![], 0, SessionId(1), 0).unwrap();
    assert_eq!(tree.create("/x", vec![], 0, SessionId(1), 0), Err(StorageError::NodeExists));
    tree.create("/e", vec![], 0, SessionId(1), 1).unwrap();
    assert_eq!(tree.create("/e/c", vec![], 0, SessionId(1), 0), Err(StorageError::EphemeralParent));
    assert_eq!(StorageError::EphemeralParent.message(), "Cannot create child under ephemeral node");
    assert_eq!(StorageError::ParentMissing.message(), "Parent node does not exist");
}

#[test]
fn sequential_nodes_get_the_parents_counter() {
    let mut tree = KeeperStorage::new(500);
    tree.create("/q", vec![], 0, SessionId(1), 0).unwrap();
    let first = tree.create("/q/task-", vec![], 0, SessionId(1), 2).unwrap();
    let second = tree.create("/q/task-", vec![], 0, SessionId(1), 2).unwrap();
    assert_eq!(first, "/q/task-0000000000");
    assert_eq!(second, "/q/task-0000000001");
    let q = tree.traverse("/q").unwrap();
    assert_eq!(q.children, vec!["task-0000000000".to_string(), "task-0000000001".to_string()]);
}

#[test]
fn ephemeral_nodes_are_owned_by_the_session() {
    let mut tree = KeeperStorage::new(500);
    let path = tree.create("/lock", vec![], 0, SessionId(9), 1).unwrap();
    assert_eq!(tree.traverse(&path).unwrap().stat.ephemeral_owner, SessionId(9));
    let owned = tree.session_state.close_session(SessionId(9));
    assert_eq!(owned, vec!["/lock".to_string()]);
}

#[test]
fn children_are_kept_in_order() {
    let mut tree = KeeperStorage::new(500);
    for name in ["/b", "/c", "/a"] {
        tree.create(name, vec![], 0, SessionId(1), 0).unwrap();
    }
    let root = tree.traverse("/").unwrap();
    assert_eq!(root.children, vec!["a".to_string(), "b".to_string(), "c".to_string()]);
}

#[test]
fn set_replaces_data_and_steps_version() {
    let mut tree = KeeperStorage::new(500);
    tree.create("/a", b"x".to_vec(), 0, SessionId(1), 0).unwrap();
    tree.set_last_zxid(5);
    tree.set("/a", b"yy".to_vec(), 77).unwrap();
    let node = tree.traverse("/a").unwrap();
    assert_eq!(node.data, b"yy".to_vec());
    assert_eq!(node.stat.version, 1);
    assert_eq!(node.stat.mzxid, 5);
    assert_eq!(node.stat.mtime, 77);
    assert_eq!(tree.set("/missing", vec![], 0), Err(StorageError::NotFound));
}

#[test]
fn delete_removes_the_node_and_its_name() {
    let mut tree = KeeperStorage::new(500);
    tree.create("/a", vec![], 0, SessionId(1), 0).unwrap();
    tree.create("/a/b", vec![], 0, SessionId(1), 0).unwrap();
    assert_eq!(tree.delete("/a"), Err(StorageError::HasChildren));
    assert_eq!(tree.delete("/"), Err(StorageError::DeleteRoot));
    assert_eq!(tree.delete("/zz"), Err(StorageError::NotFound));
    assert_eq!(tree.delete("zz"), Err(StorageError::InvalidPath));
    tree.delete("/a/b").unwrap();
    assert!(!tree.path_exists("/a/b"));
    let a = tree.traverse("/a").unwrap();
    assert!(a.children.is_empty());
    assert_eq!(a.stat.cversion, 2);
    tree.delete("/a").unwrap();
    assert!(tree.traverse("/").unwrap().children.is_empty());
}

#[test]
fn next_zxid_counts_up() {
    let mut tree = KeeperStorage::new(500);
    assert_eq!(tree.next_zxid(), 1);
    assert_eq!(tree.next_zxid(), 2);
    assert_eq!(tree.last_zxid(), 2);
}

#[test]
fn sessions_get_increasing_ids_and_expire() {
    let mut state = SessionState::new(500);
    let a = state.create_session(1000, 0);
    let b = state.create_session(3000, 0);
    assert_eq!(a, SessionId(1));
    assert_eq!(b, SessionId(2));
    assert!(state.is_alive(a));
    assert_eq!(state.get_expired(999), vec![]);
    assert_eq!(state.get_expired(1000), vec![a]);
    assert_eq!(state.get_expired(5000), vec![a, b]);
    state.touch_session(a, 4000);
    assert_eq!(state.get_expired(4999), vec![b]);
    state.close_session(b);
    assert!(!state.is_alive(b));
    assert_eq!(state.get_expired(10_000), vec![a]);
}

#[test]
fn remove_ephemeral_forgets_one_path() {
    let mut state = SessionState::new(500);
    state.add_ephemeral(SessionId(1), "/a".to_string());
    state.add_ephemeral(SessionId(1), "/b".to_string());
    state.add_ephemeral(SessionId(1), "/a".to_string());
    state.remove_ephemeral(SessionId(1), "/a");
    assert_eq!(state.close_session(SessionId(1)), vec!["/b".to_string()]);
    state.add_ephemeral(SessionId(2), "/c".to_string());
    state.remove_ephemeral(SessionId(2), "/c");
    assert!(state.close_session(SessionId(2)).is_empty());
}

#[test]
fn restored_sessions_push_ids_forward() {
    let mut state = SessionState::new(500);
    state.restore_session(SessionId(41), 1000);
    assert!(state.is_alive(SessionId(41)));
    assert_eq!(state.create_session(1000, 0), SessionId(42));
}

#[test]
fn delete_right_after_create_restores_the_parent_list() {
    let mut tree = KeeperStorage::new(500);
    tree.create("/a", vec![], 0, SessionId(1), 0).unwrap();
    let before = tree.traverse("/a").unwrap().children.clone();
    tree.create("/a/tmp", vec![1, 2], 0, SessionId(1), 0).unwrap();
    tree.delete("/a/tmp").unwrap();
    assert_eq!(tree.traverse("/a").unwrap().children, before);
    assert!(!tree.path_exists("/a/tmp"));
    assert_eq!(tree.traverse("/a").unwrap().stat.cversion, 2);
}

#[test]
fn sequential_counter_counts_deletes_too() {
    let mut tree = KeeperStorage::new(500);
    tree.create("/q", vec![], 0, SessionId(1), 0).unwrap();
    tree.create("/q/a", vec![], 0, SessionId(1), 0).unwrap();
    tree.delete("/q/a").unwrap();
    assert_eq!(tree.create("/q/s", vec![], 0, SessionId(1), 2).unwrap(), "/q/s0000000002");
}

#[test]
fn restored_sessions_expire_once_refreshed() {
    let mut state = SessionState::new(500);
    state.restore_session(SessionId(7), 1000);
    state.restore_session(SessionId(8), 3000);
    assert!(state.get_expired(i64::MAX / 2).is_empty());
    assert!(state.touch_all_fits(10_000));
    state.touch_all(10_000);
    assert_eq!(state.get_expired(11_000), vec![SessionId(7)]);
    assert_eq!(state.get_expired(13_000), vec![SessionId(7), SessionId(8)]);
    assert!(!state.touch_all_fits(i64::MAX));
}

#[test]
fn only_the_latest_touch_counts() {
    let mut queue = tinykeeper::session_expiry_queue::SessionExpiryQueue::new(500);
    queue.touch(SessionId(1), 1000, 0);
    queue.touch(SessionId(2), 1000, 0);
    queue.touch(SessionId(1), 1000, 5000);
    assert_eq!(queue.get_expired(1000), vec![SessionId(2)]);
    assert_eq!(queue.get_expired(6000), vec![SessionId(2), SessionId(1)]);
}
