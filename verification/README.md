# tinykeeper

A single-node coordination service that speaks the ZooKeeper wire protocol:
a tree of nodes with sessions, ephemeral and sequential nodes, one-shot
watches and atomic batches (`multi`), made durable by a segmented,
checksummed write-ahead log.

The library under `src/` is written in Verus. Every function there carries a
contract, and the properties the service promises are stated and proved as
proof functions beside the code they are about, among them:

- every change keeps the tree's shape (`storage::lemma_changes_keep_tree`);
- a batch is all or nothing (`keeper_server::lemma_multi_all_or_nothing`);
- every request, completed change, session start and session end keeps the
  ephemeral bookkeeping in step with the tree (`storage::server_inv`, kept by
  `keeper_server::lemma_apply_keeps_inv`, `lemma_complete_keeps_inv`,
  `lemma_sessions_keep_inv`), and a session that ends leaves none of its
  ephemeral nodes (`keeper_server::lemma_session_end_deletes_owned`);
- replaying the log entry a change wrote rebuilds the state that change left
  (`keeper_server::lemma_replay_create`, `_set`, `_delete`, `_multi`,
  `_session`, `_close`), a request answered without a log entry moves
  nothing the log records (`lemma_reply_keeps_tree`), and so a whole log
  replays to the state the server ended with (`lemma_replay_log`); a
  logged session end always replays and leaves none of the session's
  ephemeral nodes (`lemma_close_replays`);
- clearing a session's watches takes exactly its notifications out of every
  later firing (`watch_state::lemma_clear_then_fire`);
- log records, segment names and protocol headers read back as written
  (`changelog::record::lemma_record_round_trip`,
  `changelog::wal_store::lemma_segment_round_trip`, ...).

Layout:

- `src/protocol.rs` — the wire format: request decoding, reply encoding.
- `src/storage.rs`, `src/znode.rs` — the tree and the session bookkeeping.
- `src/session_expiry_queue.rs` — session deadlines in buckets.
- `src/watch_state.rs` — watch registrations and notifications.
- `src/keeper_server.rs` — what each request does and answers; log replay.
- `src/changelog/` — the log's record format, segment names, rotation.
- `src/auth.rs`, `src/connection_handler.rs`, `src/config.rs` — digest
  authentication, per-frame connection decisions, settings.
- `app/` — the program: sockets, files, the clock, the tokio runtime, and the
  serde forms of the log entries and the configuration file.
- `tests/` — tests of the library on concrete values.
