//! What each request does to the state and what it answers.
//!
//! The server around this module reads requests, keeps the clock and writes
//! the log. Here a request, given the time, becomes either an answer or a
//! change that must reach the log before it is applied; once the log write
//! has been tried, `complete` applies the change and gives the answer.

use vstd::prelude::*;
use vstd::string::*;
use vstd::utf8::*;
use crate::codec::put_bytes;
use crate::protocol::{
    create_request_wire, i32_at, jute_bytes, multi_request_wire, multi_response_bytes, opcode_of,
    outcomes, path_version_wire, path_watch_wire, reply_header_bytes, set_data_request_wire,
    notification_bytes, stat_bytes, string_list_bytes, CheckRequest, CreateRequest, CreateResponse, Decoded,
    DeleteRequest, ErrorCode, ExistsRequest, ExistsResponse, GetChildrenRequest,
    GetChildrenResponse, GetDataRequest, GetDataResponse, MultiOp, MultiOpResponse, MultiOpSpec,
    MultiRequest, MultiResponse, OpCode, OpOutcome, Parse, ReplyHeader, RequestHeader, SessionId,
    SetDataRequest, SetDataResponse, WatchEventType,
};
use crate::session_expiry_queue::{bucket_fits, expiry_bucket, fits_bucket};
use crate::storage::{
    bump, create_target, create_view, ephemerals_consistent, lemma_set_then_read, server_inv, lemma_create_then_read, lemma_split_path, delete_target, delete_view, lemma_changes_keep_tree, path_set, paths_distinct, root_path,
    set_view, split_path, tree_wf, without_ephemeral, KeeperStorage, KeeperView, StorageError,
};
use crate::text::{str_eq, str_rsplit_once};
use crate::watch_state::{
    events_view, fire_spec, lemma_change_notifies, lemma_create_notifies, lemma_delete_notifies, registered, watch_parent, without_session,
    ApplyResult, EventView, Registration, WatchEvent, WatchType,
};
use crate::znode::{children_sorted, remove_value, NodeView};

verus! {

broadcast use vstd::utf8::encode_utf8_decode_utf8;

// ---------------------------------------------------------------------
// Replies
// ---------------------------------------------------------------------

/// A reply made of the header alone, with no notifications.
fn header_reply(xid: i32, zxid: i64, err: ErrorCode) -> (r: ApplyResult)
    ensures
        r.response@ == reply_header_bytes(xid, zxid, err),
        r.watch_events@.len() == 0,
{
    ApplyResult { response: ReplyHeader { xid, zxid, err }.to_bytes(), watch_events: Vec::new() }
}

/// No reply at all: a request whose body ends before a field it announces
/// is dropped.
fn no_reply() -> (r: ApplyResult)
    ensures
        r.response@ == Seq::<u8>::empty(),
        r.watch_events@.len() == 0,
{
    let r = ApplyResult { response: Vec::new(), watch_events: Vec::new() };
    assert(r.response@ =~= Seq::<u8>::empty());
    r
}

/// The names of a node's children as UTF-8, in order.
pub open spec fn child_names(n: NodeView) -> Seq<Seq<u8>> {
    n.children.map_values(|c: Seq<char>| encode_utf8(c))
}

/// A node's Stat as replies encode it.
pub open spec fn node_stat_bytes(n: NodeView) -> Seq<u8> {
    stat_bytes(n.stat, n.data.len() as i32, n.children.len() as i32)
}

/// The reply to a read of `path`: the header with the node's body, or
/// `NoNode`.
pub open spec fn read_reply(v: KeeperView, xid: i32, path: Seq<char>, body: spec_fn(NodeView) -> Seq<u8>) -> Seq<u8> {
    if v.nodes.contains_key(path) {
        reply_header_bytes(xid, v.zxid, ErrorCode::Success) + body(v.nodes[path])
    } else {
        reply_header_bytes(xid, v.zxid, ErrorCode::NoNode)
    }
}

/// The body of a getData reply: the data, then the Stat.
pub open spec fn get_data_body(n: NodeView) -> Seq<u8> {
    jute_bytes(n.data) + node_stat_bytes(n)
}

/// The body of an exists reply: the Stat.
pub open spec fn exists_body(n: NodeView) -> Seq<u8> {
    node_stat_bytes(n)
}

/// The body of a getChildren reply: the names, then the Stat.
pub open spec fn list_body(n: NodeView) -> Seq<u8> {
    string_list_bytes(child_names(n)) + node_stat_bytes(n)
}

/// The body of a simple getChildren reply: the names.
pub open spec fn simple_list_body(n: NodeView) -> Seq<u8> {
    string_list_bytes(child_names(n))
}

/// The state after a read that asked (`watch`) to register `r`.
pub open spec fn watched(v: KeeperView, watch: bool, r: Registration) -> KeeperView {
    if watch {
        KeeperView { watches: registered(v.watches, r), ..v }
    } else {
        v
    }
}

/// A read request whose body is a path and a watch flag: the state after it
/// and its reply. A body that ends early gets no reply; one whose path is
/// not UTF-8 gets `BadArguments`.
pub open spec fn read_outcome(
    v: KeeperView,
    xid: i32,
    body: Seq<u8>,
    session_id: SessionId,
    kind: WatchType,
    reply_body: spec_fn(NodeView) -> Seq<u8>,
) -> (KeeperView, Seq<u8>) {
    match path_watch_wire(body) {
        Parse::Incomplete => (v, Seq::empty()),
        Parse::Malformed => (v, reply_header_bytes(xid, v.zxid, ErrorCode::BadArguments)),
        Parse::Parsed((p, w), _) => {
            let path = decode_utf8(p);
            (
                watched(v, w, (session_id, path, kind)),
                read_reply(v, xid, path, reply_body),
            )
        },
    }
}

// ---------------------------------------------------------------------
// Reads
// ---------------------------------------------------------------------

/// A copy of `src`.
fn bytes_of(src: &[u8]) -> (r: Vec<u8>)
    ensures
        r@ == src@,
{
    let mut r: Vec<u8> = Vec::new();
    put_bytes(&mut r, src);
    assert(r@ =~= src@);
    r
}

/// Appends `tail` to `head`.
fn concat(head: Vec<u8>, tail: Vec<u8>) -> (r: Vec<u8>)
    ensures
        r@ == head@ + tail@,
{
    let mut head = head;
    put_bytes(&mut head, tail.as_slice());
    head
}

/// getData: the node's data and Stat; a watch asks to hear of its next
/// change.
pub fn handle_get(tree: &mut KeeperStorage, xid: i32, body: &[u8], session_id: SessionId) -> (r: ApplyResult)
    requires
        old(tree).wf(),
    ensures
        final(tree).wf(),
        final(tree)@ == read_outcome(old(tree)@, xid, body@, session_id, WatchType::Watch, |n: NodeView| get_data_body(n)).0,
        r.response@ == read_outcome(old(tree)@, xid, body@, session_id, WatchType::Watch, |n: NodeView| get_data_body(n)).1,
        r.watch_events@.len() == 0,
{
    let mut buf = body;
    let req = match GetDataRequest::decode(&mut buf) {
        Decoded::Parsed(q) => q,
        Decoded::Malformed => {
            return header_reply(xid, tree.last_zxid(), ErrorCode::BadArguments);
        },
        Decoded::Incomplete => {
            return no_reply();
        },
    };
    if req.watch {
        tree.watch_state.register(session_id, req.path.to_owned(), WatchType::Watch);
    }
    match tree.traverse(req.path) {
        Some(node) => {
            let head = ReplyHeader { xid, zxid: tree.last_zxid(), err: ErrorCode::Success }.to_bytes();
            let tail = GetDataResponse { data: node.data.as_slice(), stat: &node.stat }.to_bytes(
                node.children.len() as i32,
            );
            ApplyResult { response: concat(head, tail), watch_events: Vec::new() }
        },
        None => header_reply(xid, tree.last_zxid(), ErrorCode::NoNode),
    }
}

/// exists: the node's Stat; a watch asks to hear of its next change, or of
/// its creation.
pub fn handle_exists(tree: &mut KeeperStorage, xid: i32, body: &[u8], session_id: SessionId) -> (r: ApplyResult)
    requires
        old(tree).wf(),
    ensures
        final(tree).wf(),
        final(tree)@ == read_outcome(old(tree)@, xid, body@, session_id, WatchType::Watch, |n: NodeView| exists_body(n)).0,
        r.response@ == read_outcome(old(tree)@, xid, body@, session_id, WatchType::Watch, |n: NodeView| exists_body(n)).1,
        r.watch_events@.len() == 0,
{
    let mut buf = body;
    let req = match ExistsRequest::decode(&mut buf) {
        Decoded::Parsed(q) => q,
        Decoded::Malformed => {
            return header_reply(xid, tree.last_zxid(), ErrorCode::BadArguments);
        },
        Decoded::Incomplete => {
            return no_reply();
        },
    };
    if req.watch {
        tree.watch_state.register(session_id, req.path.to_owned(), WatchType::Watch);
    }
    match tree.traverse(req.path) {
        Some(node) => {
            let head = ReplyHeader { xid, zxid: tree.last_zxid(), err: ErrorCode::Success }.to_bytes();
            let tail = ExistsResponse { stat: &node.stat }.to_bytes(
                node.data.len() as i32,
                node.children.len() as i32,
            );
            ApplyResult { response: concat(head, tail), watch_events: Vec::new() }
        },
        None => header_reply(xid, tree.last_zxid(), ErrorCode::NoNode),
    }
}

/// The names of the children, in order, as a list to encode.
fn name_refs(children: &Vec<String>) -> (r: Vec<&String>)
    ensures
        r@.len() == children@.len(),
        forall|i: int| 0 <= i < r@.len() ==> #[trigger] r@[i] == children@[i],
{
    let mut r: Vec<&String> = Vec::new();
    let n = children.len();
    for i in 0..n
        invariant
            n == children@.len(),
            r@.len() == i,
            forall|j: int| 0 <= j < i ==> #[trigger] r@[j] == children@[j],
    {
        r.push(&children[i]);
    }
    r
}

/// The list body of a node's children.
fn children_bytes(node: &crate::znode::Node) -> (r: Vec<u8>)
    ensures
        r@ == string_list_bytes(child_names(node@)),
{
    let names = name_refs(&node.children);
    let r = GetChildrenResponse { children: names.as_slice() }.to_bytes();
    assert(crate::protocol::names_utf8(names@) =~= child_names(node@));
    r
}

/// getChildren: the names of the children in ascending order, then the
/// node's Stat (`with_stat`), or the names alone; a watch asks to hear of
/// the next change to the list.
pub fn handle_get_children(
    tree: &mut KeeperStorage,
    xid: i32,
    body: &[u8],
    session_id: SessionId,
) -> (r: ApplyResult)
    requires
        old(tree).wf(),
    ensures
        final(tree).wf(),
        final(tree)@ == read_outcome(old(tree)@, xid, body@, session_id, WatchType::ListWatch, |n: NodeView| list_body(n)).0,
        r.response@ == read_outcome(old(tree)@, xid, body@, session_id, WatchType::ListWatch, |n: NodeView| list_body(n)).1,
        r.watch_events@.len() == 0,
{
    let mut buf = body;
    let req = match GetChildrenRequest::decode(&mut buf) {
        Decoded::Parsed(q) => q,
        Decoded::Malformed => {
            return header_reply(xid, tree.last_zxid(), ErrorCode::BadArguments);
        },
        Decoded::Incomplete => {
            return no_reply();
        },
    };
    if req.watch {
        tree.watch_state.register(session_id, req.path.to_owned(), WatchType::ListWatch);
    }
    match tree.traverse(req.path) {
        Some(node) => {
            let head = ReplyHeader { xid, zxid: tree.last_zxid(), err: ErrorCode::Success }.to_bytes();
            let names = children_bytes(node);
            let stat = node.stat.to_bytes(node.data.len() as i32, node.children.len() as i32);
            ApplyResult { response: concat(concat(head, names), stat), watch_events: Vec::new() }
        },
        None => header_reply(xid, tree.last_zxid(), ErrorCode::NoNode),
    }
}

/// The simple getChildren: the names of the children in ascending order;
/// a watch asks to hear of the next change to the list.
pub fn handle_get_children_simple(
    tree: &mut KeeperStorage,
    xid: i32,
    body: &[u8],
    session_id: SessionId,
) -> (r: ApplyResult)
    requires
        old(tree).wf(),
    ensures
        final(tree).wf(),
        final(tree)@ == read_outcome(old(tree)@, xid, body@, session_id, WatchType::ListWatch, |n: NodeView| simple_list_body(n)).0,
        r.response@ == read_outcome(old(tree)@, xid, body@, session_id, WatchType::ListWatch, |n: NodeView| simple_list_body(n)).1,
        r.watch_events@.len() == 0,
{
    let mut buf = body;
    let req = match GetChildrenRequest::decode(&mut buf) {
        Decoded::Parsed(q) => q,
        Decoded::Malformed => {
            return header_reply(xid, tree.last_zxid(), ErrorCode::BadArguments);
        },
        Decoded::Incomplete => {
            return no_reply();
        },
    };
    if req.watch {
        tree.watch_state.register(session_id, req.path.to_owned(), WatchType::ListWatch);
    }
    match tree.traverse(req.path) {
        Some(node) => {
            let head = ReplyHeader { xid, zxid: tree.last_zxid(), err: ErrorCode::Success }.to_bytes();
            let names = children_bytes(node);
            ApplyResult { response: concat(head, names), watch_events: Vec::new() }
        },
        None => header_reply(xid, tree.last_zxid(), ErrorCode::NoNode),
    }
}

// ---------------------------------------------------------------------
// Log entries
// ---------------------------------------------------------------------

/// One change of a multi request, as written to the log.
pub enum MultiWalOperation {
    Create { path: String, data: Vec<u8>, flags: i32 },
    SetData { path: String, data: Vec<u8> },
    Delete { path: String },
}

/// A multi change as a specification value.
pub enum MultiWalOp {
    Create(Seq<char>, Seq<u8>, i32),
    SetData(Seq<char>, Seq<u8>),
    Delete(Seq<char>),
}

impl View for MultiWalOperation {
    type V = MultiWalOp;

    open spec fn view(&self) -> MultiWalOp {
        match self {
            MultiWalOperation::Create { path, data, flags } => MultiWalOp::Create(path@, data@, *flags),
            MultiWalOperation::SetData { path, data } => MultiWalOp::SetData(path@, data@),
            MultiWalOperation::Delete { path } => MultiWalOp::Delete(path@),
        }
    }
}

/// A change as written to the log; replaying the log applies them in order.
pub enum WalOperation {
    Create { path: String, data: Vec<u8>, timestamp: i64, flags: i32, session_id: i64 },
    SetData { path: String, data: Vec<u8>, timestamp: i64 },
    Delete { path: String },
    CreateSession { session_id: i64, timeout_ms: i64 },
    CloseSession { session_id: i64 },
    Multi { operations: Vec<MultiWalOperation>, timestamp: i64, session_id: i64 },
}

/// A logged change as a specification value.
pub enum WalOp {
    Create(Seq<char>, Seq<u8>, i64, i32, i64),
    SetData(Seq<char>, Seq<u8>, i64),
    Delete(Seq<char>),
    CreateSession(i64, i64),
    CloseSession(i64),
    Multi(Seq<MultiWalOp>, i64, i64),
}

/// The specification values of a list of multi changes.
pub open spec fn multi_wal_views(ops: Seq<MultiWalOperation>) -> Seq<MultiWalOp> {
    ops.map_values(|o: MultiWalOperation| o@)
}

impl View for WalOperation {
    type V = WalOp;

    open spec fn view(&self) -> WalOp {
        match self {
            WalOperation::Create { path, data, timestamp, flags, session_id } => WalOp::Create(
                path@,
                data@,
                *timestamp,
                *flags,
                *session_id,
            ),
            WalOperation::SetData { path, data, timestamp } => WalOp::SetData(path@, data@, *timestamp),
            WalOperation::Delete { path } => WalOp::Delete(path@),
            WalOperation::CreateSession { session_id, timeout_ms } => WalOp::CreateSession(
                *session_id,
                *timeout_ms,
            ),
            WalOperation::CloseSession { session_id } => WalOp::CloseSession(*session_id),
            WalOperation::Multi { operations, timestamp, session_id } => WalOp::Multi(
                multi_wal_views(operations@),
                *timestamp,
                *session_id,
            ),
        }
    }
}

// ---------------------------------------------------------------------
// Changes waiting for the log
// ---------------------------------------------------------------------

/// A change that was checked and is waiting for its log entry to be
/// written. A batch carries the state it leads to, its outcomes and its
/// notifications; a close names the session that ends.
pub enum Pending {
    Create { xid: i32, path: String, data: Vec<u8>, flags: i32, session_id: SessionId, timestamp: i64 },
    SetData { xid: i32, path: String, data: Vec<u8>, timestamp: i64 },
    Delete { xid: i32, path: String },
    Close { xid: i32, session_id: SessionId },
    Multi {
        xid: i32,
        zxid: i64,
        staged: KeeperStorage,
        responses: Vec<MultiOpResponse>,
        watch_events: Vec<WatchEvent>,
    },
}

/// A waiting change as a specification value.
pub enum PendingView {
    Create(i32, Seq<char>, Seq<u8>, i32, SessionId, i64),
    SetData(i32, Seq<char>, Seq<u8>, i64),
    Delete(i32, Seq<char>),
    Close(i32, SessionId),
    Multi(i32, i64, KeeperView, Seq<OpOutcome>, Seq<EventView>),
}

impl View for Pending {
    type V = PendingView;

    open spec fn view(&self) -> PendingView {
        match self {
            Pending::Create { xid, path, data, flags, session_id, timestamp } => PendingView::Create(
                *xid,
                path@,
                data@,
                *flags,
                *session_id,
                *timestamp,
            ),
            Pending::SetData { xid, path, data, timestamp } => PendingView::SetData(
                *xid,
                path@,
                data@,
                *timestamp,
            ),
            Pending::Delete { xid, path } => PendingView::Delete(*xid, path@),
            Pending::Close { xid, session_id } => PendingView::Close(*xid, *session_id),
            Pending::Multi { xid, zxid, staged, responses, watch_events } => PendingView::Multi(
                *xid,
                *zxid,
                staged@,
                outcomes(responses@),
                events_view(watch_events@),
            ),
        }
    }
}

impl Pending {
    /// A batch's state keeps the invariant.
    pub open spec fn wf(&self) -> bool {
        self matches Pending::Multi { staged, .. } ==> staged.wf()
    }
}

/// What a request leads to: a reply now, or a log entry (with its index)
/// to write before the change can be completed.
pub enum Step {
    Reply(ApplyResult),
    Persist { zxid: i64, entry: WalOperation, pending: Pending },
}

/// What a request leads to, as a specification value: the reply (with no
/// notifications), or the log entry and the waiting change.
pub enum Begin {
    Reply(Seq<u8>),
    Persist(WalOp, PendingView),
}

/// `step` is what `b` describes, for a state whose change id was `zxid`.
pub open spec fn step_is(step: Step, b: Begin, zxid: i64) -> bool {
    match b {
        Begin::Reply(bytes) => step matches Step::Reply(a) && a.response@ == bytes
            && a.watch_events@.len() == 0,
        Begin::Persist(op, pv) => step matches Step::Persist { zxid: z, entry, pending } && z
            == zxid + 1 && entry@ == op && pending@ == pv && pending.wf(),
    }
}

/// The state with the next change id taken.
pub open spec fn next_change(v: KeeperView) -> KeeperView {
    KeeperView { zxid: (v.zxid + 1) as i64, ..v }
}

/// The state after a request led to `b`: unchanged for a reply or a batch
/// (which works on a copy); with the next change id taken for any other
/// log entry.
pub open spec fn begun(v: KeeperView, b: Begin) -> KeeperView {
    match b {
        Begin::Reply(_) => v,
        Begin::Persist(_, PendingView::Multi(..)) => v,
        Begin::Persist(_, _) => KeeperView { zxid: (v.zxid + 1) as i64, ..v },
    }
}

/// A reply made of the header alone.
pub open spec fn header_only(v: KeeperView, xid: i32, err: ErrorCode) -> Begin {
    Begin::Reply(reply_header_bytes(xid, v.zxid, err))
}

/// The start of a create: the request is refused if the node exists, and
/// otherwise for the reasons the tree would refuse it (`create_target`): a
/// path with no `/` or naming the root (`BadArguments`), a missing parent
/// (`NoNode`), a sequential name already taken (`NodeExists`), an ephemeral
/// parent (`NoChildrenForEphemerals`). Only a create that will succeed
/// waits for its log entry.
pub open spec fn create_begin(v: KeeperView, xid: i32, body: Seq<u8>, session_id: SessionId, now: i64) -> Begin {
    match create_request_wire(body) {
        Parse::Incomplete => Begin::Reply(Seq::empty()),
        Parse::Malformed => header_only(v, xid, ErrorCode::BadArguments),
        Parse::Parsed((p, d, f), _) => {
            let path = decode_utf8(p);
            if v.nodes.contains_key(path) {
                header_only(v, xid, ErrorCode::NodeExists)
            } else {
                match create_target(v.nodes, path, f) {
                    Err(e) => header_only(v, xid, create_error_code(e)),
                    Ok(_) => Begin::Persist(
                        WalOp::Create(path, d, now, f, session_id.0),
                        PendingView::Create(xid, path, d, f, session_id, now),
                    ),
                }
            }
        },
    }
}

/// Whether `version` asks for a version other than the node's (-1 matches
/// any).
pub open spec fn version_mismatch(version: i32, n: NodeView) -> bool {
    version != -1 && version != n.stat.version
}

/// The start of a setData: refused with `NoNode` or `BadVersion`; else it
/// waits for its log entry.
pub open spec fn set_begin(v: KeeperView, xid: i32, body: Seq<u8>, now: i64) -> Begin {
    match set_data_request_wire(body) {
        Parse::Incomplete => Begin::Reply(Seq::empty()),
        Parse::Malformed => header_only(v, xid, ErrorCode::BadArguments),
        Parse::Parsed((p, d, ver), _) => {
            let path = decode_utf8(p);
            if !v.nodes.contains_key(path) {
                header_only(v, xid, ErrorCode::NoNode)
            } else if version_mismatch(ver, v.nodes[path]) {
                header_only(v, xid, ErrorCode::BadVersion)
            } else {
                Begin::Persist(WalOp::SetData(path, d, now), PendingView::SetData(xid, path, d, now))
            }
        },
    }
}

/// The start of a delete: refused with `NoNode`, `BadVersion`,
/// `BadArguments` (the root) or `NotEmpty`; else it waits for its log entry.
pub open spec fn delete_begin(v: KeeperView, xid: i32, body: Seq<u8>) -> Begin {
    match path_version_wire(body) {
        Parse::Incomplete => Begin::Reply(Seq::empty()),
        Parse::Malformed => header_only(v, xid, ErrorCode::BadArguments),
        Parse::Parsed((p, ver), _) => {
            let path = decode_utf8(p);
            if !v.nodes.contains_key(path) {
                header_only(v, xid, ErrorCode::NoNode)
            } else if version_mismatch(ver, v.nodes[path]) {
                header_only(v, xid, ErrorCode::BadVersion)
            } else if path == root_path() {
                header_only(v, xid, ErrorCode::BadArguments)
            } else if v.nodes[path].children.len() > 0 {
                header_only(v, xid, ErrorCode::NotEmpty)
            } else {
                Begin::Persist(WalOp::Delete(path), PendingView::Delete(xid, path))
            }
        },
    }
}

/// The state after the watches that `event` at `path` reaches have fired,
/// and the notifications.
pub open spec fn fired(v: KeeperView, path: Seq<char>, event: WatchEventType) -> (KeeperView, Seq<EventView>) {
    (KeeperView { watches: fire_spec(v.watches, path, event).1, ..v }, fire_spec(v.watches, path, event).0)
}

/// Whether completing `p` on a state with `nodes` is defined: a data update
/// or a delete needs its node, and a batch needs its log entry written.
pub open spec fn can_complete(nodes: Map<Seq<char>, NodeView>, p: PendingView, flushed: bool) -> bool {
    match p {
        PendingView::SetData(_, path, _, _) => nodes.contains_key(path),
        PendingView::Delete(_, path) => nodes.contains_key(path),
        PendingView::Multi(..) => flushed,
        _ => true,
    }
}

/// The end of a waiting change, once writing its log entry succeeded
/// (`flushed`) or failed: the state after it, the reply and the
/// notifications. A failed write is answered `SystemError` and changes
/// nothing more. `paths` is the order in which a close deletes the
/// session's ephemeral nodes; no other change uses it.
pub open spec fn complete_view(v: KeeperView, p: PendingView, flushed: bool, paths: Seq<Seq<char>>) -> (KeeperView, Seq<u8>, Seq<EventView>) {
    match p {
        PendingView::Close(xid, sid) => if !flushed {
            (v, reply_header_bytes(xid, v.zxid, ErrorCode::SystemError), Seq::empty())
        } else {
            (closed_by_client(v, sid, paths), reply_header_bytes(xid, v.zxid, ErrorCode::Success), Seq::empty())
        },
        PendingView::Multi(xid, zxid, staged, outs, evs) => (
            staged,
            reply_header_bytes(xid, zxid, ErrorCode::Success) + multi_response_bytes(outs),
            evs,
        ),
        PendingView::Create(xid, path, d, f, sid, ts) => if !flushed {
            (v, reply_header_bytes(xid, v.zxid, ErrorCode::SystemError), Seq::empty())
        } else {
            let (v1, res) = create_view(v, path, d, ts, sid, f);
            match res {
                Err(_) => (v1, reply_header_bytes(xid, v1.zxid, ErrorCode::BadArguments), Seq::empty()),
                Ok(full) => {
                    let (v2, evs) = fired(v1, full, WatchEventType::Created);
                    (
                        v2,
                        reply_header_bytes(xid, v2.zxid, ErrorCode::Success) + jute_bytes(encode_utf8(full)),
                        evs,
                    )
                },
            }
        },
        PendingView::SetData(xid, path, d, ts) => if !flushed {
            (v, reply_header_bytes(xid, v.zxid, ErrorCode::SystemError), Seq::empty())
        } else {
            let (v2, evs) = fired(set_view(v, path, d, ts).0, path, WatchEventType::Changed);
            (
                v2,
                reply_header_bytes(xid, v2.zxid, ErrorCode::Success) + node_stat_bytes(v2.nodes[path]),
                evs,
            )
        },
        PendingView::Delete(xid, path) => if !flushed {
            (v, reply_header_bytes(xid, v.zxid, ErrorCode::SystemError), Seq::empty())
        } else {
            let (v3, evs) = fired(deleted_with_owner(v, path), path, WatchEventType::Deleted);
            (v3, reply_header_bytes(xid, v3.zxid, ErrorCode::Success), evs)
        },
    }
}

// ---------------------------------------------------------------------
// Writes
// ---------------------------------------------------------------------

/// create: checks the request and, if it may go ahead, takes the next
/// change id and returns the log entry to write.
pub fn handle_create(
    tree: &mut KeeperStorage,
    xid: i32,
    body: &[u8],
    session_id: SessionId,
    now: i64,
) -> (r: Step)
    requires
        old(tree).wf(),
        old(tree).zxid() < i64::MAX,
    ensures
        final(tree).wf(),
        step_is(r, create_begin(old(tree)@, xid, body@, session_id, now), old(tree).zxid()),
        final(tree)@ == begun(old(tree)@, create_begin(old(tree)@, xid, body@, session_id, now)),
{
    let mut buf = body;
    let req = match CreateRequest::decode(&mut buf) {
        Decoded::Parsed(q) => q,
        Decoded::Malformed => {
            return Step::Reply(header_reply(xid, tree.last_zxid(), ErrorCode::BadArguments));
        },
        Decoded::Incomplete => {
            return Step::Reply(no_reply());
        },
    };
    if tree.path_exists(req.path) {
        return Step::Reply(header_reply(xid, tree.last_zxid(), ErrorCode::NodeExists));
    }
    match tree.create_check(req.path, req.flags) {
        Err(e) => {
            return Step::Reply(header_reply(xid, tree.last_zxid(), create_error(e)));
        },
        Ok(()) => {},
    }
    let data = bytes_of(req.data);
    let logged = bytes_of(req.data);
    let entry = WalOperation::Create {
        path: req.path.to_owned(),
        data: logged,
        timestamp: now,
        flags: req.flags,
        session_id: session_id.0,
    };
    let zxid = tree.next_zxid();
    let pending = Pending::Create {
        xid,
        path: req.path.to_owned(),
        data,
        flags: req.flags,
        session_id,
        timestamp: now,
    };
    Step::Persist { zxid, entry, pending }
}

/// setData: checks the request and, if it may go ahead, takes the next
/// change id and returns the log entry to write.
pub fn handle_set(tree: &mut KeeperStorage, xid: i32, body: &[u8], now: i64) -> (r: Step)
    requires
        old(tree).wf(),
        old(tree).zxid() < i64::MAX,
    ensures
        final(tree).wf(),
        step_is(r, set_begin(old(tree)@, xid, body@, now), old(tree).zxid()),
        final(tree)@ == begun(old(tree)@, set_begin(old(tree)@, xid, body@, now)),
{
    let mut buf = body;
    let req = match SetDataRequest::decode(&mut buf) {
        Decoded::Parsed(q) => q,
        Decoded::Malformed => {
            return Step::Reply(header_reply(xid, tree.last_zxid(), ErrorCode::BadArguments));
        },
        Decoded::Incomplete => {
            return Step::Reply(no_reply());
        },
    };
    let current_version = match tree.traverse(req.path) {
        Some(node) => node.stat.version,
        None => {
            return Step::Reply(header_reply(xid, tree.last_zxid(), ErrorCode::NoNode));
        },
    };
    if req.version != -1 && current_version != req.version {
        return Step::Reply(header_reply(xid, tree.last_zxid(), ErrorCode::BadVersion));
    }
    let data = bytes_of(req.data);
    let logged = bytes_of(req.data);
    let entry = WalOperation::SetData { path: req.path.to_owned(), data: logged, timestamp: now };
    let zxid = tree.next_zxid();
    let pending = Pending::SetData { xid, path: req.path.to_owned(), data, timestamp: now };
    Step::Persist { zxid, entry, pending }
}

/// delete: checks the request and, if it may go ahead, takes the next
/// change id and returns the log entry to write.
pub fn handle_delete(tree: &mut KeeperStorage, xid: i32, body: &[u8]) -> (r: Step)
    requires
        old(tree).wf(),
        old(tree).zxid() < i64::MAX,
    ensures
        final(tree).wf(),
        step_is(r, delete_begin(old(tree)@, xid, body@), old(tree).zxid()),
        final(tree)@ == begun(old(tree)@, delete_begin(old(tree)@, xid, body@)),
{
    let mut buf = body;
    let req = match DeleteRequest::decode(&mut buf) {
        Decoded::Parsed(q) => q,
        Decoded::Malformed => {
            return Step::Reply(header_reply(xid, tree.last_zxid(), ErrorCode::BadArguments));
        },
        Decoded::Incomplete => {
            return Step::Reply(no_reply());
        },
    };
    let node = match tree.traverse(req.path) {
        Some(node) => node,
        None => {
            return Step::Reply(header_reply(xid, tree.last_zxid(), ErrorCode::NoNode));
        },
    };
    if req.version != -1 && node.stat.version != req.version {
        return Step::Reply(header_reply(xid, tree.last_zxid(), ErrorCode::BadVersion));
    }
    proof {
        reveal_strlit("/");
    }
    assert(decode_utf8(req.path.spec_bytes()) == req.path@);
    if str_eq(req.path, "/") {
        return Step::Reply(header_reply(xid, tree.last_zxid(), ErrorCode::BadArguments));
    }
    assert("/"@ == root_path());
    assert(req.path@ != root_path());
    if node.children.len() > 0 {
        return Step::Reply(header_reply(xid, tree.last_zxid(), ErrorCode::NotEmpty));
    }
    let entry = WalOperation::Delete { path: req.path.to_owned() };
    let zxid = tree.next_zxid();
    let pending = Pending::Delete { xid, path: req.path.to_owned() };
    Step::Persist { zxid, entry, pending }
}

/// Completes a waiting change once its log entry was written (`flushed`)
/// or failed to be: applies it, fires the watches it reaches and returns
/// the reply with the notifications.
pub fn complete(tree: &mut KeeperStorage, pending: Pending, flushed: bool) -> (r: ApplyResult)
    requires
        old(tree).wf(),
        pending.wf(),
        can_complete(old(tree).nodes(), pending@, flushed),
    ensures
        final(tree).wf(),
        exists|paths: Seq<Seq<char>>|
            (flushed ==> (pending@ matches PendingView::Close(_, sid) ==> lists_owned(old(tree)@, sid, paths)))
                && #[trigger] complete_view(old(tree)@, pending@, flushed, paths) == (
                final(tree)@,
                r.response@,
                events_view(r.watch_events@),
            ),
{
    match pending {
        Pending::Close { xid, session_id } => {
            if !flushed {
                let r = header_reply(xid, tree.last_zxid(), ErrorCode::SystemError);
                assert(complete_view(old(tree)@, pending@, flushed, Seq::empty()) == (
                    final(tree)@,
                    r.response@,
                    events_view(r.watch_events@),
                ));
                return r;
            }
            let r = handle_close(tree, xid, session_id);
            proof {
                let w = choose|paths: Seq<Seq<char>>|
                    lists_owned(old(tree)@, session_id, paths) && tree@ == #[trigger] closed_by_client(
                        old(tree)@,
                        session_id,
                        paths,
                    );
                assert(complete_view(old(tree)@, pending@, flushed, w) == (
                    final(tree)@,
                    r.response@,
                    events_view(r.watch_events@),
                ));
            }
            r
        },
        other => {
            let ghost pv = other@;
            let r = complete_change(tree, other, flushed);
            assert(complete_view(old(tree)@, pv, flushed, Seq::empty()) == (
                final(tree)@,
                r.response@,
                events_view(r.watch_events@),
            ));
            r
        },
    }
}

/// Completes a waiting change other than a close.
fn complete_change(tree: &mut KeeperStorage, pending: Pending, flushed: bool) -> (r: ApplyResult)
    requires
        old(tree).wf(),
        pending.wf(),
        can_complete(old(tree).nodes(), pending@, flushed),
        !(pending is Close),
    ensures
        final(tree).wf(),
        final(tree)@ == complete_view(old(tree)@, pending@, flushed, Seq::empty()).0,
        r.response@ == complete_view(old(tree)@, pending@, flushed, Seq::empty()).1,
        events_view(r.watch_events@) == complete_view(old(tree)@, pending@, flushed, Seq::empty()).2,
{
    match pending {
        Pending::Multi { xid, zxid, staged, responses, watch_events } => {
            *tree = staged;
            let head = ReplyHeader { xid, zxid, err: ErrorCode::Success }.to_bytes();
            let tail = MultiResponse { responses }.to_bytes();
            ApplyResult { response: concat(head, tail), watch_events }
        },
        Pending::Create { xid, path, data, flags, session_id, timestamp } => {
            if !flushed {
                return header_reply(xid, tree.last_zxid(), ErrorCode::SystemError);
            }
            match tree.create(path.as_str(), data, timestamp, session_id, flags) {
                Ok(full) => {
                    let events = tree.watch_state.fire(full.as_str(), WatchEventType::Created);
                    let head = ReplyHeader { xid, zxid: tree.last_zxid(), err: ErrorCode::Success }.to_bytes();
                    let tail = CreateResponse { path: full.as_str() }.to_bytes();
                    ApplyResult { response: concat(head, tail), watch_events: events }
                },
                Err(_) => header_reply(xid, tree.last_zxid(), ErrorCode::BadArguments),
            }
        },
        Pending::SetData { xid, path, data, timestamp } => {
            if !flushed {
                return header_reply(xid, tree.last_zxid(), ErrorCode::SystemError);
            }
            let _ = tree.set(path.as_str(), data, timestamp);
            let events = tree.watch_state.fire(path.as_str(), WatchEventType::Changed);
            let head = ReplyHeader { xid, zxid: tree.last_zxid(), err: ErrorCode::Success }.to_bytes();
            let tail = match tree.traverse(path.as_str()) {
                Some(node) => SetDataResponse { stat: &node.stat }.to_bytes(
                    node.data.len() as i32,
                    node.children.len() as i32,
                ),
                None => Vec::new(),
            };
            ApplyResult { response: concat(head, tail), watch_events: events }
        },
        Pending::Delete { xid, path } => {
            if !flushed {
                return header_reply(xid, tree.last_zxid(), ErrorCode::SystemError);
            }
            let owner = match tree.traverse(path.as_str()) {
                Some(node) => node.stat.ephemeral_owner,
                None => SessionId(0),
            };
            let _ = tree.delete(path.as_str());
            if owner.0 != 0 {
                tree.session_state.remove_ephemeral(owner, path.as_str());
            }
            let events = tree.watch_state.fire(path.as_str(), WatchEventType::Deleted);
            let head = ReplyHeader { xid, zxid: tree.last_zxid(), err: ErrorCode::Success }.to_bytes();
            ApplyResult { response: head, watch_events: events }
        },
        Pending::Close { .. } => {
            assert(false);
            no_reply()
        },
    }
}

// ---------------------------------------------------------------------
// Batches
// ---------------------------------------------------------------------

/// The specification value of a decoded batch operation.
pub open spec fn op_spec(op: MultiOp) -> MultiOpSpec {
    match op {
        MultiOp::Create(q) => MultiOpSpec::Create(q.path.spec_bytes(), q.data@, q.flags),
        MultiOp::SetData(q) => MultiOpSpec::SetData(q.path.spec_bytes(), q.data@, q.version),
        MultiOp::Delete(q) => MultiOpSpec::Delete(q.path.spec_bytes(), q.version),
        MultiOp::Check(q) => MultiOpSpec::Check(q.path.spec_bytes(), q.version),
    }
}

/// How a refused create inside a batch is reported.
pub open spec fn create_error_code(e: StorageError) -> ErrorCode {
    match e {
        StorageError::ParentMissing => ErrorCode::NoNode,
        StorageError::NodeExists => ErrorCode::NodeExists,
        StorageError::EphemeralParent => ErrorCode::NoChildrenForEphemerals,
        StorageError::InvalidPath => ErrorCode::BadArguments,
        StorageError::CreateRoot => ErrorCode::BadArguments,
        _ => ErrorCode::SystemError,
    }
}

/// How a refused create is reported.
fn create_error(e: StorageError) -> (c: ErrorCode)
    ensures
        c == create_error_code(e),
{
    match e {
        StorageError::ParentMissing => ErrorCode::NoNode,
        StorageError::NodeExists => ErrorCode::NodeExists,
        StorageError::EphemeralParent => ErrorCode::NoChildrenForEphemerals,
        StorageError::InvalidPath => ErrorCode::BadArguments,
        StorageError::CreateRoot => ErrorCode::BadArguments,
        _ => ErrorCode::SystemError,
    }
}

/// The state after a node is deleted and, if it was ephemeral, its owner
/// forgets it.
pub open spec fn deleted_with_owner(v: KeeperView, path: Seq<char>) -> KeeperView {
    let owner = v.nodes[path].stat.ephemeral_owner;
    let v1 = delete_view(v, path).0;
    if owner != SessionId(0) {
        KeeperView { ephemerals: without_ephemeral(v1.ephemerals, owner, path), ..v1 }
    } else {
        v1
    }
}

/// One operation of a batch on the staged state, at time `ts` for session
/// `sid`: the state after it, its outcome, its notifications and its log
/// entries, or the error that stops the batch.
#[verifier::opaque]
pub open spec fn multi_step(v: KeeperView, op: MultiOpSpec, ts: i64, sid: SessionId) -> Result<
    (KeeperView, OpOutcome, Seq<EventView>, Seq<MultiWalOp>),
    ErrorCode,
> {
    match op {
        MultiOpSpec::Check(p, ver) => {
            let path = decode_utf8(p);
            if !v.nodes.contains_key(path) {
                Err(ErrorCode::NoNode)
            } else if version_mismatch(ver, v.nodes[path]) {
                Err(ErrorCode::BadVersion)
            } else {
                Ok((v, OpOutcome::Checked, Seq::empty(), Seq::empty()))
            }
        },
        MultiOpSpec::SetData(p, d, ver) => {
            let path = decode_utf8(p);
            if !v.nodes.contains_key(path) {
                Err(ErrorCode::NoNode)
            } else if version_mismatch(ver, v.nodes[path]) {
                Err(ErrorCode::BadVersion)
            } else {
                let (v2, evs) = fired(set_view(v, path, d, ts).0, path, WatchEventType::Changed);
                let n = v2.nodes[path];
                Ok(
                    (
                        v2,
                        OpOutcome::Updated(n.stat, n.data.len() as i32, n.children.len() as i32),
                        evs,
                        seq![MultiWalOp::SetData(path, d)],
                    ),
                )
            }
        },
        MultiOpSpec::Create(p, d, f) => {
            let path = decode_utf8(p);
            let (v1, res) = create_view(v, path, d, ts, sid, f);
            match res {
                Err(e) => Err(create_error_code(e)),
                Ok(full) => {
                    let (v2, evs) = fired(v1, full, WatchEventType::Created);
                    Ok((v2, OpOutcome::Created(full), evs, seq![MultiWalOp::Create(path, d, f)]))
                },
            }
        },
        MultiOpSpec::Delete(p, ver) => {
            let path = decode_utf8(p);
            if !v.nodes.contains_key(path) {
                Err(ErrorCode::NoNode)
            } else if version_mismatch(ver, v.nodes[path]) {
                Err(ErrorCode::BadVersion)
            } else if path == root_path() {
                Err(ErrorCode::BadArguments)
            } else if v.nodes[path].children.len() > 0 {
                Err(ErrorCode::NotEmpty)
            } else {
                let (v3, evs) = fired(deleted_with_owner(v, path), path, WatchEventType::Deleted);
                Ok((v3, OpOutcome::Deleted, evs, seq![MultiWalOp::Delete(path)]))
            }
        },
    }
}

/// The operations of a batch run one after the other on the staged state:
/// the final state, the outcomes, the notifications and the log entries,
/// or the position and error of the first operation that failed.
pub open spec fn multi_run(v: KeeperView, ops: Seq<MultiOpSpec>, ts: i64, sid: SessionId) -> Result<
    (KeeperView, Seq<OpOutcome>, Seq<EventView>, Seq<MultiWalOp>),
    (int, ErrorCode),
>
    decreases ops.len(),
{
    if ops.len() == 0 {
        Ok((v, Seq::empty(), Seq::empty(), Seq::empty()))
    } else {
        match multi_run(v, ops.drop_last(), ts, sid) {
            Err(e) => Err(e),
            Ok((v1, outs, evs, wals)) => match multi_step(v1, ops.last(), ts, sid) {
                Err(code) => Err((ops.len() - 1, code)),
                Ok((v2, o, ev, w)) => Ok((v2, outs.push(o), evs + ev, wals + w)),
            },
        }
    }
}

/// The outcomes reported when operation `k` of `n` failed with `code`: the
/// ones before it were rolled back, the ones after it never ran.
pub open spec fn rollback_outcomes(n: int, k: int, code: ErrorCode) -> Seq<OpOutcome> {
    Seq::new(
        n as nat,
        |i: int| if i < k {
            OpOutcome::Failed(ErrorCode::Success)
        } else if i == k {
            OpOutcome::Failed(code)
        } else {
            OpOutcome::Failed(ErrorCode::RuntimeInconsistency)
        },
    )
}

/// The start of a batch: its operations run on a copy of the state under
/// the next change id. If one fails, none is kept and the reply tells
/// which; if all succeed, the batch waits for its log entry.
pub open spec fn multi_begin(v: KeeperView, xid: i32, body: Seq<u8>, session_id: SessionId, now: i64) -> Begin {
    match multi_request_wire(body) {
        Parse::Incomplete => Begin::Reply(Seq::empty()),
        Parse::Malformed => header_only(v, xid, ErrorCode::BadArguments),
        Parse::Parsed(ops, _) => match multi_run(
            KeeperView { zxid: (v.zxid + 1) as i64, ..v },
            ops,
            now,
            session_id,
        ) {
            Err((k, code)) => Begin::Reply(
                reply_header_bytes(xid, v.zxid, ErrorCode::Success) + multi_response_bytes(
                    rollback_outcomes(ops.len() as int, k, code),
                ),
            ),
            Ok((vf, outs, evs, wals)) => Begin::Persist(
                WalOp::Multi(wals, now, session_id.0),
                PendingView::Multi(xid, (v.zxid + 1) as i64, vf, outs, evs),
            ),
        },
    }
}

/// What running a batch operation returned matches `multi_step`.
pub open spec fn op_result_is(
    r: Result<(MultiOpResponse, Vec<WatchEvent>, Option<MultiWalOperation>), ErrorCode>,
    after: KeeperView,
    step: Result<(KeeperView, OpOutcome, Seq<EventView>, Seq<MultiWalOp>), ErrorCode>,
) -> bool {
    match step {
        Ok((v2, o, evs, wals)) => r matches Ok((resp, es, w)) && after == v2 && resp@ == o
            && events_view(es@) == evs && wals == match w {
            Some(x) => seq![x@],
            None => Seq::<MultiWalOp>::empty(),
        },
        Err(code) => r == Err::<(MultiOpResponse, Vec<WatchEvent>, Option<MultiWalOperation>), ErrorCode>(code),
    }
}

/// A check inside a batch.
fn multi_check(
    staged: &mut KeeperStorage,
    req: &CheckRequest,
    now: i64,
    session_id: SessionId,
) -> (r: Result<(MultiOpResponse, Vec<WatchEvent>, Option<MultiWalOperation>), ErrorCode>)
    requires
        old(staged).wf(),
    ensures
        final(staged).wf(),
        op_result_is(r, final(staged)@, multi_step(old(staged)@, MultiOpSpec::Check(req.path.spec_bytes(), req.version), now, session_id)),
{
    proof {
        reveal(multi_step);
    }
    match staged.traverse(req.path) {
        None => Err(ErrorCode::NoNode),
        Some(node) => {
            if req.version != -1 && req.version != node.stat.version {
                Err(ErrorCode::BadVersion)
            } else {
                let events: Vec<WatchEvent> = Vec::new();
                assert(events_view(events@) =~= Seq::<EventView>::empty());
                Ok((MultiOpResponse::Check, events, None))
            }
        },
    }
}

/// A data update inside a batch.
fn multi_set(
    staged: &mut KeeperStorage,
    req: &SetDataRequest,
    now: i64,
    session_id: SessionId,
) -> (r: Result<(MultiOpResponse, Vec<WatchEvent>, Option<MultiWalOperation>), ErrorCode>)
    requires
        old(staged).wf(),
    ensures
        final(staged).wf(),
        op_result_is(r, final(staged)@, multi_step(old(staged)@, MultiOpSpec::SetData(req.path.spec_bytes(), req.data@, req.version), now, session_id)),
{
    proof {
        reveal(multi_step);
    }
    let version = match staged.traverse(req.path) {
        None => {
            return Err(ErrorCode::NoNode);
        },
        Some(node) => node.stat.version,
    };
    if req.version != -1 && req.version != version {
        return Err(ErrorCode::BadVersion);
    }
    let data = bytes_of(req.data);
    let _ = staged.set(req.path, data, now);
    let events = staged.watch_state.fire(req.path, WatchEventType::Changed);
    let logged = bytes_of(req.data);
    let entry = MultiWalOperation::SetData { path: req.path.to_owned(), data: logged };
    match staged.traverse(req.path) {
        Some(updated) => {
            let resp = MultiOpResponse::SetData {
                stat: updated.stat,
                data_length: updated.data.len() as i32,
                num_children: updated.children.len() as i32,
            };
            Ok((resp, events, Some(entry)))
        },
        None => Err(ErrorCode::SystemError),
    }
}

/// A create inside a batch.
fn multi_create(
    staged: &mut KeeperStorage,
    req: &CreateRequest,
    now: i64,
    session_id: SessionId,
) -> (r: Result<(MultiOpResponse, Vec<WatchEvent>, Option<MultiWalOperation>), ErrorCode>)
    requires
        old(staged).wf(),
    ensures
        final(staged).wf(),
        op_result_is(r, final(staged)@, multi_step(old(staged)@, MultiOpSpec::Create(req.path.spec_bytes(), req.data@, req.flags), now, session_id)),
{
    proof {
        reveal(multi_step);
    }
    let data = bytes_of(req.data);
    match staged.create(req.path, data, now, session_id, req.flags) {
        Ok(path) => {
            let events = staged.watch_state.fire(path.as_str(), WatchEventType::Created);
            let logged = bytes_of(req.data);
            let entry = MultiWalOperation::Create { path: req.path.to_owned(), data: logged, flags: req.flags };
            Ok((MultiOpResponse::Create { path }, events, Some(entry)))
        },
        Err(error) => Err(create_error(error)),
    }
}

/// A delete inside a batch; the root is refused.
fn multi_delete(
    staged: &mut KeeperStorage,
    req: &DeleteRequest,
    now: i64,
    session_id: SessionId,
) -> (r: Result<(MultiOpResponse, Vec<WatchEvent>, Option<MultiWalOperation>), ErrorCode>)
    requires
        old(staged).wf(),
    ensures
        final(staged).wf(),
        op_result_is(r, final(staged)@, multi_step(old(staged)@, MultiOpSpec::Delete(req.path.spec_bytes(), req.version), now, session_id)),
{
    proof {
        reveal(multi_step);
        reveal_strlit("/");
    }
    let (version, has_children, owner) = match staged.traverse(req.path) {
        None => {
            return Err(ErrorCode::NoNode);
        },
        Some(node) => (node.stat.version, node.children.len() > 0, node.stat.ephemeral_owner),
    };
    if req.version != -1 && req.version != version {
        return Err(ErrorCode::BadVersion);
    }
    let ghost path = req.path@;
    assert(decode_utf8(req.path.spec_bytes()) == path);
    if str_eq(req.path, "/") {
        return Err(ErrorCode::BadArguments);
    }
    assert("/"@ == root_path());
    assert(path != root_path());
    if has_children {
        return Err(ErrorCode::NotEmpty);
    }
    let ghost v0 = staged@;
    let _ = staged.delete(req.path);
    if owner.0 != 0 {
        staged.session_state.remove_ephemeral(owner, req.path);
    }
    assert(staged@ == deleted_with_owner(v0, path));
    let events = staged.watch_state.fire(req.path, WatchEventType::Deleted);
    let entry = MultiWalOperation::Delete { path: req.path.to_owned() };
    Ok((MultiOpResponse::Delete, events, Some(entry)))
}

/// Runs one operation of a batch on the staged state.
fn multi_op(
    staged: &mut KeeperStorage,
    op: &MultiOp,
    now: i64,
    session_id: SessionId,
) -> (r: Result<(MultiOpResponse, Vec<WatchEvent>, Option<MultiWalOperation>), ErrorCode>)
    requires
        old(staged).wf(),
    ensures
        final(staged).wf(),
        op_result_is(r, final(staged)@, multi_step(old(staged)@, op_spec(*op), now, session_id)),
{
    match op {
        MultiOp::Check(req) => multi_check(staged, req, now, session_id),
        MultiOp::SetData(req) => multi_set(staged, req, now, session_id),
        MultiOp::Create(req) => multi_create(staged, req, now, session_id),
        MultiOp::Delete(req) => multi_delete(staged, req, now, session_id),
    }
}

/// The outcomes reported when operation `k` of `n` failed with `code`.
fn rollback_responses(n: usize, k: usize, code: ErrorCode) -> (r: Vec<MultiOpResponse>)
    ensures
        outcomes(r@) == rollback_outcomes(n as int, k as int, code),
{
    let mut r: Vec<MultiOpResponse> = Vec::new();
    for j in 0..n
        invariant
            outcomes(r@) == rollback_outcomes(n as int, k as int, code).subrange(0, j as int),
    {
        let resp = if j < k {
            MultiOpResponse::Error(ErrorCode::Success)
        } else if j == k {
            MultiOpResponse::Error(code)
        } else {
            MultiOpResponse::Error(ErrorCode::RuntimeInconsistency)
        };
        let ghost before = r@;
        r.push(resp);
        assert(outcomes(r@) =~= outcomes(before).push(resp@));
        assert(rollback_outcomes(n as int, k as int, code).subrange(0, j + 1) =~= rollback_outcomes(
            n as int,
            k as int,
            code,
        ).subrange(0, j as int).push(resp@));
    }
    assert(rollback_outcomes(n as int, k as int, code).subrange(0, n as int) =~= rollback_outcomes(
        n as int,
        k as int,
        code,
    ));
    r
}

/// multi: runs the operations on a copy of the state. If one fails the copy
/// is dropped and every outcome is reported; if all succeed, the batch
/// waits for its log entry, and completing it makes the copy the state.
pub fn handle_multi(
    tree: &mut KeeperStorage,
    xid: i32,
    body: &[u8],
    session_id: SessionId,
    now: i64,
) -> (r: Step)
    requires
        old(tree).wf(),
        old(tree).zxid() < i64::MAX,
    ensures
        final(tree).wf(),
        step_is(r, multi_begin(old(tree)@, xid, body@, session_id, now), old(tree).zxid()),
        final(tree)@ == begun(old(tree)@, multi_begin(old(tree)@, xid, body@, session_id, now)),
{
    let mut buf = body;
    let req = match MultiRequest::decode(&mut buf) {
        Decoded::Parsed(q) => q,
        Decoded::Malformed => {
            return Step::Reply(header_reply(xid, tree.last_zxid(), ErrorCode::BadArguments));
        },
        Decoded::Incomplete => {
            return Step::Reply(no_reply());
        },
    };
    let ghost ops = Seq::new(req.ops@.len(), |i: int| op_spec(req.ops@[i]));
    proof {
        if let Parse::Parsed(v, _) = multi_request_wire(body@) {
            assert forall|j: int| 0 <= j < v.len() implies ops[j] == v[j] by {
                assert(req.ops@[j].is(v[j]));
            }
            assert(ops =~= v);
        }
    }
    let ghost n = match multi_request_wire(body@) {
        Parse::Parsed(_, n) => n,
        _ => 0,
    };
    assert(multi_request_wire(body@) == Parse::Parsed(ops, n));
    let mut staged = tree.duplicate();
    let zxid = staged.next_zxid();
    let ghost start = staged@;
    let op_count = req.ops.len();
    let mut responses: Vec<MultiOpResponse> = Vec::new();
    let mut wal_operations: Vec<MultiWalOperation> = Vec::new();
    let mut watch_events: Vec<WatchEvent> = Vec::new();
    proof {
        assert(ops.subrange(0, 0) =~= Seq::<MultiOpSpec>::empty());
        assert(outcomes(responses@) =~= Seq::<OpOutcome>::empty());
        assert(events_view(watch_events@) =~= Seq::<EventView>::empty());
        assert(multi_wal_views(wal_operations@) =~= Seq::<MultiWalOp>::empty());
    }
    for i in 0..op_count
        invariant
            op_count == req.ops@.len(),
            ops.len() == op_count,
            forall|j: int| 0 <= j < op_count ==> #[trigger] ops[j] == op_spec(req.ops@[j]),
            staged.wf(),
            tree.wf(),
            *tree == *old(tree),
            multi_request_wire(body@) == Parse::Parsed(ops, n),
            start == (KeeperView { zxid: (old(tree)@.zxid + 1) as i64, ..old(tree)@ }),
            zxid == old(tree).zxid() + 1,
            multi_run(start, ops.subrange(0, i as int), now, session_id) == Ok::<_, (int, ErrorCode)>(
                (
                    staged@,
                    outcomes(responses@),
                    events_view(watch_events@),
                    multi_wal_views(wal_operations@),
                ),
            ),
    {
        proof {
            lemma_multi_run_next(start, ops, i as int, now, session_id);
        }
        let ghost before = (outcomes(responses@), events_view(watch_events@), multi_wal_views(wal_operations@));
        match multi_op(&mut staged, &req.ops[i], now, session_id) {
            Ok((resp, events, entry)) => {
                let ghost o = resp@;
                responses.push(resp);
                let mut events = events;
                let ghost evs = events_view(events@);
                watch_events.append(&mut events);
                assert(events_view(watch_events@) =~= before.1 + evs);
                match entry {
                    Some(e) => {
                        let ghost ev = e@;
                        wal_operations.push(e);
                        assert(multi_wal_views(wal_operations@) =~= before.2 + seq![ev]);
                    },
                    None => {
                        assert(before.2 + Seq::<MultiWalOp>::empty() =~= before.2);
                    },
                }
                assert(outcomes(responses@) =~= before.0.push(o));
            },
            Err(code) => {
                let all = rollback_responses(op_count, i, code);
                let head = ReplyHeader { xid, zxid: tree.last_zxid(), err: ErrorCode::Success }.to_bytes();
                let tail = MultiResponse { responses: all }.to_bytes();
                proof {
                    lemma_multi_run_stops(start, ops, i as int, now, session_id);
                }
                return Step::Reply(ApplyResult { response: concat(head, tail), watch_events: Vec::new() });
            },
        }
    }
    assert(ops.subrange(0, op_count as int) =~= ops);
    let entry = WalOperation::Multi { operations: wal_operations, timestamp: now, session_id: session_id.0 };
    let pending = Pending::Multi { xid, zxid, staged, responses, watch_events };
    Step::Persist { zxid, entry, pending }
}

/// Running one more operation of a batch.
proof fn lemma_multi_run_next(v: KeeperView, ops: Seq<MultiOpSpec>, i: int, ts: i64, sid: SessionId)
    requires
        0 <= i < ops.len(),
    ensures
        multi_run(v, ops.subrange(0, i + 1), ts, sid) == match multi_run(v, ops.subrange(0, i), ts, sid) {
            Err(e) => Err(e),
            Ok((v1, outs, evs, wals)) => match multi_step(v1, ops[i], ts, sid) {
                Err(code) => Err((i, code)),
                Ok((v2, o, ev, w)) => Ok((v2, outs.push(o), evs + ev, wals + w)),
            },
        },
{
    assert(ops.subrange(0, i + 1).drop_last() =~= ops.subrange(0, i));
}

/// Once an operation fails, the whole batch fails there.
proof fn lemma_multi_run_stops(v: KeeperView, ops: Seq<MultiOpSpec>, k: int, ts: i64, sid: SessionId)
    requires
        0 <= k < ops.len(),
        multi_run(v, ops.subrange(0, k + 1), ts, sid) is Err,
    ensures
        multi_run(v, ops, ts, sid) == multi_run(v, ops.subrange(0, k + 1), ts, sid),
    decreases ops.len(),
{
    if ops.len() > k + 1 {
        assert(ops.drop_last().subrange(0, k + 1) =~= ops.subrange(0, k + 1));
        lemma_multi_run_stops(v, ops.drop_last(), k, ts, sid);
    } else {
        assert(ops.subrange(0, k + 1) =~= ops);
    }
}

// ---------------------------------------------------------------------
// Sessions
// ---------------------------------------------------------------------

/// The nodes that `paths` name deleted one after the other (a refused
/// delete changes nothing).
pub open spec fn delete_all(v: KeeperView, paths: Seq<Seq<char>>) -> KeeperView
    decreases paths.len(),
{
    if paths.len() == 0 {
        v
    } else {
        delete_view(delete_all(v, paths.drop_last()), paths.last()).0
    }
}

/// Deleting nodes changes only the nodes.
proof fn lemma_delete_all_frame(v: KeeperView, paths: Seq<Seq<char>>)
    ensures
        delete_all(v, paths) == (KeeperView { nodes: delete_all(v, paths).nodes, ..v }),
    decreases paths.len(),
{
    if paths.len() > 0 {
        lemma_delete_all_frame(v, paths.drop_last());
    }
}

/// The ephemeral paths a session owns.
pub open spec fn owned(v: KeeperView, session_id: SessionId) -> Set<Seq<char>> {
    if v.ephemerals.contains_key(session_id) {
        v.ephemerals[session_id]
    } else {
        Set::empty()
    }
}

/// `paths` lists each ephemeral path of the session once.
pub open spec fn lists_owned(v: KeeperView, session_id: SessionId, paths: Seq<Seq<char>>) -> bool {
    paths.no_duplicates() && paths.to_set() == owned(v, session_id)
}

/// The state after a session ends: its timeout, bucket and ephemeral list
/// are forgotten, and its ephemeral nodes are deleted in the order `paths`.
pub open spec fn session_closed(v: KeeperView, session_id: SessionId, paths: Seq<Seq<char>>) -> KeeperView {
    delete_all(
        KeeperView {
            sessions: v.sessions.remove(session_id),
            expiry: v.expiry.remove(session_id),
            ephemerals: v.ephemerals.remove(session_id),
            ..v
        },
        paths,
    )
}

/// The texts of a list of strings.
pub open spec fn texts(ps: Seq<String>) -> Seq<Seq<char>> {
    ps.map_values(|p: String| p@)
}

/// Deletes the nodes at `paths`, one after the other, ignoring refusals.
fn delete_paths(tree: &mut KeeperStorage, paths: &Vec<String>)
    requires
        old(tree).wf(),
    ensures
        final(tree).wf(),
        final(tree)@ == delete_all(old(tree)@, texts(paths@)),
{
    let ghost ps = texts(paths@);
    let n = paths.len();
    for i in 0..n
        invariant
            n == paths@.len(),
            ps == texts(paths@),
            tree.wf(),
            tree@ == delete_all(old(tree)@, ps.subrange(0, i as int)),
    {
        assert(ps.subrange(0, i + 1).drop_last() =~= ps.subrange(0, i as int));
        let _ = tree.delete(paths[i].as_str());
    }
    assert(ps.subrange(0, n as int) =~= ps);
}

/// Ends a session in the state: returns its ephemeral paths, deleted.
fn end_session(tree: &mut KeeperStorage, session_id: SessionId) -> (paths: Vec<String>)
    requires
        old(tree).wf(),
    ensures
        final(tree).wf(),
        lists_owned(old(tree)@, session_id, texts(paths@)),
        final(tree)@ == session_closed(old(tree)@, session_id, texts(paths@)),
{
    let paths = tree.session_state.close_session(session_id);
    delete_paths(tree, &paths);
    proof {
        let ps = texts(paths@);
        assert forall|i: int, j: int| 0 <= i < j < ps.len() implies ps[i] != ps[j] by {
            assert(paths@[i]@ != paths@[j]@);
        }
        assert forall|p: Seq<char>| #[trigger] ps.to_set().contains(p) == owned(old(tree)@, session_id).contains(p) by {
            if ps.contains(p) {
                let i = choose|i: int| 0 <= i < ps.len() && ps[i] == p;
                assert(path_set(paths@).contains(p)) by {
                    assert(paths@[i]@ == p);
                }
            }
            if path_set(paths@).contains(p) {
                let i = choose|i: int| 0 <= i < paths@.len() && (#[trigger] paths@[i])@ == p;
                assert(ps[i] == p);
            }
        }
        assert(ps.to_set() =~= owned(old(tree)@, session_id));
    }
    paths
}

/// The state after a session closes its own connection: it ends, and its
/// watches are dropped.
pub open spec fn closed_by_client(v: KeeperView, session_id: SessionId, paths: Seq<Seq<char>>) -> KeeperView {
    let v1 = session_closed(v, session_id, paths);
    KeeperView { watches: without_session(v1.watches, session_id), ..v1 }
}

/// A client's close, once its log entry is written: the session ends (its
/// ephemeral nodes are deleted in some order) and its watches are dropped.
/// The reply carries the close's change id, taken when the close was
/// checked.
pub fn handle_close(tree: &mut KeeperStorage, xid: i32, session_id: SessionId) -> (r: ApplyResult)
    requires
        old(tree).wf(),
    ensures
        final(tree).wf(),
        exists|paths: Seq<Seq<char>>|
            lists_owned(old(tree)@, session_id, paths) && final(tree)@ == #[trigger] closed_by_client(
                old(tree)@,
                session_id,
                paths,
            ),
        r.response@ == reply_header_bytes(xid, old(tree).zxid(), ErrorCode::Success),
        r.watch_events@.len() == 0,
{
    let paths = end_session(tree, session_id);
    proof {
        lemma_delete_all_frame(
            KeeperView {
                sessions: old(tree)@.sessions.remove(session_id),
                expiry: old(tree)@.expiry.remove(session_id),
                ephemerals: old(tree)@.ephemerals.remove(session_id),
                ..old(tree)@
            },
            texts(paths@),
        );
    }
    tree.watch_state.clear(session_id);
    assert(final(tree)@ == closed_by_client(old(tree)@, session_id, texts(paths@)));
    header_reply(xid, tree.last_zxid(), ErrorCode::Success)
}

/// The state after a new session with timeout `timeout_ms` starts at time
/// `now`: it gets the next id, its timeout and expiry bucket, and the next
/// change id is taken for its log entry.
pub open spec fn session_started(v: KeeperView, timeout_ms: i64, now: i64) -> KeeperView {
    let id = SessionId(v.next_id);
    KeeperView {
        zxid: (v.zxid + 1) as i64,
        next_id: (v.next_id + 1) as i64,
        sessions: v.sessions.insert(id, timeout_ms),
        expiry: v.expiry.insert(id, expiry_bucket(now as int, timeout_ms as int, v.interval as int) as i64),
        ..v
    }
}

/// Whether a session with timeout `timeout_ms` can start at time `now`
/// without an id, a change id or a deadline leaving `i64`.
pub open spec fn can_start_session(v: KeeperView, timeout_ms: i64, now: i64) -> bool {
    &&& v.next_id < i64::MAX
    &&& v.zxid < i64::MAX
    &&& v.interval > 0
    &&& bucket_fits(now, timeout_ms, v.interval)
}

/// Tells whether `create_session(tree, timeout_ms, now)` can be called.
pub fn session_fits(tree: &KeeperStorage, timeout_ms: i64, now: i64) -> (r: bool)
    requires
        tree.wf(),
    ensures
        r == can_start_session(tree@, timeout_ms, now),
{
    tree.session_state.next_session_id() < i64::MAX && tree.last_zxid() < i64::MAX
        && tree.session_state.interval_ms() > 0 && fits_bucket(
        now,
        timeout_ms,
        tree.session_state.interval_ms(),
    )
}

/// Starts a session for a client that connected at time `now` asking for
/// `timeout_ms`: returns its id, the log entry that records it and the
/// entry's change id.
pub fn create_session(tree: &mut KeeperStorage, timeout_ms: i64, now: i64) -> (r: (SessionId, WalOperation, i64))
    requires
        old(tree).wf(),
        can_start_session(old(tree)@, timeout_ms, now),
    ensures
        final(tree).wf(),
        r.0 == SessionId(old(tree)@.next_id),
        r.1@ == WalOp::CreateSession(r.0.0, timeout_ms),
        r.2 == old(tree).zxid() + 1,
        final(tree)@ == session_started(old(tree)@, timeout_ms, now),
{
    let session_id = tree.session_state.create_session(timeout_ms, now);
    let entry = WalOperation::CreateSession { session_id: session_id.0, timeout_ms };
    let zxid = tree.next_zxid();
    (session_id, entry, zxid)
}

/// Ends a session that expired: takes the next change id for the log entry
/// that records it, then ends the session (its ephemeral nodes are deleted
/// in some order). Returns the entry and its change id.
pub fn close_session(tree: &mut KeeperStorage, session_id: SessionId) -> (r: (WalOperation, i64))
    requires
        old(tree).wf(),
        old(tree).zxid() < i64::MAX,
    ensures
        final(tree).wf(),
        r.0@ == WalOp::CloseSession(session_id.0),
        r.1 == old(tree).zxid() + 1,
        exists|paths: Seq<Seq<char>>|
            lists_owned(old(tree)@, session_id, paths) && final(tree)@ == #[trigger] session_closed(
                next_change(old(tree)@),
                session_id,
                paths,
            ),
{
    let entry = WalOperation::CloseSession { session_id: session_id.0 };
    let zxid = tree.next_zxid();
    let paths = end_session(tree, session_id);
    assert(owned(next_change(old(tree)@), session_id) == owned(old(tree)@, session_id));
    assert(lists_owned(old(tree)@, session_id, texts(paths@)));
    assert(final(tree)@ == session_closed(next_change(old(tree)@), session_id, texts(paths@)));
    (entry, zxid)
}

// ---------------------------------------------------------------------
// Requests
// ---------------------------------------------------------------------

/// The state after a request from `session_id` at time `now` refreshed the
/// session's expiry bucket (if it is live).
pub open spec fn touched(v: KeeperView, session_id: SessionId, now: i64) -> KeeperView {
    if v.sessions.contains_key(session_id) {
        KeeperView {
            expiry: v.expiry.insert(
                session_id,
                expiry_bucket(now as int, v.sessions[session_id] as int, v.interval as int) as i64,
            ),
            ..v
        }
    } else {
        v
    }
}

/// Whether `apply` can run: change ids and the session's deadline stay
/// within `i64`.
pub open spec fn can_apply(v: KeeperView, session_id: SessionId, now: i64) -> bool {
    &&& v.zxid < i64::MAX
    &&& v.interval > 0
    &&& v.sessions.contains_key(session_id) ==> bucket_fits(now, v.sessions[session_id], v.interval)
}

/// Tells whether `apply(tree, .., session_id, now)` can be called.
pub fn apply_fits(tree: &KeeperStorage, session_id: SessionId, now: i64) -> (r: bool)
    requires
        tree.wf(),
    ensures
        r == can_apply(tree@, session_id, now),
{
    tree.last_zxid() < i64::MAX && tree.session_state.interval_ms() > 0
        && tree.session_state.can_touch(session_id, now)
}

/// What a request leads to: a payload shorter than a header gets
/// `BadArguments` with xid 0; an unknown operation gets no reply; a close
/// waits for its `CloseSession` log entry; an operation the server does not
/// serve gets `BadArguments`.
pub open spec fn apply_begin(v: KeeperView, payload: Seq<u8>, session_id: SessionId, now: i64) -> Begin {
    if payload.len() < 8 {
        header_only(v, 0, ErrorCode::BadArguments)
    } else {
        let t = touched(v, session_id, now);
        let xid = i32_at(payload, 0);
        let body = payload.skip(8);
        match opcode_of(i32_at(payload, 4)) {
            None => Begin::Reply(Seq::empty()),
            Some(op) => match op {
                OpCode::Create => create_begin(t, xid, body, session_id, now),
                OpCode::Get => Begin::Reply(read_outcome(t, xid, body, session_id, WatchType::Watch, |n: NodeView| get_data_body(n)).1),
                OpCode::SetData => set_begin(t, xid, body, now),
                OpCode::Remove => delete_begin(t, xid, body),
                OpCode::Heartbeat => header_only(t, xid, ErrorCode::Success),
                OpCode::SimpleList => Begin::Reply(read_outcome(t, xid, body, session_id, WatchType::ListWatch, |n: NodeView| simple_list_body(n)).1),
                OpCode::List => Begin::Reply(read_outcome(t, xid, body, session_id, WatchType::ListWatch, |n: NodeView| list_body(n)).1),
                OpCode::Exists => Begin::Reply(read_outcome(t, xid, body, session_id, WatchType::Watch, |n: NodeView| exists_body(n)).1),
                OpCode::Close => Begin::Persist(WalOp::CloseSession(session_id.0), PendingView::Close(xid, session_id)),
                OpCode::Multi => multi_begin(t, xid, body, session_id, now),
                _ => header_only(t, xid, ErrorCode::BadArguments),
            },
        }
    }
}

/// The state after a request: refreshed, with its watch registered for a
/// read, and with the next change id taken for a log entry (a batch works
/// on a copy).
pub open spec fn apply_after(v: KeeperView, payload: Seq<u8>, session_id: SessionId, now: i64) -> KeeperView {
    if payload.len() < 8 {
        v
    } else {
        let t = touched(v, session_id, now);
        let xid = i32_at(payload, 0);
        let body = payload.skip(8);
        match opcode_of(i32_at(payload, 4)) {
            None => t,
            Some(op) => match op {
                OpCode::Get => read_outcome(t, xid, body, session_id, WatchType::Watch, |n: NodeView| get_data_body(n)).0,
                OpCode::SimpleList => read_outcome(t, xid, body, session_id, WatchType::ListWatch, |n: NodeView| simple_list_body(n)).0,
                OpCode::List => read_outcome(t, xid, body, session_id, WatchType::ListWatch, |n: NodeView| list_body(n)).0,
                OpCode::Exists => read_outcome(t, xid, body, session_id, WatchType::Watch, |n: NodeView| exists_body(n)).0,
                _ => begun(t, apply_begin(v, payload, session_id, now)),
            },
        }
    }
}

/// Handles one request of `session_id` at time `now`: refreshes the
/// session, decodes the header and runs the operation. Returns the reply,
/// or the log entry to write before `complete` can finish the change.
pub fn apply(tree: &mut KeeperStorage, payload: &[u8], session_id: SessionId, now: i64) -> (r: Step)
    requires
        old(tree).wf(),
        can_apply(old(tree)@, session_id, now),
    ensures
        final(tree).wf(),
        step_is(r, apply_begin(old(tree)@, payload@, session_id, now), old(tree).zxid()),
        final(tree)@ == apply_after(old(tree)@, payload@, session_id, now),
{
    if payload.len() < 8 {
        let r = Step::Reply(header_reply(0, tree.last_zxid(), ErrorCode::BadArguments));
        assert(final(tree)@ == apply_after(old(tree)@, payload@, session_id, now));
        return r;
    }
    tree.session_state.touch_session(session_id, now);
    let ghost t = tree@;
    assert(t == touched(old(tree)@, session_id, now));
    let mut buf = payload;
    let header = match RequestHeader::from_bytes(&mut buf) {
        Ok(h) => h,
        Err(_) => {
            assert(final(tree)@ == apply_after(old(tree)@, payload@, session_id, now));
            return Step::Reply(no_reply());
        },
    };
    assert(buf@ == payload@.skip(8));
    let xid = header.xid;
    match header.opcode {
        OpCode::Create => {
            let r = handle_create(tree, xid, buf, session_id, now);
            assert(final(tree)@ == apply_after(old(tree)@, payload@, session_id, now));
            r
        },
        OpCode::Get => {
            let r = Step::Reply(handle_get(tree, xid, buf, session_id));
            assert(final(tree)@ == apply_after(old(tree)@, payload@, session_id, now));
            r
        },
        OpCode::SetData => {
            let r = handle_set(tree, xid, buf, now);
            assert(final(tree)@ == apply_after(old(tree)@, payload@, session_id, now));
            r
        },
        OpCode::Remove => {
            let r = handle_delete(tree, xid, buf);
            assert(final(tree)@ == apply_after(old(tree)@, payload@, session_id, now));
            r
        },
        OpCode::Heartbeat => {
            let r = Step::Reply(header_reply(xid, tree.last_zxid(), ErrorCode::Success));
            assert(final(tree)@ == apply_after(old(tree)@, payload@, session_id, now));
            r
        },
        OpCode::SimpleList => {
            let r = Step::Reply(handle_get_children_simple(tree, xid, buf, session_id));
            assert(final(tree)@ == apply_after(old(tree)@, payload@, session_id, now));
            r
        },
        OpCode::List => {
            let r = Step::Reply(handle_get_children(tree, xid, buf, session_id));
            assert(final(tree)@ == apply_after(old(tree)@, payload@, session_id, now));
            r
        },
        OpCode::Exists => {
            let r = Step::Reply(handle_exists(tree, xid, buf, session_id));
            assert(final(tree)@ == apply_after(old(tree)@, payload@, session_id, now));
            r
        },
        OpCode::Close => {
            let entry = WalOperation::CloseSession { session_id: session_id.0 };
            let zxid = tree.next_zxid();
            let r = Step::Persist { zxid, entry, pending: Pending::Close { xid, session_id } };
            assert(final(tree)@ == apply_after(old(tree)@, payload@, session_id, now));
            r
        },
        OpCode::Multi => {
            let r = handle_multi(tree, xid, buf, session_id, now);
            assert(final(tree)@ == apply_after(old(tree)@, payload@, session_id, now));
            r
        },
        _ => {
            let r = Step::Reply(header_reply(xid, tree.last_zxid(), ErrorCode::BadArguments));
            assert(final(tree)@ == apply_after(old(tree)@, payload@, session_id, now));
            r
        },
    }
}

// ---------------------------------------------------------------------
// Replaying the log
// ---------------------------------------------------------------------

/// Why replaying a log entry failed: the log does not fit the state it is
/// replayed onto.
#[derive(Debug, Clone, Copy, PartialEq, Eq, Structural)]
pub enum ReplayError {
    CreateFailed,
    SetFailed,
    DeleteFailed,
    CloseCleanupFailed,
    MultiCreateFailed,
    MultiSetFailed,
    MultiDeleteMissing,
    MultiDeleteFailed,
}

impl ReplayError {
    /// The message that describes the error.
    pub fn message(&self) -> (r: &'static str)
        ensures
            r@ == replay_error_message(*self)@,
    {
        match self {
            ReplayError::CreateFailed => "WAL replay of Create failed: log is inconsistent with state",
            ReplayError::SetFailed => "WAL replay of Set failed: log is inconsistent with state",
            ReplayError::DeleteFailed => "WAL replay of Delete failed: log is inconsistent with state",
            ReplayError::CloseCleanupFailed => "WAL replay of CloseSession cleanup failed",
            ReplayError::MultiCreateFailed => "WAL replay of Multi Create failed",
            ReplayError::MultiSetFailed => "WAL replay of Multi Set failed",
            ReplayError::MultiDeleteMissing => "WAL replay of Multi Delete: node missing",
            ReplayError::MultiDeleteFailed => "WAL replay of Multi Delete failed",
        }
    }
}

/// The message of each replay error.
pub open spec fn replay_error_message(e: ReplayError) -> &'static str {
    match e {
        ReplayError::CreateFailed => "WAL replay of Create failed: log is inconsistent with state",
        ReplayError::SetFailed => "WAL replay of Set failed: log is inconsistent with state",
        ReplayError::DeleteFailed => "WAL replay of Delete failed: log is inconsistent with state",
        ReplayError::CloseCleanupFailed => "WAL replay of CloseSession cleanup failed",
        ReplayError::MultiCreateFailed => "WAL replay of Multi Create failed",
        ReplayError::MultiSetFailed => "WAL replay of Multi Set failed",
        ReplayError::MultiDeleteMissing => "WAL replay of Multi Delete: node missing",
        ReplayError::MultiDeleteFailed => "WAL replay of Multi Delete failed",
    }
}

/// One change of a logged batch replayed at time `ts` for session `sid`.
#[verifier::opaque]
pub open spec fn multi_replay_step(v: KeeperView, op: MultiWalOp, ts: i64, sid: i64) -> Result<KeeperView, ReplayError> {
    match op {
        MultiWalOp::Create(path, d, f) => match create_view(v, path, d, ts, SessionId(sid), f) {
            (v1, Ok(_)) => Ok(v1),
            (_, Err(_)) => Err(ReplayError::MultiCreateFailed),
        },
        MultiWalOp::SetData(path, d) => match set_view(v, path, d, ts) {
            (v1, Ok(_)) => Ok(v1),
            (_, Err(_)) => Err(ReplayError::MultiSetFailed),
        },
        MultiWalOp::Delete(path) => if !v.nodes.contains_key(path) {
            Err(ReplayError::MultiDeleteMissing)
        } else {
            match delete_view(v, path) {
                (_, Ok(_)) => Ok(deleted_with_owner(v, path)),
                (_, Err(_)) => Err(ReplayError::MultiDeleteFailed),
            }
        },
    }
}

/// The changes of a logged batch replayed one after the other.
pub open spec fn multi_replay(v: KeeperView, ops: Seq<MultiWalOp>, ts: i64, sid: i64) -> Result<KeeperView, ReplayError>
    decreases ops.len(),
{
    if ops.len() == 0 {
        Ok(v)
    } else {
        match multi_replay(v, ops.drop_last(), ts, sid) {
            Err(e) => Err(e),
            Ok(v1) => multi_replay_step(v1, ops.last(), ts, sid),
        }
    }
}

/// The nodes at `paths` deleted one after the other, failing at the first
/// refusal.
pub open spec fn delete_all_strict(v: KeeperView, paths: Seq<Seq<char>>) -> Result<KeeperView, ReplayError>
    decreases paths.len(),
{
    if paths.len() == 0 {
        Ok(v)
    } else {
        match delete_all_strict(v, paths.drop_last()) {
            Err(e) => Err(e),
            Ok(v1) => match delete_view(v1, paths.last()) {
                (v2, Ok(_)) => Ok(v2),
                (_, Err(_)) => Err(ReplayError::CloseCleanupFailed),
            },
        }
    }
}

/// The state after a session read back from the log is restored.
pub open spec fn restored(v: KeeperView, sid: i64, timeout_ms: i64) -> KeeperView {
    KeeperView {
        sessions: v.sessions.insert(SessionId(sid), timeout_ms),
        next_id: if v.next_id <= sid {
            if sid < i64::MAX {
                (sid + 1) as i64
            } else {
                i64::MAX
            }
        } else {
            v.next_id
        },
        ..v
    }
}

/// Replaying the log entry at `index` (`paths` is the order in which a
/// session close deletes its ephemeral nodes; nothing else uses it): the
/// change id becomes the index, then the change is applied, or it fails.
pub open spec fn replay_view(v: KeeperView, index: u64, op: WalOp, paths: Seq<Seq<char>>) -> Result<KeeperView, ReplayError> {
    let v0 = KeeperView { zxid: index as i64, ..v };
    match op {
        WalOp::Create(path, d, ts, f, sid) => match create_view(v0, path, d, ts, SessionId(sid), f) {
            (v1, Ok(_)) => Ok(v1),
            (_, Err(_)) => Err(ReplayError::CreateFailed),
        },
        WalOp::SetData(path, d, ts) => match set_view(v0, path, d, ts) {
            (v1, Ok(_)) => Ok(v1),
            (_, Err(_)) => Err(ReplayError::SetFailed),
        },
        WalOp::Delete(path) => match delete_view(v0, path) {
            (_, Ok(_)) => Ok(deleted_with_owner(v0, path)),
            (_, Err(_)) => Err(ReplayError::DeleteFailed),
        },
        WalOp::CreateSession(sid, timeout_ms) => Ok(restored(v0, sid, timeout_ms)),
        WalOp::CloseSession(sid) => delete_all_strict(
            KeeperView {
                sessions: v0.sessions.remove(SessionId(sid)),
                expiry: v0.expiry.remove(SessionId(sid)),
                ephemerals: v0.ephemerals.remove(SessionId(sid)),
                ..v0
            },
            paths,
        ),
        WalOp::Multi(ops, ts, sid) => multi_replay(v0, ops, ts, sid),
    }
}

/// Whether `paths` is a valid order for the close that replaying `op` at
/// `index` does (any order is, for other entries).
pub open spec fn replay_order_ok(v: KeeperView, op: WalOp, paths: Seq<Seq<char>>) -> bool {
    op matches WalOp::CloseSession(sid) ==> lists_owned(v, SessionId(sid), paths)
}

/// Deletes the nodes at `paths`, one after the other, stopping at the
/// first refusal.
fn delete_paths_strict(tree: &mut KeeperStorage, paths: &Vec<String>) -> (r: Result<(), ReplayError>)
    requires
        old(tree).wf(),
    ensures
        final(tree).wf(),
        match delete_all_strict(old(tree)@, texts(paths@)) {
            Ok(v) => r is Ok && final(tree)@ == v,
            Err(e) => r == Err::<(), ReplayError>(e),
        },
{
    let ghost ps = texts(paths@);
    let n = paths.len();
    for i in 0..n
        invariant
            n == paths@.len(),
            ps == texts(paths@),
            tree.wf(),
            delete_all_strict(old(tree)@, ps.subrange(0, i as int)) == Ok::<KeeperView, ReplayError>(tree@),
    {
        assert(ps.subrange(0, i + 1).drop_last() =~= ps.subrange(0, i as int));
        match tree.delete(paths[i].as_str()) {
            Ok(()) => {},
            Err(_) => {
                proof {
                    lemma_delete_all_strict_stops(old(tree)@, ps, i as int);
                }
                return Err(ReplayError::CloseCleanupFailed);
            },
        }
    }
    assert(ps.subrange(0, n as int) =~= ps);
    Ok(())
}

/// Once a delete fails, the whole list fails there.
proof fn lemma_delete_all_strict_stops(v: KeeperView, ps: Seq<Seq<char>>, k: int)
    requires
        0 <= k < ps.len(),
        delete_all_strict(v, ps.subrange(0, k + 1)) is Err,
    ensures
        delete_all_strict(v, ps) == delete_all_strict(v, ps.subrange(0, k + 1)),
    decreases ps.len(),
{
    if ps.len() > k + 1 {
        assert(ps.drop_last().subrange(0, k + 1) =~= ps.subrange(0, k + 1));
        lemma_delete_all_strict_stops(v, ps.drop_last(), k);
    } else {
        assert(ps.subrange(0, k + 1) =~= ps);
    }
}

/// Replays one change of a logged batch.
fn replay_multi_op(tree: &mut KeeperStorage, op: &MultiWalOperation, timestamp: i64, session_id: i64) -> (r: Result<(), ReplayError>)
    requires
        old(tree).wf(),
    ensures
        final(tree).wf(),
        match multi_replay_step(old(tree)@, op@, timestamp, session_id) {
            Ok(v) => r is Ok && final(tree)@ == v,
            Err(e) => r == Err::<(), ReplayError>(e),
        },
{
    proof {
        reveal(multi_replay_step);
    }
    match op {
        MultiWalOperation::Create { path, data, flags } => {
            let data = bytes_of(data.as_slice());
            match tree.create(path.as_str(), data, timestamp, SessionId(session_id), *flags) {
                Ok(_) => Ok(()),
                Err(_) => Err(ReplayError::MultiCreateFailed),
            }
        },
        MultiWalOperation::SetData { path, data } => {
            let data = bytes_of(data.as_slice());
            match tree.set(path.as_str(), data, timestamp) {
                Ok(()) => Ok(()),
                Err(_) => Err(ReplayError::MultiSetFailed),
            }
        },
        MultiWalOperation::Delete { path } => {
            let owner = match tree.traverse(path.as_str()) {
                Some(node) => node.stat.ephemeral_owner,
                None => {
                    return Err(ReplayError::MultiDeleteMissing);
                },
            };
            match tree.delete(path.as_str()) {
                Ok(()) => {},
                Err(_) => {
                    return Err(ReplayError::MultiDeleteFailed);
                },
            }
            if owner.0 != 0 {
                tree.session_state.remove_ephemeral(owner, path.as_str());
            }
            Ok(())
        },
    }
}

/// Replays the log entry at `index` onto the state: the change id becomes
/// the index, then the change is applied. Fails when the entry does not fit
/// the state.
pub fn replay(tree: &mut KeeperStorage, index: u64, op: &WalOperation) -> (r: Result<(), ReplayError>)
    requires
        old(tree).wf(),
    ensures
        final(tree).wf(),
        exists|paths: Seq<Seq<char>>|
            replay_order_ok(next_index(old(tree)@, index), op@, paths) && match #[trigger] replay_view(old(tree)@, index, op@, paths) {
                Ok(v) => r is Ok && final(tree)@ == v,
                Err(e) => r == Err::<(), ReplayError>(e),
            },
{
    tree.set_last_zxid(index as i64);
    let ghost v0 = tree@;
    assert(v0 == next_index(old(tree)@, index));
    let ghost none: Seq<Seq<char>> = Seq::empty();
    match op {
        WalOperation::Create { path, data, timestamp, flags, session_id } => {
            let data = bytes_of(data.as_slice());
            let r = match tree.create(path.as_str(), data, *timestamp, SessionId(*session_id), *flags) {
                Ok(_) => Ok(()),
                Err(_) => Err(ReplayError::CreateFailed),
            };
            assert(replay_order_ok(v0, op@, none));
            let ghost witness = replay_view(old(tree)@, index, op@, none);
            r
        },
        WalOperation::SetData { path, data, timestamp } => {
            let data = bytes_of(data.as_slice());
            let r = match tree.set(path.as_str(), data, *timestamp) {
                Ok(()) => Ok(()),
                Err(_) => Err(ReplayError::SetFailed),
            };
            let ghost witness = replay_view(old(tree)@, index, op@, none);
            r
        },
        WalOperation::Delete { path } => {
            let owner = match tree.traverse(path.as_str()) {
                Some(node) => node.stat.ephemeral_owner,
                None => SessionId(0),
            };
            let r = match tree.delete(path.as_str()) {
                Ok(()) => {
                    if owner.0 != 0 {
                        tree.session_state.remove_ephemeral(owner, path.as_str());
                    }
                    Ok(())
                },
                Err(_) => Err(ReplayError::DeleteFailed),
            };
            let ghost witness = replay_view(old(tree)@, index, op@, none);
            r
        },
        WalOperation::CreateSession { session_id, timeout_ms } => {
            tree.session_state.restore_session(SessionId(*session_id), *timeout_ms);
            let ghost witness = replay_view(old(tree)@, index, op@, none);
            Ok(())
        },
        WalOperation::CloseSession { session_id } => {
            let paths = tree.session_state.close_session(SessionId(*session_id));
            let ghost ps = texts(paths@);
            proof {
                lemma_texts_list(paths@, owned(v0, SessionId(*session_id)));
            }
            let r = delete_paths_strict(tree, &paths);
            let ghost witness = replay_view(old(tree)@, index, op@, ps);
            r
        },
        WalOperation::Multi { operations, timestamp, session_id } => {
            let r = replay_batch(tree, operations, *timestamp, *session_id);
            let ghost witness = replay_view(old(tree)@, index, op@, none);
            r
        },
    }
}

/// Replays the changes of a logged batch one after the other, stopping at
/// the first that fails.
fn replay_batch(
    tree: &mut KeeperStorage,
    operations: &Vec<MultiWalOperation>,
    timestamp: i64,
    session_id: i64,
) -> (r: Result<(), ReplayError>)
    requires
        old(tree).wf(),
    ensures
        final(tree).wf(),
        match multi_replay(old(tree)@, multi_wal_views(operations@), timestamp, session_id) {
            Ok(v) => r is Ok && final(tree)@ == v,
            Err(e) => r == Err::<(), ReplayError>(e),
        },
{
    let ghost ops = multi_wal_views(operations@);
    let ghost v0 = tree@;
    let n = operations.len();
    for i in 0..n
        invariant
            n == operations@.len(),
            ops == multi_wal_views(operations@),
            tree.wf(),
            v0 == old(tree)@,
            multi_replay(v0, ops.subrange(0, i as int), timestamp, session_id) == Ok::<KeeperView, ReplayError>(tree@),
    {
        assert(ops.subrange(0, i + 1).drop_last() =~= ops.subrange(0, i as int));
        assert(ops.subrange(0, i + 1).last() == operations@[i as int]@);
        match replay_multi_op(tree, &operations[i], timestamp, session_id) {
            Ok(()) => {},
            Err(e) => {
                proof {
                    lemma_multi_replay_stops(v0, ops, i as int, timestamp, session_id);
                }
                return Err(e);
            },
        }
    }
    assert(ops.subrange(0, n as int) =~= ops);
    Ok(())
}

/// The state with its change id set to a log index.
pub open spec fn next_index(v: KeeperView, index: u64) -> KeeperView {
    KeeperView { zxid: index as i64, ..v }
}

/// A list of distinct paths whose set is `owned` lists it.
proof fn lemma_texts_list(paths: Seq<String>, owned_set: Set<Seq<char>>)
    requires
        paths_distinct(paths),
        path_set(paths) == owned_set,
    ensures
        texts(paths).no_duplicates(),
        texts(paths).to_set() == owned_set,
{
    let ps = texts(paths);
    assert forall|i: int, j: int| 0 <= i < j < ps.len() implies ps[i] != ps[j] by {
        assert(paths[i]@ != paths[j]@);
    }
    assert forall|p: Seq<char>| #[trigger] ps.to_set().contains(p) == owned_set.contains(p) by {
        if ps.contains(p) {
            let i = choose|i: int| 0 <= i < ps.len() && ps[i] == p;
            assert(path_set(paths).contains(p)) by {
                assert(paths[i]@ == p);
            }
        }
        if path_set(paths).contains(p) {
            let i = choose|i: int| 0 <= i < paths.len() && (#[trigger] paths[i])@ == p;
            assert(ps[i] == p);
        }
    }
    assert(ps.to_set() =~= owned_set);
}

/// Once a change of a batch fails, the whole batch fails there.
proof fn lemma_multi_replay_stops(v: KeeperView, ops: Seq<MultiWalOp>, k: int, ts: i64, sid: i64)
    requires
        0 <= k < ops.len(),
        multi_replay(v, ops.subrange(0, k + 1), ts, sid) is Err,
    ensures
        multi_replay(v, ops, ts, sid) == multi_replay(v, ops.subrange(0, k + 1), ts, sid),
    decreases ops.len(),
{
    if ops.len() > k + 1 {
        assert(ops.drop_last().subrange(0, k + 1) =~= ops.subrange(0, k + 1));
        lemma_multi_replay_stops(v, ops.drop_last(), k, ts, sid);
    } else {
        assert(ops.subrange(0, k + 1) =~= ops);
    }
}

// ---------------------------------------------------------------------
// Laws
// ---------------------------------------------------------------------

/// Two states that agree on everything but the watch registrations, which
/// the log does not record.
pub open spec fn same_data(a: KeeperView, b: KeeperView) -> bool {
    (KeeperView { watches: b.watches, ..a }) == b
}

/// A batch is all or nothing: if one operation fails, the state is left as
/// it was and no log entry is written; if all succeed, completing the batch
/// leaves the state that running its operations one after the other leaves.
pub proof fn lemma_multi_all_or_nothing(v: KeeperView, xid: i32, body: Seq<u8>, session_id: SessionId, now: i64)
    ensures
        match multi_begin(v, xid, body, session_id, now) {
            Begin::Reply(_) => begun(v, multi_begin(v, xid, body, session_id, now)) == v,
            Begin::Persist(_, p) => multi_request_wire(body) matches Parse::Parsed(ops, _) && (multi_run(
                next_change(v),
                ops,
                now,
                session_id,
            ) matches Ok((after, _, _, _)) && complete_view(v, p, true, Seq::empty()).0 == after),
        },
{
}

/// Sessions get distinct, increasing ids: two sessions started one after
/// the other get the ids `next_id` and `next_id + 1` (the one
/// `create_session` returns), and after both starts each is alive with the
/// timeout it asked for. The bound keeps the id counter within `i64`.
pub proof fn lemma_session_ids_increase(v: KeeperView, t1: i64, now1: i64, t2: i64, now2: i64)
    requires
        v.next_id + 2 <= i64::MAX,
    ensures
        ({
            let v1 = session_started(v, t1, now1);
            let v2 = session_started(v1, t2, now2);
            &&& v1.next_id == v.next_id + 1
            &&& v.next_id < v1.next_id
            &&& v2.sessions.contains_key(SessionId(v.next_id))
            &&& v2.sessions.contains_key(SessionId(v1.next_id))
            &&& v2.sessions[SessionId(v.next_id)] == t1
            &&& v2.sessions[SessionId(v1.next_id)] == t2
        }),
{
    assert(SessionId(v.next_id) != SessionId((v.next_id + 1) as i64));
}

/// Replaying a batch's entries one list after another.
proof fn lemma_multi_replay_append(b: KeeperView, x: Seq<MultiWalOp>, y: Seq<MultiWalOp>, ts: i64, sid: i64)
    ensures
        multi_replay(b, x + y, ts, sid) == match multi_replay(b, x, ts, sid) {
            Ok(b1) => multi_replay(b1, y, ts, sid),
            Err(e) => Err(e),
        },
    decreases y.len(),
{
    if y.len() == 0 {
        assert(x + y =~= x);
    } else {
        assert((x + y).drop_last() =~= x + y.drop_last());
        assert((x + y).last() == y.last());
        lemma_multi_replay_append(b, x, y.drop_last(), ts, sid);
    }
}

/// One batch operation that succeeded live replays from its log entries to
/// the same data.
proof fn lemma_replay_step(a: KeeperView, b: KeeperView, op: MultiOpSpec, ts: i64, sid: SessionId)
    requires
        tree_wf(a.nodes),
        same_data(a, b),
        multi_step(a, op, ts, sid) is Ok,
    ensures
        multi_step(a, op, ts, sid) matches Ok((a2, _, _, w)) && tree_wf(a2.nodes) && (multi_replay(
            b,
            w,
            ts,
            sid.0,
        ) matches Ok(b2) && same_data(a2, b2)),
{
    match op {
        MultiOpSpec::Check(p, ver) => {
            reveal(multi_step);
        },
        MultiOpSpec::SetData(p, d, ver) => lemma_replay_set_step(a, b, p, d, ver, ts, sid),
        MultiOpSpec::Create(p, d, f) => lemma_replay_create_step(a, b, p, d, f, ts, sid),
        MultiOpSpec::Delete(p, ver) => lemma_replay_delete_step(a, b, p, ver, ts, sid),
    }
}

/// A data update of a batch replays to the same data.
proof fn lemma_replay_set_step(a: KeeperView, b: KeeperView, p: Seq<u8>, d: Seq<u8>, ver: i32, ts: i64, sid: SessionId)
    requires
        tree_wf(a.nodes),
        same_data(a, b),
        multi_step(a, MultiOpSpec::SetData(p, d, ver), ts, sid) is Ok,
    ensures
        multi_step(a, MultiOpSpec::SetData(p, d, ver), ts, sid) matches Ok((a2, _, _, w)) && tree_wf(a2.nodes) && (multi_replay(
            b,
            w,
            ts,
            sid.0,
        ) matches Ok(b2) && same_data(a2, b2)),
{
    reveal(multi_step);
    reveal(multi_replay_step);
    let path = decode_utf8(p);
    lemma_changes_keep_tree(a, path, d, ts, sid, 0);
    let x = MultiWalOp::SetData(path, d);
    assert(seq![x].drop_last() =~= Seq::<MultiWalOp>::empty());
    assert(multi_replay(b, Seq::<MultiWalOp>::empty(), ts, sid.0) == Ok::<KeeperView, ReplayError>(b));
    assert(multi_replay(b, seq![x], ts, sid.0) == multi_replay_step(b, x, ts, sid.0));
}

/// A create of a batch replays to the same data.
proof fn lemma_replay_create_step(a: KeeperView, b: KeeperView, p: Seq<u8>, d: Seq<u8>, f: i32, ts: i64, sid: SessionId)
    requires
        tree_wf(a.nodes),
        same_data(a, b),
        multi_step(a, MultiOpSpec::Create(p, d, f), ts, sid) is Ok,
    ensures
        multi_step(a, MultiOpSpec::Create(p, d, f), ts, sid) matches Ok((a2, _, _, w)) && tree_wf(a2.nodes) && (multi_replay(
            b,
            w,
            ts,
            sid.0,
        ) matches Ok(b2) && same_data(a2, b2)),
{
    reveal(multi_step);
    reveal(multi_replay_step);
    let path = decode_utf8(p);
    lemma_changes_keep_tree(a, path, d, ts, sid, f);
    let x = MultiWalOp::Create(path, d, f);
    assert(seq![x].drop_last() =~= Seq::<MultiWalOp>::empty());
    assert(multi_replay(b, Seq::<MultiWalOp>::empty(), ts, sid.0) == Ok::<KeeperView, ReplayError>(b));
    assert(multi_replay(b, seq![x], ts, sid.0) == multi_replay_step(b, x, ts, sid.0));
    assert(SessionId(sid.0) == sid);
}

/// A delete of a batch replays to the same data.
proof fn lemma_replay_delete_step(a: KeeperView, b: KeeperView, p: Seq<u8>, ver: i32, ts: i64, sid: SessionId)
    requires
        tree_wf(a.nodes),
        same_data(a, b),
        multi_step(a, MultiOpSpec::Delete(p, ver), ts, sid) is Ok,
    ensures
        multi_step(a, MultiOpSpec::Delete(p, ver), ts, sid) matches Ok((a2, _, _, w)) && tree_wf(a2.nodes) && (multi_replay(
            b,
            w,
            ts,
            sid.0,
        ) matches Ok(b2) && same_data(a2, b2)),
{
    reveal(multi_step);
    reveal(multi_replay_step);
    let path = decode_utf8(p);
    lemma_changes_keep_tree(a, path, Seq::empty(), ts, sid, 0);
    let x = MultiWalOp::Delete(path);
    assert(seq![x].drop_last() =~= Seq::<MultiWalOp>::empty());
    assert(multi_replay(b, Seq::<MultiWalOp>::empty(), ts, sid.0) == Ok::<KeeperView, ReplayError>(b));
    assert(multi_replay(b, seq![x], ts, sid.0) == multi_replay_step(b, x, ts, sid.0));
    assert(split_path(path) is Some);
}

/// A batch that succeeded live replays from its log entries to the same
/// data.
proof fn lemma_replay_run(a: KeeperView, b: KeeperView, ops: Seq<MultiOpSpec>, ts: i64, sid: SessionId)
    requires
        tree_wf(a.nodes),
        same_data(a, b),
        multi_run(a, ops, ts, sid) is Ok,
    ensures
        multi_run(a, ops, ts, sid) matches Ok((af, _, _, wals)) && tree_wf(af.nodes) && (multi_replay(
            b,
            wals,
            ts,
            sid.0,
        ) matches Ok(bf) && same_data(af, bf)),
    decreases ops.len(),
{
    if ops.len() == 0 {
    } else {
        lemma_replay_run(a, b, ops.drop_last(), ts, sid);
        let (a1, outs, evs, wals1) = multi_run(a, ops.drop_last(), ts, sid)->Ok_0;
        let b1 = multi_replay(b, wals1, ts, sid.0)->Ok_0;
        lemma_replay_step(a1, b1, ops.last(), ts, sid);
        let (a2, o, ev, w) = multi_step(a1, ops.last(), ts, sid)->Ok_0;
        lemma_multi_replay_append(b, wals1, w, ts, sid.0);
    }
}

/// The log entry of a create that completed replays to the state the create
/// left, but for watch registrations.
pub proof fn lemma_replay_create(v: KeeperView, xid: i32, body: Seq<u8>, session_id: SessionId, now: i64, index: u64)
    requires
        index as i64 == v.zxid + 1,
        create_begin(v, xid, body, session_id, now) is Persist,
    ensures
        create_begin(v, xid, body, session_id, now) matches Begin::Persist(op, p) && (replay_view(
            v,
            index,
            op,
            Seq::empty(),
        ) matches Ok(r) && same_data(r, complete_view(next_change(v), p, true, Seq::empty()).0)),
{
}

/// The log entry of a data update replays to the state the update left,
/// but for watch registrations.
pub proof fn lemma_replay_set(v: KeeperView, xid: i32, body: Seq<u8>, now: i64, index: u64)
    requires
        index as i64 == v.zxid + 1,
        set_begin(v, xid, body, now) is Persist,
    ensures
        set_begin(v, xid, body, now) matches Begin::Persist(op, p) && (replay_view(
            v,
            index,
            op,
            Seq::empty(),
        ) matches Ok(r) && same_data(r, complete_view(next_change(v), p, true, Seq::empty()).0)),
{
}

/// The log entry of a delete replays to the state the delete left, but for
/// watch registrations.
pub proof fn lemma_replay_delete(v: KeeperView, xid: i32, body: Seq<u8>, index: u64)
    requires
        tree_wf(v.nodes),
        index as i64 == v.zxid + 1,
        delete_begin(v, xid, body) is Persist,
    ensures
        delete_begin(v, xid, body) matches Begin::Persist(op, p) && (replay_view(
            v,
            index,
            op,
            Seq::empty(),
        ) matches Ok(r) && same_data(r, complete_view(next_change(v), p, true, Seq::empty()).0)),
{
    let p = delete_begin(v, xid, body)->Persist_1;
    let path = p->Delete_1;
    assert(split_path(path) is Some);
}

/// The log entry of a batch replays to the state the batch left, but for
/// watch registrations.
pub proof fn lemma_replay_multi(v: KeeperView, xid: i32, body: Seq<u8>, session_id: SessionId, now: i64, index: u64)
    requires
        tree_wf(v.nodes),
        index as i64 == v.zxid + 1,
        multi_begin(v, xid, body, session_id, now) is Persist,
    ensures
        multi_begin(v, xid, body, session_id, now) matches Begin::Persist(op, p) && (replay_view(
            v,
            index,
            op,
            Seq::empty(),
        ) matches Ok(r) && same_data(r, complete_view(v, p, true, Seq::empty()).0)),
{
    let ops = multi_request_wire(body)->Parsed_0;
    lemma_replay_run(next_change(v), next_change(v), ops, now, session_id);
}

/// The log entry of a new session replays to the sessions, ids and nodes
/// the start left; the replayed session gets its expiry bucket at its next
/// request.
pub proof fn lemma_replay_session(v: KeeperView, timeout_ms: i64, now: i64, index: u64)
    requires
        index as i64 == v.zxid + 1,
        can_start_session(v, timeout_ms, now),
    ensures
        replay_view(v, index, WalOp::CreateSession(v.next_id, timeout_ms), Seq::empty()) matches Ok(r)
            && r == (KeeperView {
            expiry: v.expiry,
            watches: v.watches,
            ..session_started(v, timeout_ms, now)
        }),
{
}

/// Deleting in order and stopping at the first refusal, when nothing is
/// refused, is deleting in order.
proof fn lemma_delete_all_strict_ok(v: KeeperView, paths: Seq<Seq<char>>)
    ensures
        delete_all_strict(v, paths) matches Ok(r) ==> r == delete_all(v, paths),
    decreases paths.len(),
{
    if paths.len() > 0 {
        lemma_delete_all_strict_ok(v, paths.drop_last());
    }
}

/// The log entry of a session's end replays, when it succeeds, to the
/// state the end left, for the same order of deleting its ephemeral nodes
/// (the live end ignores a refused delete; the replay stops at it): exactly
/// for an expiry, and but for watch registrations for a client's close.
pub proof fn lemma_replay_close(v: KeeperView, xid: i32, session_id: SessionId, paths: Seq<Seq<char>>, index: u64)
    requires
        index as i64 == v.zxid + 1,
    ensures
        replay_view(v, index, WalOp::CloseSession(session_id.0), paths) matches Ok(r) ==> r
            == session_closed(next_change(v), session_id, paths) && same_data(
            r,
            complete_view(next_change(v), PendingView::Close(xid, session_id), true, paths).0,
        ),
{
    let v0 = next_index(v, index);
    lemma_delete_all_strict_ok(
        KeeperView {
            sessions: v0.sessions.remove(SessionId(session_id.0)),
            expiry: v0.expiry.remove(SessionId(session_id.0)),
            ephemerals: v0.ephemerals.remove(SessionId(session_id.0)),
            ..v0
        },
        paths,
    );
    assert(SessionId(session_id.0) == session_id);
}


/// A node is never created under an ephemeral node.
pub proof fn lemma_no_children_under_ephemeral(nodes: Map<Seq<char>, NodeView>, path: Seq<char>, flags: i32)
    ensures
        create_target(nodes, path, flags) matches Ok((_, q, _)) ==> nodes[q].stat.ephemeral_owner
            == SessionId(0),
{
}

/// Deleting, one after the other, paths from a set whose present nodes are
/// childless and not the root: each of them ends up gone, nothing comes
/// back, and the tree keeps its shape.
proof fn lemma_delete_all_owned(w: KeeperView, ps: Seq<Seq<char>>, owned_set: Set<Seq<char>>)
    requires
        tree_wf(w.nodes),
        forall|j: int| 0 <= j < ps.len() ==> owned_set.contains(#[trigger] ps[j]),
        forall|p: Seq<char>|
            owned_set.contains(p) && #[trigger] w.nodes.contains_key(p) ==> p != root_path()
                && w.nodes[p].children.len() == 0,
    ensures
        tree_wf(delete_all(w, ps).nodes),
        forall|p: Seq<char>| #[trigger] delete_all(w, ps).nodes.contains_key(p) ==> w.nodes.contains_key(p),
        forall|j: int| 0 <= j < ps.len() ==> !delete_all(w, ps).nodes.contains_key(#[trigger] ps[j]),
        forall|p: Seq<char>|
            owned_set.contains(p) && #[trigger] delete_all(w, ps).nodes.contains_key(p)
                ==> delete_all(w, ps).nodes[p].children.len() == 0,
    decreases ps.len(),
{
    if ps.len() > 0 {
        let init = ps.drop_last();
        assert forall|j: int| 0 <= j < init.len() implies owned_set.contains(#[trigger] init[j]) by {
            assert(init[j] == ps[j]);
        }
        lemma_delete_all_owned(w, init, owned_set);
        let u = delete_all(w, init);
        let p = ps.last();
        assert(owned_set.contains(ps[ps.len() - 1]));
        lemma_changes_keep_tree(u, p, Seq::empty(), 0, SessionId(0), 0);
        let after = delete_all(w, ps);
        assert(after == delete_view(u, p).0);
        if u.nodes.contains_key(p) {
            assert(w.nodes.contains_key(p));
            assert(p != root_path());
            assert(split_path(p) is Some);
        }
        assert forall|j: int| 0 <= j < ps.len() implies !after.nodes.contains_key(#[trigger] ps[j]) by {
            if j < init.len() {
                assert(ps[j] == init[j]);
                assert(!u.nodes.contains_key(init[j]));
            }
        }
        assert forall|x: Seq<char>|
            owned_set.contains(x) && #[trigger] after.nodes.contains_key(x) implies after.nodes[x].children.len() == 0 by {
            assert(u.nodes.contains_key(x));
            if let Ok((q, c)) = delete_target(u.nodes, p) {
                if x == q {
                    assert(u.nodes[x].children.len() == 0);
                    assert(remove_value(u.nodes[x].children, c).len() == 0);
                }
            }
        }
    }
}

/// When a session ends, every ephemeral node it owned is gone: its paths
/// are deleted in some order and, as ephemeral nodes are childless (and
/// never the root) in every state that keeps the invariant, each delete
/// succeeds.
pub proof fn lemma_session_end_deletes_owned(v: KeeperView, session_id: SessionId, paths: Seq<Seq<char>>)
    requires
        server_inv(v),
        lists_owned(v, session_id, paths),
    ensures
        forall|p: Seq<char>|
            owned(v, session_id).contains(p) ==> !#[trigger] session_closed(v, session_id, paths).nodes.contains_key(p),
{
    let base = KeeperView {
        sessions: v.sessions.remove(session_id),
        expiry: v.expiry.remove(session_id),
        ephemerals: v.ephemerals.remove(session_id),
        ..v
    };
    let owned_set = owned(v, session_id);
    assert forall|p: Seq<char>|
        owned_set.contains(p) && #[trigger] base.nodes.contains_key(p) implies p != root_path()
            && base.nodes[p].children.len() == 0 by {
        assert(v.ephemerals.contains_key(session_id) && v.ephemerals[session_id].contains(p));
    }
    assert forall|j: int| 0 <= j < paths.len() implies owned_set.contains(#[trigger] paths[j]) by {
        assert(paths.to_set().contains(paths[j]));
    }
    lemma_delete_all_owned(base, paths, owned_set);
    assert forall|p: Seq<char>| owned_set.contains(p) implies !#[trigger] session_closed(v, session_id, paths).nodes.contains_key(p) by {
        assert(paths.to_set().contains(p));
        let j = choose|j: int| 0 <= j < paths.len() && paths[j] == p;
        assert(!delete_all(base, paths).nodes.contains_key(paths[j]));
    }
}


// ---------------------------------------------------------------------
// Laws: ephemeral nodes
// ---------------------------------------------------------------------

/// A create keeps the invariant, unless it makes an ephemeral node for the
/// no-session id 0.
proof fn lemma_create_keeps_inv(
    v: KeeperView,
    path: Seq<char>,
    d: Seq<u8>,
    ts: i64,
    sid: SessionId,
    f: i32,
)
    requires
        server_inv(v),
        f & 1 != 0 ==> sid != SessionId(0),
    ensures
        server_inv(create_view(v, path, d, ts, sid, f).0),
{
    lemma_create_then_read(v, path, d, ts, sid, f);
    if let Ok((full, q, name)) = create_target(v.nodes, path, f) {
        let after = create_view(v, path, d, ts, sid, f).0;
        lemma_split_path(full);
        assert(full != root_path()) by {
            assert(full.len() > q.len());
            assert(q.len() >= 1) by {
                lemma_split_path(path);
            }
        }
        assert forall|s2: SessionId, p: Seq<char>|
            after.ephemerals.contains_key(s2) && #[trigger] after.ephemerals[s2].contains(p) implies {
                &&& after.nodes.contains_key(p)
                &&& after.nodes[p].stat.ephemeral_owner == s2
                &&& p != root_path()
            } by {
            if !(f & 1 != 0 && s2 == sid && p == full) {
                assert(v.ephemerals.contains_key(s2) && v.ephemerals[s2].contains(p));
            }
        }
        assert forall|k: Seq<char>|
            #[trigger] after.nodes.contains_key(k) && after.nodes[k].stat.ephemeral_owner != SessionId(0)
            implies after.nodes[k].children.len() == 0 by {
            if k != full && k != q {
                assert(v.nodes.contains_key(k));
            }
        }
    }
}

/// Deleting a node and dropping it from its owner's list keeps the
/// invariant.
proof fn lemma_delete_keeps_inv(v: KeeperView, path: Seq<char>)
    requires
        server_inv(v),
    ensures
        server_inv(deleted_with_owner(v, path)),
{
    lemma_changes_keep_tree(v, path, Seq::empty(), 0, SessionId(0), 0);
    let owner = v.nodes[path].stat.ephemeral_owner;
    let v1 = delete_view(v, path).0;
    let after = deleted_with_owner(v, path);
    assert forall|s2: SessionId, p: Seq<char>|
        after.ephemerals.contains_key(s2) && #[trigger] after.ephemerals[s2].contains(p) implies {
            &&& after.nodes.contains_key(p)
            &&& after.nodes[p].stat.ephemeral_owner == s2
            &&& p != root_path()
        } by {
        assert(v.ephemerals.contains_key(s2) && v.ephemerals[s2].contains(p));
        if let Ok((q, c)) = delete_target(v.nodes, path) {
            if p == path {
                assert(s2 == owner);
                assert(false);
            }
        }
    }
    assert forall|k: Seq<char>|
        #[trigger] after.nodes.contains_key(k) && after.nodes[k].stat.ephemeral_owner != SessionId(0)
        implies after.nodes[k].children.len() == 0 by {
        assert(v.nodes.contains_key(k));
        if let Ok((q, c)) = delete_target(v.nodes, path) {
            if k == q {
                assert(remove_value(v.nodes[k].children, c).len() == 0);
            }
        }
    }
}

/// A data update keeps the invariant.
proof fn lemma_set_keeps_inv(v: KeeperView, path: Seq<char>, d: Seq<u8>, ts: i64)
    requires
        server_inv(v),
    ensures
        server_inv(set_view(v, path, d, ts).0),
{
    lemma_changes_keep_tree(v, path, d, ts, SessionId(0), 0);
    if v.nodes.contains_key(path) {
        lemma_set_then_read(v, path, d, ts);
        let after = set_view(v, path, d, ts).0;
        assert forall|s2: SessionId, p: Seq<char>|
            after.ephemerals.contains_key(s2) && #[trigger] after.ephemerals[s2].contains(p) implies {
                &&& after.nodes.contains_key(p)
                &&& after.nodes[p].stat.ephemeral_owner == s2
                &&& p != root_path()
            } by {
            assert(v.ephemerals.contains_key(s2) && v.ephemerals[s2].contains(p));
        }
        assert forall|k: Seq<char>|
            #[trigger] after.nodes.contains_key(k) && after.nodes[k].stat.ephemeral_owner != SessionId(0)
            implies after.nodes[k].children.len() == 0 by {
            assert(v.nodes.contains_key(k));
        }
    }
}

/// One operation of a batch by a session (not id 0) keeps the invariant.
proof fn lemma_multi_step_keeps_inv(v: KeeperView, op: MultiOpSpec, ts: i64, sid: SessionId)
    requires
        server_inv(v),
        sid != SessionId(0),
    ensures
        multi_step(v, op, ts, sid) matches Ok((v2, _, _, _)) ==> server_inv(v2),
{
    reveal(multi_step);
    match op {
        MultiOpSpec::Check(_, _) => {},
        MultiOpSpec::SetData(p, d, _) => lemma_set_keeps_inv(v, decode_utf8(p), d, ts),
        MultiOpSpec::Create(p, d, f) => lemma_create_keeps_inv(v, decode_utf8(p), d, ts, sid, f),
        MultiOpSpec::Delete(p, _) => lemma_delete_keeps_inv(v, decode_utf8(p)),
    }
}

/// A batch of a session (not id 0) that succeeds leaves a state that keeps
/// the invariant.
pub proof fn lemma_multi_keeps_inv(v: KeeperView, ops: Seq<MultiOpSpec>, ts: i64, sid: SessionId)
    requires
        server_inv(v),
        sid != SessionId(0),
    ensures
        multi_run(v, ops, ts, sid) matches Ok((vf, _, _, _)) ==> server_inv(vf),
    decreases ops.len(),
{
    if ops.len() > 0 {
        lemma_multi_keeps_inv(v, ops.drop_last(), ts, sid);
        if let Ok((v1, _, _, _)) = multi_run(v, ops.drop_last(), ts, sid) {
            lemma_multi_step_keeps_inv(v1, ops.last(), ts, sid);
        }
    }
}

/// Deleting nodes one after the other leaves no node that was not there,
/// keeps every node not on the list, keeps each node's owner, never gives a
/// childless node a child, and keeps the tree's shape.
proof fn lemma_delete_all_keeps_others(w: KeeperView, ps: Seq<Seq<char>>)
    requires
        tree_wf(w.nodes),
    ensures
        tree_wf(delete_all(w, ps).nodes),
        forall|k: Seq<char>| #[trigger] delete_all(w, ps).nodes.contains_key(k) ==> {
            &&& w.nodes.contains_key(k)
            &&& delete_all(w, ps).nodes[k].stat.ephemeral_owner == w.nodes[k].stat.ephemeral_owner
            &&& w.nodes[k].children.len() == 0 ==> delete_all(w, ps).nodes[k].children.len() == 0
        },
        forall|k: Seq<char>| w.nodes.contains_key(k) && !ps.contains(k) ==> #[trigger] delete_all(w, ps).nodes.contains_key(k),
    decreases ps.len(),
{
    lemma_delete_all_frame(w, ps);
    if ps.len() > 0 {
        let init = ps.drop_last();
        lemma_delete_all_keeps_others(w, init);
        let u = delete_all(w, init);
        let p = ps.last();
        lemma_changes_keep_tree(u, p, Seq::empty(), 0, SessionId(0), 0);
        let after = delete_all(w, ps);
        assert(after == delete_view(u, p).0);
        assert forall|k: Seq<char>| #[trigger] after.nodes.contains_key(k) implies {
            &&& w.nodes.contains_key(k)
            &&& after.nodes[k].stat.ephemeral_owner == w.nodes[k].stat.ephemeral_owner
            &&& w.nodes[k].children.len() == 0 ==> after.nodes[k].children.len() == 0
        } by {
            assert(u.nodes.contains_key(k));
            if let Ok((q, c)) = delete_target(u.nodes, p) {
                if k == q && w.nodes[k].children.len() == 0 {
                    assert(remove_value(u.nodes[k].children, c).len() == 0);
                }
            }
        }
        assert forall|k: Seq<char>| w.nodes.contains_key(k) && !ps.contains(k) implies #[trigger] after.nodes.contains_key(k) by {
            if init.contains(k) {
                let j = choose|j: int| 0 <= j < init.len() && init[j] == k;
                assert(ps[j] == k);
            }
            assert(u.nodes.contains_key(k));
            assert(k != p) by {
                assert(ps[ps.len() - 1] == p);
            }
        }
    }
}

/// A session that ends, deleting the ephemeral nodes it owns, leaves a
/// state that keeps the invariant.
pub proof fn lemma_session_end_keeps_inv(v: KeeperView, session_id: SessionId, paths: Seq<Seq<char>>)
    requires
        server_inv(v),
        lists_owned(v, session_id, paths),
    ensures
        server_inv(session_closed(v, session_id, paths)),
{
    let base = KeeperView {
        sessions: v.sessions.remove(session_id),
        expiry: v.expiry.remove(session_id),
        ephemerals: v.ephemerals.remove(session_id),
        ..v
    };
    lemma_delete_all_keeps_others(base, paths);
    lemma_delete_all_frame(base, paths);
    let after = session_closed(v, session_id, paths);
    assert forall|s2: SessionId, p: Seq<char>|
        after.ephemerals.contains_key(s2) && #[trigger] after.ephemerals[s2].contains(p) implies {
            &&& after.nodes.contains_key(p)
            &&& after.nodes[p].stat.ephemeral_owner == s2
            &&& p != root_path()
        } by {
        assert(v.ephemerals.contains_key(s2) && v.ephemerals[s2].contains(p));
        assert(s2 != session_id);
        if paths.contains(p) {
            assert(paths.to_set().contains(p));
            assert(owned(v, session_id).contains(p));
            assert(v.ephemerals[session_id].contains(p));
            assert(false);
        }
    }
    assert forall|k: Seq<char>|
        #[trigger] after.nodes.contains_key(k) && after.nodes[k].stat.ephemeral_owner != SessionId(0)
        implies after.nodes[k].children.len() == 0 by {
        assert(v.nodes.contains_key(k));
    }
}

/// What a waiting change needs for the invariant to survive it: an
/// ephemeral create belongs to a session (not id 0), and a batch's staged
/// state keeps the invariant.
pub open spec fn pending_ok(p: PendingView) -> bool {
    match p {
        PendingView::Create(_, _, _, f, sid, _) => f & 1 != 0 ==> sid != SessionId(0),
        PendingView::Multi(_, _, staged, _, _) => server_inv(staged),
        _ => true,
    }
}

/// Completing a waiting change, whether its log entry was written or not,
/// keeps the invariant.
pub proof fn lemma_complete_keeps_inv(v: KeeperView, p: PendingView, flushed: bool, paths: Seq<Seq<char>>)
    requires
        server_inv(v),
        pending_ok(p),
        flushed ==> (p matches PendingView::Close(_, sid) ==> lists_owned(v, sid, paths)),
    ensures
        server_inv(complete_view(v, p, flushed, paths).0),
{
    match p {
        PendingView::Close(_, sid) => if flushed {
            lemma_session_end_keeps_inv(v, sid, paths);
        },
        PendingView::Create(_, path, d, f, sid, ts) => lemma_create_keeps_inv(v, path, d, ts, sid, f),
        PendingView::SetData(_, path, d, ts) => lemma_set_keeps_inv(v, path, d, ts),
        PendingView::Delete(_, path) => lemma_delete_keeps_inv(v, path),
        PendingView::Multi(..) => {},
    }
}

/// A request of a session (not id 0) keeps the invariant, and the change it
/// leaves waiting keeps it too once completed.
pub proof fn lemma_apply_keeps_inv(v: KeeperView, payload: Seq<u8>, session_id: SessionId, now: i64)
    requires
        server_inv(v),
        session_id != SessionId(0),
    ensures
        server_inv(apply_after(v, payload, session_id, now)),
        apply_begin(v, payload, session_id, now) matches Begin::Persist(_, p) ==> pending_ok(p),
{
    let t = touched(v, session_id, now);
    assert(server_inv(t));
    if payload.len() >= 8 {
        let body = payload.skip(8);
        if let Parse::Parsed(ops, _) = multi_request_wire(body) {
            lemma_multi_keeps_inv(KeeperView { zxid: (t.zxid + 1) as i64, ..t }, ops, now, session_id);
        }
    }
}

/// Starting a session keeps the invariant, and so does a session that
/// expires, whatever order its ephemeral nodes are deleted in.
pub proof fn lemma_sessions_keep_inv(
    v: KeeperView,
    timeout_ms: i64,
    now: i64,
    session_id: SessionId,
    paths: Seq<Seq<char>>,
)
    requires
        server_inv(v),
    ensures
        server_inv(session_started(v, timeout_ms, now)),
        lists_owned(v, session_id, paths) ==> server_inv(session_closed(next_change(v), session_id, paths)),
{
    if lists_owned(v, session_id, paths) {
        assert(owned(next_change(v), session_id) == owned(v, session_id));
        lemma_session_end_keeps_inv(next_change(v), session_id, paths);
    }
}

// ---------------------------------------------------------------------
// Laws: replaying a whole log
// ---------------------------------------------------------------------

/// Two states that agree on everything but watch registrations and expiry
/// buckets (neither is written to the log).
pub open spec fn same_tree(a: KeeperView, b: KeeperView) -> bool {
    (KeeperView { watches: b.watches, expiry: b.expiry, ..a }) == b
}

/// Replaying a batch's changes does not look at watches or expiry buckets.
proof fn lemma_multi_replay_same_tree(a: KeeperView, b: KeeperView, ops: Seq<MultiWalOp>, ts: i64, sid: i64)
    requires
        same_tree(a, b),
    ensures
        match (multi_replay(a, ops, ts, sid), multi_replay(b, ops, ts, sid)) {
            (Ok(x), Ok(y)) => same_tree(x, y),
            (Err(e1), Err(e2)) => e1 == e2,
            _ => false,
        },
    decreases ops.len(),
{
    reveal(multi_replay_step);
    if ops.len() > 0 {
        lemma_multi_replay_same_tree(a, b, ops.drop_last(), ts, sid);
    }
}

/// Deleting a session's nodes on replay does not look at watches or expiry
/// buckets.
proof fn lemma_delete_all_strict_same_tree(a: KeeperView, b: KeeperView, paths: Seq<Seq<char>>)
    requires
        same_tree(a, b),
    ensures
        match (delete_all_strict(a, paths), delete_all_strict(b, paths)) {
            (Ok(x), Ok(y)) => same_tree(x, y),
            (Err(e1), Err(e2)) => e1 == e2,
            _ => false,
        },
    decreases paths.len(),
{
    if paths.len() > 0 {
        lemma_delete_all_strict_same_tree(a, b, paths.drop_last());
    }
}

/// Replaying one log entry does not look at watches or expiry buckets.
proof fn lemma_replay_same_tree(a: KeeperView, b: KeeperView, index: u64, op: WalOp, paths: Seq<Seq<char>>)
    requires
        same_tree(a, b),
    ensures
        match (replay_view(a, index, op, paths), replay_view(b, index, op, paths)) {
            (Ok(x), Ok(y)) => same_tree(x, y),
            (Err(e1), Err(e2)) => e1 == e2,
            _ => false,
        },
{
    let a0 = KeeperView { zxid: index as i64, ..a };
    let b0 = KeeperView { zxid: index as i64, ..b };
    match op {
        WalOp::Multi(ops, ts, sid) => lemma_multi_replay_same_tree(a0, b0, ops, ts, sid),
        WalOp::CloseSession(sid) => lemma_delete_all_strict_same_tree(
            KeeperView {
                sessions: a0.sessions.remove(SessionId(sid)),
                expiry: a0.expiry.remove(SessionId(sid)),
                ephemerals: a0.ephemerals.remove(SessionId(sid)),
                ..a0
            },
            KeeperView {
                sessions: b0.sessions.remove(SessionId(sid)),
                expiry: b0.expiry.remove(SessionId(sid)),
                ephemerals: b0.ephemerals.remove(SessionId(sid)),
                ..b0
            },
            paths,
        ),
        _ => {},
    }
}

/// A log replayed entry after entry onto `v`, stopping at the first entry
/// that fails; `orders[i]` is the order in which entry `i`, if it ends a
/// session, deletes its ephemeral nodes.
pub open spec fn replay_log(v: KeeperView, log: Seq<(u64, WalOp)>, orders: Seq<Seq<Seq<char>>>) -> Result<KeeperView, ReplayError>
    decreases log.len(),
{
    if log.len() == 0 {
        Ok(v)
    } else {
        match replay_log(v, log.drop_last(), orders) {
            Err(e) => Err(e),
            Ok(v1) => replay_view(v1, log.last().0, log.last().1, orders[log.len() - 1]),
        }
    }
}

/// Replaying a whole log rebuilds what the server held when it wrote the
/// last entry, but for watches and expiry buckets. `states[i]` is the state
/// the server held when it wrote entry `i`, and `states[log.len()]` the one
/// it ended with; if each entry, replayed onto the state it was written
/// from, rebuilds the state the next entry was written from (which the
/// per-entry laws `lemma_replay_create`, `_set`, `_delete`, `_multi`,
/// `_session` and `_close` give, reads and session refreshes between entries
/// changing only watches and expiry buckets), then the whole log replayed
/// onto the first state rebuilds the last.
pub proof fn lemma_replay_log(states: Seq<KeeperView>, log: Seq<(u64, WalOp)>, orders: Seq<Seq<Seq<char>>>)
    requires
        states.len() == log.len() + 1,
        orders.len() == log.len(),
        forall|i: int|
            0 <= i < log.len() ==> (#[trigger] replay_view(states[i], log[i].0, log[i].1, orders[i]) matches Ok(r)
                && same_tree(r, states[i + 1])),
    ensures
        replay_log(states[0], log, orders) matches Ok(r) && same_tree(r, states[log.len() as int]),
    decreases log.len(),
{
    if log.len() > 0 {
        let n = log.len() - 1;
        let init = log.drop_last();
        assert forall|i: int|
            0 <= i < init.len() implies (#[trigger] replay_view(states.drop_last()[i], init[i].0, init[i].1, orders.drop_last()[i]) matches Ok(r)
                && same_tree(r, states.drop_last()[i + 1])) by {
            assert(replay_view(states[i], log[i].0, log[i].1, orders[i]) matches Ok(r) && same_tree(r, states[i + 1]));
        }
        lemma_replay_log(states.drop_last(), init, orders.drop_last());
        assert(replay_log(states[0], init, orders.drop_last()) == replay_log(states[0], init, orders)) by {
            lemma_replay_log_orders(states[0], init, orders.drop_last(), orders);
        }
        let v1 = replay_log(states[0], init, orders)->Ok_0;
        assert(replay_view(states[n], log[n].0, log[n].1, orders[n]) matches Ok(r) && same_tree(r, states[n + 1]));
        lemma_replay_same_tree(states[n], v1, log[n].0, log[n].1, orders[n]);
    }
}

/// A replay looks only at the orders of the entries it replays.
proof fn lemma_replay_log_orders(v: KeeperView, log: Seq<(u64, WalOp)>, o1: Seq<Seq<Seq<char>>>, o2: Seq<Seq<Seq<char>>>)
    requires
        o1.len() >= log.len(),
        o2.len() >= log.len(),
        forall|i: int| 0 <= i < log.len() ==> o1[i] == o2[i],
    ensures
        replay_log(v, log, o1) == replay_log(v, log, o2),
    decreases log.len(),
{
    if log.len() > 0 {
        lemma_replay_log_orders(v, log.drop_last(), o1, o2);
    }
}

/// A request answered at once, with no log entry, changes nothing but
/// watches and expiry buckets: between two log entries the state replay
/// rebuilds does not move.
pub proof fn lemma_reply_keeps_tree(v: KeeperView, payload: Seq<u8>, session_id: SessionId, now: i64)
    ensures
        apply_begin(v, payload, session_id, now) is Reply ==> same_tree(
            apply_after(v, payload, session_id, now),
            v,
        ),
{
}

/// Deleting, one after the other, distinct present paths from a set whose
/// present nodes are childless and not the root never meets a refusal.
proof fn lemma_delete_all_strict_succeeds(w: KeeperView, ps: Seq<Seq<char>>, owned_set: Set<Seq<char>>)
    requires
        tree_wf(w.nodes),
        ps.no_duplicates(),
        forall|j: int| 0 <= j < ps.len() ==> owned_set.contains(#[trigger] ps[j]) && w.nodes.contains_key(ps[j]),
        forall|p: Seq<char>|
            owned_set.contains(p) && #[trigger] w.nodes.contains_key(p) ==> p != root_path()
                && w.nodes[p].children.len() == 0,
    ensures
        delete_all_strict(w, ps) == Ok::<KeeperView, ReplayError>(delete_all(w, ps)),
    decreases ps.len(),
{
    if ps.len() > 0 {
        let init = ps.drop_last();
        let p = ps.last();
        assert(p == ps[ps.len() - 1]);
        assert forall|j: int| 0 <= j < init.len() implies owned_set.contains(#[trigger] init[j]) && w.nodes.contains_key(init[j]) by {
            assert(init[j] == ps[j]);
        }
        assert(init.no_duplicates()) by {
            assert forall|i: int, j: int| 0 <= i < j < init.len() implies init[i] != init[j] by {
                assert(init[i] == ps[i] && init[j] == ps[j]);
            }
        }
        lemma_delete_all_strict_succeeds(w, init, owned_set);
        lemma_delete_all_owned(w, init, owned_set);
        lemma_delete_all_keeps_others(w, init);
        let u = delete_all(w, init);
        assert(!init.contains(p)) by {
            if init.contains(p) {
                let j = choose|j: int| 0 <= j < init.len() && init[j] == p;
                assert(ps[j] == ps[ps.len() - 1]);
            }
        }
        assert(u.nodes.contains_key(p));
        assert(p != root_path());
        assert(u.nodes[p].children.len() == 0);
        lemma_split_path(p);
        assert(delete_target(u.nodes, p) is Ok);
    }
}

/// A session's end, logged as `CloseSession`, always replays onto the
/// state it was logged from, when that state keeps the invariant: the
/// replay succeeds and leaves the state the live end left, with the session
/// gone and none of its ephemeral nodes left.
pub proof fn lemma_close_replays(v: KeeperView, session_id: SessionId, paths: Seq<Seq<char>>, index: u64)
    requires
        server_inv(v),
        lists_owned(v, session_id, paths),
        index as i64 == v.zxid + 1,
    ensures
        replay_view(v, index, WalOp::CloseSession(session_id.0), paths) matches Ok(r) && r == session_closed(
            next_change(v),
            session_id,
            paths,
        ) && !r.sessions.contains_key(session_id) && forall|p: Seq<char>|
            owned(v, session_id).contains(p) ==> !#[trigger] r.nodes.contains_key(p),
{
    let v1 = next_change(v);
    assert(SessionId(session_id.0) == session_id);
    assert(owned(v1, session_id) == owned(v, session_id));
    let base = KeeperView {
        sessions: v1.sessions.remove(session_id),
        expiry: v1.expiry.remove(session_id),
        ephemerals: v1.ephemerals.remove(session_id),
        ..v1
    };
    let owned_set = owned(v, session_id);
    assert forall|j: int| 0 <= j < paths.len() implies owned_set.contains(#[trigger] paths[j]) && base.nodes.contains_key(paths[j]) by {
        assert(paths.to_set().contains(paths[j]));
        assert(v.ephemerals.contains_key(session_id) && v.ephemerals[session_id].contains(paths[j]));
    }
    assert forall|p: Seq<char>|
        owned_set.contains(p) && #[trigger] base.nodes.contains_key(p) implies p != root_path()
            && base.nodes[p].children.len() == 0 by {
        assert(v.ephemerals.contains_key(session_id) && v.ephemerals[session_id].contains(p));
    }
    lemma_delete_all_strict_succeeds(base, paths, owned_set);
    lemma_delete_all_frame(base, paths);
    lemma_session_end_deletes_owned(v1, session_id, paths);
}

// ---------------------------------------------------------------------
// Laws: what each reply says
// ---------------------------------------------------------------------

/// Whether a check of `p` at version `ver` passes on `v`: the node exists
/// and `ver` is -1 or its version.
pub open spec fn check_passes(v: KeeperView, p: Seq<u8>, ver: i32) -> bool {
    v.nodes.contains_key(decode_utf8(p)) && (ver == -1 || ver == v.nodes[decode_utf8(p)].stat.version)
}

/// Checks that pass leave a batch's staged state as it was.
proof fn lemma_passing_checks(sv: KeeperView, ops: Seq<MultiOpSpec>, i: int, ts: i64, sid: SessionId)
    requires
        0 <= i <= ops.len(),
        forall|j: int| 0 <= j < i ==> (#[trigger] ops[j] matches MultiOpSpec::Check(p, ver) && check_passes(sv, p, ver)),
    ensures
        multi_run(sv, ops.subrange(0, i), ts, sid) matches Ok((s, _, _, _)) && s == sv,
    decreases i,
{
    if i == 0 {
        assert(ops.subrange(0, 0) =~= Seq::<MultiOpSpec>::empty());
    } else {
        lemma_passing_checks(sv, ops, i - 1, ts, sid);
        lemma_multi_run_next(sv, ops, i - 1, ts, sid);
        reveal(multi_step);
        assert(ops[i - 1] matches MultiOpSpec::Check(p, ver) && check_passes(sv, p, ver));
    }
}

/// The error a failing check reports: `NoNode` for a missing node, else
/// `BadVersion`.
pub open spec fn check_error(v: KeeperView, p: Seq<u8>) -> ErrorCode {
    if v.nodes.contains_key(decode_utf8(p)) {
        ErrorCode::BadVersion
    } else {
        ErrorCode::NoNode
    }
}

/// A check inside a batch that fails (a missing node, or a version other
/// than -1 that is not the node's) fails the whole batch with `NoNode` or
/// `BadVersion`, whatever follows it: the reply reports the passing checks
/// before it rolled back, the error for it and `RuntimeInconsistency` for
/// the rest, under the unchanged change id, and the state is left as it
/// was, with no log entry.
pub proof fn lemma_batch_check_fails(
    v: KeeperView,
    xid: i32,
    body: Seq<u8>,
    session_id: SessionId,
    now: i64,
    k: int,
)
    requires
        multi_request_wire(body) matches Parse::Parsed(ops, _) && 0 <= k < ops.len() && (forall|j: int|
            0 <= j < k ==> (#[trigger] ops[j] matches MultiOpSpec::Check(p, ver) && check_passes(v, p, ver)))
            && (ops[k] matches MultiOpSpec::Check(p, ver) && !check_passes(v, p, ver)),
    ensures
        multi_request_wire(body) matches Parse::Parsed(ops, _) && ops[k] matches MultiOpSpec::Check(p, ver) && {
            let code = check_error(v, p);
            &&& v.nodes.contains_key(decode_utf8(p)) ==> ver != -1 && ver != v.nodes[decode_utf8(p)].stat.version
                && code == ErrorCode::BadVersion
            &&& !v.nodes.contains_key(decode_utf8(p)) ==> code == ErrorCode::NoNode
            &&& multi_begin(v, xid, body, session_id, now) == Begin::Reply(
                reply_header_bytes(xid, v.zxid, ErrorCode::Success) + multi_response_bytes(
                    rollback_outcomes(ops.len() as int, k, code),
                ),
            )
            &&& rollback_outcomes(ops.len() as int, k, code)[k] == OpOutcome::Failed(code)
            &&& forall|j: int| 0 <= j < k ==> #[trigger] rollback_outcomes(ops.len() as int, k, code)[j]
                == OpOutcome::Failed(ErrorCode::Success)
            &&& forall|j: int| k < j < ops.len() ==> #[trigger] rollback_outcomes(ops.len() as int, k, code)[j]
                == OpOutcome::Failed(ErrorCode::RuntimeInconsistency)
            &&& begun(v, multi_begin(v, xid, body, session_id, now)) == v
        },
{
    let ops = multi_request_wire(body)->Parsed_0;
    let sv = KeeperView { zxid: (v.zxid + 1) as i64, ..v };
    assert forall|j: int| 0 <= j < k implies (#[trigger] ops[j] matches MultiOpSpec::Check(p, ver) && check_passes(sv, p, ver)) by {
        assert(ops[j] matches MultiOpSpec::Check(p, ver) && check_passes(v, p, ver));
    }
    lemma_passing_checks(sv, ops, k, now, session_id);
    lemma_multi_run_next(sv, ops, k, now, session_id);
    reveal(multi_step);
    let p = ops[k]->Check_0;
    assert(multi_run(sv, ops.subrange(0, k + 1), now, session_id) == Err::<
        (KeeperView, Seq<OpOutcome>, Seq<EventView>, Seq<MultiWalOp>),
        (int, ErrorCode),
    >((k, check_error(v, p))));
    lemma_multi_run_stops(sv, ops, k, now, session_id);
}

/// A create that goes ahead answers with the path of the node it added: the
/// reply names the one path that is a node after the create and was not
/// before (for a sequential create, the numbered path, not the requested
/// prefix).
pub proof fn lemma_create_reply_names_new_node(
    v: KeeperView,
    xid: i32,
    path: Seq<char>,
    d: Seq<u8>,
    f: i32,
    sid: SessionId,
    ts: i64,
    ps: Seq<Seq<char>>,
)
    requires
        tree_wf(v.nodes),
        create_target(v.nodes, path, f) is Ok,
    ensures
        ({
            let (after, reply, _) = complete_view(v, PendingView::Create(xid, path, d, f, sid, ts), true, ps);
            &&& exists|q: Seq<char>| !v.nodes.contains_key(q) && after.nodes.contains_key(q)
            &&& forall|q: Seq<char>| !v.nodes.contains_key(q) && #[trigger] after.nodes.contains_key(q) ==> {
                &&& after.nodes.dom() == v.nodes.dom().insert(q)
                &&& reply == reply_header_bytes(xid, v.zxid, ErrorCode::Success) + jute_bytes(encode_utf8(q))
            }
        }),
{
    lemma_create_then_read(v, path, d, ts, sid, f);
    let (full, qp, name) = create_target(v.nodes, path, f)->Ok_0;
    let after = complete_view(v, PendingView::Create(xid, path, d, f, sid, ts), true, ps).0;
    assert(after.nodes.dom() =~= v.nodes.dom().insert(full));
    assert(!v.nodes.contains_key(full) && after.nodes.contains_key(full));
}

/// A data update that goes ahead answers with the node's new Stat: its
/// version stepped, its last change the update's change id and time, its
/// data length the new data's; the node then holds the new data and the
/// same children.
pub proof fn lemma_set_reply_carries_new_stat(
    v: KeeperView,
    xid: i32,
    path: Seq<char>,
    d: Seq<u8>,
    ts: i64,
    ps: Seq<Seq<char>>,
)
    requires
        v.nodes.contains_key(path),
    ensures
        ({
            let (after, reply, _) = complete_view(v, PendingView::SetData(xid, path, d, ts), true, ps);
            let before = v.nodes[path];
            let now = after.nodes[path];
            &&& now.data == d
            &&& now.children == before.children
            &&& now.stat.version == bump(before.stat.version)
            &&& now.stat.mzxid == v.zxid
            &&& now.stat.mtime == ts
            &&& now.stat.czxid == before.stat.czxid
            &&& reply == reply_header_bytes(xid, v.zxid, ErrorCode::Success) + stat_bytes(
                now.stat,
                d.len() as i32,
                before.children.len() as i32,
            )
        }),
{
    lemma_set_then_read(v, path, d, ts);
}

/// A completed delete tells each session watching the node's data that it
/// was deleted, and each session watching the children of the node or of
/// its parent that those children changed, and tells no one anything else:
/// exactly what firing a deletion at the path gives.
pub proof fn lemma_completed_delete_notifies(v: KeeperView, xid: i32, path: Seq<char>, ps: Seq<Seq<char>>, s: SessionId)
    ensures
        ({
            let evs = complete_view(v, PendingView::Delete(xid, path), true, ps).2;
            let regs = v.watches;
            &&& evs == fire_spec(regs, path, WatchEventType::Deleted).0
            &&& regs.contains((s, path, WatchType::Watch)) ==> evs.contains(
                (s, notification_bytes(WatchEventType::Deleted, encode_utf8(path))),
            )
            &&& regs.contains((s, path, WatchType::ListWatch)) ==> evs.contains(
                (s, notification_bytes(WatchEventType::Child, encode_utf8(path))),
            )
            &&& (watch_parent(path) matches Some(q) && regs.contains((s, q, WatchType::ListWatch))) ==> evs.contains(
                (s, notification_bytes(WatchEventType::Child, encode_utf8(watch_parent(path)->Some_0))),
            )
            &&& forall|i: int| 0 <= i < evs.len() ==> {
                ||| (#[trigger] evs[i]).1 == notification_bytes(WatchEventType::Deleted, encode_utf8(path))
                    && regs.contains((evs[i].0, path, WatchType::Watch))
                ||| evs[i].1 == notification_bytes(WatchEventType::Child, encode_utf8(path))
                    && regs.contains((evs[i].0, path, WatchType::ListWatch))
                ||| watch_parent(path) matches Some(q) && evs[i].1 == notification_bytes(WatchEventType::Child, encode_utf8(q))
                    && regs.contains((evs[i].0, q, WatchType::ListWatch))
            }
        }),
{
    lemma_delete_notifies(v.watches, path, s);
}

/// An exists reply carries the node's Stat encoded as a getData reply
/// encodes it, with the node's data length and number of children: the
/// getData reply to the same request is the exists reply with the data put
/// in front of the Stat. A missing node gets `NoNode` from both.
pub proof fn lemma_exists_reply_is_get_data_stat(v: KeeperView, xid: i32, body: Seq<u8>, sid: SessionId)
    ensures
        ({
            let ex = read_outcome(v, xid, body, sid, WatchType::Watch, |n: NodeView| exists_body(n)).1;
            let gd = read_outcome(v, xid, body, sid, WatchType::Watch, |n: NodeView| get_data_body(n)).1;
            path_watch_wire(body) matches Parse::Parsed((p, _), _) ==> {
                let path = decode_utf8(p);
                let n = v.nodes[path];
                &&& v.nodes.contains_key(path) ==> ex == reply_header_bytes(xid, v.zxid, ErrorCode::Success)
                    + stat_bytes(n.stat, n.data.len() as i32, n.children.len() as i32)
                &&& v.nodes.contains_key(path) ==> gd == reply_header_bytes(xid, v.zxid, ErrorCode::Success)
                    + jute_bytes(n.data) + ex.skip(16)
                &&& !v.nodes.contains_key(path) ==> ex == gd && ex == reply_header_bytes(xid, v.zxid, ErrorCode::NoNode)
            }
        }),
{
    if let Parse::Parsed((p, _), _) = path_watch_wire(body) {
        let path = decode_utf8(p);
        if v.nodes.contains_key(path) {
            let n = v.nodes[path];
            let h = reply_header_bytes(xid, v.zxid, ErrorCode::Success);
            let st = stat_bytes(n.stat, n.data.len() as i32, n.children.len() as i32);
            assert(h.len() == 16);
            assert((h + st).skip(16) =~= st);
            assert(h + (jute_bytes(n.data) + st) =~= h + jute_bytes(n.data) + st);
        }
    }
}

/// A completed create tells each session watching the new node's path
/// that it was created and each session watching the children of its
/// parent that they changed, and tells no one anything else: exactly what
/// firing a creation at the new node's path gives.
pub proof fn lemma_completed_create_notifies(
    v: KeeperView,
    xid: i32,
    path: Seq<char>,
    d: Seq<u8>,
    f: i32,
    sid: SessionId,
    ts: i64,
    ps: Seq<Seq<char>>,
    s: SessionId,
)
    requires
        tree_wf(v.nodes),
        create_target(v.nodes, path, f) is Ok,
    ensures
        ({
            let (after, _, evs) = complete_view(v, PendingView::Create(xid, path, d, f, sid, ts), true, ps);
            let regs = v.watches;
            forall|q: Seq<char>| !v.nodes.contains_key(q) && #[trigger] after.nodes.contains_key(q) ==> {
                &&& evs == fire_spec(regs, q, WatchEventType::Created).0
                &&& regs.contains((s, q, WatchType::Watch)) ==> evs.contains(
                    (s, notification_bytes(WatchEventType::Created, encode_utf8(q))),
                )
                &&& (watch_parent(q) matches Some(pq) && pq != q && regs.contains((s, pq, WatchType::ListWatch)))
                    ==> evs.contains((s, notification_bytes(WatchEventType::Child, encode_utf8(watch_parent(q)->Some_0))))
                &&& forall|i: int| 0 <= i < evs.len() ==> {
                    ||| (#[trigger] evs[i]).1 == notification_bytes(WatchEventType::Created, encode_utf8(q))
                        && regs.contains((evs[i].0, q, WatchType::Watch))
                    ||| watch_parent(q) matches Some(pq) && evs[i].1 == notification_bytes(WatchEventType::Child, encode_utf8(pq))
                        && regs.contains((evs[i].0, pq, WatchType::ListWatch))
                }
            }
        }),
{
    lemma_create_then_read(v, path, d, ts, sid, f);
    let (full, qp, name) = create_target(v.nodes, path, f)->Ok_0;
    let after = complete_view(v, PendingView::Create(xid, path, d, f, sid, ts), true, ps).0;
    assert(after.nodes.dom() =~= v.nodes.dom().insert(full));
    lemma_create_notifies(v.watches, full, s);
}

/// A completed data update tells each session watching the node's data
/// that it changed, and tells no one anything else.
pub proof fn lemma_completed_set_notifies(
    v: KeeperView,
    xid: i32,
    path: Seq<char>,
    d: Seq<u8>,
    ts: i64,
    ps: Seq<Seq<char>>,
    s: SessionId,
)
    ensures
        ({
            let evs = complete_view(v, PendingView::SetData(xid, path, d, ts), true, ps).2;
            let regs = v.watches;
            &&& evs == fire_spec(regs, path, WatchEventType::Changed).0
            &&& regs.contains((s, path, WatchType::Watch)) ==> evs.contains(
                (s, notification_bytes(WatchEventType::Changed, encode_utf8(path))),
            )
            &&& forall|i: int| 0 <= i < evs.len() ==> (#[trigger] evs[i]).1 == notification_bytes(
                WatchEventType::Changed,
                encode_utf8(path),
            ) && regs.contains((evs[i].0, path, WatchType::Watch))
        }),
{
    lemma_change_notifies(v.watches, path, s);
}

/// A getChildren reply lists the node's children by name, each once, in
/// ascending text order, then its Stat; the simple form is the same list
/// without the Stat. A missing node gets `NoNode` from both.
pub proof fn lemma_children_reply(v: KeeperView, xid: i32, body: Seq<u8>, sid: SessionId)
    requires
        tree_wf(v.nodes),
    ensures
        ({
            let full = read_outcome(v, xid, body, sid, WatchType::ListWatch, |n: NodeView| list_body(n)).1;
            let simple = read_outcome(v, xid, body, sid, WatchType::ListWatch, |n: NodeView| simple_list_body(n)).1;
            path_watch_wire(body) matches Parse::Parsed((p, _), _) ==> {
                let path = decode_utf8(p);
                let n = v.nodes[path];
                &&& v.nodes.contains_key(path) ==> children_sorted(n.children)
                &&& v.nodes.contains_key(path) ==> simple == reply_header_bytes(xid, v.zxid, ErrorCode::Success)
                    + string_list_bytes(n.children.map_values(|c: Seq<char>| encode_utf8(c)))
                &&& v.nodes.contains_key(path) ==> full == simple + stat_bytes(
                    n.stat,
                    n.data.len() as i32,
                    n.children.len() as i32,
                )
                &&& !v.nodes.contains_key(path) ==> full == simple && simple == reply_header_bytes(xid, v.zxid, ErrorCode::NoNode)
            }
        }),
{
    if let Parse::Parsed((p, _), _) = path_watch_wire(body) {
        let path = decode_utf8(p);
        if v.nodes.contains_key(path) {
            let n = v.nodes[path];
            let h = reply_header_bytes(xid, v.zxid, ErrorCode::Success);
            let names = string_list_bytes(n.children.map_values(|c: Seq<char>| encode_utf8(c)));
            assert(child_names(n) == n.children.map_values(|c: Seq<char>| encode_utf8(c)));
            assert(h + (names + node_stat_bytes(n)) =~= h + names + node_stat_bytes(n));
        }
    }
}

/// A completed delete of a childless node other than the root removes that
/// node and nothing else, drops its name from its parent's children, makes
/// its owner (if it was ephemeral) forget it, and answers `Success` under
/// the delete's change id.
pub proof fn lemma_completed_delete_removes(v: KeeperView, xid: i32, path: Seq<char>, ps: Seq<Seq<char>>)
    requires
        server_inv(v),
        v.nodes.contains_key(path),
        path != root_path(),
        v.nodes[path].children.len() == 0,
    ensures
        ({
            let (after, reply, _) = complete_view(v, PendingView::Delete(xid, path), true, ps);
            let owner = v.nodes[path].stat.ephemeral_owner;
            &&& after.nodes.dom() == v.nodes.dom().remove(path)
            &&& split_path(path) matches Some((q, c)) && after.nodes.contains_key(q) && !after.nodes[q].children.contains(c)
            &&& forall|sid: SessionId| #[trigger] after.ephemerals.contains_key(sid) ==> !after.ephemerals[sid].contains(path)
            &&& reply == reply_header_bytes(xid, v.zxid, ErrorCode::Success)
            &&& server_inv(after)
        }),
{
    lemma_split_path(path);
    lemma_changes_keep_tree(v, path, Seq::empty(), 0, SessionId(0), 0);
    lemma_delete_keeps_inv(v, path);
    let (q, c) = delete_target(v.nodes, path)->Ok_0;
    crate::znode::lemma_remove_value(v.nodes[q].children, c);
    let after = complete_view(v, PendingView::Delete(xid, path), true, ps).0;
    assert(after.nodes.dom() =~= v.nodes.dom().remove(path));
    assert forall|sid: SessionId| #[trigger] after.ephemerals.contains_key(sid) implies !after.ephemerals[sid].contains(path) by {
        if after.ephemerals[sid].contains(path) {
            assert(after.nodes.contains_key(path));
        }
    }
}

} // verus!
