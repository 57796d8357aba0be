//! The decisions a connection makes about its frames: how long a frame may
//! be, what the handshake answers, what becomes of each request frame, and
//! what an authentication request gets.

use vstd::prelude::*;
use vstd::string::*;
use vstd::utf8::*;
use crate::auth::{authenticate, digest_id, AuthId};
use crate::codec::get_i32;
use crate::protocol::{
    auth_request_wire, i32_at, opcode_of, reply_header_bytes, AuthRequest, ConnectRequest,
    ConnectResponse, ErrorCode, OpCode, Parse, ReplyHeader, RequestHeader, SessionId,
};
use crate::text::str_eq;

verus! {

broadcast use vstd::utf8::encode_utf8_decode_utf8;

/// The longest frame a client may send.
pub const MAX_FRAME_LENGTH: i32 = 1_048_575;

/// The length a frame announces in its four-byte prefix, when it is within
/// `0..=MAX_FRAME_LENGTH`; `None` drops the connection.
pub fn frame_length(prefix: &[u8]) -> (r: Option<usize>)
    requires
        prefix@.len() == 4,
    ensures
        match r {
            Some(n) => 0 <= i32_at(prefix@, 0) <= MAX_FRAME_LENGTH && n == i32_at(prefix@, 0),
            None => !(0 <= i32_at(prefix@, 0) <= MAX_FRAME_LENGTH),
        },
{
    let mut cur = prefix;
    assert(prefix@.skip(0) =~= prefix@);
    let message_length = get_i32(&mut cur);
    if 0 <= message_length && message_length <= MAX_FRAME_LENGTH {
        Some(message_length as usize)
    } else {
        None
    }
}

/// The reply to a connect request once the session `session_id` was made:
/// the client's version and timeout, the session id, and no password.
pub fn connect_response(request: &ConnectRequest, session_id: SessionId) -> (r: ConnectResponse)
    ensures
        r.protocol_version == request.protocol_version,
        r.timeout_ms == request.timeout_ms,
        r.session_id == session_id.0,
        r.password@ == Seq::<u8>::empty(),
{
    let r = ConnectResponse {
        protocol_version: request.protocol_version,
        timeout_ms: request.timeout_ms,
        session_id: session_id.0,
        password: Vec::new(),
    };
    assert(r.password@ =~= Seq::<u8>::empty());
    r
}

/// The identities as (scheme, id) texts.
pub open spec fn auth_views(ids: Seq<AuthId>) -> Seq<(Seq<char>, Seq<char>)> {
    ids.map_values(|a: AuthId| (a.scheme@, a.id@))
}

/// Whether an auth body names the digest scheme with UTF-8 credentials.
pub open spec fn auth_accepted(v: (i32, Seq<u8>, Seq<u8>)) -> bool {
    decode_utf8(v.1) == "digest"@ && valid_utf8(v.2)
}

/// The identities after `id` is added, unless already held.
pub open spec fn with_identity(
    ids: Seq<(Seq<char>, Seq<char>)>,
    id: (Seq<char>, Seq<char>),
) -> Seq<(Seq<char>, Seq<char>)> {
    if ids.contains(id) {
        ids
    } else {
        ids.push(id)
    }
}

/// Whether two identities are the same.
fn same_identity(a: &AuthId, b: &AuthId) -> (r: bool)
    ensures
        r == (a.scheme@ == b.scheme@ && a.id@ == b.id@),
{
    str_eq(a.scheme.as_str(), b.scheme.as_str()) && str_eq(a.id.as_str(), b.id.as_str())
}

/// Handles an authentication request whose body is `body`. A body that is
/// not exactly one auth request closes the connection unanswered (`None`).
/// Otherwise the reply header says `Success` or `AuthFailed`, with the
/// connection kept open only on success (`true`); a new identity is added
/// to those the connection holds.
pub fn handle_auth(auth_ids: &mut Vec<AuthId>, xid: i32, body: &[u8]) -> (r: Option<(Vec<u8>, bool)>)
    ensures
        match auth_request_wire(body@) {
            Parse::Parsed(v, n) => if n == body@.len() {
                if auth_accepted(v) {
                    &&& r matches Some((reply, keep)) && keep && reply@ == reply_header_bytes(
                        xid,
                        0,
                        ErrorCode::Success,
                    )
                    &&& auth_views(final(auth_ids)@) == with_identity(
                        auth_views(old(auth_ids)@),
                        ("digest"@, digest_id(decode_utf8(v.2))),
                    )
                } else {
                    &&& r matches Some((reply, keep)) && !keep && reply@ == reply_header_bytes(
                        xid,
                        0,
                        ErrorCode::AuthFailed,
                    )
                    &&& final(auth_ids)@ == old(auth_ids)@
                }
            } else {
                r is None && final(auth_ids)@ == old(auth_ids)@
            },
            _ => r is None && final(auth_ids)@ == old(auth_ids)@,
        },
{
    let mut buf = body;
    let request = match AuthRequest::from_bytes(&mut buf) {
        Some(request) => request,
        None => {
            return None;
        },
    };
    if buf.len() != 0 {
        return None;
    }
    let err = match authenticate(request.scheme, request.auth) {
        Ok(identity) => {
            let ghost before = auth_views(auth_ids@);
            let mut held = false;
            let n = auth_ids.len();
            for i in 0..n
                invariant
                    n == auth_ids@.len(),
                    before == auth_views(auth_ids@),
                    held ==> before.contains((identity.scheme@, identity.id@)),
                    !held ==> forall|j: int| 0 <= j < i ==> before[j] != (identity.scheme@, identity.id@),
            {
                if same_identity(&auth_ids[i], &identity) {
                    assert(before[i as int] == (identity.scheme@, identity.id@));
                    held = true;
                }
            }
            if !held {
                let ghost id_view = (identity.scheme@, identity.id@);
                auth_ids.push(identity);
                assert(auth_views(auth_ids@) =~= before.push(id_view));
            }
            ErrorCode::Success
        },
        Err(_) => ErrorCode::AuthFailed,
    };
    let reply = ReplyHeader { xid, zxid: 0, err }.to_bytes();
    let keep = match err {
        ErrorCode::Success => true,
        _ => false,
    };
    Some((reply, keep))
}

/// What a connection does with a request frame from its client.
#[derive(Debug, Clone, Copy, PartialEq, Eq, Structural)]
pub enum FrameAction {
    /// End the connection: the frame is shorter than a request header, or
    /// names no known operation.
    Hangup,
    /// An authentication request with this xid, answered by `handle_auth`
    /// from the rest of the frame.
    Auth(i32),
    /// Any other request, handed to the server; after a close the
    /// connection ends once the reply is sent.
    Request { closes: bool },
}

/// The action a frame calls for, from its header.
pub open spec fn frame_action_spec(payload: Seq<u8>) -> FrameAction {
    if payload.len() < 8 {
        FrameAction::Hangup
    } else {
        match opcode_of(i32_at(payload, 4)) {
            None => FrameAction::Hangup,
            Some(OpCode::Auth) => FrameAction::Auth(i32_at(payload, 0)),
            Some(op) => FrameAction::Request { closes: op == OpCode::Close },
        }
    }
}

/// Decides what becomes of a request frame.
pub fn frame_action(payload: &[u8]) -> (r: FrameAction)
    ensures
        r == frame_action_spec(payload@),
{
    if payload.len() < 8 {
        return FrameAction::Hangup;
    }
    let mut buf = payload;
    match RequestHeader::from_bytes(&mut buf) {
        Err(_) => FrameAction::Hangup,
        Ok(header) => match header.opcode {
            OpCode::Auth => FrameAction::Auth(header.xid),
            OpCode::Close => FrameAction::Request { closes: true },
            _ => FrameAction::Request { closes: false },
        },
    }
}

} // verus!
