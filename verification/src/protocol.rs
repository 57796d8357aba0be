//! The ZooKeeper wire protocol: request decoding and response encoding.
//!
//! Every integer on the wire is big endian. Strings and byte buffers are a
//! four-byte signed length followed by that many bytes.

use vstd::prelude::*;
use vstd::utf8::*;
use vstd::string::*;
use crate::codec::{
    advance, be_i32, be_i64, get_i32, get_i64, get_u8, i32_of_be, i64_of_be, put_bytes, put_i32_be,
    put_i64_be,
};
use crate::text::{str_from_utf8};

verus! {

broadcast use vstd::utf8::encode_utf8_decode_utf8;

// ---------------------------------------------------------------------
// Operation and error codes
// ---------------------------------------------------------------------

/// The request types of the protocol.
#[derive(Debug, Clone, Copy, PartialEq, Eq, Structural)]
pub enum OpCode {
    Close,
    Create,
    Remove,
    Exists,
    Get,
    SetData,
    GetACL,
    SetACL,
    SimpleList,
    Sync,
    Heartbeat,
    List,
    Check,
    Multi,
    Create2,
    Reconfig,
    CheckWatch,
    RemoveWatch,
    MultiRead,
    Auth,
    SetWatch,
    SetWatch2,
    AddWatch,
}

/// The number that stands for an operation on the wire.
pub open spec fn opcode_value(op: OpCode) -> i32 {
    match op {
        OpCode::Close => -11i32,
        OpCode::Create => 1i32,
        OpCode::Remove => 2i32,
        OpCode::Exists => 3i32,
        OpCode::Get => 4i32,
        OpCode::SetData => 5i32,
        OpCode::GetACL => 6i32,
        OpCode::SetACL => 7i32,
        OpCode::SimpleList => 8i32,
        OpCode::Sync => 9i32,
        OpCode::Heartbeat => 11i32,
        OpCode::List => 12i32,
        OpCode::Check => 13i32,
        OpCode::Multi => 14i32,
        OpCode::Create2 => 15i32,
        OpCode::Reconfig => 16i32,
        OpCode::CheckWatch => 17i32,
        OpCode::RemoveWatch => 18i32,
        OpCode::MultiRead => 22i32,
        OpCode::Auth => 100i32,
        OpCode::SetWatch => 101i32,
        OpCode::SetWatch2 => 105i32,
        OpCode::AddWatch => 106i32,
    }
}

/// The operation a wire number stands for, if any.
pub open spec fn opcode_of(v: i32) -> Option<OpCode> {
    if v == -11 {
        Some(OpCode::Close)
    } else if v == 1 {
        Some(OpCode::Create)
    } else if v == 2 {
        Some(OpCode::Remove)
    } else if v == 3 {
        Some(OpCode::Exists)
    } else if v == 4 {
        Some(OpCode::Get)
    } else if v == 5 {
        Some(OpCode::SetData)
    } else if v == 6 {
        Some(OpCode::GetACL)
    } else if v == 7 {
        Some(OpCode::SetACL)
    } else if v == 8 {
        Some(OpCode::SimpleList)
    } else if v == 9 {
        Some(OpCode::Sync)
    } else if v == 11 {
        Some(OpCode::Heartbeat)
    } else if v == 12 {
        Some(OpCode::List)
    } else if v == 13 {
        Some(OpCode::Check)
    } else if v == 14 {
        Some(OpCode::Multi)
    } else if v == 15 {
        Some(OpCode::Create2)
    } else if v == 16 {
        Some(OpCode::Reconfig)
    } else if v == 17 {
        Some(OpCode::CheckWatch)
    } else if v == 18 {
        Some(OpCode::RemoveWatch)
    } else if v == 22 {
        Some(OpCode::MultiRead)
    } else if v == 100 {
        Some(OpCode::Auth)
    } else if v == 101 {
        Some(OpCode::SetWatch)
    } else if v == 105 {
        Some(OpCode::SetWatch2)
    } else if v == 106 {
        Some(OpCode::AddWatch)
    } else {
        None
    }
}

impl OpCode {
    /// The wire number of this operation.
    pub fn code(self) -> (r: i32)
        ensures
            r == opcode_value(self),
    {
        match self {
            OpCode::Close => -11,
            OpCode::Create => 1,
            OpCode::Remove => 2,
            OpCode::Exists => 3,
            OpCode::Get => 4,
            OpCode::SetData => 5,
            OpCode::GetACL => 6,
            OpCode::SetACL => 7,
            OpCode::SimpleList => 8,
            OpCode::Sync => 9,
            OpCode::Heartbeat => 11,
            OpCode::List => 12,
            OpCode::Check => 13,
            OpCode::Multi => 14,
            OpCode::Create2 => 15,
            OpCode::Reconfig => 16,
            OpCode::CheckWatch => 17,
            OpCode::RemoveWatch => 18,
            OpCode::MultiRead => 22,
            OpCode::Auth => 100,
            OpCode::SetWatch => 101,
            OpCode::SetWatch2 => 105,
            OpCode::AddWatch => 106,
        }
    }

    /// The operation for a wire number; an unknown number comes back as the error.
    pub fn try_from(value: i32) -> (r: Result<OpCode, i32>)
        ensures
            match opcode_of(value) {
                Some(op) => r == Ok::<OpCode, i32>(op),
                None => r == Err::<OpCode, i32>(value),
            },
    {
        match value {
            -11 => Ok(OpCode::Close),
            1 => Ok(OpCode::Create),
            2 => Ok(OpCode::Remove),
            3 => Ok(OpCode::Exists),
            4 => Ok(OpCode::Get),
            5 => Ok(OpCode::SetData),
            6 => Ok(OpCode::GetACL),
            7 => Ok(OpCode::SetACL),
            8 => Ok(OpCode::SimpleList),
            9 => Ok(OpCode::Sync),
            11 => Ok(OpCode::Heartbeat),
            12 => Ok(OpCode::List),
            13 => Ok(OpCode::Check),
            14 => Ok(OpCode::Multi),
            15 => Ok(OpCode::Create2),
            16 => Ok(OpCode::Reconfig),
            17 => Ok(OpCode::CheckWatch),
            18 => Ok(OpCode::RemoveWatch),
            22 => Ok(OpCode::MultiRead),
            100 => Ok(OpCode::Auth),
            101 => Ok(OpCode::SetWatch),
            105 => Ok(OpCode::SetWatch2),
            106 => Ok(OpCode::AddWatch),
            other => Err(other),
        }
    }
}

/// Every operation's number maps back to the operation.
pub proof fn lemma_opcode_round_trip(op: OpCode)
    ensures
        opcode_of(opcode_value(op)) == Some(op),
{
}

/// The result codes of the protocol.
#[derive(Debug, Clone, Copy, PartialEq, Eq, Structural)]
pub enum ErrorCode {
    Success,
    SystemError,
    RuntimeInconsistency,
    BadArguments,
    NoNode,
    BadVersion,
    NoChildrenForEphemerals,
    NodeExists,
    NotEmpty,
    AuthFailed,
}

/// The number that stands for a result on the wire.
pub open spec fn error_value(e: ErrorCode) -> i32 {
    match e {
        ErrorCode::Success => 0i32,
        ErrorCode::SystemError => -1i32,
        ErrorCode::RuntimeInconsistency => -2i32,
        ErrorCode::BadArguments => -8i32,
        ErrorCode::NoNode => -101i32,
        ErrorCode::BadVersion => -103i32,
        ErrorCode::NoChildrenForEphemerals => -108i32,
        ErrorCode::NodeExists => -110i32,
        ErrorCode::NotEmpty => -111i32,
        ErrorCode::AuthFailed => -115i32,
    }
}

impl ErrorCode {
    /// The wire number of this result.
    pub fn code(self) -> (r: i32)
        ensures
            r == error_value(self),
    {
        match self {
            ErrorCode::Success => 0,
            ErrorCode::SystemError => -1,
            ErrorCode::RuntimeInconsistency => -2,
            ErrorCode::BadArguments => -8,
            ErrorCode::NoNode => -101,
            ErrorCode::BadVersion => -103,
            ErrorCode::NoChildrenForEphemerals => -108,
            ErrorCode::NodeExists => -110,
            ErrorCode::NotEmpty => -111,
            ErrorCode::AuthFailed => -115,
        }
    }
}

// ---------------------------------------------------------------------
// Session ids and Stat
// ---------------------------------------------------------------------

/// A client session's identifier; zero means "no session".
#[derive(Debug, Clone, Copy, PartialEq, Eq, Structural, Hash)]
pub struct SessionId(pub i64);

impl Default for SessionId {
    fn default() -> (r: Self)
        ensures
            r == SessionId(0),
    {
        SessionId(0)
    }
}

impl SessionId {
    /// The big-endian bytes of the id.
    pub fn to_be_bytes(&self) -> (r: [u8; 8])
        ensures
            r@ == be_i64(self.0),
    {
        let v = self.0 as u64;
        let r = [
            (v >> 56u64) as u8,
            (v >> 48u64) as u8,
            (v >> 40u64) as u8,
            (v >> 32u64) as u8,
            (v >> 24u64) as u8,
            (v >> 16u64) as u8,
            (v >> 8u64) as u8,
            v as u8,
        ];
        assert(r@ =~= be_i64(self.0));
        r
    }
}

/// A node's metadata as the protocol reports it. Data length and number of
/// children are computed when it is encoded.
#[derive(Debug, Clone, Copy, PartialEq, Structural)]
pub struct Stat {
    pub czxid: i64,
    pub mzxid: i64,
    pub ctime: i64,
    pub mtime: i64,
    pub version: i32,
    pub cversion: i32,
    pub aversion: i32,
    pub ephemeral_owner: SessionId,
    pub pzxid: i64,
}

/// The all-zero Stat of a fresh root.
pub open spec fn zero_stat() -> Stat {
    Stat {
        czxid: 0,
        mzxid: 0,
        ctime: 0,
        mtime: 0,
        version: 0,
        cversion: 0,
        aversion: 0,
        ephemeral_owner: SessionId(0),
        pzxid: 0,
    }
}

impl Default for Stat {
    fn default() -> (r: Self)
        ensures
            r == zero_stat(),
    {
        Stat {
            czxid: 0,
            mzxid: 0,
            ctime: 0,
            mtime: 0,
            version: 0,
            cversion: 0,
            aversion: 0,
            ephemeral_owner: SessionId(0),
            pzxid: 0,
        }
    }
}

/// The 68-byte wire form of a Stat.
pub open spec fn stat_bytes(s: Stat, data_length: i32, num_children: i32) -> Seq<u8> {
    be_i64(s.czxid) + be_i64(s.mzxid) + be_i64(s.ctime) + be_i64(s.mtime) + be_i32(s.version)
        + be_i32(s.cversion) + be_i32(s.aversion) + be_i64(s.ephemeral_owner.0) + be_i32(
        data_length,
    ) + be_i32(num_children) + be_i64(s.pzxid)
}

impl Stat {
    /// Encodes the Stat with the given data length and number of children.
    pub fn to_bytes(&self, data_length: i32, num_children: i32) -> (r: Vec<u8>)
        ensures
            r@ == stat_bytes(*self, data_length, num_children),
            r@.len() == 68,
    {
        let mut buf: Vec<u8> = Vec::with_capacity(68);
        self.encode_into(&mut buf, data_length, num_children);
        assert(buf@ =~= stat_bytes(*self, data_length, num_children));
        buf
    }

    /// Appends the wire form of the Stat to `buf`.
    pub fn encode_into(&self, buf: &mut Vec<u8>, data_length: i32, num_children: i32)
        ensures
            final(buf)@ == old(buf)@ + stat_bytes(*self, data_length, num_children),
    {
        put_i64_be(buf, self.czxid);
        put_i64_be(buf, self.mzxid);
        put_i64_be(buf, self.ctime);
        put_i64_be(buf, self.mtime);
        put_i32_be(buf, self.version);
        put_i32_be(buf, self.cversion);
        put_i32_be(buf, self.aversion);
        put_i64_be(buf, self.ephemeral_owner.0);
        put_i32_be(buf, data_length);
        put_i32_be(buf, num_children);
        put_i64_be(buf, self.pzxid);
        assert(final(buf)@ =~= old(buf)@ + stat_bytes(*self, data_length, num_children));
    }
}

// ---------------------------------------------------------------------
// Length-prefixed fields
// ---------------------------------------------------------------------

/// The length prefix at `off` is readable and the bytes it announces are there.
pub open spec fn field_fits(s: Seq<u8>, off: int) -> bool {
    &&& 0 <= off
    &&& off + 4 <= s.len()
    &&& 0 <= i32_of_be(s.skip(off))
    &&& off + 4 + i32_of_be(s.skip(off)) <= s.len()
}

/// Where a length-prefixed field starting at `off` ends.
pub open spec fn field_end(s: Seq<u8>, off: int) -> int {
    off + 4 + i32_of_be(s.skip(off))
}

/// The bytes of a length-prefixed field starting at `off`.
pub open spec fn field_bytes(s: Seq<u8>, off: int) -> Seq<u8> {
    s.subrange(off + 4, field_end(s, off))
}

/// The wire form of a string or buffer: its length, then its bytes.
pub open spec fn jute_bytes(b: Seq<u8>) -> Seq<u8> {
    be_i32(b.len() as i32) + b
}

/// The `i32` at offset `off`.
pub open spec fn i32_at(s: Seq<u8>, off: int) -> i32 {
    i32_of_be(s.skip(off))
}

/// The `i64` at offset `off`.
pub open spec fn i64_at(s: Seq<u8>, off: int) -> i64 {
    i64_of_be(s.skip(off))
}

proof fn lemma_skip_skip(s: Seq<u8>, a: int, b: int)
    requires
        0 <= a,
        0 <= b,
        a + b <= s.len(),
    ensures
        s.skip(a).skip(b) == s.skip(a + b),
{
    assert(s.skip(a).skip(b) =~= s.skip(a + b));
}

/// Reads a length-prefixed field's bytes and advances past it.
fn get_field<'a>(buf: &mut &'a [u8]) -> (r: &'a [u8])
    requires
        field_fits(old(buf)@, 0),
    ensures
        r@ == field_bytes(old(buf)@, 0),
        final(buf)@ == old(buf)@.skip(field_end(old(buf)@, 0)),
{
    let ghost s = buf@;
    assert(s.skip(0) =~= s);
    let n = get_i32(buf);
    let cur: &'a [u8] = *buf;
    let (bytes, rest) = cur.split_at(n as usize);
    *buf = rest;
    assert(bytes@ =~= field_bytes(s, 0));
    assert(rest@ =~= s.skip(field_end(s, 0)));
    bytes
}

// ---------------------------------------------------------------------
// Request header
// ---------------------------------------------------------------------

/// The header in front of every request.
pub struct RequestHeader {
    pub xid: i32,
    pub opcode: OpCode,
}

impl RequestHeader {
    /// Decodes the xid and the operation. An unknown operation number comes
    /// back as the error.
    pub fn from_bytes(buf: &mut &[u8]) -> (r: Result<Self, i32>)
        requires
            old(buf)@.len() >= 8,
        ensures
            final(buf)@ == old(buf)@.skip(8),
            match r {
                Ok(h) => h.xid == i32_at(old(buf)@, 0) && opcode_of(i32_at(old(buf)@, 4)) == Some(
                    h.opcode,
                ),
                Err(v) => v == i32_at(old(buf)@, 4) && opcode_of(v) is None,
            },
    {
        let ghost s = buf@;
        assert(s.skip(0) =~= s);
        let xid = get_i32(buf);
        let raw = get_i32(buf);
        proof {
            lemma_skip_skip(s, 4, 4);
        }
        let opcode = match OpCode::try_from(raw) {
            Ok(op) => op,
            Err(e) => {
                return Err(e);
            },
        };
        Ok(Self { xid, opcode })
    }
}

/// The header in front of every reply.
pub struct ReplyHeader {
    pub xid: i32,
    pub zxid: i64,
    pub err: ErrorCode,
}

/// The wire form of a reply header.
pub open spec fn reply_header_bytes(xid: i32, zxid: i64, err: ErrorCode) -> Seq<u8> {
    be_i32(xid) + be_i64(zxid) + be_i32(error_value(err))
}

impl ReplyHeader {
    /// Encodes xid, zxid and result code.
    pub fn to_bytes(&self) -> (r: Vec<u8>)
        ensures
            r@ == reply_header_bytes(self.xid, self.zxid, self.err),
            r@.len() == 16,
    {
        let mut buf = Vec::new();
        put_i32_be(&mut buf, self.xid);
        put_i64_be(&mut buf, self.zxid);
        put_i32_be(&mut buf, self.err.code());
        assert(buf@ =~= reply_header_bytes(self.xid, self.zxid, self.err));
        buf
    }
}

// ---------------------------------------------------------------------
// Simple responses
// ---------------------------------------------------------------------

/// The body of a successful create: the path of the created node.
pub struct CreateResponse<'a> {
    pub path: &'a str,
}

impl<'a> CreateResponse<'a> {
    /// Encodes the path as a length-prefixed string.
    pub fn to_bytes(&self) -> (r: Vec<u8>)
        ensures
            r@ == jute_bytes(self.path.spec_bytes()),
    {
        let bytes = self.path.as_bytes();
        let mut buf = Vec::new();
        put_i32_be(&mut buf, bytes.len() as i32);
        put_bytes(&mut buf, bytes);
        buf
    }
}

/// A reply with no body.
pub struct EmptyResponse;

impl EmptyResponse {
    /// The empty body.
    pub fn to_bytes(&self) -> (r: Vec<u8>)
        ensures
            r@ == Seq::<u8>::empty(),
    {
        Vec::new()
    }
}

/// The body of a successful getData: data, then its Stat.
pub struct GetDataResponse<'a> {
    pub data: &'a [u8],
    pub stat: &'a Stat,
}

impl<'a> GetDataResponse<'a> {
    /// Encodes the data as a buffer followed by the Stat.
    pub fn to_bytes(&self, num_children: i32) -> (r: Vec<u8>)
        ensures
            r@ == jute_bytes(self.data@) + stat_bytes(
                *self.stat,
                self.data@.len() as i32,
                num_children,
            ),
    {
        let mut buf = Vec::new();
        let n = self.data.len() as i32;
        put_i32_be(&mut buf, n);
        put_bytes(&mut buf, self.data);
        self.stat.encode_into(&mut buf, n, num_children);
        assert(buf@ =~= jute_bytes(self.data@) + stat_bytes(*self.stat, n, num_children));
        buf
    }
}

/// The body of a successful setData: the node's new Stat.
pub struct SetDataResponse<'a> {
    pub stat: &'a Stat,
}

impl<'a> SetDataResponse<'a> {
    /// Encodes the Stat.
    pub fn to_bytes(&self, data_length: i32, num_children: i32) -> (r: Vec<u8>)
        ensures
            r@ == stat_bytes(*self.stat, data_length, num_children),
    {
        self.stat.to_bytes(data_length, num_children)
    }
}

/// The body of a successful exists: the node's Stat.
pub struct ExistsResponse<'a> {
    pub stat: &'a Stat,
}

impl<'a> ExistsResponse<'a> {
    /// Encodes the Stat.
    pub fn to_bytes(&self, data_length: i32, num_children: i32) -> (r: Vec<u8>)
        ensures
            r@ == stat_bytes(*self.stat, data_length, num_children),
    {
        self.stat.to_bytes(data_length, num_children)
    }
}

// ---------------------------------------------------------------------
// Decoding outcomes
// ---------------------------------------------------------------------

/// What reading a request body gives, as a mathematical value: the reader runs
/// out of bytes in the middle of a field it cannot do without, the body is
/// malformed, or a value is read along with the number of bytes it took.
pub enum Parse<T> {
    Incomplete,
    Malformed,
    Parsed(T, int),
}

/// What a non-failing decoder returns: `Incomplete` where the body ends
/// before a field that the reader takes without checking its length.
pub enum Decoded<T> {
    Incomplete,
    Malformed,
    Parsed(T),
}

// ---------------------------------------------------------------------
// Create
// ---------------------------------------------------------------------

/// Where the ACL list that starts at `off` with `n` entries ends; `None`
/// when the bytes end inside it.
pub open spec fn acl_end(s: Seq<u8>, off: int, n: int) -> Option<int>
    decreases n,
{
    if n <= 0 {
        Some(off)
    } else if off + 8 <= s.len() && 0 <= i32_at(s, off + 4) && off + 12 + i32_at(s, off + 4)
        <= s.len() && 0 <= i32_at(s, off + 8 + i32_at(s, off + 4)) && off + 12 + i32_at(
        s,
        off + 4,
    ) + i32_at(s, off + 8 + i32_at(s, off + 4)) <= s.len() {
        acl_end(
            s,
            off + 12 + i32_at(s, off + 4) + i32_at(s, off + 8 + i32_at(s, off + 4)),
            n - 1,
        )
    } else {
        None
    }
}

/// The create body: path, data, ACL list (skipped), flags.
pub open spec fn create_request_wire(s: Seq<u8>) -> Parse<(Seq<u8>, Seq<u8>, i32)> {
    if !field_fits(s, 0) {
        Parse::Incomplete
    } else if !valid_utf8(field_bytes(s, 0)) {
        Parse::Malformed
    } else {
        let e0 = field_end(s, 0);
        if !field_fits(s, e0) {
            Parse::Incomplete
        } else {
            let e1 = field_end(s, e0);
            if e1 + 4 > s.len() {
                Parse::Incomplete
            } else {
                match acl_end(s, e1 + 4, i32_at(s, e1) as int) {
                    None => Parse::Incomplete,
                    Some(a) => if a + 4 > s.len() {
                        Parse::Incomplete
                    } else {
                        Parse::Parsed(
                            (field_bytes(s, 0), field_bytes(s, e0), i32_at(s, a)),
                            a + 4,
                        )
                    },
                }
            }
        }
    }
}

/// Bytes of the body that a path-first decoder has consumed when the path is
/// not valid UTF-8: its length prefix.
pub open spec fn after_bad_path(s: Seq<u8>) -> Seq<u8> {
    s.skip(4)
}

/// A create request.
pub struct CreateRequest<'a> {
    pub path: &'a str,
    pub data: &'a [u8],
    pub flags: i32,
}

impl<'a> CreateRequest<'a> {
    /// Whether this request is the value `v` read from the wire.
    pub open spec fn is(self, v: (Seq<u8>, Seq<u8>, i32)) -> bool {
        self.path.spec_bytes() == v.0 && self.data@ == v.1 && self.flags == v.2
    }

    /// Decodes a create body; `Incomplete` where it ends before a field.
    #[verifier::loop_isolation(false)]
    pub fn decode(buf: &mut &'a [u8]) -> (r: Decoded<Self>)
        ensures
            match create_request_wire(old(buf)@) {
                Parse::Incomplete => r is Incomplete,
                Parse::Malformed => r is Malformed && final(buf)@ == after_bad_path(old(buf)@),
                Parse::Parsed(v, n) => r matches Decoded::Parsed(q) && q.is(v) && final(buf)@
                    == old(buf)@.skip(n),
            },
    {
        let ghost s = buf@;
        assert(s.skip(0) =~= s);
        let total = buf.len();
        if total < 4 {
            return Decoded::Incomplete;
        }
        let mut cur: &'a [u8] = *buf;
        let path_len = get_i32(&mut cur);
        if path_len < 0 || path_len as usize > cur.len() {
            return Decoded::Incomplete;
        }
        let (path_bytes, remaining) = cur.split_at(path_len as usize);
        assert(path_bytes@ =~= field_bytes(s, 0));
        let path = match str_from_utf8(path_bytes) {
            Some(p) => p,
            None => {
                *buf = cur;
                return Decoded::Malformed;
            },
        };
        cur = remaining;
        let ghost e0 = field_end(s, 0);
        assert(cur@ =~= s.skip(e0));
        if cur.len() < 4 {
            return Decoded::Incomplete;
        }
        let data_len = get_i32(&mut cur);
        proof {
            lemma_skip_skip(s, e0, 4);
        }
        if data_len < 0 || data_len as usize > cur.len() {
            return Decoded::Incomplete;
        }
        let (data, remaining) = cur.split_at(data_len as usize);
        assert(data@ =~= field_bytes(s, e0));
        cur = remaining;
        let ghost e1 = field_end(s, e0);
        assert(cur@ =~= s.skip(e1));
        if cur.len() < 4 {
            return Decoded::Incomplete;
        }
        let acl_count = get_i32(&mut cur);
        proof {
            lemma_skip_skip(s, e1, 4);
        }
        let mut k: i32 = 0;
        let ghost mut off: int = e1 + 4;
        while k < acl_count
            invariant
                0 <= k,
                k <= acl_count || acl_count <= 0,
                0 <= off <= s.len(),
                cur@ == s.skip(off),
                acl_end(s, e1 + 4, acl_count as int) == acl_end(s, off, acl_count - k),
            decreases acl_count - k,
        {
            if cur.len() < 8 {
                return Decoded::Incomplete;
            }
            let _perms = get_i32(&mut cur);
            let scheme_len = get_i32(&mut cur);
            proof {
                lemma_skip_skip(s, off, 4);
                lemma_skip_skip(s, off + 4, 4);
            }
            if scheme_len < 0 || scheme_len as usize > cur.len() || cur.len() - (scheme_len as usize) < 4 {
                return Decoded::Incomplete;
            }
            advance(&mut cur, scheme_len as usize);
            proof {
                lemma_skip_skip(s, off + 8, scheme_len as int);
            }
            let id_len = get_i32(&mut cur);
            proof {
                lemma_skip_skip(s, off + 8 + scheme_len, 4);
            }
            if id_len < 0 || id_len as usize > cur.len() {
                return Decoded::Incomplete;
            }
            advance(&mut cur, id_len as usize);
            proof {
                lemma_skip_skip(s, off + 12 + scheme_len, id_len as int);
                off = off + 12 + scheme_len + id_len;
            }
            k = k + 1;
        }
        assert(acl_end(s, off, acl_count - k) == Some(off));
        if cur.len() < 4 {
            return Decoded::Incomplete;
        }
        let flags = get_i32(&mut cur);
        proof {
            lemma_skip_skip(s, off, 4);
        }
        *buf = cur;
        Decoded::Parsed(Self { path, data, flags })
    }

    /// Decodes a create body. The body must hold every field it announces.
    pub fn from_bytes(buf: &mut &'a [u8]) -> (r: Option<Self>)
        requires
            !(create_request_wire(old(buf)@) is Incomplete),
        ensures
            match create_request_wire(old(buf)@) {
                Parse::Parsed(v, n) => r matches Some(q) && q.is(v) && final(buf)@ == old(buf)@.skip(
                    n,
                ),
                _ => r is None && final(buf)@ == after_bad_path(old(buf)@),
            },
    {
        match Self::decode(buf) {
            Decoded::Parsed(q) => Some(q),
            _ => None,
        }
    }
}

// ---------------------------------------------------------------------
// Path-first requests
// ---------------------------------------------------------------------

/// Reads a length-prefixed path at the front of the body. Its length must
/// be readable and the bytes there; a path that is not UTF-8 is `Malformed`
/// and leaves the cursor past the length prefix.
fn decode_path<'a>(buf: &mut &'a [u8]) -> (r: Decoded<&'a str>)
    ensures
        !field_fits(old(buf)@, 0) ==> r is Incomplete,
        field_fits(old(buf)@, 0) && !valid_utf8(field_bytes(old(buf)@, 0)) ==> r is Malformed
            && final(buf)@ == after_bad_path(old(buf)@),
        field_fits(old(buf)@, 0) && valid_utf8(field_bytes(old(buf)@, 0)) ==> (r matches Decoded::Parsed(
            p,
        ) && p.spec_bytes() == field_bytes(old(buf)@, 0) && final(buf)@ == old(buf)@.skip(
            field_end(old(buf)@, 0),
        )),
{
    let ghost s = buf@;
    assert(s.skip(0) =~= s);
    if buf.len() < 4 {
        return Decoded::Incomplete;
    }
    let mut cur: &'a [u8] = *buf;
    let path_len = get_i32(&mut cur);
    if path_len < 0 || path_len as usize > cur.len() {
        return Decoded::Incomplete;
    }
    let (path_bytes, remaining) = cur.split_at(path_len as usize);
    assert(path_bytes@ =~= field_bytes(s, 0));
    match str_from_utf8(path_bytes) {
        Some(p) => {
            *buf = remaining;
            assert(remaining@ =~= s.skip(field_end(s, 0)));
            Decoded::Parsed(p)
        },
        None => {
            *buf = cur;
            Decoded::Malformed
        },
    }
}

/// A body made of a path and a watch flag (getData, exists, getChildren).
pub open spec fn path_watch_wire(s: Seq<u8>) -> Parse<(Seq<u8>, bool)> {
    if !field_fits(s, 0) {
        Parse::Incomplete
    } else if !valid_utf8(field_bytes(s, 0)) {
        Parse::Malformed
    } else if field_end(s, 0) + 1 > s.len() {
        Parse::Incomplete
    } else {
        Parse::Parsed((field_bytes(s, 0), s[field_end(s, 0)] != 0), field_end(s, 0) + 1)
    }
}

/// Reads a path and a watch flag.
fn decode_path_watch<'a>(buf: &mut &'a [u8]) -> (r: Decoded<(&'a str, bool)>)
    ensures
        match path_watch_wire(old(buf)@) {
            Parse::Incomplete => r is Incomplete,
            Parse::Malformed => r is Malformed && final(buf)@ == after_bad_path(old(buf)@),
            Parse::Parsed(v, n) => r matches Decoded::Parsed(q) && q.0.spec_bytes() == v.0 && q.1
                == v.1 && final(buf)@ == old(buf)@.skip(n),
        },
{
    let ghost s = buf@;
    let path = match decode_path(buf) {
        Decoded::Parsed(p) => p,
        Decoded::Malformed => {
            return Decoded::Malformed;
        },
        Decoded::Incomplete => {
            return Decoded::Incomplete;
        },
    };
    if buf.len() < 1 {
        return Decoded::Incomplete;
    }
    let ghost e0 = field_end(s, 0);
    let w = get_u8(buf);
    proof {
        lemma_skip_skip(s, e0, 1);
    }
    Decoded::Parsed((path, w != 0))
}

/// A getData request.
pub struct GetDataRequest<'a> {
    pub path: &'a str,
    pub watch: bool,
}

impl<'a> GetDataRequest<'a> {
    /// Decodes a getData body; `Incomplete` where it ends before a field.
    pub fn decode(buf: &mut &'a [u8]) -> (r: Decoded<Self>)
        ensures
            match path_watch_wire(old(buf)@) {
                Parse::Incomplete => r is Incomplete,
                Parse::Malformed => r is Malformed && final(buf)@ == after_bad_path(old(buf)@),
                Parse::Parsed(v, n) => r matches Decoded::Parsed(q) && q.path.spec_bytes() == v.0
                    && q.watch == v.1 && final(buf)@ == old(buf)@.skip(n),
            },
    {
        match decode_path_watch(buf) {
            Decoded::Parsed((path, watch)) => Decoded::Parsed(Self { path, watch }),
            Decoded::Malformed => Decoded::Malformed,
            Decoded::Incomplete => Decoded::Incomplete,
        }
    }

    /// Decodes a getData body. The body must hold every field it announces.
    pub fn from_bytes(buf: &mut &'a [u8]) -> (r: Option<Self>)
        requires
            !(path_watch_wire(old(buf)@) is Incomplete),
        ensures
            match path_watch_wire(old(buf)@) {
                Parse::Parsed(v, n) => r matches Some(q) && q.path.spec_bytes() == v.0 && q.watch
                    == v.1 && final(buf)@ == old(buf)@.skip(n),
                _ => r is None && final(buf)@ == after_bad_path(old(buf)@),
            },
    {
        match Self::decode(buf) {
            Decoded::Parsed(q) => Some(q),
            _ => None,
        }
    }
}

/// An exists request.
pub struct ExistsRequest<'a> {
    pub path: &'a str,
    pub watch: bool,
}

impl<'a> ExistsRequest<'a> {
    /// Decodes an exists body; `Incomplete` where it ends before a field.
    pub fn decode(buf: &mut &'a [u8]) -> (r: Decoded<Self>)
        ensures
            match path_watch_wire(old(buf)@) {
                Parse::Incomplete => r is Incomplete,
                Parse::Malformed => r is Malformed && final(buf)@ == after_bad_path(old(buf)@),
                Parse::Parsed(v, n) => r matches Decoded::Parsed(q) && q.path.spec_bytes() == v.0
                    && q.watch == v.1 && final(buf)@ == old(buf)@.skip(n),
            },
    {
        match decode_path_watch(buf) {
            Decoded::Parsed((path, watch)) => Decoded::Parsed(Self { path, watch }),
            Decoded::Malformed => Decoded::Malformed,
            Decoded::Incomplete => Decoded::Incomplete,
        }
    }

    /// Decodes an exists body. The body must hold every field it announces.
    pub fn from_bytes(buf: &mut &'a [u8]) -> (r: Option<Self>)
        requires
            !(path_watch_wire(old(buf)@) is Incomplete),
        ensures
            match path_watch_wire(old(buf)@) {
                Parse::Parsed(v, n) => r matches Some(q) && q.path.spec_bytes() == v.0 && q.watch
                    == v.1 && final(buf)@ == old(buf)@.skip(n),
                _ => r is None && final(buf)@ == after_bad_path(old(buf)@),
            },
    {
        match Self::decode(buf) {
            Decoded::Parsed(q) => Some(q),
            _ => None,
        }
    }
}

/// A getChildren request.
pub struct GetChildrenRequest<'a> {
    pub path: &'a str,
    pub watch: bool,
}

impl<'a> GetChildrenRequest<'a> {
    /// Decodes a getChildren body; `Incomplete` where it ends before a field.
    pub fn decode(buf: &mut &'a [u8]) -> (r: Decoded<Self>)
        ensures
            match path_watch_wire(old(buf)@) {
                Parse::Incomplete => r is Incomplete,
                Parse::Malformed => r is Malformed && final(buf)@ == after_bad_path(old(buf)@),
                Parse::Parsed(v, n) => r matches Decoded::Parsed(q) && q.path.spec_bytes() == v.0
                    && q.watch == v.1 && final(buf)@ == old(buf)@.skip(n),
            },
    {
        match decode_path_watch(buf) {
            Decoded::Parsed((path, watch)) => Decoded::Parsed(Self { path, watch }),
            Decoded::Malformed => Decoded::Malformed,
            Decoded::Incomplete => Decoded::Incomplete,
        }
    }

    /// Decodes a getChildren body. The body must hold every field it announces.
    pub fn from_bytes(buf: &mut &'a [u8]) -> (r: Option<Self>)
        requires
            !(path_watch_wire(old(buf)@) is Incomplete),
        ensures
            match path_watch_wire(old(buf)@) {
                Parse::Parsed(v, n) => r matches Some(q) && q.path.spec_bytes() == v.0 && q.watch
                    == v.1 && final(buf)@ == old(buf)@.skip(n),
                _ => r is None && final(buf)@ == after_bad_path(old(buf)@),
            },
    {
        match Self::decode(buf) {
            Decoded::Parsed(q) => Some(q),
            _ => None,
        }
    }
}

/// A body made of a path, a data buffer and an expected version (setData).
pub open spec fn set_data_request_wire(s: Seq<u8>) -> Parse<(Seq<u8>, Seq<u8>, i32)> {
    if !field_fits(s, 0) {
        Parse::Incomplete
    } else if !valid_utf8(field_bytes(s, 0)) {
        Parse::Malformed
    } else if !field_fits(s, field_end(s, 0)) {
        Parse::Incomplete
    } else if field_end(s, field_end(s, 0)) + 4 > s.len() {
        Parse::Incomplete
    } else {
        Parse::Parsed(
            (
                field_bytes(s, 0),
                field_bytes(s, field_end(s, 0)),
                i32_at(s, field_end(s, field_end(s, 0))),
            ),
            field_end(s, field_end(s, 0)) + 4,
        )
    }
}

/// A setData request.
pub struct SetDataRequest<'a> {
    pub path: &'a str,
    pub data: &'a [u8],
    pub version: i32,
}

impl<'a> SetDataRequest<'a> {
    /// Whether this request is the value `v` read from the wire.
    pub open spec fn is(self, v: (Seq<u8>, Seq<u8>, i32)) -> bool {
        self.path.spec_bytes() == v.0 && self.data@ == v.1 && self.version == v.2
    }

    /// Decodes a setData body; `Incomplete` where it ends before a field.
    pub fn decode(buf: &mut &'a [u8]) -> (r: Decoded<Self>)
        ensures
            match set_data_request_wire(old(buf)@) {
                Parse::Incomplete => r is Incomplete,
                Parse::Malformed => r is Malformed && final(buf)@ == after_bad_path(old(buf)@),
                Parse::Parsed(v, n) => r matches Decoded::Parsed(q) && q.is(v) && final(buf)@
                    == old(buf)@.skip(n),
            },
    {
        let ghost s = buf@;
        let path = match decode_path(buf) {
            Decoded::Parsed(p) => p,
            Decoded::Malformed => {
                return Decoded::Malformed;
            },
            Decoded::Incomplete => {
                return Decoded::Incomplete;
            },
        };
        let ghost e0 = field_end(s, 0);
        let mut cur: &'a [u8] = *buf;
        if cur.len() < 4 {
            return Decoded::Incomplete;
        }
        let data_len = get_i32(&mut cur);
        proof {
            lemma_skip_skip(s, e0, 4);
        }
        if data_len < 0 || data_len as usize > cur.len() {
            return Decoded::Incomplete;
        }
        let (data, remaining) = cur.split_at(data_len as usize);
        assert(data@ =~= field_bytes(s, e0));
        cur = remaining;
        let ghost e1 = field_end(s, e0);
        assert(cur@ =~= s.skip(e1));
        if cur.len() < 4 {
            return Decoded::Incomplete;
        }
        let version = get_i32(&mut cur);
        proof {
            lemma_skip_skip(s, e1, 4);
        }
        *buf = cur;
        Decoded::Parsed(Self { path, data, version })
    }

    /// Decodes a setData body. The body must hold every field it announces.
    pub fn from_bytes(buf: &mut &'a [u8]) -> (r: Option<Self>)
        requires
            !(set_data_request_wire(old(buf)@) is Incomplete),
        ensures
            match set_data_request_wire(old(buf)@) {
                Parse::Parsed(v, n) => r matches Some(q) && q.is(v) && final(buf)@ == old(buf)@.skip(
                    n,
                ),
                _ => r is None && final(buf)@ == after_bad_path(old(buf)@),
            },
    {
        match Self::decode(buf) {
            Decoded::Parsed(q) => Some(q),
            _ => None,
        }
    }
}

/// A body made of a path and an expected version (delete).
pub open spec fn path_version_wire(s: Seq<u8>) -> Parse<(Seq<u8>, i32)> {
    if !field_fits(s, 0) {
        Parse::Incomplete
    } else if !valid_utf8(field_bytes(s, 0)) {
        Parse::Malformed
    } else if field_end(s, 0) + 4 > s.len() {
        Parse::Incomplete
    } else {
        Parse::Parsed((field_bytes(s, 0), i32_at(s, field_end(s, 0))), field_end(s, 0) + 4)
    }
}

/// A delete request.
pub struct DeleteRequest<'a> {
    pub path: &'a str,
    pub version: i32,
}

impl<'a> DeleteRequest<'a> {
    /// Decodes a delete body; `Incomplete` where it ends before a field.
    pub fn decode(buf: &mut &'a [u8]) -> (r: Decoded<Self>)
        ensures
            match path_version_wire(old(buf)@) {
                Parse::Incomplete => r is Incomplete,
                Parse::Malformed => r is Malformed && final(buf)@ == after_bad_path(old(buf)@),
                Parse::Parsed(v, n) => r matches Decoded::Parsed(q) && q.path.spec_bytes() == v.0
                    && q.version == v.1 && final(buf)@ == old(buf)@.skip(n),
            },
    {
        let ghost s = buf@;
        let path = match decode_path(buf) {
            Decoded::Parsed(p) => p,
            Decoded::Malformed => {
                return Decoded::Malformed;
            },
            Decoded::Incomplete => {
                return Decoded::Incomplete;
            },
        };
        if buf.len() < 4 {
            return Decoded::Incomplete;
        }
        let ghost e0 = field_end(s, 0);
        let version = get_i32(buf);
        proof {
            lemma_skip_skip(s, e0, 4);
        }
        Decoded::Parsed(Self { path, version })
    }

    /// Decodes a delete body. The body must hold every field it announces.
    pub fn from_bytes(buf: &mut &'a [u8]) -> (r: Option<Self>)
        requires
            !(path_version_wire(old(buf)@) is Incomplete),
        ensures
            match path_version_wire(old(buf)@) {
                Parse::Parsed(v, n) => r matches Some(q) && q.path.spec_bytes() == v.0 && q.version
                    == v.1 && final(buf)@ == old(buf)@.skip(n),
                _ => r is None && final(buf)@ == after_bad_path(old(buf)@),
            },
    {
        match Self::decode(buf) {
            Decoded::Parsed(q) => Some(q),
            _ => None,
        }
    }
}

/// The check body: a path and a version; never read past its end.
pub open spec fn check_request_wire(s: Seq<u8>) -> Parse<(Seq<u8>, i32)> {
    if s.len() < 4 || i32_at(s, 0) < 0 || s.len() - 4 < i32_at(s, 0) + 4 {
        Parse::Malformed
    } else if !valid_utf8(field_bytes(s, 0)) {
        Parse::Malformed
    } else {
        Parse::Parsed((field_bytes(s, 0), i32_at(s, field_end(s, 0))), field_end(s, 0) + 4)
    }
}

/// A check (version assertion) inside a multi request.
pub struct CheckRequest<'a> {
    pub path: &'a str,
    pub version: i32,
}

impl<'a> CheckRequest<'a> {
    /// Decodes a check body. Returns `None`, leaving the cursor where it was,
    /// when the body is short or the path is not UTF-8.
    pub fn from_bytes(buf: &mut &'a [u8]) -> (r: Option<Self>)
        ensures
            match check_request_wire(old(buf)@) {
                Parse::Parsed(v, n) => r matches Some(q) && q.path.spec_bytes() == v.0 && q.version
                    == v.1 && final(buf)@ == old(buf)@.skip(n),
                _ => r is None && final(buf)@ == old(buf)@,
            },
    {
        let ghost s = buf@;
        assert(s.skip(0) =~= s);
        let mut cursor: &'a [u8] = *buf;
        if cursor.len() < 4 {
            return None;
        }
        let path_len = get_i32(&mut cursor);
        if path_len < 0 {
            return None;
        }
        let n = path_len as usize;
        if cursor.len() < n || cursor.len() - n < 4 {
            return None;
        }
        let (path_bytes, remaining) = cursor.split_at(n);
        assert(path_bytes@ =~= field_bytes(s, 0));
        let path = match str_from_utf8(path_bytes) {
            Some(p) => p,
            None => {
                return None;
            },
        };
        cursor = remaining;
        assert(cursor@ =~= s.skip(field_end(s, 0)));
        let version = get_i32(&mut cursor);
        proof {
            lemma_skip_skip(s, field_end(s, 0), 4);
        }
        *buf = cursor;
        Some(Self { path, version })
    }
}

// ---------------------------------------------------------------------
// Handshake
// ---------------------------------------------------------------------

/// The connect body: protocol version, last zxid seen, timeout, previous
/// session id, then the password buffer.
pub open spec fn connect_request_wire(s: Seq<u8>) -> Parse<(i32, i64, i32, i64, Seq<u8>)> {
    if s.len() < 28 {
        Parse::Incomplete
    } else if i32_at(s, 24) < 0 || s.len() - 28 < i32_at(s, 24) {
        Parse::Malformed
    } else {
        Parse::Parsed(
            (
                i32_at(s, 0),
                i64_at(s, 4),
                i32_at(s, 12),
                i64_at(s, 16),
                s.subrange(28, 28 + i32_at(s, 24)),
            ),
            28 + i32_at(s, 24),
        )
    }
}

/// The first message of a connection.
pub struct ConnectRequest {
    pub protocol_version: i32,
    pub last_zxid_seen: i64,
    pub timeout_ms: i32,
    pub session_id: i64,
    pub password: Vec<u8>,
}

impl ConnectRequest {
    /// Whether this request is the value `v` read from the wire.
    pub open spec fn is(self, v: (i32, i64, i32, i64, Seq<u8>)) -> bool {
        self.protocol_version == v.0 && self.last_zxid_seen == v.1 && self.timeout_ms == v.2
            && self.session_id == v.3 && self.password@ == v.4
    }

    /// Decodes a connect body. Its 28 fixed bytes must be there; a password
    /// longer than the rest is `None`, with the cursor past the fixed bytes.
    pub fn from_bytes(buf: &mut &[u8]) -> (r: Option<Self>)
        requires
            old(buf)@.len() >= 28,
        ensures
            match connect_request_wire(old(buf)@) {
                Parse::Parsed(v, n) => r matches Some(q) && q.is(v) && final(buf)@ == old(buf)@.skip(
                    n,
                ),
                _ => r is None && final(buf)@ == old(buf)@.skip(28),
            },
    {
        let ghost s = buf@;
        assert(s.skip(0) =~= s);
        let protocol_version = get_i32(buf);
        let last_zxid_seen = get_i64(buf);
        proof {
            lemma_skip_skip(s, 4, 8);
        }
        let timeout_ms = get_i32(buf);
        proof {
            lemma_skip_skip(s, 12, 4);
        }
        let session_id = get_i64(buf);
        proof {
            lemma_skip_skip(s, 16, 8);
        }
        let password_len = get_i32(buf);
        proof {
            lemma_skip_skip(s, 24, 4);
        }
        if password_len < 0 || buf.len() < password_len as usize {
            return None;
        }
        let cur: &[u8] = *buf;
        let (password_bytes, remaining) = cur.split_at(password_len as usize);
        let mut password = Vec::new();
        put_bytes(&mut password, password_bytes);
        assert(password@ =~= s.subrange(28, 28 + password_len));
        *buf = remaining;
        assert(remaining@ =~= s.skip(28 + password_len));
        Some(Self { protocol_version, last_zxid_seen, timeout_ms, session_id, password })
    }
}

/// The reply to a connect request.
pub struct ConnectResponse {
    pub protocol_version: i32,
    pub timeout_ms: i32,
    pub session_id: i64,
    pub password: Vec<u8>,
}

/// The wire form of a connect reply.
pub open spec fn connect_response_bytes(pv: i32, timeout: i32, sid: i64, pw: Seq<u8>) -> Seq<u8> {
    be_i32(pv) + be_i32(timeout) + be_i64(sid) + jute_bytes(pw)
}

impl ConnectResponse {
    /// Encodes version, timeout, session id and password.
    pub fn to_bytes(&self) -> (r: Vec<u8>)
        ensures
            r@ == connect_response_bytes(
                self.protocol_version,
                self.timeout_ms,
                self.session_id,
                self.password@,
            ),
    {
        let mut buf = Vec::new();
        put_i32_be(&mut buf, self.protocol_version);
        put_i32_be(&mut buf, self.timeout_ms);
        put_i64_be(&mut buf, self.session_id);
        put_i32_be(&mut buf, self.password.len() as i32);
        put_bytes(&mut buf, self.password.as_slice());
        assert(buf@ =~= connect_response_bytes(
            self.protocol_version,
            self.timeout_ms,
            self.session_id,
            self.password@,
        ));
        buf
    }
}

// ---------------------------------------------------------------------
// Children lists
// ---------------------------------------------------------------------

/// The strings of a list, each length-prefixed, one after the other.
pub open spec fn strings_bytes(cs: Seq<Seq<u8>>) -> Seq<u8>
    decreases cs.len(),
{
    if cs.len() == 0 {
        Seq::empty()
    } else {
        strings_bytes(cs.drop_last()) + jute_bytes(cs.last())
    }
}

/// The wire form of a list of strings: its length, then each string.
pub open spec fn string_list_bytes(cs: Seq<Seq<u8>>) -> Seq<u8> {
    be_i32(cs.len() as i32) + strings_bytes(cs)
}

/// The UTF-8 bytes of each name of a list.
pub open spec fn names_utf8(names: Seq<&String>) -> Seq<Seq<u8>> {
    Seq::new(names.len(), |i: int| encode_utf8(names[i]@))
}

/// The body of a successful getChildren: the children's names.
pub struct GetChildrenResponse<'a> {
    pub children: &'a [&'a String],
}

impl<'a> GetChildrenResponse<'a> {
    /// Encodes the names as a list of strings.
    pub fn to_bytes(&self) -> (r: Vec<u8>)
        ensures
            r@ == string_list_bytes(names_utf8(self.children@)),
    {
        let mut buf = Vec::new();
        let n = self.children.len();
        put_i32_be(&mut buf, n as i32);
        let ghost names = names_utf8(self.children@);
        for i in 0..n
            invariant
                n == self.children@.len(),
                names == names_utf8(self.children@),
                buf@ == be_i32(n as i32) + strings_bytes(names.subrange(0, i as int)),
        {
            let name = self.children[i].as_str().as_bytes();
            put_i32_be(&mut buf, name.len() as i32);
            put_bytes(&mut buf, name);
            assert(names.subrange(0, i + 1).drop_last() =~= names.subrange(0, i as int));
        }
        assert(names.subrange(0, n as int) =~= names);
        buf
    }
}

// ---------------------------------------------------------------------
// Watch notifications
// ---------------------------------------------------------------------

/// The kinds of change a watch reports.
#[derive(Debug, Clone, Copy, PartialEq, Eq, Structural)]
pub enum WatchEventType {
    Created,
    Deleted,
    Changed,
    Child,
}

/// The number that stands for an event kind on the wire.
pub open spec fn event_value(e: WatchEventType) -> i32 {
    match e {
        WatchEventType::Created => 1,
        WatchEventType::Deleted => 2,
        WatchEventType::Changed => 3,
        WatchEventType::Child => 4,
    }
}

impl WatchEventType {
    /// The wire number of this event kind.
    pub fn code(self) -> (r: i32)
        ensures
            r == event_value(self),
    {
        match self {
            WatchEventType::Created => 1,
            WatchEventType::Deleted => 2,
            WatchEventType::Changed => 3,
            WatchEventType::Child => 4,
        }
    }
}

/// The wire form of a notification: xid -1, zxid -1, result 0, the event
/// kind, state 3 (connected), then the path.
pub open spec fn notification_bytes(e: WatchEventType, path: Seq<u8>) -> Seq<u8> {
    be_i32(-1i32) + be_i64(-1i64) + be_i32(0i32) + be_i32(event_value(e)) + be_i32(3i32)
        + jute_bytes(path)
}

/// A message the server pushes when a watched node changes.
pub struct WatchNotification<'a> {
    pub event_type: WatchEventType,
    pub path: &'a str,
}

impl<'a> WatchNotification<'a> {
    /// Encodes the notification.
    pub fn to_bytes(&self) -> (r: Vec<u8>)
        ensures
            r@ == notification_bytes(self.event_type, self.path.spec_bytes()),
    {
        let mut buf = Vec::new();
        put_i32_be(&mut buf, -1i32);
        put_i64_be(&mut buf, -1i64);
        put_i32_be(&mut buf, 0i32);
        put_i32_be(&mut buf, self.event_type.code());
        put_i32_be(&mut buf, 3i32);
        let p = self.path.as_bytes();
        put_i32_be(&mut buf, p.len() as i32);
        put_bytes(&mut buf, p);
        assert(buf@ =~= notification_bytes(self.event_type, self.path.spec_bytes()));
        buf
    }
}

// ---------------------------------------------------------------------
// Authentication
// ---------------------------------------------------------------------

/// The auth body: a type, a scheme string and the credentials buffer.
pub open spec fn auth_request_wire(s: Seq<u8>) -> Parse<(i32, Seq<u8>, Seq<u8>)> {
    if s.len() < 4 || !field_fits(s, 4) || !valid_utf8(field_bytes(s, 4)) || !field_fits(
        s,
        field_end(s, 4),
    ) {
        Parse::Malformed
    } else {
        Parse::Parsed(
            (i32_at(s, 0), field_bytes(s, 4), field_bytes(s, field_end(s, 4))),
            field_end(s, field_end(s, 4)),
        )
    }
}

/// An authentication request.
pub struct AuthRequest<'a> {
    pub auth_type: i32,
    pub scheme: &'a str,
    pub auth: &'a [u8],
}

impl<'a> AuthRequest<'a> {
    /// Decodes an auth body. Returns `None`, leaving the cursor where it was,
    /// when the body is short or the scheme is not UTF-8.
    pub fn from_bytes(buf: &mut &'a [u8]) -> (r: Option<Self>)
        ensures
            match auth_request_wire(old(buf)@) {
                Parse::Parsed(v, n) => r matches Some(q) && q.auth_type == v.0
                    && q.scheme.spec_bytes() == v.1 && q.auth@ == v.2 && final(buf)@ == old(
                    buf,
                )@.skip(n),
                _ => r is None && final(buf)@ == old(buf)@,
            },
    {
        let ghost s = buf@;
        assert(s.skip(0) =~= s);
        let mut cur: &'a [u8] = *buf;
        if cur.len() < 4 {
            return None;
        }
        let auth_type = get_i32(&mut cur);
        proof {
            assert(s.skip(4).skip(0) =~= s.skip(4));
            if field_fits(s, 4) {
                assert(field_bytes(s.skip(4), 0) =~= field_bytes(s, 4));
            }
        }
        let scheme = match decode_path(&mut cur) {
            Decoded::Parsed(p) => p,
            _ => {
                return None;
            },
        };
        let ghost e0 = field_end(s, 4);
        proof {
            assert(s.skip(4).skip(0) =~= s.skip(4));
            assert(field_bytes(s.skip(4), 0) =~= field_bytes(s, 4));
            lemma_skip_skip(s, 4, field_end(s.skip(4), 0));
        }
        if cur.len() < 4 {
            return None;
        }
        let auth_len = get_i32(&mut cur);
        proof {
            lemma_skip_skip(s, e0, 4);
        }
        if auth_len < 0 || auth_len as usize > cur.len() {
            return None;
        }
        let (auth, remaining) = cur.split_at(auth_len as usize);
        assert(auth@ =~= field_bytes(s, e0));
        *buf = remaining;
        assert(remaining@ =~= s.skip(field_end(s, e0)));
        Some(Self { auth_type, scheme, auth })
    }
}

// ---------------------------------------------------------------------
// Multi (transactions)
// ---------------------------------------------------------------------

/// The wire form of a multi header: operation, done flag, error.
pub open spec fn multi_header_bytes(op_type: i32, done: bool, err: i32) -> Seq<u8> {
    be_i32(op_type) + seq![if done { 1u8 } else { 0u8 }] + be_i32(err)
}

/// A multi header read from the front of `s`: operation, done flag, error.
pub open spec fn multi_header_wire(s: Seq<u8>) -> Option<(i32, bool, i32)> {
    if s.len() < 9 || (s[4] != 0 && s[4] != 1) {
        None
    } else {
        Some((i32_at(s, 0), s[4] == 1, i32_at(s, 5)))
    }
}

/// A multi header reads back as written.
pub proof fn lemma_multi_header_round_trip(op_type: i32, done: bool, err: i32, rest: Seq<u8>)
    ensures
        multi_header_wire(multi_header_bytes(op_type, done, err) + rest) == Some((op_type, done, err)),
{
    let s = multi_header_bytes(op_type, done, err) + rest;
    crate::codec::lemma_be_i32_round_trip(op_type);
    crate::codec::lemma_be_i32_round_trip(err);
    let a = s.skip(0);
    let b = s.skip(5);
    let x = be_i32(op_type);
    let y = be_i32(err);
    assert(a[0] == x[0] && a[1] == x[1] && a[2] == x[2] && a[3] == x[3]);
    assert(b[0] == y[0] && b[1] == y[1] && b[2] == y[2] && b[3] == y[3]);
}

/// The header in front of each operation of a multi request or response.
pub struct MultiHeader {
    pub op_type: i32,
    pub done: bool,
    pub err: i32,
}

impl MultiHeader {
    /// Decodes one nine-byte header. Returns `None`, leaving the cursor where
    /// it was, when the header is short or its done flag is neither 0 nor 1.
    pub fn from_bytes(buf: &mut &[u8]) -> (r: Option<Self>)
        ensures
            match multi_header_wire(old(buf)@) {
                Some(v) => r matches Some(h) && h.op_type == v.0 && h.done == v.1 && h.err == v.2
                    && final(buf)@ == old(buf)@.skip(9),
                None => r is None && final(buf)@ == old(buf)@,
            },
    {
        let ghost s = buf@;
        assert(s.skip(0) =~= s);
        let mut cursor: &[u8] = *buf;
        if cursor.len() < 9 {
            return None;
        }
        let op_type = get_i32(&mut cursor);
        let d = get_u8(&mut cursor);
        let done = if d == 0 {
            false
        } else if d == 1 {
            true
        } else {
            return None;
        };
        proof {
            lemma_skip_skip(s, 4, 1);
        }
        let err = get_i32(&mut cursor);
        proof {
            lemma_skip_skip(s, 5, 4);
        }
        *buf = cursor;
        Some(MultiHeader { op_type, done, err })
    }

    /// Encodes the header.
    pub fn to_bytes(&self) -> (r: Vec<u8>)
        ensures
            r@ == multi_header_bytes(self.op_type, self.done, self.err),
    {
        let mut buf = Vec::with_capacity(9);
        self.encode_into(&mut buf);
        assert(buf@ =~= multi_header_bytes(self.op_type, self.done, self.err));
        buf
    }

    /// Appends the header to `buf`.
    pub fn encode_into(&self, buf: &mut Vec<u8>)
        ensures
            final(buf)@ == old(buf)@ + multi_header_bytes(self.op_type, self.done, self.err),
    {
        put_i32_be(buf, self.op_type);
        buf.push(if self.done {
            1u8
        } else {
            0u8
        });
        put_i32_be(buf, self.err);
        assert(final(buf)@ =~= old(buf)@ + multi_header_bytes(self.op_type, self.done, self.err));
    }
}

/// One operation of a multi request, as a specification value: paths and
/// data are their bytes.
pub enum MultiOpSpec {
    Create(Seq<u8>, Seq<u8>, i32),
    SetData(Seq<u8>, Seq<u8>, i32),
    Delete(Seq<u8>, i32),
    Check(Seq<u8>, i32),
}

/// The body of one multi operation of type `op_type`.
pub open spec fn multi_op_wire(op_type: i32, s: Seq<u8>) -> Parse<MultiOpSpec> {
    if op_type == 1 {
        match create_request_wire(s) {
            Parse::Incomplete => Parse::Incomplete,
            Parse::Malformed => Parse::Malformed,
            Parse::Parsed(v, n) => Parse::Parsed(MultiOpSpec::Create(v.0, v.1, v.2), n),
        }
    } else if op_type == 5 {
        match set_data_request_wire(s) {
            Parse::Incomplete => Parse::Incomplete,
            Parse::Malformed => Parse::Malformed,
            Parse::Parsed(v, n) => Parse::Parsed(MultiOpSpec::SetData(v.0, v.1, v.2), n),
        }
    } else if op_type == 2 {
        match path_version_wire(s) {
            Parse::Incomplete => Parse::Incomplete,
            Parse::Malformed => Parse::Malformed,
            Parse::Parsed(v, n) => Parse::Parsed(MultiOpSpec::Delete(v.0, v.1), n),
        }
    } else if op_type == 13 {
        match check_request_wire(s) {
            Parse::Incomplete => Parse::Incomplete,
            Parse::Malformed => Parse::Malformed,
            Parse::Parsed(v, n) => Parse::Parsed(MultiOpSpec::Check(v.0, v.1), n),
        }
    } else {
        Parse::Malformed
    }
}

/// Where the cursor is left when a multi operation body is malformed.
pub open spec fn multi_op_malformed_rest(op_type: i32, s: Seq<u8>) -> Seq<u8> {
    if op_type == 1 || op_type == 5 || op_type == 2 {
        after_bad_path(s)
    } else {
        s
    }
}

/// One operation of a multi request.
pub enum MultiOp<'a> {
    Create(CreateRequest<'a>),
    SetData(SetDataRequest<'a>),
    Delete(DeleteRequest<'a>),
    Check(CheckRequest<'a>),
}

impl<'a> MultiOp<'a> {
    /// Whether this operation is the value `v` read from the wire.
    pub open spec fn is(self, v: MultiOpSpec) -> bool {
        match (self, v) {
            (MultiOp::Create(q), MultiOpSpec::Create(p, d, f)) => q.is((p, d, f)),
            (MultiOp::SetData(q), MultiOpSpec::SetData(p, d, ver)) => q.is((p, d, ver)),
            (MultiOp::Delete(q), MultiOpSpec::Delete(p, ver)) => q.path.spec_bytes() == p
                && q.version == ver,
            (MultiOp::Check(q), MultiOpSpec::Check(p, ver)) => q.path.spec_bytes() == p
                && q.version == ver,
            _ => false,
        }
    }

    /// Decodes the body of an operation of type `op_type`; `Incomplete` where
    /// a create, setData or delete body ends before a field.
    pub fn decode(op_type: i32, buf: &mut &'a [u8]) -> (r: Decoded<Self>)
        ensures
            match multi_op_wire(op_type, old(buf)@) {
                Parse::Incomplete => r is Incomplete,
                Parse::Malformed => r is Malformed && final(buf)@ == multi_op_malformed_rest(
                    op_type,
                    old(buf)@,
                ),
                Parse::Parsed(v, n) => r matches Decoded::Parsed(q) && q.is(v) && final(buf)@
                    == old(buf)@.skip(n),
            },
    {
        if op_type == 1 {
            match CreateRequest::decode(buf) {
                Decoded::Parsed(q) => Decoded::Parsed(MultiOp::Create(q)),
                Decoded::Malformed => Decoded::Malformed,
                Decoded::Incomplete => Decoded::Incomplete,
            }
        } else if op_type == 5 {
            match SetDataRequest::decode(buf) {
                Decoded::Parsed(q) => Decoded::Parsed(MultiOp::SetData(q)),
                Decoded::Malformed => Decoded::Malformed,
                Decoded::Incomplete => Decoded::Incomplete,
            }
        } else if op_type == 2 {
            match DeleteRequest::decode(buf) {
                Decoded::Parsed(q) => Decoded::Parsed(MultiOp::Delete(q)),
                Decoded::Malformed => Decoded::Malformed,
                Decoded::Incomplete => Decoded::Incomplete,
            }
        } else if op_type == 13 {
            match CheckRequest::from_bytes(buf) {
                Some(q) => Decoded::Parsed(MultiOp::Check(q)),
                None => Decoded::Malformed,
            }
        } else {
            Decoded::Malformed
        }
    }

    /// Decodes the body of an operation of type `op_type`. A create, setData
    /// or delete body must hold every field it announces.
    pub fn from_bytes(op_type: i32, buf: &mut &'a [u8]) -> (r: Option<Self>)
        requires
            !(multi_op_wire(op_type, old(buf)@) is Incomplete),
        ensures
            match multi_op_wire(op_type, old(buf)@) {
                Parse::Parsed(v, n) => r matches Some(q) && q.is(v) && final(buf)@ == old(buf)@.skip(
                    n,
                ),
                _ => r is None && final(buf)@ == multi_op_malformed_rest(op_type, old(buf)@),
            },
    {
        match Self::decode(op_type, buf) {
            Decoded::Parsed(q) => Some(q),
            _ => None,
        }
    }
}

proof fn lemma_acl_end_bounds(s: Seq<u8>, off: int, n: int)
    requires
        0 <= off <= s.len(),
    ensures
        acl_end(s, off, n) matches Some(a) ==> off <= a <= s.len(),
    decreases n,
{
    if n > 0 && off + 8 <= s.len() && 0 <= i32_at(s, off + 4) && off + 12 + i32_at(s, off + 4)
        <= s.len() && 0 <= i32_at(s, off + 8 + i32_at(s, off + 4)) && off + 12 + i32_at(
        s,
        off + 4,
    ) + i32_at(s, off + 8 + i32_at(s, off + 4)) <= s.len() {
        lemma_acl_end_bounds(
            s,
            off + 12 + i32_at(s, off + 4) + i32_at(s, off + 8 + i32_at(s, off + 4)),
            n - 1,
        );
    }
}

/// An operation body, when read, takes at least one byte and at most all of them.
pub proof fn lemma_multi_op_wire_len(op_type: i32, s: Seq<u8>)
    ensures
        multi_op_wire(op_type, s) matches Parse::Parsed(_, n) ==> 0 < n <= s.len(),
{
    if op_type == 1 && field_fits(s, 0) && field_fits(s, field_end(s, 0)) && field_end(
        s,
        field_end(s, 0),
    ) + 4 <= s.len() {
        let e1 = field_end(s, field_end(s, 0));
        lemma_acl_end_bounds(s, e1 + 4, i32_at(s, e1) as int);
    }
}

/// The operations of a multi request: headers and bodies until the closing
/// header (-1, done, -1).
pub open spec fn multi_request_wire(s: Seq<u8>) -> Parse<Seq<MultiOpSpec>>
    decreases s.len(),
{
    match multi_header_wire(s) {
        None => Parse::Malformed,
        Some((op_type, done, err)) => if done {
            if op_type != -1 || err != -1 {
                Parse::Malformed
            } else {
                Parse::Parsed(Seq::empty(), 9)
            }
        } else if err != -1 {
            Parse::Malformed
        } else {
            match multi_op_wire(op_type, s.skip(9)) {
                Parse::Incomplete => Parse::Incomplete,
                Parse::Malformed => Parse::Malformed,
                Parse::Parsed(op, n) => if n <= 0 || 9 + n > s.len() {
                    Parse::Malformed
                } else {
                    match multi_request_wire(s.skip(9 + n)) {
                        Parse::Incomplete => Parse::Incomplete,
                        Parse::Malformed => Parse::Malformed,
                        Parse::Parsed(rest, m) => Parse::Parsed(seq![op] + rest, 9 + n + m),
                    }
                },
            }
        },
    }
}

/// `p` with `prefix` put in front of the operations it reads and `k` bytes in
/// front of what it consumes.
pub open spec fn prefixed(prefix: Seq<MultiOpSpec>, k: int, p: Parse<Seq<MultiOpSpec>>) -> Parse<
    Seq<MultiOpSpec>,
> {
    match p {
        Parse::Incomplete => Parse::Incomplete,
        Parse::Malformed => Parse::Malformed,
        Parse::Parsed(ops, m) => Parse::Parsed(prefix + ops, k + m),
    }
}

/// A multi request: a list of operations applied as one transaction.
pub struct MultiRequest<'a> {
    pub ops: Vec<MultiOp<'a>>,
}

impl<'a> MultiRequest<'a> {
    /// Whether this request's operations are the values `v`.
    pub open spec fn is(self, v: Seq<MultiOpSpec>) -> bool {
        self.ops@.len() == v.len() && forall|i: int| 0 <= i < v.len() ==> #[trigger] self.ops@[i].is(
            v[i],
        )
    }

    /// Decodes a multi body; `Incomplete` where an operation body ends
    /// before a field. The cursor moves only when the whole body is read.
    pub fn decode(buf: &mut &'a [u8]) -> (r: Decoded<Self>)
        ensures
            match multi_request_wire(old(buf)@) {
                Parse::Incomplete => r is Incomplete && final(buf)@ == old(buf)@,
                Parse::Malformed => r is Malformed && final(buf)@ == old(buf)@,
                Parse::Parsed(v, n) => r matches Decoded::Parsed(q) && q.is(v) && final(buf)@
                    == old(buf)@.skip(n),
            },
    {
        let ghost s = buf@;
        let mut cursor: &'a [u8] = *buf;
        let mut ops: Vec<MultiOp<'a>> = Vec::new();
        let ghost mut views: Seq<MultiOpSpec> = Seq::empty();
        let ghost mut off: int = 0;
        assert(s.skip(0) =~= s);
        assert(prefixed(Seq::empty(), 0, multi_request_wire(s)) =~= multi_request_wire(s)) by {
            match multi_request_wire(s) {
                Parse::Parsed(o, m) => {
                    assert(Seq::<MultiOpSpec>::empty() + o =~= o);
                },
                _ => {},
            }
        }
        loop
            invariant
                0 <= off <= s.len(),
                cursor@ == s.skip(off),
                s == old(buf)@,
                *buf == *old(buf),
                multi_request_wire(s) == prefixed(views, off, multi_request_wire(cursor@)),
                ops@.len() == views.len(),
                forall|i: int| 0 <= i < views.len() ==> #[trigger] ops@[i].is(views[i]),
            decreases cursor@.len(),
        {
            let ghost here = cursor@;
            let header = match MultiHeader::from_bytes(&mut cursor) {
                Some(h) => h,
                None => {
                    return Decoded::Malformed;
                },
            };
            if header.done {
                if header.op_type != -1 || header.err != -1 {
                    return Decoded::Malformed;
                }
                proof {
                    lemma_skip_skip(s, off, 9);
                    assert(views + Seq::<MultiOpSpec>::empty() =~= views);
                }
                *buf = cursor;
                return Decoded::Parsed(MultiRequest { ops });
            }
            if header.err != -1 {
                return Decoded::Malformed;
            }
            let ghost body = cursor@;
            proof {
                lemma_multi_op_wire_len(header.op_type, body);
            }
            let op = match MultiOp::decode(header.op_type, &mut cursor) {
                Decoded::Parsed(op) => op,
                Decoded::Malformed => {
                    return Decoded::Malformed;
                },
                Decoded::Incomplete => {
                    return Decoded::Incomplete;
                },
            };
            proof {
                let (v, n) = match multi_op_wire(header.op_type, body) {
                    Parse::Parsed(v, n) => (v, n),
                    _ => arbitrary(),
                };
                lemma_skip_skip(s, off, 9);
                lemma_skip_skip(s, off + 9, n);
                lemma_skip_skip(here, 9, n);
                match multi_request_wire(cursor@) {
                    Parse::Parsed(rest, m) => {
                        assert(views + (seq![v] + rest) =~= views.push(v) + rest);
                    },
                    _ => {},
                }
                views = views.push(v);
                off = off + 9 + n;
            }
            ops.push(op);
        }
    }

    /// Decodes a multi body. Every operation body must hold the fields it
    /// announces. On `None` the cursor is where it was.
    pub fn from_bytes(buf: &mut &'a [u8]) -> (r: Option<Self>)
        requires
            !(multi_request_wire(old(buf)@) is Incomplete),
        ensures
            match multi_request_wire(old(buf)@) {
                Parse::Parsed(v, n) => r matches Some(q) && q.is(v) && final(buf)@ == old(buf)@.skip(
                    n,
                ),
                _ => r is None && final(buf)@ == old(buf)@,
            },
    {
        match Self::decode(buf) {
            Decoded::Parsed(q) => Some(q),
            _ => None,
        }
    }
}

/// The outcome of one operation of a multi request, as returned to the
/// client. `Error(Success)` marks an operation that was valid but rolled back
/// because another one failed.
#[derive(Debug, Clone, PartialEq)]
pub enum MultiOpResponse {
    Create { path: String },
    SetData { stat: Stat, data_length: i32, num_children: i32 },
    Delete,
    Check,
    Error(ErrorCode),
}

/// A multi outcome as a specification value.
pub enum OpOutcome {
    Created(Seq<char>),
    Updated(Stat, i32, i32),
    Deleted,
    Checked,
    Failed(ErrorCode),
}

impl View for MultiOpResponse {
    type V = OpOutcome;

    open spec fn view(&self) -> OpOutcome {
        match self {
            MultiOpResponse::Create { path } => OpOutcome::Created(path@),
            MultiOpResponse::SetData { stat, data_length, num_children } => OpOutcome::Updated(
                *stat,
                *data_length,
                *num_children,
            ),
            MultiOpResponse::Delete => OpOutcome::Deleted,
            MultiOpResponse::Check => OpOutcome::Checked,
            MultiOpResponse::Error(code) => OpOutcome::Failed(*code),
        }
    }
}

/// The wire form of one multi outcome: a header, then its body.
pub open spec fn multi_op_response_bytes(r: OpOutcome) -> Seq<u8> {
    match r {
        OpOutcome::Created(path) => multi_header_bytes(1, false, 0) + jute_bytes(encode_utf8(path)),
        OpOutcome::Updated(stat, data_length, num_children) => multi_header_bytes(5, false, 0)
            + stat_bytes(stat, data_length, num_children),
        OpOutcome::Deleted => multi_header_bytes(2, false, 0),
        OpOutcome::Checked => multi_header_bytes(13, false, 0),
        OpOutcome::Failed(code) => multi_header_bytes(-1i32, false, error_value(code)) + be_i32(
            error_value(code),
        ),
    }
}

impl MultiOpResponse {
    /// Appends the outcome's header and body to `buf`.
    pub fn encode_into(&self, buf: &mut Vec<u8>)
        ensures
            final(buf)@ == old(buf)@ + multi_op_response_bytes(self@),
    {
        match self {
            MultiOpResponse::Create { path } => {
                let header = MultiHeader {
                    op_type: OpCode::Create.code(),
                    done: false,
                    err: ErrorCode::Success.code(),
                };
                header.encode_into(buf);
                let p = path.as_str().as_bytes();
                put_i32_be(buf, p.len() as i32);
                put_bytes(buf, p);
            },
            MultiOpResponse::SetData { stat, data_length, num_children } => {
                let header = MultiHeader {
                    op_type: OpCode::SetData.code(),
                    done: false,
                    err: ErrorCode::Success.code(),
                };
                header.encode_into(buf);
                stat.encode_into(buf, *data_length, *num_children);
            },
            MultiOpResponse::Delete => {
                let header = MultiHeader {
                    op_type: OpCode::Remove.code(),
                    done: false,
                    err: ErrorCode::Success.code(),
                };
                header.encode_into(buf);
            },
            MultiOpResponse::Check => {
                let header = MultiHeader {
                    op_type: OpCode::Check.code(),
                    done: false,
                    err: ErrorCode::Success.code(),
                };
                header.encode_into(buf);
            },
            MultiOpResponse::Error(code) => {
                let error = code.code();
                let header = MultiHeader { op_type: -1, done: false, err: error };
                header.encode_into(buf);
                put_i32_be(buf, error);
            },
        }
        assert(final(buf)@ =~= old(buf)@ + multi_op_response_bytes(self@));
    }
}

/// The outcomes of a list, one after the other.
pub open spec fn multi_responses_bytes(rs: Seq<OpOutcome>) -> Seq<u8>
    decreases rs.len(),
{
    if rs.len() == 0 {
        Seq::empty()
    } else {
        multi_responses_bytes(rs.drop_last()) + multi_op_response_bytes(rs.last())
    }
}

/// The wire form of a multi reply body: each outcome, then the closing header.
pub open spec fn multi_response_bytes(rs: Seq<OpOutcome>) -> Seq<u8> {
    multi_responses_bytes(rs) + multi_header_bytes(-1i32, true, -1i32)
}

/// The outcomes of a list of responses.
pub open spec fn outcomes(rs: Seq<MultiOpResponse>) -> Seq<OpOutcome> {
    rs.map_values(|r: MultiOpResponse| r@)
}

/// The body of a multi reply: one outcome per requested operation, in order.
#[derive(Debug, Clone, PartialEq)]
pub struct MultiResponse {
    pub responses: Vec<MultiOpResponse>,
}

impl MultiResponse {
    /// Encodes every outcome, then the closing header.
    pub fn to_bytes(&self) -> (r: Vec<u8>)
        ensures
            r@ == multi_response_bytes(outcomes(self.responses@)),
    {
        let mut buf = Vec::new();
        let n = self.responses.len();
        let ghost os = outcomes(self.responses@);
        for i in 0..n
            invariant
                n == self.responses@.len(),
                os == outcomes(self.responses@),
                buf@ == multi_responses_bytes(os.subrange(0, i as int)),
        {
            self.responses[i].encode_into(&mut buf);
            assert(os.subrange(0, i + 1).drop_last() =~= os.subrange(0, i as int));
        }
        assert(os.subrange(0, n as int) =~= os);
        let footer = MultiHeader { op_type: -1, done: true, err: -1 };
        footer.encode_into(&mut buf);
        buf
    }
}

} // verus!
