//! The WAL record.
//!
//! Each record on disk has this layout, every integer little endian:
//!
//! checksum: u128 (CityHash 1.1 128-bit of everything after it)
//! version: u8
//! index: u64
//! term: u64
//! value_type: u8
//! payload_len: u32
//! payload: [u8]

use vstd::prelude::*;
use bytes::BytesMut;
use crate::codec::{
    le_u128, le_u128_bytes, le_u32, le_u32_bytes, le_u64, le_u64_bytes, read_u128_le,
    read_u32_le, read_u64_le, u128_of_le, u32_of_le, u64_of_le, lemma_le_u128_round_trip,
    lemma_le_u32_round_trip, lemma_le_u64_round_trip,
};
use crate::changelog::WalError;

verus! {

// ---------------------------------------------------------------------
// Outside items
// ---------------------------------------------------------------------

/// The growable byte buffer of the `bytes` crate.
#[verifier::external_type_specification]
#[verifier::external_body]
pub struct ExBytesMut(BytesMut);

/// The bytes a `BytesMut` holds.
pub uninterp spec fn bytes_mut_contents(b: BytesMut) -> Seq<u8>;

/// The 128-bit CityHash (version 1.1.0) of a byte sequence.
pub uninterp spec fn cityhash_110_128_of(data: Seq<u8>) -> u128;

/// `cityhash_rs::cityhash_110_128`: the result is the CityHash 1.1 128-bit
/// hash of the input, a function of its bytes alone.
#[verifier::external_body]
fn cityhash(data: &[u8]) -> (r: u128)
    ensures
        r == cityhash_110_128_of(data@),
{
    cityhash_rs::cityhash_110_128(data)
}

/// `BytesMut::len`: the number of bytes held.
#[verifier::external_body]
pub(crate) fn bytes_mut_len(b: &BytesMut) -> (r: usize)
    ensures
        r == bytes_mut_contents(*b).len(),
{
    b.len()
}

/// `BufMut::put_slice` on a `BytesMut`: appends the bytes of `src`.
#[verifier::external_body]
fn bytes_mut_put_slice(b: &mut BytesMut, src: &[u8])
    ensures
        bytes_mut_contents(*final(b)) == bytes_mut_contents(*old(b)) + src@,
{
    bytes::BufMut::put_slice(b, src)
}

/// The bytes of a `BytesMut` from `start` to its end, through its `Deref` to
/// `[u8]`.
#[verifier::external_body]
fn bytes_mut_tail(b: &BytesMut, start: usize) -> (r: &[u8])
    requires
        start <= bytes_mut_contents(*b).len(),
    ensures
        r@ == bytes_mut_contents(*b).subrange(start as int, bytes_mut_contents(*b).len() as int),
{
    &b[start..]
}

/// Overwrites the bytes of a `BytesMut` at `start` with `src`, through its
/// `DerefMut` to `[u8]` and `copy_from_slice`.
#[verifier::external_body]
fn bytes_mut_write_at(b: &mut BytesMut, start: usize, src: &[u8])
    requires
        start + src@.len() <= bytes_mut_contents(*old(b)).len(),
    ensures
        bytes_mut_contents(*final(b)) == bytes_mut_contents(*old(b)).subrange(0, start as int)
            + src@ + bytes_mut_contents(*old(b)).subrange(
            start + src@.len(),
            bytes_mut_contents(*old(b)).len() as int,
        ),
{
    b[start..][..src.len()].copy_from_slice(src)
}

// ---------------------------------------------------------------------
// Layout
// ---------------------------------------------------------------------

/// Size of the checksum.
pub const CHECKSUM_SIZE: usize = 16;

/// Size of the header: checksum, version, index, term, value type, payload length.
pub const HEADER_SIZE: usize = 38;

/// Everything a record's checksum covers.
pub open spec fn record_body(
    version: u8,
    index: u64,
    term: u64,
    value_type: u8,
    payload: Seq<u8>,
) -> Seq<u8> {
    seq![version] + le_u64(index) + le_u64(term) + seq![value_type] + le_u32(payload.len() as u32)
        + payload
}

/// A whole record: the checksum of its body, then the body.
#[verifier::opaque]
pub open spec fn record_bytes(
    version: u8,
    index: u64,
    term: u64,
    value_type: u8,
    payload: Seq<u8>,
) -> Seq<u8> {
    let body = record_body(version, index, term, value_type, payload);
    le_u128(cityhash_110_128_of(body)) + body
}

/// A record takes its header and its payload.
pub proof fn lemma_record_len(version: u8, index: u64, term: u64, value_type: u8, payload: Seq<u8>)
    ensures
        record_bytes(version, index, term, value_type, payload).len() == HEADER_SIZE + payload.len(),
{
    reveal(record_bytes);
}

/// What reading a record from the front of some bytes gives.
pub enum RecordRead {
    /// Fewer bytes than a whole record: the end of a log or a torn write.
    NeedMore,
    /// The bytes are all there but the checksum does not match them.
    Corrupt,
    /// A valid record: index, term, payload, and its size in bytes.
    Record(u64, u64, Seq<u8>, int),
}

/// The record at the front of `s`.
#[verifier::opaque]
pub open spec fn record_wire(s: Seq<u8>) -> RecordRead {
    if s.len() < 38 {
        RecordRead::NeedMore
    } else {
        let size = 38 + u32_of_le(s.subrange(34, 38));
        if s.len() < size {
            RecordRead::NeedMore
        } else if u128_of_le(s.subrange(0, 16)) != cityhash_110_128_of(s.subrange(16, size)) {
            RecordRead::Corrupt
        } else {
            RecordRead::Record(
                u64_of_le(s.subrange(17, 25)),
                u64_of_le(s.subrange(25, 33)),
                s.subrange(38, size),
                size,
            )
        }
    }
}

// ---------------------------------------------------------------------
// Encoding and decoding
// ---------------------------------------------------------------------

/// Appends one record to `buf`.
pub fn encode(
    buf: &mut BytesMut,
    version: u8,
    index: u64,
    term: u64,
    value_type: u8,
    payload: &[u8],
)
    ensures
        bytes_mut_contents(*final(buf)) == bytes_mut_contents(*old(buf)) + record_bytes(
            version,
            index,
            term,
            value_type,
            payload@,
        ),
{
    proof {
        reveal(record_bytes);
    }
    let ghost before = bytes_mut_contents(*buf);
    let start = bytes_mut_len(buf);
    let zero = le_u128_bytes(0);
    bytes_mut_put_slice(buf, zero.as_slice());
    let checksum_start = bytes_mut_len(buf);
    let mut body: Vec<u8> = Vec::new();
    body.push(version);
    let ix = le_u64_bytes(index);
    crate::codec::put_bytes(&mut body, ix.as_slice());
    let tm = le_u64_bytes(term);
    crate::codec::put_bytes(&mut body, tm.as_slice());
    body.push(value_type);
    let pl = le_u32_bytes(payload.len() as u32);
    crate::codec::put_bytes(&mut body, pl.as_slice());
    crate::codec::put_bytes(&mut body, payload);
    assert(body@ =~= record_body(version, index, term, value_type, payload@));
    bytes_mut_put_slice(buf, body.as_slice());
    let ghost mid = bytes_mut_contents(*buf);
    assert(mid =~= before + le_u128(0) + body@);
    let covered = bytes_mut_tail(buf, checksum_start);
    assert(covered@ =~= body@);
    let checksum = cityhash(covered);
    let sum = le_u128_bytes(checksum);
    bytes_mut_write_at(buf, start, sum.as_slice());
    assert(bytes_mut_contents(*buf) =~= before + record_bytes(
        version,
        index,
        term,
        value_type,
        payload@,
    ));
}

/// Reads the record at the front of `buf`.
///
/// Gives `Ok(Some((index, term, payload)))` for a complete, valid record and
/// moves the cursor past it; `Ok(None)` when fewer bytes than a whole record
/// remain; `Err(ChecksumMismatch)` when the bytes are there but corrupted.
/// Only a complete record moves the cursor.
pub fn decode(buf: &mut &[u8]) -> (r: Result<Option<(u64, u64, Vec<u8>)>, WalError>)
    ensures
        match record_wire(old(buf)@) {
            RecordRead::NeedMore => r matches Ok(None) && final(buf)@ == old(buf)@,
            RecordRead::Corrupt => r matches Err(WalError::ChecksumMismatch) && final(buf)@ == old(
                buf,
            )@,
            RecordRead::Record(index, term, payload, size) => r matches Ok(Some((i, t, p))) && i
                == index && t == term && p@ == payload && final(buf)@ == old(buf)@.skip(size),
        },
{
    proof {
        reveal(record_wire);
    }
    let s: &[u8] = *buf;
    let n = s.len();
    if n < HEADER_SIZE {
        return Ok(None);
    }
    let payload_len = read_u32_le(s, 34) as usize;
    if n - HEADER_SIZE < payload_len {
        return Ok(None);
    }
    let record_size = HEADER_SIZE + payload_len;
    let stored = read_u128_le(s, 0);
    let computed = cityhash(&s[CHECKSUM_SIZE..record_size]);
    if stored != computed {
        return Err(WalError::ChecksumMismatch);
    }
    let index = read_u64_le(s, 17);
    let term = read_u64_le(s, 25);
    let _value_type = s[33];
    let mut payload: Vec<u8> = Vec::new();
    crate::codec::put_bytes(&mut payload, &s[HEADER_SIZE..record_size]);
    *buf = &s[record_size..n];
    Ok(Some((index, term, payload)))
}

/// A record reads back as what was written: its index, its term and its
/// payload, taking exactly its own bytes, whatever follows it.
pub proof fn lemma_record_round_trip(
    version: u8,
    index: u64,
    term: u64,
    value_type: u8,
    payload: Seq<u8>,
    rest: Seq<u8>,
)
    requires
        payload.len() <= u32::MAX,
    ensures
        record_bytes(version, index, term, value_type, payload).len() == 38 + payload.len(),
        record_wire(record_bytes(version, index, term, value_type, payload) + rest)
            == RecordRead::Record(
            index,
            term,
            payload,
            38 + payload.len() as int,
        ),
{
    reveal(record_bytes);
    reveal(record_wire);
    let body = record_body(version, index, term, value_type, payload);
    let s = record_bytes(version, index, term, value_type, payload) + rest;
    let size = 38 + payload.len() as int;
    lemma_le_u32_round_trip(payload.len() as u32);
    lemma_le_u64_round_trip(index);
    lemma_le_u64_round_trip(term);
    lemma_le_u128_round_trip(cityhash_110_128_of(body));
    assert(s.subrange(34, 38) =~= le_u32(payload.len() as u32));
    assert(s.subrange(0, 16) =~= le_u128(cityhash_110_128_of(body)));
    assert(s.subrange(16, size) =~= body);
    assert(s.subrange(17, 25) =~= le_u64(index));
    assert(s.subrange(25, 33) =~= le_u64(term));
    assert(s.subrange(38, size) =~= payload);
}

} // verus!
