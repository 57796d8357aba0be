//! The active segment's bookkeeping: records are encoded into a buffer that
//! is written out on flush, and the segment's size counts what is on disk
//! plus what is buffered, which decides rotation.

use vstd::prelude::*;
use bytes::BytesMut;
use crate::changelog::record::{
    bytes_mut_contents, bytes_mut_len, encode, lemma_record_len, record_bytes, HEADER_SIZE,
};

verus! {

/// Appends one record to the segment's buffer and returns the segment's
/// size after it: `bytes_written` plus the record's length.
pub fn append_record(
    buf: &mut BytesMut,
    bytes_written: u64,
    version: u8,
    index: u64,
    term: u64,
    value_type: u8,
    payload: &[u8],
) -> (r: u64)
    requires
        bytes_written + HEADER_SIZE + payload@.len() <= u64::MAX,
    ensures
        bytes_mut_contents(*final(buf)) == bytes_mut_contents(*old(buf)) + record_bytes(
            version,
            index,
            term,
            value_type,
            payload@,
        ),
        r == bytes_written + HEADER_SIZE + payload@.len(),
{
    let before = bytes_mut_len(buf);
    encode(buf, version, index, term, value_type, payload);
    proof {
        lemma_record_len(version, index, term, value_type, payload@);
    }
    let after = bytes_mut_len(buf);
    bytes_written + (after - before) as u64
}

} // verus!
