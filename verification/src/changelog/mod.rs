//! The changelog: a write-ahead log split into segment files of
//! checksummed records.

pub mod record;
pub mod segment_writer;
pub mod wal_store;

use vstd::prelude::*;

verus! {

/// std's I/O error, carried through as an opaque value.
#[verifier::external_type_specification]
#[verifier::external_body]
pub struct ExIoError(std::io::Error);

/// What can go wrong inside the WAL: a record whose checksum does not match
/// its bytes, or an I/O failure.
#[derive(Debug)]
pub enum WalError {
    ChecksumMismatch,
    Io(std::io::Error),
}

impl From<std::io::Error> for WalError {
    fn from(e: std::io::Error) -> (r: Self) {
        WalError::Io(e)
    }
}

impl vstd::std_specs::convert::FromSpecImpl<std::io::Error> for WalError {
    open spec fn obeys_from_spec() -> bool {
        true
    }

    open spec fn from_spec(e: std::io::Error) -> Self {
        WalError::Io(e)
    }
}

} // verus!
