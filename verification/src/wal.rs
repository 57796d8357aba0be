//! The first log format: one record per change of the tree.

use vstd::prelude::*;

verus! {

/// A change of the tree as the first log format recorded it.
pub enum LogRecord {
    Create { path: String, data: Vec<u8> },
    SetData { path: String, data: Vec<u8> },
    Delete { path: String },
}

} // verus!
