//! Verified core of a point-cloud loader: it selects which scans of a
//! multi-scan source file are exported, accumulates valid point records
//! into bounded parallel position/color buffers, and describes exactly
//! which visualization records (one optional transform marker, then
//! bulk chunks) are emitted for each scan.

use vstd::prelude::*;

pub mod allow;
pub mod export;
pub mod extension;
pub mod paths;
pub mod scan;
pub mod stream;

verus! {

/// Number of accumulated points at which a chunk is flushed to the sink.
pub const CHUNK_SIZE: usize = 1000000;

/// Relies on String::push: it appends exactly the one character to the
/// end of the string.
pub assume_specification[ String::push ](s: &mut String, c: char)
    ensures
        final(s)@ == old(s)@.push(c),
;

} // verus!
