use vstd::prelude::*;

verus! {

/// Default number of bytes transferred per iteration for both scanning and
/// extraction. 4 KiB matches the most common page size.
pub const DEFAULT_CHUNK_SIZE: usize = 4096;

} // verus!
