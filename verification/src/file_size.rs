//! The size that a file takes up on disk.

use vstd::prelude::*;

verus! {

/// The number of bytes in one block as file metadata counts them.
pub const BLOCK_BYTES: u128 = 512;

/// The bytes that a file of `blocks` blocks occupies.
pub fn file_size(blocks: u64) -> (size: u128)
    ensures
        size == blocks * BLOCK_BYTES,
{
    (blocks as u128) * BLOCK_BYTES
}

} // verus!
