//! The block sizes of the dictionary.

use vstd::prelude::*;

verus! {

/// Bits per small block: a small block is one machine word.
pub const SMALL_BLOCK_SIZE: u64 = 64;

/// Bits per large block, the unit of the stored ranks and code pointers.
pub const LARGE_BLOCK_SIZE: u64 = 1024;

/// Ones (or zeros) between two entries of the select acceleration arrays.
pub const SELECT_BLOCK_SIZE: u64 = 2048;

/// Small blocks per large block.
pub const SMALL_BLOCK_PER_LARGE_BLOCK: u64 = 16;

} // verus!
