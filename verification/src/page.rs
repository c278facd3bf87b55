//! The size of a page.

use vstd::prelude::*;

verus! {

/// The size of a page in bytes.
pub const SIZE: usize = 4096;

/// The size of a page in bytes, as an offset.
pub const PAGE_SIZE: u64 = 4096;

/// The binary logarithm of the size of a page.
pub const SHIFT: u32 = 12;

/// The address of the first byte of the page that holds `address`.
pub fn round_down(address: u64) -> (start: u64)
    ensures
        start == address - address % PAGE_SIZE,
{
    address - address % PAGE_SIZE
}

} // verus!
