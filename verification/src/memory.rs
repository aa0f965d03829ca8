//! Amounts of memory in larger units.

use vstd::prelude::*;

verus! {

/// The whole kilobytes in an amount of bytes.
pub fn kilobytes(bytes: u64) -> (r: u64)
    ensures
        r * 1024 <= bytes < (r + 1) * 1024,
{
    bytes / 1024
}

/// The whole megabytes in an amount of bytes.
pub fn megabytes(bytes: u64) -> (r: u64)
    ensures
        r * 0x10_0000 <= bytes < (r + 1) * 0x10_0000,
{
    bytes / 1024 / 1024
}

} // verus!
