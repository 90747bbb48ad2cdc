//! Pointer-sized words in byte memory.

use vstd::prelude::*;

verus! {

/// Number of bytes in one pointer-sized word.
pub const WORD: usize = 8;

/// The value of the little-endian word whose first byte is `bytes[at]`.
pub open spec fn word_at(bytes: Seq<u8>, at: int) -> int {
    bytes[at] + 0x100 * bytes[at + 1] + 0x1_0000 * bytes[at + 2] + 0x100_0000 * bytes[at + 3]
        + 0x1_0000_0000 * bytes[at + 4] + 0x100_0000_0000 * bytes[at + 5]
        + 0x1_0000_0000_0000 * bytes[at + 6] + 0x100_0000_0000_0000 * bytes[at + 7]
}

/// Reads the little-endian word that starts at `bytes[at]`.
pub fn read_word(bytes: &[u8], at: usize) -> (word: u64)
    requires
        at + WORD <= bytes.len(),
    ensures
        word == word_at(bytes@, at as int),
{
    let low: u64 = bytes[at] as u64 + 0x100 * (bytes[at + 1] as u64) + 0x1_0000 * (bytes[at + 2] as u64)
        + 0x100_0000 * (bytes[at + 3] as u64);
    let high: u64 = bytes[at + 4] as u64 + 0x100 * (bytes[at + 5] as u64) + 0x1_0000 * (bytes[at + 6] as u64)
        + 0x100_0000 * (bytes[at + 7] as u64);
    low + 0x1_0000_0000 * high
}

} // verus!
