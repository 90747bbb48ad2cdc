//! Conservative scanning: every word of a byte range is taken for an address.

use crate::record::{ordered, search, Record, RecordStatus};
use crate::word::{read_word, word_at, WORD};
use vstd::arithmetic::div_mod::{lemma_mod_add_multiples_vanish, lemma_mod_equivalence, lemma_small_mod};
use vstd::prelude::*;

verus! {

/// The distance between two words that a scan looks at.
///
/// The first word of a range starts at the range's first byte, whatever the
/// alignment of that byte.
#[derive(Clone, Copy, Debug, PartialEq, Eq, Structural)]
pub enum ScanStride {
    /// Every byte starts a word: words overlap.
    Byte,
    /// Words lie side by side.
    Word,
}

impl ScanStride {
    /// The stride in bytes.
    pub open spec fn step(self) -> int {
        match self {
            ScanStride::Byte => 1,
            ScanStride::Word => 8,
        }
    }

    /// The stride in bytes.
    pub fn bytes(self) -> (n: usize)
        ensures
            n == self.step(),
    {
        match self {
            ScanStride::Byte => 1,
            ScanStride::Word => WORD,
        }
    }
}

/// A scan of `[begin, end)` reads a word at `at`: the word lies wholly in the
/// range, a whole number of steps after `begin`.
pub open spec fn is_slot(at: int, begin: int, end: int, step: int) -> bool {
    begin <= at && at + WORD <= end && (at - begin) % step == 0
}

/// Some word that a scan of `[begin, end)` reads before it comes to `bound`
/// is an address in `[low, high)`.
pub open spec fn refers_below(
    bytes: Seq<u8>,
    begin: int,
    end: int,
    step: int,
    bound: int,
    low: int,
    high: int,
) -> bool {
    exists|at: int| #[trigger]
        is_slot(at, begin, end, step) && at < bound && low <= word_at(bytes, at) < high
}

/// Some word that a scan of `[begin, end)` reads is an address in
/// `[low, high)`.
pub open spec fn refers(bytes: Seq<u8>, begin: int, end: int, step: int, low: int, high: int) -> bool {
    refers_below(bytes, begin, end, step, end, low, high)
}

/// The table after the words of `[begin, end)` below `bound` were scanned:
/// each block that was `Unknown` and is referred to has become `Touched`.
pub open spec fn touched_below(
    records: Seq<Record>,
    bytes: Seq<u8>,
    begin: int,
    end: int,
    step: int,
    bound: int,
) -> Seq<Record> {
    Seq::new(
        records.len(),
        |i: int|
            if records[i].status == RecordStatus::Unknown && refers_below(
                bytes,
                begin,
                end,
                step,
                bound,
                records[i].addr as int,
                records[i].limit(),
            ) {
                records[i].with_status(RecordStatus::Touched)
            } else {
                records[i]
            },
    )
}

/// The table after a scan of `[begin, end)`.
pub open spec fn touched(records: Seq<Record>, bytes: Seq<u8>, begin: int, end: int, step: int) -> Seq<
    Record,
> {
    touched_below(records, bytes, begin, end, step, end)
}

/// Between one slot and the next there is no other.
proof fn lemma_next_slot(at: int, other: int, begin: int, step: int)
    requires
        step > 0,
        (at - begin) % step == 0,
        (other - begin) % step == 0,
        at <= other < at + step,
    ensures
        other == at,
        (at + step - begin) % step == 0,
{
    lemma_mod_add_multiples_vanish(at - begin, step);
    lemma_mod_equivalence(other - begin, at - begin, step);
    lemma_small_mod((other - at) as nat, step as nat);
}

/// What one more word adds to a scan.
proof fn lemma_refers_step(
    bytes: Seq<u8>,
    begin: int,
    end: int,
    step: int,
    at: int,
    low: int,
    high: int,
)
    requires
        step > 0,
        is_slot(at, begin, end, step),
    ensures
        refers_below(bytes, begin, end, step, at + step, low, high) <==> refers_below(
            bytes,
            begin,
            end,
            step,
            at,
            low,
            high,
        ) || low <= word_at(bytes, at) < high,
{
    if refers_below(bytes, begin, end, step, at + step, low, high) {
        let other: int = choose|other: int| #[trigger]
            is_slot(other, begin, end, step) && other < at + step && low <= word_at(bytes, other)
                < high;
        if other >= at {
            lemma_next_slot(at, other, begin, step);
        }
    }
}

/// Marks as `Touched` every `Unknown` block that some word of
/// `bytes[begin..end]` points into.
pub fn scan_touch(
    records: &mut Vec<Record>,
    bytes: &[u8],
    begin: usize,
    end: usize,
    stride: ScanStride,
)
    requires
        ordered(old(records)@),
        begin <= end <= bytes.len(),
    ensures
        final(records)@ == touched(old(records)@, bytes@, begin as int, end as int, stride.step()),
{
    let step: usize = stride.bytes();
    let ghost before = records@;
    let mut at: usize = begin;
    while end - at >= WORD
        invariant
            begin <= at <= end <= bytes.len(),
            step == stride.step(),
            (at - begin) % (step as int) == 0,
            ordered(before),
            records@ == touched_below(before, bytes@, begin as int, end as int, step as int, at as int),
        decreases end - at,
    {
        let word: u64 = read_word(bytes, at);
        if word <= usize::MAX as u64 {
            if let Some(i) = search(records, word as usize) {
                if records[i].status == RecordStatus::Unknown {
                    records[i].status = RecordStatus::Touched;
                }
            }
        }
        proof {
            lemma_next_slot(at as int, at as int, begin as int, step as int);
            // The word at `at` points into one block at most, and that block
            // is the only one whose record can have changed.
            assert forall|j: int| 0 <= j < before.len() implies records@[j] == touched_below(
                before,
                bytes@,
                begin as int,
                end as int,
                step as int,
                at + step,
            )[j] by {
                lemma_refers_step(
                    bytes@,
                    begin as int,
                    end as int,
                    step as int,
                    at as int,
                    before[j].addr as int,
                    before[j].limit(),
                );
            }
        }
        at = at + step;
    }
}

} // verus!
