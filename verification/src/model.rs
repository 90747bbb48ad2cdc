//! The collector as a mathematical value, and what its operations do to it.

use crate::record::{
    first_fit, lemma_first_fit, lemma_same_layout_ordered, ordered, resolve, settled, tiled,
    within, Record, RecordStatus, RECORD_SIZE,
};
use crate::scan::{refers, ScanStride};
use vstd::prelude::*;

verus! {

/// Address of the arena's first byte. It is a multiple of the word size, and
/// it is large enough that small numbers in scanned memory are not taken for
/// addresses of blocks.
pub const HEAP_BASE: usize = 4096;

/// Why a collection or an allocation did not take place.
#[derive(Clone, Copy, Debug, PartialEq, Eq, Structural)]
pub enum GcError {
    /// A collection was due, and a bound of the root range has never been set.
    RootsUnset,
    /// A collection was due, and the root range does not lie in the stack that
    /// was handed over: it ends before it begins, or beyond the stack's end.
    RootsOutOfBounds,
    /// No block is free for a request of this size, even after a collection.
    OutOfMemory,
}

/// The state of a collector.
pub struct GcView {
    /// Address of the arena's first byte.
    pub base: usize,
    /// The next address that was never handed out.
    pub free: usize,
    /// Address one past the arena's last byte.
    pub end: usize,
    /// The arena's bytes: the byte at address `a` is `memory[a - base]`.
    pub memory: Seq<u8>,
    /// The record table, oldest block first.
    pub records: Seq<Record>,
    /// Offset in the caller's stack at which the root range begins.
    pub root_begin: Option<usize>,
    /// Offset in the caller's stack at which the root range ends.
    pub root_end: Option<usize>,
    /// The distance between the words that a scan reads.
    pub stride: ScanStride,
}

impl GcView {
    /// The arena and the table fit together: the blocks lie in order and
    /// fill the space between `base` and `free`, and the table's bytes,
    /// counted from `end` downward, stay clear of them.
    pub open spec fn structured(self) -> bool {
        &&& self.base == HEAP_BASE
        &&& self.base <= self.free <= self.end
        &&& self.memory.len() == self.end - self.base
        &&& self.free + RECORD_SIZE * self.records.len() <= self.end
        &&& ordered(self.records)
        &&& within(self.records, self.base as int, self.free as int)
        &&& tiled(self.records, self.base as int, self.free as int)
    }

    /// The state between two operations: structured, and every block either
    /// `Referred` or `Deallocated`.
    pub open spec fn wf(self) -> bool {
        self.structured() && settled(self.records)
    }

    /// What is wrong with the registered root range, for a stack of
    /// `stack_len` bytes.
    pub open spec fn root_fault(self, stack_len: int) -> Option<GcError> {
        match (self.root_begin, self.root_end) {
            (Some(begin), Some(end)) => if begin <= end <= stack_len {
                None
            } else {
                Some(GcError::RootsOutOfBounds)
            },
            _ => Some(GcError::RootsUnset),
        }
    }

    /// A word of the root range is an address inside block `i`.
    pub open spec fn rooted(self, stack: Seq<u8>, i: int) -> bool {
        refers(
            stack,
            self.root_begin.unwrap() as int,
            self.root_end.unwrap() as int,
            self.stride.step(),
            self.records[i].addr as int,
            self.records[i].limit(),
        )
    }

    /// A word of block `from` is an address inside block `to`.
    pub open spec fn edge(self, from: int, to: int) -> bool {
        refers(
            self.memory,
            self.records[from].addr - self.base,
            self.records[from].limit() - self.base,
            self.stride.step(),
            self.records[to].addr as int,
            self.records[to].limit(),
        )
    }

    /// Block `i` is in use, and a chain of at most `hops` references between
    /// blocks in use leads from the root range to it.
    pub open spec fn reach_within(self, stack: Seq<u8>, hops: nat, i: int) -> bool
        decreases hops,
    {
        &&& 0 <= i < self.records.len()
        &&& self.records[i].live()
        &&& if hops == 0 {
            self.rooted(stack, i)
        } else {
            ||| self.reach_within(stack, (hops - 1) as nat, i)
            ||| exists|from: int|
                self.reach_within(stack, (hops - 1) as nat, from) && #[trigger] self.edge(from, i)
        }
    }

    /// Block `i` is in use, and a chain of references between blocks in use
    /// leads from the root range to it.
    pub open spec fn reachable(self, stack: Seq<u8>, i: int) -> bool {
        exists|hops: nat| self.reach_within(stack, hops, i)
    }

    /// Record `i` after a collection: `Referred` if the block is reachable,
    /// `Deallocated` if not.
    pub open spec fn swept(self, stack: Seq<u8>, i: int) -> Record {
        if self.reachable(stack, i) {
            self.records[i].with_status(RecordStatus::Referred)
        } else {
            self.records[i].with_status(RecordStatus::Deallocated)
        }
    }

    /// The state after a collection with the given stack.
    pub open spec fn collected(self, stack: Seq<u8>) -> GcView {
        GcView { records: Seq::new(self.records.len(), |i: int| self.swept(stack, i)), ..self }
    }

    /// A collector that has just been made, with an arena of `size` zero
    /// bytes.
    pub open spec fn fresh(size: usize, stride: ScanStride) -> GcView {
        GcView {
            base: HEAP_BASE,
            free: HEAP_BASE,
            end: (HEAP_BASE + size) as usize,
            memory: Seq::new(size as nat, |i: int| 0u8),
            records: Seq::empty(),
            root_begin: None,
            root_end: None,
            stride,
        }
    }

    /// `addr` lies in a block that is in use.
    pub open spec fn in_use(self, addr: int) -> bool {
        match resolve(self.records, addr) {
            Some(i) => self.records[i].live(),
            None => false,
        }
    }

    /// The state after `value` was stored at `addr`.
    pub open spec fn stored(self, addr: int, value: u8) -> GcView {
        GcView { memory: self.memory.update(addr - self.base, value), ..self }
    }

    /// The space that was never handed out has room for `size` bytes and for
    /// one more record.
    pub open spec fn fits(self, size: int) -> bool {
        size + RECORD_SIZE <= self.end - self.free - RECORD_SIZE * self.records.len()
    }

    /// The state after `size` bytes were taken from the space that was never
    /// handed out.
    pub open spec fn bumped(self, size: usize) -> GcView {
        GcView {
            free: (self.free + size) as usize,
            records: self.records.push(
                Record { addr: self.free, size, status: RecordStatus::Referred },
            ),
            ..self
        }
    }

    /// The state after the block of record `k` was handed out again, with the
    /// address and the size that it has.
    pub open spec fn reused(self, k: int) -> GcView {
        GcView {
            records: self.records.update(k, self.records[k].with_status(RecordStatus::Referred)),
            ..self
        }
    }

    /// An attempt to hand out a reclaimed block: the state after it, and the
    /// block's address. The first record that fits is taken.
    pub open spec fn reuse(self, size: int) -> (GcView, Option<usize>) {
        match first_fit(self.records, size) {
            Some(k) => (self.reused(k), Some(self.records[k].addr)),
            None => (self, None),
        }
    }

    /// A request for `size` bytes: the state after it, and its outcome.
    ///
    /// Fresh space is taken first, then a reclaimed block. If there is
    /// neither, the collector runs once, and a reclaimed block is looked for
    /// once more.
    pub open spec fn allocate(self, size: usize, stack: Seq<u8>) -> (GcView, Result<usize, GcError>) {
        if self.fits(size as int) {
            (self.bumped(size), Ok(self.free))
        } else if let Some(addr) = self.reuse(size as int).1 {
            (self.reuse(size as int).0, Ok(addr))
        } else if let Some(fault) = self.root_fault(stack.len() as int) {
            (self, Err(fault))
        } else {
            match self.collected(stack).reuse(size as int) {
                (after, Some(addr)) => (after, Ok(addr)),
                (after, None) => (after, Err(GcError::OutOfMemory)),
            }
        }
    }

    /// A collection leaves a state in which the next operation can start.
    pub proof fn lemma_collected_wf(self, stack: Seq<u8>)
        requires
            self.structured(),
        ensures
            self.collected(stack).wf(),
    {
        lemma_same_layout_ordered(self.records, self.collected(stack).records);
    }

    /// Handing out a reclaimed block leaves a state in which the next
    /// operation can start.
    pub proof fn lemma_reuse_wf(self, size: int)
        requires
            self.wf(),
        ensures
            self.reuse(size).0.wf(),
            self.reuse(size).0.records.len() == self.records.len(),
    {
        if let Some(k) = first_fit(self.records, size) {
            lemma_first_fit(self.records, size);
            lemma_same_layout_ordered(self.records, self.reused(k).records);
        }
    }

    /// A request leaves a state in which the next operation can start. The
    /// table has grown by one record or not at all, and the space that was
    /// handed out has not shrunk.
    pub proof fn lemma_allocate_wf(self, size: usize, stack: Seq<u8>)
        requires
            self.wf(),
            size > 0,
        ensures
            self.allocate(size, stack).0.wf(),
            self.records.len() <= self.allocate(size, stack).0.records.len() <= self.records.len() + 1,
            self.free <= self.allocate(size, stack).0.free,
    {
        if self.fits(size as int) {
            // The new block begins where the last one ends.
        } else if self.reuse(size as int).1 is Some {
            self.lemma_reuse_wf(size as int);
        } else if self.root_fault(stack.len() as int) is None {
            self.lemma_collected_wf(stack);
            self.collected(stack).lemma_reuse_wf(size as int);
        }
    }
}

} // verus!
