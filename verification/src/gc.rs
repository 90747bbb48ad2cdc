//! The collector: an arena of bytes, the table of its blocks, and the
//! registered root range.

use crate::history::Operation;
use crate::mark::{
    lemma_mark_block, lemma_mark_roots, lemma_sweep, marking, pending_count, reclaimed,
};
use crate::model::{GcError, GcView, HEAP_BASE};
use crate::record::{
    first_fit, first_fit_from, lemma_same_layout_ordered, resolve, same_blocks, search, Record,
    RecordStatus, RECORD_SIZE,
};
use crate::scan::{scan_touch, ScanStride};
use crate::theorems::theorem_resolve_exact;
use vstd::prelude::*;

verus! {

/// A conservative mark-and-sweep collector over one arena of fixed capacity.
///
/// Addresses are plain numbers. The arena occupies the addresses from
/// `HEAP_BASE` upward; the caller's stack is a byte slice of its own, which
/// the caller hands over whenever a collection may run, and the root range is
/// a range of offsets into it.
#[derive(Debug)]
pub struct Gc {
    heap: Vec<u8>,
    heap_begin: usize,
    heap_free: usize,
    heap_end: usize,
    stack_begin: Option<usize>,
    stack_end: Option<usize>,
    records: Vec<Record>,
    stride: ScanStride,
}

impl View for Gc {
    type V = GcView;

    closed spec fn view(&self) -> GcView {
        GcView {
            base: self.heap_begin,
            free: self.heap_free,
            end: self.heap_end,
            memory: self.heap@,
            records: self.records@,
            root_begin: self.stack_begin,
            root_end: self.stack_end,
            stride: self.stride,
        }
    }
}

impl Gc {
    /// The state that holds between two operations.
    pub open spec fn wf(&self) -> bool {
        self@.wf()
    }

    /// Makes a collector with an arena of `size` bytes, all zero, whose scans
    /// read words that lie side by side.
    pub fn new(size: usize) -> (gc: Gc)
        requires
            HEAP_BASE + size <= usize::MAX,
        ensures
            gc@ == GcView::fresh(size, ScanStride::Word),
            gc.wf(),
    {
        Gc::with_stride(size, ScanStride::Word)
    }

    /// Makes a collector with an arena of `size` bytes, all zero, whose scans
    /// go by `stride`.
    pub fn with_stride(size: usize, stride: ScanStride) -> (gc: Gc)
        requires
            HEAP_BASE + size <= usize::MAX,
        ensures
            gc@ == GcView::fresh(size, stride),
            gc.wf(),
    {
        let heap = vec![0u8; size];
        assert(heap@ =~= Seq::new(size as nat, |i: int| 0u8));
        Gc {
            heap,
            heap_begin: HEAP_BASE,
            heap_free: HEAP_BASE,
            heap_end: HEAP_BASE + size,
            stack_begin: None,
            stack_end: None,
            records: Vec::new(),
            stride,
        }
    }

    /// The number of records in the table. It never goes down.
    pub fn record_count(&self) -> (count: usize)
        ensures
            count == self@.records.len(),
    {
        self.records.len()
    }

    /// Record `index` of the table, oldest block first.
    pub fn record(&self, index: usize) -> (record: Option<Record>)
        ensures
            record == if index < self@.records.len() {
                Some(self@.records[index as int])
            } else {
                None
            },
    {
        if index < self.records.len() {
            Some(self.records[index])
        } else {
            None
        }
    }

    /// Address of the arena's first byte.
    pub fn heap_begin(&self) -> (addr: usize)
        ensures
            addr == self@.base,
    {
        self.heap_begin
    }

    /// The next address that was never handed out.
    pub fn heap_free(&self) -> (addr: usize)
        ensures
            addr == self@.free,
    {
        self.heap_free
    }

    /// Address one past the arena's last byte.
    pub fn heap_end(&self) -> (addr: usize)
        ensures
            addr == self@.end,
    {
        self.heap_end
    }

    /// The byte at `addr`, if `addr` lies in a block that is in use.
    pub fn read(&self, addr: usize) -> (value: Option<u8>)
        requires
            self.wf(),
        ensures
            value == if self@.in_use(addr as int) {
                Some(self@.memory[addr - self@.base])
            } else {
                None
            },
    {
        match self.find_record(addr) {
            Some(i) => if self.records[i].status != RecordStatus::Deallocated {
                Some(self.heap[addr - self.heap_begin])
            } else {
                None
            },
            None => None,
        }
    }

    /// Stores `value` at `addr`, if `addr` lies in a block that is in use,
    /// and says whether it did.
    pub fn write(&mut self, addr: usize, value: u8) -> (done: bool)
        requires
            old(self).wf(),
        ensures
            final(self).wf(),
            done == old(self)@.in_use(addr as int),
            final(self)@ == if done {
                old(self)@.stored(addr as int, value)
            } else {
                old(self)@
            },
            final(self)@ == old(self)@.after(Operation::Write { addr, value }),
            final(self)@.records.len() >= old(self)@.records.len(),
    {
        match self.find_record(addr) {
            Some(i) => if self.records[i].status != RecordStatus::Deallocated {
                self.heap[addr - self.heap_begin] = value;
                true
            } else {
                false
            },
            None => false,
        }
    }

    /// Sets the offset in the caller's stack at which the root range begins.
    pub fn stack_begin(&mut self, addr: usize) -> (gc: &Self)
        ensures
            final(self)@ == (GcView { root_begin: Some(addr), ..old(self)@ }),
            final(self)@ == old(self)@.after(Operation::StackBegin { addr }),
            final(self)@.records.len() >= old(self)@.records.len(),
            gc@ == final(self)@,
    {
        self.stack_begin = Some(addr);
        self
    }

    /// Sets the offset in the caller's stack at which the root range ends.
    pub fn stack_end(&mut self, addr: usize) -> (gc: &Self)
        ensures
            final(self)@ == (GcView { root_end: Some(addr), ..old(self)@ }),
            final(self)@ == old(self)@.after(Operation::StackEnd { addr }),
            final(self)@.records.len() >= old(self)@.records.len(),
            gc@ == final(self)@,
    {
        self.stack_end = Some(addr);
        self
    }

    /// What is wrong with the registered root range, for this stack.
    fn root_fault(&self, stack: &[u8]) -> (fault: Option<GcError>)
        ensures
            fault == self@.root_fault(stack.len() as int),
    {
        match (self.stack_begin, self.stack_end) {
            (Some(begin), Some(end)) => if begin <= end && end <= stack.len() {
                None
            } else {
                Some(GcError::RootsOutOfBounds)
            },
            _ => Some(GcError::RootsUnset),
        }
    }

    /// Runs a collection: every block that no chain of references from the
    /// root range of `stack` leads to is reclaimed. Without a usable root
    /// range nothing is done.
    pub fn cleanup(&mut self, stack: &[u8]) -> (result: Result<(), GcError>)
        requires
            old(self).wf(),
        ensures
            final(self).wf(),
            match old(self)@.root_fault(stack.len() as int) {
                None => result is Ok && final(self)@ == old(self)@.collected(stack@),
                Some(fault) => result == Err::<(), GcError>(fault) && final(self)@ == old(self)@,
            },
            final(self)@ == old(self)@.after(Operation::Cleanup { stack: stack@ }),
            final(self)@.records.len() == old(self)@.records.len(),
    {
        if let Some(fault) = self.root_fault(stack) {
            return Err(fault);
        }
        self.inner_cleanup(stack);
        proof {
            old(self)@.lemma_collected_wf(stack@);
        }
        Ok(())
    }

    /// Marks from the root range, then sweeps. The root range must lie in
    /// `stack`.
    fn inner_cleanup(&mut self, stack: &[u8])
        requires
            old(self)@.structured(),
            old(self)@.root_fault(stack.len() as int) is None,
        ensures
            final(self)@ == old(self)@.collected(stack@),
    {
        let ghost start = self@;
        let count: usize = self.records.len();

        // Every block in use starts out unmarked.
        let mut index: usize = 0;
        while index < count
            invariant
                index <= count == self.records.len(),
                self@ == (GcView { records: self.records@, ..start }),
                same_blocks(start.records, self.records@),
                forall|i: int|
                    0 <= i < index ==> (#[trigger] self.records[i]).status == RecordStatus::Unknown
                        || self.records[i].status == RecordStatus::Deallocated,
            decreases count - index,
        {
            if self.records[index].status != RecordStatus::Deallocated {
                self.records[index].status = RecordStatus::Unknown;
            }
            index += 1;
        }

        // Mark what the root range refers to, then pass over the table
        // until a pass finds nothing more to mark.
        let root_begin: usize = self.stack_begin.unwrap();
        let root_end: usize = self.stack_end.unwrap();
        proof {
            lemma_same_layout_ordered(start.records, self.records@);
            lemma_mark_roots(start, stack@, self.records@);
        }
        scan_touch(&mut self.records, stack, root_begin, root_end, self.stride);

        let mut has_touched_record = true;
        while has_touched_record
            invariant
                count == self.records.len(),
                start.structured(),
                self@ == (GcView { records: self.records@, ..start }),
                marking(start, stack@, self.records@),
                !has_touched_record ==> forall|i: int|
                    0 <= i < count ==> (#[trigger] self.records[i]).status != RecordStatus::Touched,
            decreases
                    pending_count(self.records@) + if has_touched_record {
                        1nat
                    } else {
                        0nat
                    },
        {
            has_touched_record = false;
            let ghost pass_start = self.records@;
            let mut index: usize = 0;
            while index < count
                invariant
                    index <= count == self.records.len(),
                    start.structured(),
                    self@ == (GcView { records: self.records@, ..start }),
                    marking(start, stack@, self.records@),
                    pending_count(self.records@) <= pending_count(pass_start),
                    has_touched_record ==> pending_count(self.records@) < pending_count(pass_start),
                    !has_touched_record ==> forall|i: int|
                        0 <= i < index ==> (#[trigger] self.records[i]).status
                            != RecordStatus::Touched,
                    !has_touched_record ==> self.records@ == pass_start,
                decreases count - index,
            {
                if self.records[index].status == RecordStatus::Touched {
                    proof {
                        lemma_mark_block(start, stack@, self.records@, index as int);
                    }
                    self.records[index].status = RecordStatus::Referred;
                    has_touched_record = true;
                    proof {
                        lemma_same_layout_ordered(start.records, self.records@);
                    }
                    let begin: usize = self.records[index].addr - self.heap_begin;
                    let end: usize = begin + self.records[index].size;
                    scan_touch(&mut self.records, self.heap.as_slice(), begin, end, self.stride);
                }
                index += 1;
            }
        }

        // Reclaim what was never marked.
        let ghost marked = self.records@;
        proof {
            lemma_sweep(start, stack@, marked);
        }
        let mut index: usize = 0;
        while index < count
            invariant
                index <= count == self.records.len(),
                marked.len() == count,
                self@ == (GcView { records: self.records@, ..start }),
                forall|i: int| 0 <= i < index ==> (#[trigger] self.records[i]) == reclaimed(marked)[i],
                forall|i: int| index <= i < count ==> (#[trigger] self.records[i]) == marked[i],
            decreases count - index,
        {
            if self.records[index].status == RecordStatus::Unknown {
                self.free_record(index);
            }
            index += 1;
        }
        assert(self.records@ =~= reclaimed(marked));
    }

    /// Hands out a block of `size` bytes and returns its address.
    ///
    /// The block comes from the space that was never handed out, if that has
    /// room for it and for its record; else it is the first reclaimed block
    /// that is large enough, whole. If there is none, a collection runs, for
    /// which `stack` is scanned, and a reclaimed block is looked for once
    /// more.
    pub fn malloc(&mut self, size: usize, stack: &[u8]) -> (result: Result<usize, GcError>)
        requires
            old(self).wf(),
            size > 0,
        ensures
            final(self).wf(),
            (final(self)@, result) == old(self)@.allocate(size, stack@),
            final(self)@ == old(self)@.after(Operation::Malloc { size, stack: stack@ }),
            final(self)@.records.len() >= old(self)@.records.len(),
    {
        proof {
            old(self)@.lemma_allocate_wf(size, stack@);
        }
        // Fresh space first.
        let room: usize = self.heap_end - self.heap_free - RECORD_SIZE * self.records.len();
        if size <= room && RECORD_SIZE <= room - size {
            let result: usize = self.heap_free;
            self.heap_free = self.heap_free + size;
            self.records.push(Record { addr: result, size, status: RecordStatus::Referred });
            return Ok(result);
        }
        // Then a block that was reclaimed earlier.
        if let Some(addr) = self.malloc_from_deallocated(size) {
            return Ok(addr);
        }
        // Then one collection, and one more look.
        if let Err(fault) = self.cleanup(stack) {
            return Err(fault);
        }
        match self.malloc_from_deallocated(size) {
            Some(addr) => Ok(addr),
            None => Err(GcError::OutOfMemory),
        }
    }

    /// Hands out the first reclaimed block that is large enough for `size`
    /// bytes.
    fn malloc_from_deallocated(&mut self, size: usize) -> (result: Option<usize>)
        ensures
            (final(self)@, result) == old(self)@.reuse(size as int),
    {
        let mut index: usize = 0;
        while index < self.records.len()
            invariant
                *self == *old(self),
                index <= self.records.len(),
                first_fit(self.records@, size as int) == first_fit_from(
                    self.records@,
                    size as int,
                    index as int,
                ),
            decreases self.records.len() - index,
        {
            if self.records[index].status == RecordStatus::Deallocated && self.records[index].size
                >= size {
                self.records[index].status = RecordStatus::Referred;
                return Some(self.records[index].addr);
            }
            index += 1;
        }
        None
    }

    /// Finds the record whose block holds `addr`, and returns its index in
    /// the table. There is one for every address of the space that was
    /// handed out, and for no other.
    pub fn find_record(&self, addr: usize) -> (found: Option<usize>)
        requires
            self@.structured(),
        ensures
            match found {
                Some(i) => i < self@.records.len() && self@.records[i as int].holds(addr as int),
                None => forall|i: int|
                    0 <= i < self@.records.len() ==> !(#[trigger] self@.records[i]).holds(addr as int),
            },
            resolve(self@.records, addr as int) == match found {
                Some(i) => Some(i as int),
                None => None,
            },
            forall|i: int|
                0 <= i < self@.records.len() && (#[trigger] self@.records[i]).holds(addr as int)
                    ==> found == Some(i as usize),
            found is Some <==> self@.base <= addr < self@.free,
    {
        proof {
            theorem_resolve_exact(self@, addr as int);
        }
        // Nothing outside the arena is in a block.
        if !(self.heap_begin <= addr && addr <= self.heap_end) {
            return None;
        }
        search(&self.records, addr)
    }

    /// Gives up the block of record `index`.
    fn free_record(&mut self, index: usize)
        requires
            index < old(self)@.records.len(),
        ensures
            final(self)@ == (GcView {
                records: old(self)@.records.update(
                    index as int,
                    old(self)@.records[index as int].with_status(RecordStatus::Deallocated),
                ),
                ..old(self)@
            }),
    {
        self.records[index].status = RecordStatus::Deallocated;
    }
}

} // verus!
