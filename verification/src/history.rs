//! A collector's life: what holds after any number of operations.

use crate::model::GcView;
use crate::record::{lemma_first_fit, Record};
use vstd::prelude::*;

verus! {

/// One operation on a collector, with what the caller handed over.
pub enum Operation {
    /// The begin of the root range was set.
    StackBegin { addr: usize },
    /// The end of the root range was set.
    StackEnd { addr: usize },
    /// A collection was asked for.
    Cleanup { stack: Seq<u8> },
    /// A block was asked for.
    Malloc { size: usize, stack: Seq<u8> },
    /// A byte was stored.
    Write { addr: usize, value: u8 },
}

impl Operation {
    /// The operation is one that a caller may ask for: a block has at least
    /// one byte.
    pub open spec fn admissible(self) -> bool {
        self matches Operation::Malloc { size, .. } ==> size > 0
    }
}

/// Block `i` of the first table is block `i` of the second, at the same
/// address and of the same size.
pub open spec fn keeps_blocks(before: Seq<Record>, after: Seq<Record>) -> bool {
    &&& before.len() <= after.len()
    &&& forall|i: int|
        0 <= i < before.len() ==> (#[trigger] after[i]).addr == before[i].addr && after[i].size
            == before[i].size
}

impl GcView {
    /// The state after one operation.
    pub open spec fn after(self, operation: Operation) -> GcView {
        match operation {
            Operation::StackBegin { addr } => GcView { root_begin: Some(addr), ..self },
            Operation::StackEnd { addr } => GcView { root_end: Some(addr), ..self },
            Operation::Cleanup { stack } => if self.root_fault(stack.len() as int) is None {
                self.collected(stack)
            } else {
                self
            },
            Operation::Malloc { size, stack } => self.allocate(size, stack).0,
            Operation::Write { addr, value } => if self.in_use(addr as int) {
                self.stored(addr as int, value)
            } else {
                self
            },
        }
    }

    /// The state after a run of operations, the first of them first.
    pub open spec fn after_all(self, operations: Seq<Operation>) -> GcView
        decreases operations.len(),
    {
        if operations.len() == 0 {
            self
        } else {
            self.after_all(operations.drop_last()).after(operations.last())
        }
    }

    /// What one operation keeps.
    pub proof fn lemma_after(self, operation: Operation)
        requires
            self.wf(),
            operation.admissible(),
        ensures
            self.after(operation).wf(),
            self.after(operation).base == self.base,
            self.after(operation).end == self.end,
            self.after(operation).free >= self.free,
            keeps_blocks(self.records, self.after(operation).records),
    {
        match operation {
            Operation::Cleanup { stack } => {
                self.lemma_collected_wf(stack);
            },
            Operation::Malloc { size, stack } => {
                self.lemma_allocate_wf(size, stack);
                lemma_first_fit(self.records, size as int);
                lemma_first_fit(self.collected(stack).records, size as int);
            },
            _ => {},
        }
    }
}

/// Through the whole life of a collector the arena keeps its bounds, the
/// space that was handed out never shrinks, the table never loses a record,
/// and no block moves or changes its size.
pub proof fn theorem_lifetime(view: GcView, operations: Seq<Operation>)
    requires
        view.wf(),
        forall|k: int| 0 <= k < operations.len() ==> (#[trigger] operations[k]).admissible(),
    ensures
        view.after_all(operations).wf(),
        view.after_all(operations).base == view.base,
        view.after_all(operations).end == view.end,
        view.after_all(operations).free >= view.free,
        view.after_all(operations).records.len() >= view.records.len(),
        keeps_blocks(view.records, view.after_all(operations).records),
    decreases operations.len(),
{
    if operations.len() > 0 {
        theorem_lifetime(view, operations.drop_last());
        view.after_all(operations.drop_last()).lemma_after(operations.last());
    }
}

} // verus!
