//! What holds of the table while the mark phase runs, and why the phase ends
//! with exactly the reachable blocks marked.

use crate::model::GcView;
use crate::record::{same_blocks, Record, RecordStatus};
use crate::scan::touched;
use vstd::prelude::*;

verus! {

/// The number of records that the mark phase has not finished with.
pub open spec fn pending_count(records: Seq<Record>) -> nat
    decreases records.len(),
{
    if records.len() == 0 {
        0
    } else {
        pending_count(records.drop_last()) + if records.last().pending() {
            1nat
        } else {
            0nat
        }
    }
}

/// A table in which no more records are pending than in another has no
/// larger count.
pub proof fn lemma_pending_le(before: Seq<Record>, after: Seq<Record>)
    requires
        before.len() == after.len(),
        forall|i: int| 0 <= i < after.len() && (#[trigger] after[i]).pending() ==> before[i].pending(),
    ensures
        pending_count(after) <= pending_count(before),
    decreases before.len(),
{
    if before.len() > 0 {
        lemma_pending_le(before.drop_last(), after.drop_last());
    }
}

/// The count drops when a record stops being pending and none starts.
pub proof fn lemma_pending_drop(before: Seq<Record>, after: Seq<Record>, k: int)
    requires
        before.len() == after.len(),
        forall|i: int| 0 <= i < after.len() && (#[trigger] after[i]).pending() ==> before[i].pending(),
        0 <= k < before.len(),
        before[k].pending(),
        !after[k].pending(),
    ensures
        pending_count(after) < pending_count(before),
    decreases before.len(),
{
    if k == before.len() - 1 {
        lemma_pending_le(before.drop_last(), after.drop_last());
    } else {
        lemma_pending_drop(before.drop_last(), after.drop_last(), k);
    }
}

/// The tri-colour invariant of the mark phase. `start` is the state in which
/// the collection began, `records` the table as it now is.
///
/// Every marked block is reachable; no block that the root range refers to is
/// left `Unknown`; and no block that a `Referred` block refers to is.
pub open spec fn marking(start: GcView, stack: Seq<u8>, records: Seq<Record>) -> bool {
    &&& same_blocks(start.records, records)
    &&& forall|i: int|
        0 <= i < records.len() && ((#[trigger] records[i]).status == RecordStatus::Touched
            || records[i].status == RecordStatus::Referred) ==> start.reachable(stack, i)
    &&& forall|i: int|
        0 <= i < records.len() && records[i].live() && #[trigger] start.rooted(stack, i)
            ==> records[i].status != RecordStatus::Unknown
    &&& forall|from: int, to: int|
        0 <= from < records.len() && 0 <= to < records.len() && records[from].status
            == RecordStatus::Referred && records[to].live() && #[trigger] start.edge(from, to)
            ==> records[to].status != RecordStatus::Unknown
}

/// A block that the root range refers to is reachable.
pub proof fn lemma_reach_root(view: GcView, stack: Seq<u8>, i: int)
    requires
        0 <= i < view.records.len(),
        view.records[i].live(),
        view.rooted(stack, i),
    ensures
        view.reachable(stack, i),
{
    assert(view.reach_within(stack, 0, i));
}

/// A block that a reachable block refers to is reachable.
pub proof fn lemma_reach_step(view: GcView, stack: Seq<u8>, from: int, to: int)
    requires
        view.reachable(stack, from),
        0 <= to < view.records.len(),
        view.records[to].live(),
        view.edge(from, to),
    ensures
        view.reachable(stack, to),
{
    let hops: nat = choose|hops: nat| view.reach_within(stack, hops, from);
    assert(view.reach_within(stack, hops + 1, to));
}

/// Once no block is `Touched`, every block within `hops` references of the
/// root range is `Referred`.
proof fn lemma_reach_marked(start: GcView, stack: Seq<u8>, records: Seq<Record>, hops: nat, i: int)
    requires
        marking(start, stack, records),
        forall|k: int| 0 <= k < records.len() ==> (#[trigger] records[k]).status != RecordStatus::Touched,
        start.reach_within(stack, hops, i),
    ensures
        records[i].status == RecordStatus::Referred,
    decreases hops,
{
    if hops > 0 {
        if start.reach_within(stack, (hops - 1) as nat, i) {
            lemma_reach_marked(start, stack, records, (hops - 1) as nat, i);
        } else {
            let from: int = choose|from: int|
                start.reach_within(stack, (hops - 1) as nat, from) && #[trigger] start.edge(from, i);
            lemma_reach_marked(start, stack, records, (hops - 1) as nat, from);
        }
    }
}

/// When the mark phase has ended, the `Referred` blocks are exactly the
/// reachable ones.
pub proof fn lemma_marking_done(start: GcView, stack: Seq<u8>, records: Seq<Record>)
    requires
        marking(start, stack, records),
        forall|k: int| 0 <= k < records.len() ==> (#[trigger] records[k]).status != RecordStatus::Touched,
    ensures
        forall|i: int|
            0 <= i < records.len() ==> ((#[trigger] records[i]).status == RecordStatus::Referred
                <==> start.reachable(stack, i)),
{
    assert forall|i: int| 0 <= i < records.len() implies ((#[trigger] records[i]).status
        == RecordStatus::Referred <==> start.reachable(stack, i)) by {
        if start.reachable(stack, i) {
            let hops: nat = choose|hops: nat| start.reach_within(stack, hops, i);
            lemma_reach_marked(start, stack, records, hops, i);
        }
    }
}

/// The table at the start of a collection: every block in use is `Unknown`.
pub open spec fn unmarked(start: GcView, records: Seq<Record>) -> bool {
    &&& same_blocks(start.records, records)
    &&& forall|i: int|
        0 <= i < records.len() ==> (#[trigger] records[i]).status == RecordStatus::Unknown
            || records[i].status == RecordStatus::Deallocated
}

/// The scan of the root range establishes the invariant of the mark phase.
pub proof fn lemma_mark_roots(start: GcView, stack: Seq<u8>, records: Seq<Record>)
    requires
        unmarked(start, records),
        start.root_fault(stack.len() as int) is None,
    ensures
        marking(
            start,
            stack,
            touched(
                records,
                stack,
                start.root_begin.unwrap() as int,
                start.root_end.unwrap() as int,
                start.stride.step(),
            ),
        ),
{
    let after = touched(
        records,
        stack,
        start.root_begin.unwrap() as int,
        start.root_end.unwrap() as int,
        start.stride.step(),
    );
    assert forall|i: int|
        0 <= i < after.len() && ((#[trigger] after[i]).status == RecordStatus::Touched
            || after[i].status == RecordStatus::Referred) implies start.reachable(stack, i) by {
        lemma_reach_root(start, stack, i);
    }
}

/// The table after block `k`, which was `Touched`, has become `Referred` and
/// its bytes have been scanned.
pub open spec fn block_marked(start: GcView, records: Seq<Record>, k: int) -> Seq<Record> {
    touched(
        records.update(k, records[k].with_status(RecordStatus::Referred)),
        start.memory,
        start.records[k].addr - start.base,
        start.records[k].limit() - start.base,
        start.stride.step(),
    )
}

/// Marking one block keeps the invariant of the mark phase, and leaves one
/// pending record less.
pub proof fn lemma_mark_block(start: GcView, stack: Seq<u8>, records: Seq<Record>, k: int)
    requires
        marking(start, stack, records),
        0 <= k < records.len(),
        records[k].status == RecordStatus::Touched,
    ensures
        marking(start, stack, block_marked(start, records, k)),
        pending_count(block_marked(start, records, k)) < pending_count(records),
{
    let after = block_marked(start, records, k);
    assert forall|i: int|
        0 <= i < after.len() && ((#[trigger] after[i]).status == RecordStatus::Touched
            || after[i].status == RecordStatus::Referred) implies start.reachable(stack, i) by {
        if records[i].status == RecordStatus::Unknown {
            lemma_reach_step(start, stack, k, i);
        }
    }
    lemma_pending_drop(records, after, k);
}

/// The table after the sweep: what the mark phase left `Unknown` is
/// `Deallocated`.
pub open spec fn reclaimed(records: Seq<Record>) -> Seq<Record> {
    Seq::new(
        records.len(),
        |i: int|
            if records[i].status == RecordStatus::Unknown {
                records[i].with_status(RecordStatus::Deallocated)
            } else {
                records[i]
            },
    )
}

/// Sweeping after the mark phase has ended gives the collected state.
pub proof fn lemma_sweep(start: GcView, stack: Seq<u8>, records: Seq<Record>)
    requires
        marking(start, stack, records),
        forall|k: int| 0 <= k < records.len() ==> (#[trigger] records[k]).status != RecordStatus::Touched,
    ensures
        reclaimed(records) == start.collected(stack).records,
{
    lemma_marking_done(start, stack, records);
}

} // verus!
