//! What the collector guarantees, stated over its model.

use crate::mark::{lemma_reach_root, lemma_reach_step};
use crate::model::{GcError, GcView};
use crate::record::{
    first_fit, lemma_first_fit, lemma_resolve_unique, lemma_tiled_covers, resolve, RecordStatus,
};
use vstd::prelude::*;

verus! {

/// A chain of references: the root range refers to the first block, each
/// block refers to the next, and all of them are in use.
pub open spec fn is_chain(view: GcView, stack: Seq<u8>, chain: Seq<int>) -> bool {
    &&& chain.len() > 0
    &&& forall|k: int|
        0 <= k < chain.len() ==> 0 <= #[trigger] chain[k] < view.records.len()
            && view.records[chain[k]].live()
    &&& view.rooted(stack, chain[0])
    &&& forall|k: int| 0 <= k < chain.len() - 1 ==> view.edge(#[trigger] chain[k], chain[k + 1])
}

/// The block at the end of a chain is reachable.
pub proof fn lemma_chain_reachable(view: GcView, stack: Seq<u8>, chain: Seq<int>)
    requires
        is_chain(view, stack, chain),
    ensures
        view.reachable(stack, chain.last()),
    decreases chain.len(),
{
    if chain.len() == 1 {
        lemma_reach_root(view, stack, chain[0]);
    } else {
        let shorter = chain.drop_last();
        lemma_chain_reachable(view, stack, shorter);
        lemma_reach_step(view, stack, shorter.last(), chain.last());
    }
}

/// To a block within `hops` references of the root range a chain leads.
pub proof fn lemma_reach_has_chain(view: GcView, stack: Seq<u8>, hops: nat, i: int) -> (chain: Seq<int>)
    requires
        view.reach_within(stack, hops, i),
    ensures
        is_chain(view, stack, chain),
        chain.last() == i,
    decreases hops,
{
    if hops == 0 {
        seq![i]
    } else if view.reach_within(stack, (hops - 1) as nat, i) {
        lemma_reach_has_chain(view, stack, (hops - 1) as nat, i)
    } else {
        let from: int = choose|from: int|
            view.reach_within(stack, (hops - 1) as nat, from) && #[trigger] view.edge(from, i);
        let shorter = lemma_reach_has_chain(view, stack, (hops - 1) as nat, from);
        shorter.push(i)
    }
}

/// No false frees: a collection never reclaims the block at the end of a
/// chain of references from the root range, whatever the words that make up
/// the chain were stored for. The block keeps its address and its size.
pub proof fn theorem_chain_end_survives(view: GcView, stack: Seq<u8>, chain: Seq<int>)
    requires
        is_chain(view, stack, chain),
    ensures
        view.collected(stack).records[chain.last()] == view.records[chain.last()].with_status(
            RecordStatus::Referred,
        ),
{
    lemma_chain_reachable(view, stack, chain);
}

/// Every block to which no chain of references leads from the root range is
/// reclaimed by a collection.
pub proof fn theorem_unchained_reclaimed(view: GcView, stack: Seq<u8>, i: int)
    requires
        0 <= i < view.records.len(),
        forall|chain: Seq<int>| #[trigger] is_chain(view, stack, chain) ==> chain.last() != i,
    ensures
        view.collected(stack).records[i] == view.records[i].with_status(RecordStatus::Deallocated),
{
    if view.reachable(stack, i) {
        let hops: nat = choose|hops: nat| view.reach_within(stack, hops, i);
        lemma_reach_has_chain(view, stack, hops, i);
    }
}

/// A collection changes nothing but the status of records: the table keeps
/// its length, each block its address and its size, and the arena its bytes.
pub proof fn theorem_collect_keeps_blocks(view: GcView, stack: Seq<u8>)
    ensures
        view.collected(stack).records.len() == view.records.len(),
        forall|i: int|
            0 <= i < view.records.len() ==> (#[trigger] view.collected(stack).records[i]).addr
                == view.records[i].addr && view.collected(stack).records[i].size
                == view.records[i].size,
        view.collected(stack).memory == view.memory,
        view.collected(stack).free == view.free,
{
}

/// After a collection the same blocks are reachable as before it.
proof fn lemma_collected_reach(view: GcView, stack: Seq<u8>, hops: nat, i: int)
    ensures
        view.collected(stack).reach_within(stack, hops, i) ==> view.reach_within(stack, hops, i),
        view.reach_within(stack, hops, i) ==> view.collected(stack).reach_within(stack, hops, i),
    decreases hops,
{
    let after = view.collected(stack);
    if 0 <= i < view.records.len() {
        if after.reach_within(stack, hops, i) {
            if hops > 0 {
                lemma_collected_reach(view, stack, (hops - 1) as nat, i);
                if !after.reach_within(stack, (hops - 1) as nat, i) {
                    let from: int = choose|from: int|
                        after.reach_within(stack, (hops - 1) as nat, from) && #[trigger] after.edge(
                            from,
                            i,
                        );
                    lemma_collected_reach(view, stack, (hops - 1) as nat, from);
                    assert(view.edge(from, i));
                }
            }
        }
        if view.reach_within(stack, hops, i) {
            if hops > 0 {
                lemma_collected_reach(view, stack, (hops - 1) as nat, i);
                if !view.reach_within(stack, (hops - 1) as nat, i) {
                    let from: int = choose|from: int|
                        view.reach_within(stack, (hops - 1) as nat, from) && #[trigger] view.edge(
                            from,
                            i,
                        );
                    lemma_collected_reach(view, stack, (hops - 1) as nat, from);
                    assert(after.edge(from, i));
                }
            }
        }
    }
}

/// A second collection with the same stack finds nothing more to reclaim.
pub proof fn theorem_collect_idempotent(view: GcView, stack: Seq<u8>)
    ensures
        view.collected(stack).collected(stack) == view.collected(stack),
{
    let once = view.collected(stack);
    let twice = once.collected(stack);
    assert forall|i: int| 0 <= i < view.records.len() implies twice.records[i] == once.records[i] by {
        if once.reachable(stack, i) {
            let hops: nat = choose|hops: nat| once.reach_within(stack, hops, i);
            lemma_collected_reach(view, stack, hops, i);
        }
        if view.reachable(stack, i) {
            let hops: nat = choose|hops: nat| view.reach_within(stack, hops, i);
            lemma_collected_reach(view, stack, hops, i);
        }
    }
    assert(twice.records =~= once.records);
}

/// Where a request is served, and what it leaves behind.
///
/// The address is either the old end of the space that was handed out, with
/// a new record at the end of the table; or that of a block of the table that
/// was reclaimed before the request or is unreachable, and that is no smaller
/// than the request. Such a block is handed out whole: its record keeps
/// address and size.
pub proof fn theorem_allocate_served(view: GcView, size: usize, stack: Seq<u8>)
    requires
        view.wf(),
        size > 0,
        view.allocate(size, stack).1 is Ok,
    ensures
        ({
            let (after, result) = view.allocate(size, stack);
            let addr = result->Ok_0;
            if view.fits(size as int) {
                &&& addr == view.free
                &&& after == view.bumped(size)
            } else {
                exists|k: int|
                    {
                        &&& 0 <= k < view.records.len()
                        &&& (#[trigger] view.records[k]).addr == addr
                        &&& size <= view.records[k].size
                        &&& !(view.records[k].live() && view.reachable(stack, k))
                        &&& after.records[k] == view.records[k].with_status(RecordStatus::Referred)
                        &&& after.records.len() == view.records.len()
                    }
            }
        }),
{
    if !view.fits(size as int) {
        lemma_first_fit(view.records, size as int);
        lemma_first_fit(view.collected(stack).records, size as int);
    }
}

/// A request never hands out a byte of a block that is in use and reachable,
/// and leaves the records of such blocks in use.
pub proof fn theorem_allocate_spares_reachable(view: GcView, size: usize, stack: Seq<u8>, i: int)
    requires
        view.wf(),
        size > 0,
        view.reachable(stack, i),
    ensures
        ({
            let (after, result) = view.allocate(size, stack);
            &&& after.records[i] == view.records[i]
            &&& result matches Ok(addr) ==> forall|at: int|
                addr <= at < addr + size ==> !view.records[i].holds(at)
        }),
{
    if !view.fits(size as int) {
        lemma_first_fit(view.records, size as int);
        lemma_first_fit(view.collected(stack).records, size as int);
    }
}

/// Exhaustion: a request for which there is neither fresh space nor a
/// reclaimed block costs one collection, no more. It fails if and only if
/// that collection reclaims no block that is large enough. When it fails,
/// the state is that of the one collection, and the same request with the
/// same stack fails again and changes nothing.
pub proof fn theorem_exhaustion(view: GcView, size: usize, stack: Seq<u8>)
    requires
        view.wf(),
        size > 0,
        !view.fits(size as int),
        first_fit(view.records, size as int) is None,
        view.root_fault(stack.len() as int) is None,
    ensures
        ({
            let (after, result) = view.allocate(size, stack);
            let swept = view.collected(stack);
            &&& after == swept.reuse(size as int).0
            &&& result is Err <==> first_fit(swept.records, size as int) is None
            &&& result is Err ==> {
                &&& result == Err::<usize, GcError>(GcError::OutOfMemory)
                &&& after == swept
                &&& after.allocate(size, stack) == (after, result)
            }
        }),
{
    theorem_collect_idempotent(view, stack);
}

/// The table never shrinks: after a request it has as many records as
/// before, or one more; after a collection as many as before.
pub proof fn theorem_table_grows(view: GcView, size: usize, stack: Seq<u8>)
    requires
        view.wf(),
        size > 0,
    ensures
        view.collected(stack).records.len() == view.records.len(),
        view.records.len() <= view.allocate(size, stack).0.records.len() <= view.records.len() + 1,
        view.free <= view.allocate(size, stack).0.free,
{
    view.lemma_allocate_wf(size, stack);
}

/// Resolution is exact: an address inside a block resolves to that block,
/// whether the block is in use or not; an address that no block holds, in
/// the arena or outside it, resolves to nothing. The addresses that some
/// block holds are those of the space that was handed out.
pub proof fn theorem_resolve_exact(view: GcView, addr: int)
    requires
        view.structured(),
    ensures
        forall|i: int|
            0 <= i < view.records.len() && (#[trigger] view.records[i]).holds(addr) ==> resolve(
                view.records,
                addr,
            ) == Some(i),
        (forall|i: int| 0 <= i < view.records.len() ==> !(#[trigger] view.records[i]).holds(addr))
            ==> resolve(view.records, addr) is None,
        resolve(view.records, addr) is Some <==> view.base <= addr < view.free,
{
    if view.base <= addr < view.free {
        lemma_tiled_covers(view.records, view.base as int, view.free as int, addr, 0);
    }
}

/// No two blocks share an address.
pub proof fn theorem_blocks_apart(view: GcView, i: int, j: int, addr: int)
    requires
        view.structured(),
        0 <= i < view.records.len(),
        0 <= j < view.records.len(),
        i != j,
    ensures
        !(view.records[i].holds(addr) && view.records[j].holds(addr)),
{
    if view.records[i].holds(addr) {
        lemma_resolve_unique(view.records, addr, i);
    }
}

} // verus!
