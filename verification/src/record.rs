//! Allocation records and the order in which the table keeps them.

use vstd::prelude::*;

verus! {

/// Number of arena bytes that one record of the table takes up.
pub const RECORD_SIZE: usize = 24;

/// What the collector currently knows about a block.
#[derive(Clone, Copy, Debug, PartialEq, Eq, Structural)]
pub enum RecordStatus {
    /// In use, not yet reached by the running mark phase.
    Unknown,
    /// Reached, its own bytes not yet scanned.
    Touched,
    /// In use: freshly allocated, or reached and scanned.
    Referred,
    /// Reclaimed; the block waits for a request that fits into it.
    Deallocated,
}

/// The table's entry for one block of the arena.
#[derive(Clone, Copy, Debug, PartialEq, Eq, Structural)]
pub struct Record {
    /// Address of the block's first byte.
    pub addr: usize,
    /// Number of bytes in the block.
    pub size: usize,
    /// Whether the block is in use, and how far a running collection has
    /// come with it.
    pub status: RecordStatus,
}

impl Record {
    /// The address one past the block's last byte.
    pub open spec fn limit(self) -> int {
        self.addr + self.size
    }

    /// The address lies inside the block.
    pub open spec fn holds(self, addr: int) -> bool {
        self.addr <= addr < self.limit()
    }

    /// The block is in use.
    pub open spec fn live(self) -> bool {
        self.status != RecordStatus::Deallocated
    }

    /// The same block with another status.
    pub open spec fn with_status(self, status: RecordStatus) -> Record {
        Record { addr: self.addr, size: self.size, status }
    }

    /// A reclaimed block that is large enough for `size` bytes.
    pub open spec fn reusable(self, size: int) -> bool {
        self.status == RecordStatus::Deallocated && self.size >= size
    }

    /// The mark phase has not finished with this block.
    pub open spec fn pending(self) -> bool {
        self.status == RecordStatus::Unknown || self.status == RecordStatus::Touched
    }
}

/// The blocks are non-empty and follow one another in the order of the table
/// without overlap.
pub open spec fn ordered(records: Seq<Record>) -> bool {
    &&& forall|i: int|
        0 <= i < records.len() ==> (#[trigger] records[i]).size > 0 && records[i].limit() <= usize::MAX
    &&& forall|i: int, j: int|
        0 <= i < j < records.len() ==> (#[trigger] records[i]).limit() <= (#[trigger] records[j]).addr
}

/// Every block lies in `[base, free)`.
pub open spec fn within(records: Seq<Record>, base: int, free: int) -> bool {
    forall|i: int|
        0 <= i < records.len() ==> base <= (#[trigger] records[i]).addr && records[i].limit() <= free
}

/// The blocks fill `[base, free)`: the first block begins at `base`, each
/// block ends where the next begins, and the last ends at `free`.
pub open spec fn tiled(records: Seq<Record>, base: int, free: int) -> bool {
    &&& records.len() == 0 ==> free == base
    &&& records.len() > 0 ==> records[0].addr == base && records.last().limit() == free
    &&& forall|i: int, j: int|
        0 <= i && j == i + 1 && j < records.len() ==> (#[trigger] records[i]).limit() == (
        #[trigger] records[j]).addr
}

/// No record is in a state that only occurs while a collection runs.
pub open spec fn settled(records: Seq<Record>) -> bool {
    forall|i: int| 0 <= i < records.len() ==> !(#[trigger] records[i]).pending()
}

/// Two tables describe the same blocks.
pub open spec fn same_layout(a: Seq<Record>, b: Seq<Record>) -> bool {
    &&& a.len() == b.len()
    &&& forall|i: int|
        0 <= i < a.len() ==> (#[trigger] a[i]).addr == b[i].addr && a[i].size == b[i].size
}

/// Two tables describe the same blocks and agree on which are in use.
pub open spec fn same_blocks(a: Seq<Record>, b: Seq<Record>) -> bool {
    &&& same_layout(a, b)
    &&& forall|i: int| 0 <= i < a.len() ==> (#[trigger] a[i]).live() == b[i].live()
}

/// A table that describes the blocks of an ordered table is ordered, and
/// fills the same space.
pub proof fn lemma_same_layout_ordered(a: Seq<Record>, b: Seq<Record>)
    requires
        same_layout(a, b),
        ordered(a),
    ensures
        ordered(b),
        forall|base: int, free: int| within(a, base, free) ==> #[trigger] within(b, base, free),
        forall|base: int, free: int| tiled(a, base, free) ==> #[trigger] tiled(b, base, free),
{
    assert forall|i: int, j: int| 0 <= i < j < b.len() implies (#[trigger] b[i]).limit() <= (
    #[trigger] b[j]).addr by {
        assert(a[i].limit() <= a[j].addr);
    }
    assert forall|i: int| 0 <= i < b.len() implies (#[trigger] b[i]).size > 0 && b[i].limit()
        <= usize::MAX by {
        assert(a[i].size > 0);
    }
    assert forall|base: int, free: int| tiled(a, base, free) implies #[trigger] tiled(
        b,
        base,
        free,
    ) by {
        assert forall|i: int, j: int| 0 <= i && j == i + 1 && j < b.len() implies (
        #[trigger] b[i]).limit() == (#[trigger] b[j]).addr by {
            assert(a[i].limit() == a[j].addr);
        }
    }
}

/// In a tiled table every address from the address of block `from` up to
/// `free` lies in a block.
pub proof fn lemma_tiled_covers(records: Seq<Record>, base: int, free: int, addr: int, from: int)
    requires
        tiled(records, base, free),
        0 <= from < records.len(),
        records[from].addr <= addr < free,
    ensures
        exists|i: int| from <= i < records.len() && (#[trigger] records[i]).holds(addr),
    decreases records.len() - from,
{
    if addr >= records[from].limit() {
        lemma_tiled_covers(records, base, free, addr, from + 1);
    }
}

/// The first record at or after `from` whose block can be reused for `size`
/// bytes.
pub open spec fn first_fit_from(records: Seq<Record>, size: int, from: int) -> Option<int>
    decreases records.len() - from,
{
    if from < 0 || from >= records.len() {
        None
    } else if records[from].reusable(size) {
        Some(from)
    } else {
        first_fit_from(records, size, from + 1)
    }
}

/// The first record of the table whose block can be reused for `size` bytes.
pub open spec fn first_fit(records: Seq<Record>, size: int) -> Option<int> {
    first_fit_from(records, size, 0)
}

/// What `first_fit_from` finds, in other words.
pub proof fn lemma_first_fit_from(records: Seq<Record>, size: int, from: int)
    requires
        0 <= from,
    ensures
        match first_fit_from(records, size, from) {
            Some(k) => from <= k < records.len() && records[k].reusable(size) && forall|j: int|
                from <= j < k ==> !(#[trigger] records[j]).reusable(size),
            None => forall|j: int| from <= j < records.len() ==> !(#[trigger] records[j]).reusable(size),
        },
    decreases records.len() - from,
{
    if from < records.len() && !records[from].reusable(size) {
        lemma_first_fit_from(records, size, from + 1);
    }
}

/// `first_fit` finds a reclaimed block that is large enough, and none before
/// it is; or there is none in the table.
pub proof fn lemma_first_fit(records: Seq<Record>, size: int)
    ensures
        match first_fit(records, size) {
            Some(k) => 0 <= k < records.len() && records[k].reusable(size) && forall|j: int|
                0 <= j < k ==> !(#[trigger] records[j]).reusable(size),
            None => forall|j: int| 0 <= j < records.len() ==> !(#[trigger] records[j]).reusable(size),
        },
{
    lemma_first_fit_from(records, size, 0);
}

/// The index of the record whose block holds `addr`.
pub open spec fn resolve(records: Seq<Record>, addr: int) -> Option<int> {
    if exists|i: int| 0 <= i < records.len() && (#[trigger] records[i]).holds(addr) {
        Some(choose|i: int| 0 <= i < records.len() && (#[trigger] records[i]).holds(addr))
    } else {
        None
    }
}

/// In an ordered table at most one block holds a given address.
pub proof fn lemma_resolve_unique(records: Seq<Record>, addr: int, i: int)
    requires
        ordered(records),
        0 <= i < records.len(),
        records[i].holds(addr),
    ensures
        resolve(records, addr) == Some(i),
        forall|j: int| 0 <= j < records.len() && j != i ==> !(#[trigger] records[j]).holds(addr),
{
}

/// Finds the record whose block holds `addr` by bisecting the table, which is
/// ordered by address.
pub fn search(records: &Vec<Record>, addr: usize) -> (found: Option<usize>)
    requires
        ordered(records@),
    ensures
        match found {
            Some(i) => i < records.len() && records[i as int].holds(addr as int),
            None => forall|i: int| 0 <= i < records.len() ==> !(#[trigger] records[i]).holds(addr as int),
        },
        resolve(records@, addr as int) == match found {
            Some(i) => Some(i as int),
            None => None,
        },
{
    let mut low: usize = 0;
    let mut high: usize = records.len();
    while low < high
        invariant
            low <= high <= records.len(),
            ordered(records@),
            forall|i: int| 0 <= i < low ==> (#[trigger] records[i]).limit() <= addr,
            forall|i: int| high <= i < records.len() ==> addr < (#[trigger] records[i]).addr,
        decreases high - low,
    {
        let mid: usize = low + (high - low) / 2;
        let record = &records[mid];
        if addr < record.addr {
            high = mid;
        } else if addr - record.addr < record.size {
            proof {
                lemma_resolve_unique(records@, addr as int, mid as int);
            }
            return Some(mid);
        } else {
            low = mid + 1;
        }
    }
    None
}

} // verus!
