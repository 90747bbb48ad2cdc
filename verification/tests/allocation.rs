use scgc::{Gc, GcError, Record, RecordStatus, HEAP_BASE, RECORD_SIZE};

fn record_at(gc: &Gc, index: usize) -> Record {
    gc.record(index).unwrap()
}

#[test]
fn new_collector_is_empty() {
    let gc = Gc::new(20480);
    assert_eq!(gc.record_count(), 0);
    assert_eq!(gc.heap_begin(), HEAP_BASE);
    assert_eq!(gc.heap_free(), HEAP_BASE);
    assert_eq!(gc.heap_end(), HEAP_BASE + 20480);
    assert_eq!(gc.record(0), None);
}

#[test]
fn arena_starts_at_an_aligned_address() {
    assert_eq!(HEAP_BASE, 4096);
    assert_eq!(HEAP_BASE % 8, 0);
    assert_eq!(RECORD_SIZE, 24);
}

#[test]
fn empty_arena_serves_nothing() {
    let mut gc = Gc::new(0);
    gc.stack_begin(0);
    gc.stack_end(0);
    assert_eq!(gc.malloc(1, &[]), Err(GcError::OutOfMemory));
    assert_eq!(gc.record_count(), 0);
}

#[test]
fn fresh_space_is_handed_out_in_order() {
    let mut gc = Gc::new(100);
    assert_eq!(gc.malloc(10, &[]), Ok(4096));
    assert_eq!(gc.heap_free(), 4106);
    assert_eq!(gc.record_count(), 1);
    assert_eq!(record_at(&gc, 0), Record { addr: 4096, size: 10, status: RecordStatus::Referred });

    assert_eq!(gc.malloc(20, &[]), Ok(4106));
    assert_eq!(gc.heap_free(), 4126);
    assert_eq!(gc.record_count(), 2);
    assert_eq!(record_at(&gc, 1), Record { addr: 4106, size: 20, status: RecordStatus::Referred });
    assert_eq!(gc.heap_end(), 4196);
}

#[test]
fn fresh_space_needs_room_for_the_record_too() {
    // 10 bytes and one record of 24 bytes fill 34 bytes exactly.
    let mut exact = Gc::new(34);
    assert_eq!(exact.malloc(10, &[]), Ok(4096));
    assert_eq!(exact.record_count(), 1);

    let mut short = Gc::new(33);
    short.stack_begin(0);
    short.stack_end(0);
    assert_eq!(short.malloc(10, &[]), Err(GcError::OutOfMemory));
    assert_eq!(short.record_count(), 0);
    assert_eq!(short.heap_free(), 4096);
}

#[test]
fn fresh_space_counts_the_records_already_there() {
    let mut gc = Gc::new(100);
    gc.stack_begin(0);
    gc.stack_end(0);
    assert_eq!(gc.malloc(10, &[]), Ok(4096));
    assert_eq!(gc.malloc(20, &[]), Ok(4106));
    // 100 - 30 bytes of blocks - 48 bytes of records leave 22: too few for
    // 4 bytes and a third record, although 70 bytes hold no block.
    assert_eq!(gc.malloc(4, &[]), Ok(4096));
    assert_eq!(gc.record_count(), 2);
    assert_eq!(gc.heap_free(), 4126);
}

#[test]
fn allocation_without_roots_works_while_space_lasts() {
    let mut gc = Gc::new(100);
    assert_eq!(gc.malloc(10, &[]), Ok(4096));
    assert_eq!(gc.malloc(20, &[]), Ok(4106));
    // Now a collection is due, and no root range was ever registered.
    assert_eq!(gc.malloc(4, &[]), Err(GcError::RootsUnset));
    assert_eq!(gc.record_count(), 2);
    assert_eq!(record_at(&gc, 0).status, RecordStatus::Referred);
    assert_eq!(record_at(&gc, 1).status, RecordStatus::Referred);
    assert_eq!(gc.heap_free(), 4126);
}

#[test]
fn allocation_reports_a_root_range_outside_the_stack() {
    let mut gc = Gc::new(34);
    assert_eq!(gc.malloc(10, &[]), Ok(4096));
    gc.stack_begin(0);
    gc.stack_end(9);
    let stack = [0u8; 8];
    assert_eq!(gc.malloc(10, &stack), Err(GcError::RootsOutOfBounds));
    assert_eq!(record_at(&gc, 0).status, RecordStatus::Referred);
    gc.stack_end(8);
    assert_eq!(gc.malloc(10, &stack), Ok(4096));
}

#[test]
fn reuse_takes_the_first_block_that_is_large_enough() {
    let mut gc = Gc::new(132);
    gc.stack_begin(0);
    gc.stack_end(0);
    assert_eq!(gc.malloc(10, &[]), Ok(4096));
    assert_eq!(gc.malloc(30, &[]), Ok(4106));
    assert_eq!(gc.malloc(20, &[]), Ok(4136));
    assert_eq!(gc.record_count(), 3);

    // No fresh space is left; the collection reclaims all three blocks.
    assert_eq!(gc.malloc(15, &[]), Ok(4106));
    assert_eq!(record_at(&gc, 0).status, RecordStatus::Deallocated);
    assert_eq!(record_at(&gc, 1), Record { addr: 4106, size: 30, status: RecordStatus::Referred });
    assert_eq!(record_at(&gc, 2).status, RecordStatus::Deallocated);

    // The next request finds a reclaimed block without a collection.
    assert_eq!(gc.malloc(15, &[]), Ok(4136));
    assert_eq!(record_at(&gc, 1).status, RecordStatus::Referred);
    assert_eq!(record_at(&gc, 2), Record { addr: 4136, size: 20, status: RecordStatus::Referred });

    // The third one does not: the first block is too small.
    assert_eq!(gc.malloc(15, &[]), Ok(4106));
    assert_eq!(record_at(&gc, 0).status, RecordStatus::Deallocated);
    assert_eq!(record_at(&gc, 2).status, RecordStatus::Deallocated);
    assert_eq!(gc.record_count(), 3);
}

#[test]
fn reused_block_keeps_its_size() {
    let mut gc = Gc::new(54);
    gc.stack_begin(0);
    gc.stack_end(0);
    assert_eq!(gc.malloc(30, &[]), Ok(4096));
    assert_eq!(gc.malloc(1, &[]), Ok(4096));
    assert_eq!(record_at(&gc, 0), Record { addr: 4096, size: 30, status: RecordStatus::Referred });
    // The other 29 bytes are not handed out while the block is in use.
    assert_eq!(gc.malloc(1, &[]), Ok(4096));
    assert_eq!(gc.record_count(), 1);
    assert_eq!(gc.heap_free(), 4126);
}

#[test]
fn reclaimed_block_serves_no_larger_request() {
    let mut gc = Gc::new(44);
    gc.stack_begin(0);
    gc.stack_end(0);
    assert_eq!(gc.malloc(20, &[]), Ok(4096));
    assert_eq!(gc.cleanup(&[]), Ok(()));
    assert_eq!(record_at(&gc, 0).status, RecordStatus::Deallocated);
    assert_eq!(gc.malloc(21, &[]), Err(GcError::OutOfMemory));
    assert_eq!(record_at(&gc, 0).status, RecordStatus::Deallocated);
    assert_eq!(gc.malloc(20, &[]), Ok(4096));
    assert_eq!(record_at(&gc, 0).status, RecordStatus::Referred);
}

#[test]
fn failed_request_has_run_one_collection() {
    let mut gc = Gc::new(68);
    let mut stack = [0u8; 8];
    gc.stack_begin(0);
    gc.stack_end(8);
    let kept = gc.malloc(10, &stack).unwrap();
    let dropped = gc.malloc(10, &stack).unwrap();
    assert_eq!((kept, dropped), (4096, 4106));
    stack.copy_from_slice(&(kept as u64).to_le_bytes());

    assert_eq!(gc.malloc(11, &stack), Err(GcError::OutOfMemory));
    // The collection took place: the block without a reference is reclaimed,
    // the other one is still in use.
    assert_eq!(record_at(&gc, 0).status, RecordStatus::Referred);
    assert_eq!(record_at(&gc, 1).status, RecordStatus::Deallocated);
    assert_eq!(gc.record_count(), 2);

    // The same request fails again and changes nothing.
    assert_eq!(gc.malloc(11, &stack), Err(GcError::OutOfMemory));
    assert_eq!(record_at(&gc, 0).status, RecordStatus::Referred);
    assert_eq!(record_at(&gc, 1).status, RecordStatus::Deallocated);
    assert_eq!(gc.heap_free(), 4116);
}

#[test]
fn full_arena_with_all_blocks_in_use_fails() {
    let mut gc = Gc::new(68);
    let mut stack = [0u8; 16];
    gc.stack_begin(0);
    gc.stack_end(16);
    let first = gc.malloc(10, &stack).unwrap();
    let second = gc.malloc(10, &stack).unwrap();
    stack[..8].copy_from_slice(&(first as u64).to_le_bytes());
    stack[8..].copy_from_slice(&(second as u64).to_le_bytes());
    for _ in 0..3 {
        assert_eq!(gc.malloc(1, &stack), Err(GcError::OutOfMemory));
        assert_eq!(record_at(&gc, 0).status, RecordStatus::Referred);
        assert_eq!(record_at(&gc, 1).status, RecordStatus::Referred);
    }
}

#[test]
fn records_alone_can_exhaust_the_arena() {
    let mut gc = Gc::new(100);
    gc.stack_begin(0);
    gc.stack_end(0);
    for k in 0..4 {
        assert_eq!(gc.malloc(1, &[]), Ok(HEAP_BASE + k));
    }
    // Four bytes are handed out; the four records take up the other 96.
    assert_eq!(gc.heap_free() - gc.heap_begin(), 4);
    assert_eq!(gc.record_count() * RECORD_SIZE, 96);
    // Requests of one byte go round for ever on the four blocks ...
    for _ in 0..20 {
        let addr = gc.malloc(1, &[]).unwrap();
        assert!(HEAP_BASE <= addr && addr < HEAP_BASE + 4);
        assert_eq!(gc.record_count(), 4);
    }
    // ... and two bytes cannot be had, though nothing is in use.
    assert_eq!(gc.malloc(2, &[]), Err(GcError::OutOfMemory));
    for index in 0..4 {
        assert_eq!(record_at(&gc, index).status, RecordStatus::Deallocated);
    }
}

#[test]
fn record_count_never_decreases() {
    let mut gc = Gc::new(400);
    let mut stack = [0u8; 8];
    gc.stack_begin(0);
    gc.stack_end(8);
    let mut last = gc.record_count();
    for round in 0..200usize {
        let size = 1 + round % 7;
        if let Ok(addr) = gc.malloc(size, &stack) {
            if round % 3 == 0 {
                stack.copy_from_slice(&(addr as u64).to_le_bytes());
            }
        }
        if round % 11 == 0 {
            assert_eq!(gc.cleanup(&stack), Ok(()));
        }
        assert!(gc.record_count() >= last);
        last = gc.record_count();
    }
    assert!(last > 0);
}

#[test]
fn free_cursor_never_decreases() {
    let mut gc = Gc::new(300);
    gc.stack_begin(0);
    gc.stack_end(0);
    let mut last = gc.heap_free();
    for round in 0..60usize {
        let _ = gc.malloc(1 + round % 5, &[]);
        assert!(gc.heap_free() >= last);
        assert!(gc.heap_free() + gc.record_count() * RECORD_SIZE <= gc.heap_end());
        last = gc.heap_free();
    }
}

#[test]
fn byte_access_is_limited_to_blocks_in_use() {
    let mut gc = Gc::new(100);
    gc.stack_begin(0);
    gc.stack_end(0);
    let addr = gc.malloc(10, &[]).unwrap();
    assert_eq!(gc.read(addr), Some(0));
    assert!(gc.write(addr, 42));
    assert!(gc.write(addr + 9, 7));
    assert_eq!(gc.read(addr), Some(42));
    assert_eq!(gc.read(addr + 9), Some(7));
    // One past the block, below the arena, beyond it.
    assert!(!gc.write(addr + 10, 1));
    assert_eq!(gc.read(addr + 10), None);
    assert_eq!(gc.read(HEAP_BASE - 1), None);
    assert_eq!(gc.read(gc.heap_end()), None);
    assert!(!gc.write(0, 1));
    // A reclaimed block is out of reach.
    assert_eq!(gc.cleanup(&[]), Ok(()));
    assert_eq!(gc.read(addr), None);
    assert!(!gc.write(addr, 1));
}

#[test]
fn reclaimed_memory_is_not_cleared() {
    let mut gc = Gc::new(34);
    gc.stack_begin(0);
    gc.stack_end(0);
    let addr = gc.malloc(10, &[]).unwrap();
    assert!(gc.write(addr + 3, 99));
    assert_eq!(gc.malloc(10, &[]), Ok(addr));
    assert_eq!(gc.read(addr + 3), Some(99));
}

#[test]
fn registration_returns_the_collector() {
    let mut gc = Gc::new(10);
    assert_eq!(gc.stack_begin(3).record_count(), 0);
    assert_eq!(gc.stack_end(5).heap_begin(), HEAP_BASE);
}

#[test]
fn blocks_never_move() {
    let mut gc = Gc::new(500);
    let mut stack = [0u8; 8];
    gc.stack_begin(0);
    gc.stack_end(8);
    let mut known: Vec<Record> = Vec::new();
    for round in 0..150usize {
        if let Ok(addr) = gc.malloc(1 + round % 9, &stack) {
            if round % 4 == 0 {
                stack.copy_from_slice(&(addr as u64).to_le_bytes());
            }
            assert!(gc.write(addr, round as u8));
        }
        assert!(gc.record_count() >= known.len());
        for (index, before) in known.iter().enumerate() {
            let now = record_at(&gc, index);
            assert_eq!((now.addr, now.size), (before.addr, before.size));
        }
        known = (0..gc.record_count()).map(|index| record_at(&gc, index)).collect();
        assert_eq!(gc.heap_begin(), HEAP_BASE);
        assert_eq!(gc.heap_end(), HEAP_BASE + 500);
    }
}

#[test]
fn blocks_fill_the_space_that_was_handed_out() {
    let mut gc = Gc::new(300);
    gc.stack_begin(0);
    gc.stack_end(0);
    let mut next = HEAP_BASE;
    for size in [3usize, 1, 8, 2, 5] {
        assert_eq!(gc.malloc(size, &[]), Ok(next));
        next += size;
        assert_eq!(gc.heap_free(), next);
    }
    for index in 0..4 {
        let record = record_at(&gc, index);
        assert_eq!(record.addr + record.size, record_at(&gc, index + 1).addr);
    }
}
