use scgc::{Gc, RecordStatus};
use std::collections::HashSet;

const ANCHOR: usize = 0;
const CURSOR: usize = 8;

fn point(stack: &mut [u8], slot: usize, addr: usize) {
    stack[slot..slot + 8].copy_from_slice(&(addr as u64).to_le_bytes());
}

#[test]
fn anchor_survives_while_the_cursor_moves_on() {
    let mut gc = Gc::new(20480);
    // The stack holds two pointers, `anchor` and `cursor`.
    let mut stack = [0u8; 16];
    gc.stack_begin(0);
    gc.stack_end(16);

    let anchor = gc.malloc(4096, &stack).unwrap();
    point(&mut stack, ANCHOR, anchor);
    assert!(gc.write(anchor, 42));

    let mut seen = HashSet::new();
    let mut reused = false;
    let mut cursor = 0usize;
    for i in 1..100u8 {
        let block = gc.malloc(4096, &stack).unwrap();
        // Never the anchor's block, nor the one the cursor still points to.
        assert!(block + 4096 <= anchor || anchor + 4096 <= block);
        assert_ne!(block, cursor);
        assert!(gc.write(block, i));
        if cursor != 0 {
            assert_eq!(gc.read(cursor), Some(i - 1));
        }
        if !seen.insert(block) {
            reused = true;
        }
        cursor = block;
        point(&mut stack, CURSOR, cursor);
        assert_eq!(gc.read(anchor), Some(42));
    }

    assert_eq!(gc.read(anchor), Some(42));
    assert_eq!(gc.read(cursor), Some(99));
    assert!(reused);
    // Four blocks of 4096 bytes fit beside their records; all the requests
    // were served from them.
    assert_eq!(gc.record_count(), 4);
    assert_eq!(seen.len(), 3);
    assert_eq!(gc.record(0).unwrap().status, RecordStatus::Referred);
}
