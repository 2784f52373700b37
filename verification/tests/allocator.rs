use extism_kernel::{allocate, error_get, error_set, free, input_length, input_load_u64};
use extism_kernel::{input_load_u8, input_offset, input_set, length, load_u64, load_u8};
use extism_kernel::{memory_bytes, num_pages, output_length, output_offset, reset, store_u8};
use extism_kernel::{LinearMemory, MemoryBlock, MemoryRoot, MemoryStatus};

const FREE: u8 = 2;
const ACTIVE: u8 = 1;

fn one_page() -> LinearMemory {
    LinearMemory::new(1, 16, true)
}

fn block(memory: &LinearMemory, p: u64) -> MemoryBlock {
    MemoryBlock::load(memory, p - 12)
}

#[test]
fn pages_are_rounded_up() {
    assert_eq!(num_pages(0), 0);
    assert_eq!(num_pages(1), 1);
    assert_eq!(num_pages(65535), 1);
    assert_eq!(num_pages(65536), 1);
    assert_eq!(num_pages(65537), 2);
    assert_eq!(num_pages(10 * 65536), 10);
    assert_eq!(num_pages(u64::MAX), 1usize << 48);
}

#[test]
fn status_bytes() {
    assert_eq!(MemoryStatus::Unused.code(), 0);
    assert_eq!(MemoryStatus::Active.code(), 1);
    assert_eq!(MemoryStatus::Free.code(), 2);
    assert!(MemoryStatus::Active != MemoryStatus::Free);
}

#[test]
fn block_pointers_and_free() {
    let mut b = MemoryBlock { offset: 65, status: ACTIVE, size: 100, used: 90 };
    assert_eq!(b.data_ptr(), 77);
    assert_eq!(b.next_ptr(), 177);
    b.free();
    assert_eq!(b, MemoryBlock { offset: 65, status: FREE, size: 100, used: 90 });
}

#[test]
fn block_header_bytes() {
    let mut memory = LinearMemory::new(1, 1, false);
    let b = MemoryBlock { offset: 200, status: 1, size: 0x0102_0304, used: 0xa0b0_c0d0 };
    b.store(&mut memory);
    let bytes: Vec<u8> = (200..212).map(|p| load_u8(&memory, p)).collect();
    assert_eq!(bytes, vec![1, 0, 0, 0, 4, 3, 2, 1, 0xd0, 0xc0, 0xb0, 0xa0]);
    assert_eq!(MemoryBlock::load(&memory, 200), b);
}

#[test]
fn initialization() {
    let mut memory = one_page();
    let root = MemoryRoot::new(&mut memory);
    let fresh = MemoryRoot {
        initialized: true,
        position: 0,
        length: 65472,
        error: 0,
        input_offset: 0,
        input_length: 0,
        output_offset: 0,
        output_length: 0,
    };
    assert_eq!(root, fresh);
    assert_eq!(MemoryRoot::load(&memory), fresh);
    assert_eq!(memory.memory_size(), 1);
}

#[test]
fn initialization_happens_once() {
    let mut memory = one_page();
    let p = allocate(&mut memory, 10);
    input_set(&mut memory, p, 10);
    let before = MemoryRoot::load(&memory);
    assert_eq!(MemoryRoot::new(&mut memory), before);
    assert_eq!(before.position, 22);
    assert_eq!(before.input_length, 10);
}

#[test]
fn initialization_clears_the_bytes_behind_the_root() {
    let mut memory = LinearMemory::new(1, 1, false);
    for p in 65..300 {
        store_u8(&mut memory, p, 7);
    }
    MemoryRoot::new(&mut memory);
    for p in 65..209 {
        assert_eq!(load_u8(&memory, p), 0);
    }
    for p in 209..300 {
        assert_eq!(load_u8(&memory, p), 7);
    }
}

#[test]
fn empty_memory_gets_a_page() {
    let mut memory = LinearMemory::new(0, 2, true);
    assert!(memory.is_ready());
    assert_eq!(allocate(&mut memory, 1), 77);
    assert_eq!(memory.memory_size(), 1);
    assert!(!LinearMemory::new(0, 0, true).is_ready());
}

#[test]
fn nothing_is_allocated_for_zero_bytes() {
    let mut memory = one_page();
    assert_eq!(allocate(&mut memory, 0), 0);
    assert!(!MemoryRoot::load(&memory).initialized);
}

#[test]
fn allocations_follow_each_other() {
    let mut memory = one_page();
    assert_eq!(allocate(&mut memory, 10), 77);
    assert_eq!(memory_bytes(&mut memory), 22);
    assert_eq!(allocate(&mut memory, 20), 99);
    assert_eq!(memory_bytes(&mut memory), 54);
    assert_eq!(allocate(&mut memory, 1), 131);
    assert_eq!(memory_bytes(&mut memory), 67);
    assert_eq!(length(&mut memory, 77), 10);
    assert_eq!(length(&mut memory, 99), 20);
    assert_eq!(length(&mut memory, 131), 1);
    assert_eq!(block(&memory, 99), MemoryBlock { offset: 87, status: ACTIVE, size: 20, used: 20 });
    assert!(memory.is_ready());
}

#[test]
fn memory_grows_when_the_remaining_size_is_too_small() {
    for (n, pages) in [(65407, 1), (65408, 1), (65409, 2), (130944, 2), (130945, 3)] {
        let mut memory = one_page();
        assert_eq!(allocate(&mut memory, n), 77);
        assert_eq!(memory.memory_size(), pages);
        let root = MemoryRoot::load(&memory);
        assert_eq!(root.position, n + 12);
        assert_eq!(root.length, 65472 + (pages as u64 - 1) * 65536);
        assert_eq!(length(&mut memory, 77), n);
    }
}

#[test]
fn memory_grows_when_the_reserve_is_used_up() {
    let mut memory = one_page();
    assert_eq!(allocate(&mut memory, 65407), 77);
    assert_eq!(memory.memory_size(), 1);
    let p = allocate(&mut memory, 100);
    assert_eq!(p, 77 + 65407 + 12);
    assert_eq!(memory.memory_size(), 2);
    for i in 0..100 {
        store_u8(&mut memory, p + i, i as u8);
    }
    assert_eq!(load_u8(&memory, p + 99), 99);
    let mut q = p + 100 + 12;
    for _ in 0..8 {
        assert_eq!(allocate(&mut memory, 65536), q);
        q = q + 65536 + 12;
        assert!(memory.size() >= q);
    }
    assert!(memory.is_ready());
}

#[test]
fn failed_allocations_change_nothing() {
    let mut memory = LinearMemory::new(1, 2, true);
    let p = allocate(&mut memory, 8);
    let root = MemoryRoot::load(&memory);
    for n in [200_000, 1 << 32, (1 << 32) + 5, 1 << 48, u64::MAX - 11, u64::MAX] {
        assert_eq!(allocate(&mut memory, n), 0);
    }
    assert_eq!(MemoryRoot::load(&memory), root);
    assert_eq!(memory.memory_size(), 1);
    assert_eq!(length(&mut memory, p), 8);
    memory.set_limit(4);
    assert_eq!(allocate(&mut memory, 200_000), 97);
    assert_eq!(memory.memory_size(), 4);
}

#[test]
fn lengths_beyond_32_bits_do_not_reuse_small_blocks() {
    let mut memory = one_page();
    let p = allocate(&mut memory, 100);
    free(&mut memory, p);
    assert_eq!(allocate(&mut memory, (1 << 32) + 5), 0);
    assert_eq!(block(&memory, p).status, FREE);
}

#[test]
fn growing_is_refused_at_the_limit() {
    let mut memory = LinearMemory::new(1, 3, true);
    assert_eq!(memory.memory_grow(3), usize::MAX);
    assert_eq!(memory.memory_size(), 1);
    assert_eq!(memory.memory_grow(2), 1);
    assert_eq!(memory.memory_size(), 3);
    assert_eq!(memory.memory_grow(0), 3);
    assert_eq!(memory.memory_grow(1), usize::MAX);
    assert_eq!(memory.size(), 3 * 65536);
    assert_eq!(memory.limit(), 3);
}

#[test]
fn freed_blocks_are_used_again() {
    let mut memory = one_page();
    let p = allocate(&mut memory, 100);
    let q = allocate(&mut memory, 50);
    free(&mut memory, p);
    assert_eq!(block(&memory, p).status, FREE);
    assert_eq!(length(&mut memory, p), 100);
    // Too large, so a fresh block.
    let r = allocate(&mut memory, 101);
    assert_eq!(r, q + 50 + 12);
    let position = memory_bytes(&mut memory);
    assert_eq!(allocate(&mut memory, 60), p);
    assert_eq!(block(&memory, p), MemoryBlock { offset: 65, status: ACTIVE, size: 100, used: 60 });
    assert_eq!(length(&mut memory, p), 60);
    assert_eq!(memory_bytes(&mut memory), position);
}

#[test]
fn allocating_again_after_free_gives_the_same_offset() {
    let mut memory = one_page();
    allocate(&mut memory, 5);
    let p = allocate(&mut memory, 300);
    allocate(&mut memory, 5);
    free(&mut memory, p);
    assert_eq!(allocate(&mut memory, 300), p);
}

#[test]
fn freed_memory_is_enough_where_the_host_grants_none() {
    let mut memory = LinearMemory::new(1, 1, true);
    let p = allocate(&mut memory, 60_000);
    assert_eq!(allocate(&mut memory, 60_000), 0);
    free(&mut memory, p);
    assert!(allocate(&mut memory, 60_000) != 0);
}

#[test]
fn small_excess_is_not_split() {
    let mut memory = one_page();
    let p = allocate(&mut memory, 227);
    free(&mut memory, p);
    assert_eq!(allocate(&mut memory, 100), p);
    assert_eq!(block(&memory, p), MemoryBlock { offset: 65, status: ACTIVE, size: 227, used: 100 });
}

#[test]
fn large_excess_is_split() {
    let mut memory = one_page();
    let p = allocate(&mut memory, 228);
    let next = allocate(&mut memory, 40);
    for i in 0..40 {
        store_u8(&mut memory, next + i, 200 + i as u8);
    }
    free(&mut memory, p);
    let position = memory_bytes(&mut memory);
    let q = allocate(&mut memory, 100);
    // The new block is the end of the old one.
    assert_eq!(q, p + 228 - 100);
    assert_eq!(block(&memory, p), MemoryBlock { offset: 65, status: FREE, size: 116, used: 0 });
    assert_eq!(block(&memory, q), MemoryBlock { offset: 193, status: ACTIVE, size: 100, used: 100 });
    assert_eq!(block(&memory, p).next_ptr(), 193);
    assert_eq!(block(&memory, q).next_ptr(), next - 12);
    assert_eq!(memory_bytes(&mut memory), position);
    // Filling the new block leaves its neighbour alone.
    for i in 0..100 {
        store_u8(&mut memory, q + i, 255);
    }
    assert_eq!(length(&mut memory, next), 40);
    for i in 0..40 {
        assert_eq!(load_u8(&memory, next + i), 200 + i as u8);
    }
    assert!(memory.is_ready());
    // What is left in front is used again as well.
    assert_eq!(allocate(&mut memory, 116), p);
}

#[test]
fn the_first_block_that_fits_is_taken() {
    let mut memory = one_page();
    let a = allocate(&mut memory, 10);
    let b = allocate(&mut memory, 30);
    let c = allocate(&mut memory, 30);
    free(&mut memory, c);
    free(&mut memory, a);
    free(&mut memory, b);
    assert_eq!(allocate(&mut memory, 20), b);
    assert_eq!(allocate(&mut memory, 20), c);
    assert_eq!(allocate(&mut memory, 10), a);
}

#[test]
fn active_blocks_keep_their_data() {
    let mut memory = one_page();
    let mut pointers: Vec<(u64, u64)> = Vec::new();
    for n in 1..60u64 {
        let p = allocate(&mut memory, n * 7);
        for i in 0..n * 7 {
            store_u8(&mut memory, p + i, (n + i) as u8);
        }
        pointers.push((p, n));
    }
    for k in 0..pointers.len() {
        if k % 3 == 0 {
            free(&mut memory, pointers[k].0);
        }
    }
    for n in 1..40u64 {
        let p = allocate(&mut memory, n);
        for i in 0..n {
            store_u8(&mut memory, p + i, 0xee);
        }
    }
    for k in 0..pointers.len() {
        if k % 3 != 0 {
            let (p, n) = pointers[k];
            assert_eq!(length(&mut memory, p), n * 7);
            for i in 0..n * 7 {
                assert_eq!(load_u8(&memory, p + i), (n + i) as u8);
            }
        }
    }
    assert!(memory.is_ready());
}

#[test]
fn free_of_null_or_out_of_bounds_does_nothing() {
    let mut memory = one_page();
    let p = allocate(&mut memory, 10);
    free(&mut memory, 0);
    free(&mut memory, 63);
    free(&mut memory, 65537);
    free(&mut memory, u64::MAX);
    assert_eq!(block(&memory, p).status, ACTIVE);
    let mut fresh = one_page();
    free(&mut fresh, 0);
    assert!(!MemoryRoot::load(&fresh).initialized);
    free(&mut fresh, 1);
    assert!(MemoryRoot::load(&fresh).initialized);
}

#[test]
fn free_takes_any_pointer_within_bounds() {
    let mut memory = one_page();
    MemoryRoot::new(&mut memory);
    free(&mut memory, 64);
    assert_eq!(MemoryRoot::load(&memory).output_offset, 2 << 24);
    free(&mut memory, 65536);
    assert_eq!(load_u8(&memory, 65524), FREE);
}

#[test]
fn freeing_the_input_clears_its_length() {
    let mut memory = one_page();
    let p = allocate(&mut memory, 10);
    let q = allocate(&mut memory, 10);
    input_set(&mut memory, p, 10);
    free(&mut memory, q);
    assert_eq!(input_length(&mut memory), 10);
    free(&mut memory, p);
    assert_eq!(input_length(&mut memory), 0);
    assert_eq!(input_offset(&mut memory), p);
    assert_eq!(block(&memory, p).status, FREE);
}

#[test]
fn length_of_what_is_not_there() {
    let mut memory = one_page();
    assert_eq!(length(&mut memory, 0), 0);
    assert!(!MemoryRoot::load(&memory).initialized);
    assert_eq!(length(&mut memory, 63), 0);
    assert_eq!(length(&mut memory, 65537), 0);
    assert_eq!(length(&mut memory, 65536), 0);
    assert!(MemoryRoot::load(&memory).initialized);
}

#[test]
fn find_block_reads_the_header_before_the_offset() {
    let mut memory = one_page();
    let p = allocate(&mut memory, 33);
    let root = MemoryRoot::load(&memory);
    let found = root.find_block(&memory, p);
    assert_eq!(found, Some(MemoryBlock { offset: 65, status: ACTIVE, size: 33, used: 33 }));
    assert_eq!(root.find_block(&memory, 63), None);
    assert_eq!(root.find_block(&memory, 65537), None);
    assert!(root.find_block(&memory, 65536).is_some());
    assert!(root.find_block(&memory, 64).is_some());
}

#[test]
fn root_allocates_blocks() {
    let mut memory = one_page();
    let mut root = MemoryRoot::new(&mut memory);
    let b = root.allocate(&mut memory, 16);
    assert_eq!(b, Some(MemoryBlock { offset: 65, status: ACTIVE, size: 16, used: 16 }));
    assert_eq!(root.position, 28);
    assert_eq!(root, MemoryRoot::load(&memory));
    assert_eq!(root.allocate(&mut memory, 1 << 40), None);
    root.reset(&mut memory);
    assert_eq!(root.position, 0);
    assert_eq!(root, MemoryRoot::load(&memory));
}

#[test]
fn reset_clears_everything() {
    let mut memory = one_page();
    let p = allocate(&mut memory, 70_000);
    store_u8(&mut memory, p, 1);
    store_u8(&mut memory, p + 69_999, 2);
    input_set(&mut memory, p, 10);
    error_set(&mut memory, p);
    reset(&mut memory);
    assert_eq!(memory_bytes(&mut memory), 0);
    assert_eq!(input_offset(&mut memory), 0);
    assert_eq!(input_length(&mut memory), 0);
    assert_eq!(output_offset(&mut memory), 0);
    assert_eq!(output_length(&mut memory), 0);
    assert_eq!(error_get(&mut memory), 0);
    assert_eq!(MemoryRoot::load(&memory).length, 65472 + 65536);
    assert_eq!(memory.memory_size(), 2);
    for q in 65..p + 70_000 {
        assert_eq!(load_u8(&memory, q), 0);
    }
    assert_eq!(allocate(&mut memory, 30), 77);
}

#[test]
fn reset_of_a_single_page() {
    let mut memory = LinearMemory::new(1, 1, true);
    store_u8(&mut memory, 65535, 9);
    reset(&mut memory);
    assert_eq!(load_u8(&memory, 65535), 0);
    assert_eq!(MemoryRoot::load(&memory).length, 65472);
}

#[test]
fn error_message_and_its_length() {
    let mut memory = one_page();
    assert_eq!(error_get(&mut memory), 0);
    let p = allocate(&mut memory, 12);
    error_set(&mut memory, p);
    assert_eq!(error_get(&mut memory), p);
    let e = error_get(&mut memory);
    assert_eq!(length(&mut memory, e), 12);
    error_set(&mut memory, 64);
    assert_eq!(error_get(&mut memory), p);
    error_set(&mut memory, 65 + 65472);
    assert_eq!(error_get(&mut memory), p);
    error_set(&mut memory, 0);
    assert_eq!(error_get(&mut memory), 0);
    let mut unchecked = LinearMemory::new(1, 1, false);
    error_set(&mut unchecked, 3);
    assert_eq!(error_get(&mut unchecked), 3);
}

#[test]
fn allocated_input_is_read_back() {
    let mut memory = one_page();
    let p = allocate(&mut memory, 20);
    for i in 0..20 {
        store_u8(&mut memory, p + i, 100 + i as u8);
    }
    input_set(&mut memory, p, 20);
    for i in 0..20 {
        assert_eq!(input_load_u8(&mut memory, i), 100 + i as u8);
    }
    assert_eq!(input_load_u8(&mut memory, 20), 0);
    assert_eq!(input_load_u64(&mut memory, 12), load_u64(&memory, p + 12));
    assert_eq!(input_load_u64(&mut memory, 12), 0x7776_7574_7372_7170);
    assert_eq!(input_load_u64(&mut memory, 13), 0);
}

#[test]
fn broken_heaps_are_recognized() {
    let mut memory = one_page();
    let p = allocate(&mut memory, 10);
    assert!(memory.is_ready());
    // The second byte of the block's size.
    store_u8(&mut memory, p - 7, 1);
    assert!(!memory.is_ready());
    store_u8(&mut memory, p - 7, 0);
    assert!(memory.is_ready());
    store_u8(&mut memory, p - 8, 5);
    assert!(!memory.is_ready());
}

#[test]
fn unused_blocks_are_used_like_freed_ones() {
    let mut memory = one_page();
    let p = allocate(&mut memory, 50);
    // The status byte of the block.
    store_u8(&mut memory, p - 12, 0);
    assert_eq!(allocate(&mut memory, 51), p + 50 + 12);
    assert_eq!(allocate(&mut memory, 40), p);
    assert_eq!(block(&memory, p), MemoryBlock { offset: 65, status: ACTIVE, size: 50, used: 40 });
}

#[test]
fn stores_behind_the_heap_leave_it_alone() {
    let mut memory = one_page();
    let p = allocate(&mut memory, 50);
    store_u8(&mut memory, p + 50, 0xff);
    store_u8(&mut memory, 65535, 0xff);
    assert!(memory.is_ready());
    assert_eq!(allocate(&mut memory, 10), p + 50 + 12);
    assert_eq!(length(&mut memory, p), 50);
}

#[test]
fn finding_a_block_splits_it_in_two() {
    let mut memory = one_page();
    let p = allocate(&mut memory, 300);
    let next = allocate(&mut memory, 9);
    free(&mut memory, p);
    let root = MemoryRoot::load(&memory);
    let found = root.find_free_block(&mut memory, 100, root.position);
    assert_eq!(found, Some(MemoryBlock { offset: 265, status: FREE, size: 100, used: 0 }));
    assert_eq!(block(&memory, p), MemoryBlock { offset: 65, status: FREE, size: 188, used: 0 });
    assert_eq!(block(&memory, p).next_ptr(), 265);
    assert_eq!(MemoryBlock::load(&memory, 265).next_ptr(), next - 12);
    assert!(memory.is_ready());
    assert_eq!(MemoryRoot::load(&memory), root);
    assert_eq!(root.find_free_block(&mut memory, 189, root.position), None);
}

#[test]
fn reset_mends_a_broken_heap() {
    let mut memory = one_page();
    let p = allocate(&mut memory, 10);
    store_u8(&mut memory, p - 8, 200);
    assert!(!memory.is_ready());
    reset(&mut memory);
    assert!(memory.is_ready());
    assert_eq!(allocate(&mut memory, 10), p);
}
