use extism_kernel::{allocate, can_access, can_access_input, input_length, input_load_u64};
use extism_kernel::{input_load_u8, input_offset, input_set, load_u64, load_u8, output_length};
use extism_kernel::{output_offset, output_set, store_u64, store_u8, LinearMemory, MemoryRoot};

fn checked() -> LinearMemory {
    LinearMemory::new(1, 4, true)
}

fn unchecked() -> LinearMemory {
    LinearMemory::new(1, 4, false)
}

#[test]
fn bytes_are_stored_and_loaded() {
    let mut memory = checked();
    store_u8(&mut memory, 1000, 42);
    assert_eq!(load_u8(&memory, 1000), 42);
    assert_eq!(load_u8(&memory, 999), 0);
    assert_eq!(load_u8(&memory, 1001), 0);
    store_u8(&mut memory, 65535, 1);
    assert_eq!(load_u8(&memory, 65535), 1);
}

#[test]
fn numbers_are_little_endian() {
    let mut memory = checked();
    store_u64(&mut memory, 1000, 0x0102_0304_0506_0708);
    assert_eq!(load_u64(&memory, 1000), 0x0102_0304_0506_0708);
    for i in 0..8 {
        assert_eq!(load_u8(&memory, 1000 + i), 8 - i as u8);
    }
    assert_eq!(load_u8(&memory, 999), 0);
    assert_eq!(load_u8(&memory, 1008), 0);
    assert_eq!(load_u64(&memory, 1001), 0x0001_0203_0405_0607);
    store_u64(&mut memory, 65528, u64::MAX);
    assert_eq!(load_u64(&memory, 65528), u64::MAX);
}

#[test]
fn pointers_out_of_bounds_are_refused() {
    let mut memory = checked();
    for p in [0, 1, 63, 65537, 1 << 32, (1 << 32) + 1000, u64::MAX] {
        assert!(can_access(&memory, p, 1));
        store_u8(&mut memory, p, 9);
        assert_eq!(load_u8(&memory, p), 0);
    }
    for p in [0, 56, 65530, 1 << 32, u64::MAX - 8, u64::MAX - 7, u64::MAX] {
        assert!(can_access(&memory, p, 8));
        store_u64(&mut memory, p, u64::MAX);
        assert_eq!(load_u64(&memory, p), 0);
    }
    assert_eq!(load_u8(&memory, 1000), 0);
}

#[test]
fn the_end_of_the_root_is_within_bounds() {
    let mut memory = checked();
    MemoryRoot::new(&mut memory);
    store_u64(&mut memory, 57, 77);
    assert_eq!(output_length(&mut memory), 77);
    store_u8(&mut memory, 64, 1);
    assert_eq!(output_length(&mut memory), 77 + (1 << 56));
}

#[test]
fn where_memory_ends_nothing_can_be_accessed() {
    let memory = checked();
    assert!(!can_access(&memory, 65536, 1));
    assert!(can_access(&memory, 65535, 1));
    assert!(!can_access(&memory, 65529, 8));
    assert!(can_access(&memory, 65528, 8));
    let memory = unchecked();
    assert!(!can_access(&memory, 65536, 1));
    assert!(!can_access(&memory, 70000, 1));
    assert!(can_access(&memory, 0, 1));
    assert!(can_access(&memory, (1 << 32) + 5, 8));
    assert!(!can_access(&memory, (1 << 32) - 1, 1));
}

#[test]
fn without_checks_pointers_are_cut_to_32_bits() {
    let mut memory = unchecked();
    store_u8(&mut memory, 5, 17);
    assert_eq!(load_u8(&memory, 5), 17);
    assert_eq!(load_u8(&memory, (1 << 32) + 5), 17);
    store_u64(&mut memory, (7 << 32) + 600, 0xabcd);
    assert_eq!(load_u64(&memory, 600), 0xabcd);
}

#[test]
fn bounds_of_pointers() {
    let mut memory = checked();
    let root = MemoryRoot::new(&mut memory);
    assert!(!root.pointer_in_bounds(64));
    assert!(root.pointer_in_bounds(65));
    assert!(root.pointer_in_bounds(65 + 65471));
    assert!(!root.pointer_in_bounds(65 + 65472));
    assert!(!root.pointer_in_bounds(u64::MAX));
    assert!(!MemoryRoot::pointer_in_bounds_fast(&memory, 63));
    assert!(MemoryRoot::pointer_in_bounds_fast(&memory, 64));
    assert!(MemoryRoot::pointer_in_bounds_fast(&memory, 65536));
    assert!(!MemoryRoot::pointer_in_bounds_fast(&memory, 65537));
}

#[test]
fn input_range_is_set() {
    let mut memory = checked();
    input_set(&mut memory, 100, 20);
    assert_eq!(input_offset(&mut memory), 100);
    assert_eq!(input_length(&mut memory), 20);
    assert_eq!(output_offset(&mut memory), 0);
    assert_eq!(output_length(&mut memory), 0);
    input_set(&mut memory, 65, 65472);
    assert_eq!(input_length(&mut memory), 65472);
}

#[test]
fn input_range_out_of_bounds_is_ignored() {
    let mut memory = checked();
    input_set(&mut memory, 100, 20);
    for (p, len) in [(64, 5), (0, 0), (65, 0), (65, 65473), (70_000, 1), (u64::MAX, 3)] {
        input_set(&mut memory, p, len);
        assert_eq!(input_offset(&mut memory), 100);
        assert_eq!(input_length(&mut memory), 20);
    }
    input_set(&mut memory, 66, 0);
    assert_eq!(input_offset(&mut memory), 66);
    assert_eq!(input_length(&mut memory), 0);
}

#[test]
fn output_range_is_set() {
    let mut memory = checked();
    output_set(&mut memory, 200, 30);
    assert_eq!(output_offset(&mut memory), 200);
    assert_eq!(output_length(&mut memory), 30);
    assert_eq!(input_offset(&mut memory), 0);
    assert_eq!(input_length(&mut memory), 0);
    for (p, len) in [(64, 5), (0, 0), (65, 0), (65, 65473), (70_000, 1)] {
        output_set(&mut memory, p, len);
        assert_eq!(output_offset(&mut memory), 200);
        assert_eq!(output_length(&mut memory), 30);
    }
}

#[test]
fn without_checks_any_range_is_set() {
    let mut memory = unchecked();
    input_set(&mut memory, 3, u64::MAX);
    assert_eq!(input_offset(&mut memory), 3);
    assert_eq!(input_length(&mut memory), u64::MAX);
    output_set(&mut memory, u64::MAX, 1);
    assert_eq!(output_offset(&mut memory), u64::MAX);
    assert_eq!(output_length(&mut memory), 1);
}

#[test]
fn input_is_loaded_from_its_offset() {
    let mut memory = checked();
    let p = allocate(&mut memory, 16);
    store_u64(&mut memory, p, 0x1122_3344_5566_7788);
    store_u64(&mut memory, p + 8, 0x99aa_bbcc_ddee_ff00);
    input_set(&mut memory, p, 9);
    assert_eq!(input_load_u8(&mut memory, 0), 0x88);
    assert_eq!(input_load_u8(&mut memory, 7), 0x11);
    assert_eq!(input_load_u8(&mut memory, 8), 0x00);
    assert_eq!(input_load_u8(&mut memory, 9), 0);
    assert_eq!(input_load_u64(&mut memory, 0), 0x1122_3344_5566_7788);
    assert_eq!(input_load_u64(&mut memory, 1), 0x0011_2233_4455_6677);
    assert_eq!(input_load_u64(&mut memory, 2), 0);
    assert_eq!(input_load_u8(&mut memory, u64::MAX), 0);
    assert!(can_access_input(&mut memory, 0, 8));
    assert!(can_access_input(&mut memory, u64::MAX, 1));
}

#[test]
fn input_at_the_end_of_memory() {
    let mut memory = checked();
    // Within what the allocator counts, but one byte behind the end of memory.
    input_set(&mut memory, 65, 65472);
    assert!(can_access_input(&mut memory, 65470, 1));
    assert!(!can_access_input(&mut memory, 65471, 1));
    let mut memory = unchecked();
    input_set(&mut memory, u64::MAX, 1);
    assert!(!can_access_input(&mut memory, 1, 1));
    input_set(&mut memory, 10, 1);
    store_u8(&mut memory, 12, 5);
    assert_eq!(input_load_u8(&mut memory, 2), load_u8(&memory, 12));
}
