//! The records that the kernel keeps in linear memory: one root at offset 1,
//! and a header in front of the data of each block.
//!
//! ```text
//! |------|-------+---------|-------+--------------|
//! | Root | Block +  Data   | Block +     Data     | ...
//! |------|-------+---------|-------+--------------|
//! ```
//!
//! The offset of a block is the end of the root plus the size of all the blocks
//! before it, their data included. Numbers are little-endian, addresses and
//! block sizes have 32 bits.
//!
//! | root field      | offset |   | block field | offset from the header |
//! |-----------------|--------|---|-------------|------------------------|
//! | `initialized`   | 1      |   | `status`    | 0                      |
//! | `position`      | 9      |   | `size`      | 4                      |
//! | `length`        | 17     |   | `used`      | 8                      |
//! | `error`         | 25     |   | data        | 12                     |
//! | `input_offset`  | 33     |   |             |                        |
//! | `input_length`  | 41     |   |             |                        |
//! | `output_offset` | 49     |   |             |                        |
//! | `output_length` | 57     |   |             |                        |
use crate::bytes::{agree, get_u32, get_u64, set_u32, set_u64};
use crate::bytes::{lemma_get_u32, lemma_get_u64, lemma_set_get_u32};
use crate::bytes::{lemma_same_u64, lemma_set_u32, lemma_set_u64};
use crate::memory::{Length, LinearMemory, MemoryState, Pointer};
use vstd::prelude::*;

verus! {

/// The size of the root record.
pub const ROOT_SIZE: u64 = 64;

/// The size of a block header.
pub const HEADER_SIZE: u64 = 12;

/// Offset of the root's `initialized` flag, its first field.
pub const INITIALIZED: u64 = 1;

/// Offset of the root's `position`.
pub const POSITION: u64 = 9;

/// Offset of the root's `length`.
pub const LENGTH: u64 = 17;

/// Offset of the root's `error`.
pub const ERROR: u64 = 25;

/// Offset of the root's `input_offset`.
pub const INPUT_OFFSET: u64 = 33;

/// Offset of the root's `input_length`.
pub const INPUT_LENGTH: u64 = 41;

/// Offset of the root's `output_offset`.
pub const OUTPUT_OFFSET: u64 = 49;

/// Offset of the root's `output_length`.
pub const OUTPUT_LENGTH: u64 = 57;

/// Offset of the first block, right behind the root.
pub const BLOCKS: u64 = 65;

/// Provides information about the usage status of a `MemoryBlock`.
#[derive(Debug, Clone, Copy, PartialEq, Eq, Structural)]
pub enum MemoryStatus {
    /// Memory that has not been handed out yet.
    Unused,
    /// In-use memory.
    Active,
    /// Free memory that is available for re-use.
    Free,
}

impl MemoryStatus {
    /// The byte that stands for a status in memory.
    pub open spec fn spec_code(self) -> u8 {
        match self {
            MemoryStatus::Unused => 0,
            MemoryStatus::Active => 1,
            MemoryStatus::Free => 2,
        }
    }

    /// The byte that stands for this status in memory.
    pub fn code(self) -> (code: u8)
        ensures
            code == self.spec_code(),
    {
        match self {
            MemoryStatus::Unused => 0,
            MemoryStatus::Active => 1,
            MemoryStatus::Free => 2,
        }
    }
}

/// A `MemoryBlock` contains some metadata about a single allocation.
#[derive(Debug, Clone, Copy, PartialEq, Eq, Structural)]
pub struct MemoryBlock {
    /// Where the header of the block lies in memory.
    pub offset: u32,
    /// The usage status of the block, `Unused` or `Free` blocks can be re-used.
    pub status: u8,
    /// The total size of the allocation.
    pub size: u32,
    /// The number of bytes currently being used. If this block is a fresh
    /// allocation then `size` and `used` will always be the same. If a block is
    /// re-used then these numbers may differ.
    pub used: u32,
}

/// A single `MemoryRoot` exists at the start of the memory to track information
/// about the total size of the allocated memory and the position of the bump
/// allocator. A value of this type is a copy of the record in memory; what
/// changes it writes it back.
#[derive(Debug, Clone, Copy, PartialEq, Eq, Structural)]
pub struct MemoryRoot {
    /// Set to true after initialization.
    pub initialized: bool,
    /// Position of the bump allocator, relative to the first block.
    pub position: u64,
    /// The total size of all data allocated using this allocator.
    pub length: u64,
    /// Offset of error block.
    pub error: u64,
    /// Input position in memory.
    pub input_offset: Pointer,
    /// Input length.
    pub input_length: Length,
    /// Output position in memory.
    pub output_offset: Pointer,
    /// Output length.
    pub output_length: Length,
}

/// The block whose header lies at `at`.
pub open spec fn block_at(s: Seq<u8>, at: int) -> MemoryBlock {
    MemoryBlock {
        offset: at as u32,
        status: s[at],
        size: get_u32(s, at + 4),
        used: get_u32(s, at + 8),
    }
}

/// `s` with the header of `b` written at its place.
pub open spec fn with_block(s: Seq<u8>, b: MemoryBlock) -> Seq<u8> {
    set_u32(
        set_u32(s.update(b.offset as int, b.status), b.offset + 4, b.size),
        b.offset + 8,
        b.used,
    )
}

/// The root in `s`.
pub open spec fn root_of(s: Seq<u8>) -> MemoryRoot {
    MemoryRoot {
        initialized: s[INITIALIZED as int] != 0,
        position: get_u64(s, POSITION as int),
        length: get_u64(s, LENGTH as int),
        error: get_u64(s, ERROR as int),
        input_offset: get_u64(s, INPUT_OFFSET as int),
        input_length: get_u64(s, INPUT_LENGTH as int),
        output_offset: get_u64(s, OUTPUT_OFFSET as int),
        output_length: get_u64(s, OUTPUT_LENGTH as int),
    }
}

/// `s` with the numbers of `r` written in the root. The `initialized` flag stays
/// as it is.
pub open spec fn with_root(s: Seq<u8>, r: MemoryRoot) -> Seq<u8> {
    let s = set_u64(s, POSITION as int, r.position);
    let s = set_u64(s, LENGTH as int, r.length);
    let s = set_u64(s, ERROR as int, r.error);
    let s = set_u64(s, INPUT_OFFSET as int, r.input_offset);
    let s = set_u64(s, INPUT_LENGTH as int, r.input_length);
    let s = set_u64(s, OUTPUT_OFFSET as int, r.output_offset);
    set_u64(s, OUTPUT_LENGTH as int, r.output_length)
}

/// A block depends on the bytes of its header alone.
pub proof fn lemma_block_at(s: Seq<u8>, t: Seq<u8>, at: int)
    requires
        agree(s, t, at, at + HEADER_SIZE),
    ensures
        block_at(s, at) == block_at(t, at),
{
    lemma_get_u32(s, t, at + 4);
    lemma_get_u32(s, t, at + 8);
}

/// The root depends on its bytes alone.
pub proof fn lemma_root_of(s: Seq<u8>, t: Seq<u8>)
    requires
        agree(s, t, INITIALIZED as int, BLOCKS as int),
    ensures
        root_of(s) == root_of(t),
{
    lemma_get_u64(s, t, POSITION as int);
    lemma_get_u64(s, t, LENGTH as int);
    lemma_get_u64(s, t, ERROR as int);
    lemma_get_u64(s, t, INPUT_OFFSET as int);
    lemma_get_u64(s, t, INPUT_LENGTH as int);
    lemma_get_u64(s, t, OUTPUT_OFFSET as int);
    lemma_get_u64(s, t, OUTPUT_LENGTH as int);
}

/// A header is read back as it was written, and nothing else changes.
pub proof fn lemma_with_block(s: Seq<u8>, b: MemoryBlock)
    requires
        b.offset + HEADER_SIZE <= s.len(),
    ensures
        with_block(s, b).len() == s.len(),
        block_at(with_block(s, b), b.offset as int) == b,
        agree(with_block(s, b), s, 0, b.offset as int),
        agree(with_block(s, b), s, b.offset + 1, b.offset + 4),
        agree(with_block(s, b), s, b.offset + HEADER_SIZE, s.len() as int),
{
    let s1 = s.update(b.offset as int, b.status);
    let s2 = set_u32(s1, b.offset + 4, b.size);
    let s3 = set_u32(s2, b.offset + 8, b.used);
    lemma_set_u32(s1, b.offset + 4, b.size);
    lemma_set_u32(s2, b.offset + 8, b.used);
    lemma_get_u32(s3, s2, b.offset + 4);
}

/// Rewriting a header with another status changes its first byte only.
pub proof fn lemma_with_status(s: Seq<u8>, at: int, status: u8)
    requires
        0 <= at <= u32::MAX,
        at + HEADER_SIZE <= s.len(),
    ensures
        with_block(s, MemoryBlock { status, ..block_at(s, at) }) == s.update(at, status),
{
    let s1 = s.update(at, status);
    lemma_get_u32(s, s1, at + 4);
    lemma_get_u32(s, s1, at + 8);
    lemma_set_get_u32(s1, at + 4);
    lemma_set_get_u32(s1, at + 8);
}

/// The root is read back as it was written, and nothing else changes.
pub proof fn lemma_with_root(s: Seq<u8>, r: MemoryRoot)
    requires
        BLOCKS <= s.len(),
    ensures
        with_root(s, r).len() == s.len(),
        root_of(with_root(s, r)) == (MemoryRoot { initialized: root_of(s).initialized, ..r }),
        agree(with_root(s, r), s, 0, POSITION as int),
        agree(with_root(s, r), s, BLOCKS as int, s.len() as int),
        r.position == root_of(s).position ==> agree(
            with_root(s, r),
            s,
            POSITION as int,
            LENGTH as int,
        ),
        r.length == root_of(s).length ==> agree(with_root(s, r), s, LENGTH as int, ERROR as int),
        r.error == root_of(s).error ==> agree(
            with_root(s, r),
            s,
            ERROR as int,
            INPUT_OFFSET as int,
        ),
        r.input_offset == root_of(s).input_offset ==> agree(
            with_root(s, r),
            s,
            INPUT_OFFSET as int,
            INPUT_LENGTH as int,
        ),
        r.input_length == root_of(s).input_length ==> agree(
            with_root(s, r),
            s,
            INPUT_LENGTH as int,
            OUTPUT_OFFSET as int,
        ),
        r.output_offset == root_of(s).output_offset ==> agree(
            with_root(s, r),
            s,
            OUTPUT_OFFSET as int,
            OUTPUT_LENGTH as int,
        ),
        r.output_length == root_of(s).output_length ==> agree(
            with_root(s, r),
            s,
            OUTPUT_LENGTH as int,
            BLOCKS as int,
        ),
{
    let s1 = set_u64(s, POSITION as int, r.position);
    let s2 = set_u64(s1, LENGTH as int, r.length);
    let s3 = set_u64(s2, ERROR as int, r.error);
    let s4 = set_u64(s3, INPUT_OFFSET as int, r.input_offset);
    let s5 = set_u64(s4, INPUT_LENGTH as int, r.input_length);
    let s6 = set_u64(s5, OUTPUT_OFFSET as int, r.output_offset);
    let s7 = set_u64(s6, OUTPUT_LENGTH as int, r.output_length);
    lemma_set_u64(s, POSITION as int, r.position);
    lemma_set_u64(s1, LENGTH as int, r.length);
    lemma_set_u64(s2, ERROR as int, r.error);
    lemma_set_u64(s3, INPUT_OFFSET as int, r.input_offset);
    lemma_set_u64(s4, INPUT_LENGTH as int, r.input_length);
    lemma_set_u64(s5, OUTPUT_OFFSET as int, r.output_offset);
    lemma_set_u64(s6, OUTPUT_LENGTH as int, r.output_length);
    lemma_get_u64(s7, s1, POSITION as int);
    lemma_get_u64(s7, s2, LENGTH as int);
    lemma_get_u64(s7, s3, ERROR as int);
    lemma_get_u64(s7, s4, INPUT_OFFSET as int);
    lemma_get_u64(s7, s5, INPUT_LENGTH as int);
    lemma_get_u64(s7, s6, OUTPUT_OFFSET as int);
    if r.position == root_of(s).position {
        lemma_same_u64(s7, s, POSITION as int);
    }
    if r.length == root_of(s).length {
        lemma_same_u64(s7, s, LENGTH as int);
    }
    if r.error == root_of(s).error {
        lemma_same_u64(s7, s, ERROR as int);
    }
    if r.input_offset == root_of(s).input_offset {
        lemma_same_u64(s7, s, INPUT_OFFSET as int);
    }
    if r.input_length == root_of(s).input_length {
        lemma_same_u64(s7, s, INPUT_LENGTH as int);
    }
    if r.output_offset == root_of(s).output_offset {
        lemma_same_u64(s7, s, OUTPUT_OFFSET as int);
    }
    if r.output_length == root_of(s).output_length {
        lemma_same_u64(s7, s, OUTPUT_LENGTH as int);
    }
}

impl MemoryBlock {
    /// Where the data of the block starts.
    pub open spec fn data(self) -> int {
        self.offset + HEADER_SIZE
    }

    /// Where the data of the block ends, and the next block starts.
    pub open spec fn end(self) -> int {
        self.offset + HEADER_SIZE + self.size
    }

    /// Reads the header at `at`.
    pub fn load(memory: &LinearMemory, at: u64) -> (block: MemoryBlock)
        requires
            memory@.wf(),
            at + HEADER_SIZE <= memory@.bytes.len(),
        ensures
            block == block_at(memory@.bytes, at as int),
    {
        MemoryBlock {
            offset: at as u32,
            status: memory.read_u8(at),
            size: memory.read_u32(at + 4),
            used: memory.read_u32(at + 8),
        }
    }

    /// Writes the header at its place in memory.
    pub fn store(&self, memory: &mut LinearMemory)
        requires
            old(memory)@.wf(),
            self.offset + HEADER_SIZE <= old(memory)@.bytes.len(),
        ensures
            final(memory)@.wf(),
            final(memory)@.bytes.len() == old(memory)@.bytes.len(),
            final(memory)@ == (MemoryState {
                bytes: with_block(old(memory)@.bytes, *self),
                ..old(memory)@
            }),
    {
        let at: u64 = self.offset as u64;
        memory.write_u8(at, self.status);
        memory.write_u32(at + 4, self.size);
        memory.write_u32(at + 8, self.used);
    }

    /// Get a pointer to the data of the block.
    pub fn data_ptr(&self) -> (p: Pointer)
        ensures
            p == self.data(),
    {
        self.offset as u64 + HEADER_SIZE
    }

    /// Get a pointer to the next block.
    ///
    /// NOTE: This does no checking to ensure the resulting pointer is valid, the
    /// offset is calculated based on metadata provided by the current block.
    pub fn next_ptr(&self) -> (p: Pointer)
        ensures
            p == self.end(),
    {
        self.offset as u64 + HEADER_SIZE + self.size as u64
    }

    /// Mark a block as free.
    pub fn free(&mut self)
        ensures
            *final(self) == (MemoryBlock {
                status: MemoryStatus::Free.spec_code(),
                ..*old(self)
            }),
    {
        self.status = MemoryStatus::Free.code();
    }
}

impl MemoryRoot {
    /// Reads the root.
    pub fn load(memory: &LinearMemory) -> (root: MemoryRoot)
        requires
            BLOCKS <= memory@.bytes.len(),
        ensures
            root == root_of(memory@.bytes),
    {
        MemoryRoot {
            initialized: memory.read_u8(INITIALIZED) != 0,
            position: memory.read_u64(POSITION),
            length: memory.read_u64(LENGTH),
            error: memory.read_u64(ERROR),
            input_offset: memory.read_u64(INPUT_OFFSET),
            input_length: memory.read_u64(INPUT_LENGTH),
            output_offset: memory.read_u64(OUTPUT_OFFSET),
            output_length: memory.read_u64(OUTPUT_LENGTH),
        }
    }

    /// Writes the numbers of the root in memory.
    pub fn store(&self, memory: &mut LinearMemory)
        requires
            old(memory)@.wf(),
            BLOCKS <= old(memory)@.bytes.len(),
        ensures
            final(memory)@.wf(),
            final(memory)@.bytes.len() == old(memory)@.bytes.len(),
            final(memory)@ == (MemoryState {
                bytes: with_root(old(memory)@.bytes, *self),
                ..old(memory)@
            }),
    {
        memory.write_u64(POSITION, self.position);
        memory.write_u64(LENGTH, self.length);
        memory.write_u64(ERROR, self.error);
        memory.write_u64(INPUT_OFFSET, self.input_offset);
        memory.write_u64(INPUT_LENGTH, self.input_length);
        memory.write_u64(OUTPUT_OFFSET, self.output_offset);
        memory.write_u64(OUTPUT_LENGTH, self.output_length);
    }
}

} // verus!
