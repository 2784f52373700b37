//! The functions that runtimes and plugins call.
//!
//! Each of them works on a linear memory, and most of them initialize it first
//! if that has not been done yet.
//!
//! Input and output are just allocated blocks of memory that are marked as
//! either input or output using `input_set` and `output_set`. The error is the
//! offset of a message; if it is `0` then there is no error, and the length of
//! the message can be had from `length`. An offset of `0` implies an allocation
//! failure or memory error of some kind.
use crate::bytes::{agree, get_u64, lemma_get_u64, set_u64};
use crate::effects::law_store;
use crate::heap::lemma_heap_frame;
use crate::layout::{block_at, lemma_with_root, lemma_with_status, with_root};
use crate::layout::{lemma_root_of, MemoryBlock, MemoryRoot, MemoryStatus, BLOCKS, ERROR};
use crate::layout::{HEADER_SIZE, INPUT_LENGTH, INPUT_OFFSET, LENGTH, POSITION, ROOT_SIZE};
use crate::laws::law_free;
use crate::memory::{address, to_address, Length, LinearMemory, MemoryState, Pointer, PAGE_SIZE};
use crate::root::fresh_root;
use vstd::prelude::*;

verus! {

impl MemoryState {
    /// An access to `width` bytes at `p` is refused.
    pub open spec fn refuses(self, p: Pointer, width: int) -> bool {
        self.bounds_checking && !self.in_bounds_fast(p + width - 1)
    }

    /// There are `width` bytes at `p`.
    pub open spec fn reaches(self, p: Pointer, width: int) -> bool {
        &&& address(p) + width <= self.bytes.len()
        &&& self.bounds_checking ==> p + width <= self.bytes.len()
    }

    /// An access to `width` bytes of the input from its byte `p` on is refused.
    pub open spec fn input_refuses(self, p: Pointer, width: int) -> bool {
        self.bounds_checking && p + width > self.root().input_length
    }

    /// There are `width` bytes in memory where the input has its byte `p`.
    pub open spec fn input_reaches(self, p: Pointer, width: int) -> bool {
        &&& self.root().input_offset + p <= u64::MAX
        &&& address((self.root().input_offset + p) as u64) + width <= self.bytes.len()
    }

    /// `len` bytes at `p` can be set as input or output.
    pub open spec fn accepts_range(self, p: Pointer, len: Length) -> bool {
        self.bounds_checking ==> self.in_bounds(p as int) && self.in_bounds(p + len - 1)
    }

    /// `p` can be set as the offset of the error message.
    pub open spec fn accepts_error(self, p: Pointer) -> bool {
        p != 0 && self.bounds_checking ==> self.in_bounds(p as int)
    }

    /// This memory with other numbers in the root.
    pub open spec fn with_root(self, root: MemoryRoot) -> MemoryState {
        MemoryState { bytes: with_root(self.bytes, root), ..self }
    }

    /// This memory with the block whose data is at `p` marked as free.
    pub open spec fn with_freed(self, p: Pointer) -> MemoryState {
        MemoryState {
            bytes: self.bytes.update(p - HEADER_SIZE, MemoryStatus::Free.spec_code()),
            ..self
        }
    }

    /// This memory after `free(p)`: the block is marked as free, and if the input
    /// was there, no input is left.
    pub open spec fn after_free(self, p: Pointer) -> MemoryState {
        let m = self.with_freed(p);
        if !self.in_bounds_fast(p as int) {
            self
        } else if p == m.root().input_offset {
            m.with_root(MemoryRoot { input_length: 0, ..m.root() })
        } else {
            m
        }
    }

    /// The number that `length(p)` gives.
    pub open spec fn length_at(self, p: Pointer) -> Length {
        if self.in_bounds_fast(p as int) {
            block_at(self.bytes, p - HEADER_SIZE).used as u64
        } else {
            0
        }
    }

    /// This memory after `input_set(p, len)`.
    pub open spec fn after_input_set(self, p: Pointer, len: Length) -> MemoryState {
        if self.accepts_range(p, len) {
            self.with_root(MemoryRoot { input_offset: p, input_length: len, ..self.root() })
        } else {
            self
        }
    }

    /// This memory after `output_set(p, len)`.
    pub open spec fn after_output_set(self, p: Pointer, len: Length) -> MemoryState {
        if self.accepts_range(p, len) {
            self.with_root(MemoryRoot { output_offset: p, output_length: len, ..self.root() })
        } else {
            self
        }
    }

    /// This memory after `error_set(p)`.
    pub open spec fn after_error_set(self, p: Pointer) -> MemoryState {
        if self.accepts_error(p) {
            self.with_root(MemoryRoot { error: p, ..self.root() })
        } else {
            self
        }
    }

    /// What `load_u8(p)` reads.
    pub open spec fn u8_at(self, p: Pointer) -> u8 {
        if self.refuses(p, 1) {
            0
        } else {
            self.bytes[address(p)]
        }
    }

    /// What `load_u64(p)` reads.
    pub open spec fn u64_at(self, p: Pointer) -> u64 {
        if self.refuses(p, 8) {
            0
        } else {
            get_u64(self.bytes, address(p))
        }
    }

    /// This memory after `store_u8(p, x)`.
    pub open spec fn after_store_u8(self, p: Pointer, x: u8) -> MemoryState {
        if self.refuses(p, 1) {
            self
        } else {
            MemoryState { bytes: self.bytes.update(address(p), x), ..self }
        }
    }

    /// This memory after `store_u64(p, x)`.
    pub open spec fn after_store_u64(self, p: Pointer, x: u64) -> MemoryState {
        if self.refuses(p, 8) {
            self
        } else {
            MemoryState { bytes: set_u64(self.bytes, address(p), x), ..self }
        }
    }

    /// What `input_load_u8(p)` reads.
    pub open spec fn input_u8_at(self, p: Pointer) -> u8 {
        if self.input_refuses(p, 1) {
            0
        } else {
            self.bytes[address((self.root().input_offset + p) as u64)]
        }
    }

    /// What `input_load_u64(p)` reads.
    pub open spec fn input_u64_at(self, p: Pointer) -> u64 {
        if self.input_refuses(p, 8) {
            0
        } else {
            get_u64(self.bytes, address((self.root().input_offset + p) as u64))
        }
    }
}

/// Changing what the root says of input, output and error leaves the heap alone.
pub proof fn lemma_root_keeps_heap(m: MemoryState, root: MemoryRoot)
    requires
        m.wf(),
        m.pages() >= 1,
        root.position == m.root().position,
        root.length == m.root().length,
    ensures
        m.with_root(root).wf(),
        m.with_root(root).pages() == m.pages(),
        m.with_root(root).root() == (MemoryRoot { initialized: m.root().initialized, ..root }),
        m.heap_ok() ==> m.with_root(root).heap_ok(),
        m.heap_ok() ==> m.with_root(root).blocks() == m.blocks(),
        m.with_root(root).bytes.len() == m.bytes.len(),
        agree(m.with_root(root).bytes, m.bytes, BLOCKS as int, m.bytes.len() as int),
{
    lemma_with_root(m.bytes, root);
    if m.heap_ok() {
        lemma_heap_frame(m, m.with_root(root));
    }
}

/// What marking a block as free does to the root, and that it stays within memory.
pub proof fn lemma_with_freed(m: MemoryState, p: Pointer)
    requires
        m.is_open(),
        m.in_bounds_fast(p as int),
    ensures
        m.with_freed(p).is_open(),
        m.with_freed(p).root().input_offset == m.root().input_offset,
        m.with_freed(p).root().input_length == m.root().input_length,
        m.with_freed(p).root().position == m.root().position,
        m.with_freed(p).root().length == m.root().length,
        m.with_freed(p).root().error == m.root().error,
        p >= BLOCKS + HEADER_SIZE ==> m.with_freed(p).root() == m.root(),
{
    let t = m.with_freed(p);
    lemma_get_u64(m.bytes, t.bytes, INPUT_OFFSET as int);
    lemma_get_u64(m.bytes, t.bytes, INPUT_LENGTH as int);
    lemma_get_u64(m.bytes, t.bytes, POSITION as int);
    lemma_get_u64(m.bytes, t.bytes, LENGTH as int);
    lemma_get_u64(m.bytes, t.bytes, ERROR as int);
    if p >= BLOCKS + HEADER_SIZE {
        lemma_root_of(m.bytes, t.bytes);
    }
}

/// Allocate a block of memory and return the offset.
pub fn allocate(memory: &mut LinearMemory, n: Length) -> (p: Pointer)
    requires
        n != 0 ==> old(memory)@.ready(),
    ensures
        n == 0 ==> p == 0 && final(memory)@ == old(memory)@,
        n != 0 ==> {
            let m = old(memory)@.opened();
            &&& old(memory)@.opens_to(m)
            &&& final(memory)@ == m.after_alloc(n as int)
            &&& p == if m.can_alloc(n as int) {
                m.alloc_block(n as int).data()
            } else {
                0
            }
            &&& final(memory)@.live()
            &&& final(memory)@.root() == m.alloc_root(n as int)
            &&& final(memory)@.blocks() == m.alloc_blocks(n as int)
            &&& p != 0 <==> {
                ||| exists|j: int|
                    0 <= j < m.blocks().len() && (#[trigger] m.blocks()[j]).status != 1
                        && m.blocks()[j].status <= 2 && n <= m.blocks()[j].size
                ||| m.root().position + n + ROOT_SIZE <= m.root().length + (m.limit * PAGE_SIZE
                    - m.bytes.len())
            }
        },
{
    if n == 0 {
        return 0;
    }
    let mut region = MemoryRoot::new(memory);
    match region.allocate(memory, n) {
        Some(block) => block.data_ptr(),
        None => 0,
    }
}

/// Free allocated memory.
pub fn free(memory: &mut LinearMemory, p: Pointer)
    requires
        p != 0 ==> old(memory)@.can_open(),
    ensures
        p == 0 ==> final(memory)@ == old(memory)@,
        p != 0 ==> {
            let m = old(memory)@.opened();
            &&& old(memory)@.opens_to(m)
            &&& final(memory)@ == m.after_free(p)
            &&& final(memory)@.is_open()
            &&& old(memory)@.ready() ==> forall|i: int|
                0 <= i < m.blocks().len() && (#[trigger] m.blocks()[i]).data() == p ==> {
                    &&& final(memory)@.live()
                    &&& final(memory)@.blocks() == m.blocks().update(
                        i,
                        MemoryBlock { status: MemoryStatus::Free.spec_code(), ..m.blocks()[i] },
                    )
                }
        },
{
    if p == 0 {
        return;
    }
    let root = MemoryRoot::new(memory);
    proof {
        let m = memory@;
        if old(memory)@.ready() {
            assert forall|i: int|
                0 <= i < m.blocks().len() && (#[trigger] m.blocks()[i]).data() == p implies {
                let f = m.after_free(p);
                &&& f.live()
                &&& f.blocks() == m.blocks().update(
                    i,
                    MemoryBlock { status: MemoryStatus::Free.spec_code(), ..m.blocks()[i] },
                )
            } by {
                law_free(m, i);
            }
        }
    }
    match root.find_block(memory, p) {
        Some(found) => {
            let mut block = found;
            proof {
                lemma_with_freed(memory@, p);
                lemma_with_status(
                    memory@.bytes,
                    p - HEADER_SIZE,
                    MemoryStatus::Free.spec_code(),
                );
            }
            block.free();
            block.store(memory);

            // If the input pointer is freed for some reason, make sure the input
            // length is 0 since the original data is gone.
            let mut root = MemoryRoot::load(memory);
            if p == root.input_offset {
                root.input_length = 0;
                proof {
                    lemma_root_keeps_heap(memory@, root);
                }
                root.store(memory);
            }
        },
        None => {},
    }
}

/// Get the length of an allocated memory block.
pub fn length(memory: &mut LinearMemory, p: Pointer) -> (len: Length)
    requires
        p != 0 ==> old(memory)@.can_open(),
    ensures
        p == 0 ==> len == 0 && final(memory)@ == old(memory)@,
        p != 0 ==> {
            &&& old(memory)@.opens_to(final(memory)@)
            &&& len == final(memory)@.length_at(p)
            &&& old(memory)@.ready() ==> final(memory)@.live()
        },
{
    if p == 0 {
        return 0;
    }
    let root = MemoryRoot::new(memory);
    match root.find_block(memory, p) {
        Some(block) => block.used as Length,
        None => 0,
    }
}

/// Whether `width` bytes at `p` can be loaded and stored: either there are that
/// many, or the access will be refused.
pub fn can_access(memory: &LinearMemory, p: Pointer, width: u64) -> (yes: bool)
    requires
        memory@.wf(),
        1 <= width <= 8,
    ensures
        yes == (memory@.refuses(p, width as int) || memory@.reaches(p, width as int)),
{
    let size: u64 = memory.size();
    if memory.bounds_checking() {
        p > size || p + width != size + 1 || p + width - 1 < ROOT_SIZE
    } else {
        to_address(p) + width <= size
    }
}

/// Whether `width` bytes of the input can be loaded from its byte `p` on: either
/// memory has that many there, or the access will be refused.
pub fn can_access_input(memory: &mut LinearMemory, p: Pointer, width: u64) -> (yes: bool)
    requires
        old(memory)@.can_open(),
        1 <= width <= 8,
    ensures
        old(memory)@.opens_to(final(memory)@),
        yes == (final(memory)@.input_refuses(p, width as int) || final(memory)@.input_reaches(
            p,
            width as int,
        )),
        old(memory)@.ready() ==> final(memory)@.live(),
{
    let root = MemoryRoot::new(memory);
    if memory.bounds_checking() && (p > u64::MAX - width || p + width > root.input_length) {
        return true;
    }
    p <= u64::MAX - root.input_offset && to_address(root.input_offset + p) + width
        <= memory.size()
}

/// Load a byte from managed memory. With bounds checking, a pointer out of bounds
/// gives `0`; without it, the byte is loaded unconditionally.
pub fn load_u8(memory: &LinearMemory, p: Pointer) -> (x: u8)
    requires
        memory@.wf(),
        memory@.refuses(p, 1) || memory@.reaches(p, 1),
    ensures
        x == memory@.u8_at(p),
        ROOT_SIZE <= p < memory@.bytes.len() ==> x == memory@.bytes[p as int],
{
    if memory.bounds_checking() && !MemoryRoot::pointer_in_bounds_fast(memory, p) {
        return 0;
    }
    memory.read_u8(to_address(p))
}

/// Load a u64 from managed memory. With bounds checking, a pointer out of bounds
/// gives `0`; without it, the number is loaded unconditionally.
pub fn load_u64(memory: &LinearMemory, p: Pointer) -> (x: u64)
    requires
        memory@.wf(),
        memory@.refuses(p, 8) || memory@.reaches(p, 8),
    ensures
        x == memory@.u64_at(p),
        ROOT_SIZE <= p && p + 8 <= memory@.bytes.len() ==> x == get_u64(memory@.bytes, p as int),
{
    if memory.bounds_checking() && (p > u64::MAX - 7 || !MemoryRoot::pointer_in_bounds_fast(
        memory,
        p + 7,
    )) {
        return 0;
    }
    memory.read_u64(to_address(p))
}

/// Load a byte from the input data. With bounds checking, there are zeros behind
/// the end of the input; without it, there is what memory holds.
pub fn input_load_u8(memory: &mut LinearMemory, p: Pointer) -> (x: u8)
    requires
        old(memory)@.can_open(),
        old(memory)@.opened().input_refuses(p, 1) || old(memory)@.opened().input_reaches(p, 1),
    ensures
        old(memory)@.opens_to(final(memory)@),
        x == final(memory)@.input_u8_at(p),
        old(memory)@.ready() ==> final(memory)@.live(),
{
    let root = MemoryRoot::new(memory);
    if memory.bounds_checking() && p >= root.input_length {
        return 0;
    }
    memory.read_u8(to_address(root.input_offset + p))
}

/// Load a u64 from the input data. With bounds checking, the result is `0` where
/// the input does not hold all of its bytes; without it, it is what memory holds.
pub fn input_load_u64(memory: &mut LinearMemory, p: Pointer) -> (x: u64)
    requires
        old(memory)@.can_open(),
        old(memory)@.bounds_checking ==> p + 8 <= u64::MAX,
        old(memory)@.opened().input_refuses(p, 8) || old(memory)@.opened().input_reaches(p, 8),
    ensures
        old(memory)@.opens_to(final(memory)@),
        x == final(memory)@.input_u64_at(p),
        old(memory)@.ready() ==> final(memory)@.live(),
{
    let root = MemoryRoot::new(memory);
    if memory.bounds_checking() && p + 8 > root.input_length {
        return 0;
    }
    memory.read_u64(to_address(root.input_offset + p))
}

/// Write a byte in managed memory. With bounds checking, a pointer out of bounds
/// writes nothing; without it, the byte is written unconditionally.
pub fn store_u8(memory: &mut LinearMemory, p: Pointer, x: u8)
    requires
        old(memory)@.wf(),
        old(memory)@.refuses(p, 1) || old(memory)@.reaches(p, 1),
    ensures
        final(memory)@ == old(memory)@.after_store_u8(p, x),
        ROOT_SIZE <= p < old(memory)@.bytes.len() ==> {
            final(memory)@.bytes == old(memory)@.bytes.update(p as int, x)
        },
        final(memory)@.wf(),
{
    if memory.bounds_checking() && !MemoryRoot::pointer_in_bounds_fast(memory, p) {
        return;
    }
    memory.write_u8(to_address(p), x);
}

/// Write a u64 in managed memory. With bounds checking, a pointer out of bounds
/// writes nothing; without it, the number is written unconditionally.
pub fn store_u64(memory: &mut LinearMemory, p: Pointer, x: u64)
    requires
        old(memory)@.wf(),
        old(memory)@.refuses(p, 8) || old(memory)@.reaches(p, 8),
    ensures
        final(memory)@ == old(memory)@.after_store_u64(p, x),
        ROOT_SIZE <= p && p + 8 <= old(memory)@.bytes.len() ==> {
            &&& get_u64(final(memory)@.bytes, p as int) == x
            &&& agree(final(memory)@.bytes, old(memory)@.bytes, 0, p as int)
            &&& agree(
                final(memory)@.bytes,
                old(memory)@.bytes,
                p + 8,
                old(memory)@.bytes.len() as int,
            )
        },
        final(memory)@.wf(),
{
    if memory.bounds_checking() && (p > u64::MAX - 7 || !MemoryRoot::pointer_in_bounds_fast(
        memory,
        p + 7,
    )) {
        return;
    }
    proof {
        law_store(memory@, p, 0, x);
    }
    memory.write_u64(to_address(p), x);
}

/// Set the range of the input data in memory. With bounds checking, a range that is
/// not within the memory available to the allocator is ignored; without it, any
/// range is set.
pub fn input_set(memory: &mut LinearMemory, p: Pointer, len: Length)
    requires
        old(memory)@.can_open(),
        old(memory)@.bounds_checking && old(memory)@.opened().in_bounds(p as int) ==> p + len
            <= u64::MAX,
    ensures
        ({
            let m = old(memory)@.opened();
            &&& old(memory)@.opens_to(m)
            &&& final(memory)@ == m.after_input_set(p, len)
            &&& BLOCKS <= p && 0 < len && p + len <= BLOCKS + m.root().length ==> {
                &&& final(memory)@.root().input_offset == p
                &&& final(memory)@.root().input_length == len
            }
            &&& final(memory)@.bytes.len() == m.bytes.len()
            &&& agree(final(memory)@.bytes, m.bytes, BLOCKS as int, m.bytes.len() as int)
            &&& final(memory)@.root() == if m.accepts_range(p, len) {
                MemoryRoot { input_offset: p, input_length: len, ..m.root() }
            } else {
                m.root()
            }
            &&& final(memory)@.is_open()
            &&& old(memory)@.ready() ==> final(memory)@.live()
            &&& old(memory)@.ready() ==> final(memory)@.blocks() == m.blocks()
        }),
{
    let mut root = MemoryRoot::new(memory);
    if memory.bounds_checking() {
        if !root.pointer_in_bounds(p) || !root.pointer_in_bounds(p + len - 1) {
            return;
        }
    }
    root.input_offset = p;
    root.input_length = len;
    proof {
        lemma_root_keeps_heap(memory@, root);
    }
    root.store(memory);
}

/// Set the range of the output data in memory. With bounds checking, a range that is
/// not within the memory available to the allocator is ignored; without it, any
/// range is set.
pub fn output_set(memory: &mut LinearMemory, p: Pointer, len: Length)
    requires
        old(memory)@.can_open(),
        old(memory)@.bounds_checking && old(memory)@.opened().in_bounds(p as int) ==> p + len
            <= u64::MAX,
    ensures
        ({
            let m = old(memory)@.opened();
            &&& old(memory)@.opens_to(m)
            &&& final(memory)@ == m.after_output_set(p, len)
            &&& BLOCKS <= p && 0 < len && p + len <= BLOCKS + m.root().length ==> {
                &&& final(memory)@.root().output_offset == p
                &&& final(memory)@.root().output_length == len
            }
            &&& final(memory)@.bytes.len() == m.bytes.len()
            &&& agree(final(memory)@.bytes, m.bytes, BLOCKS as int, m.bytes.len() as int)
            &&& final(memory)@.root() == if m.accepts_range(p, len) {
                MemoryRoot { output_offset: p, output_length: len, ..m.root() }
            } else {
                m.root()
            }
            &&& final(memory)@.is_open()
            &&& old(memory)@.ready() ==> final(memory)@.live()
            &&& old(memory)@.ready() ==> final(memory)@.blocks() == m.blocks()
        }),
{
    let mut root = MemoryRoot::new(memory);
    if memory.bounds_checking() {
        if !root.pointer_in_bounds(p) || !root.pointer_in_bounds(p + len - 1) {
            return;
        }
    }
    root.output_offset = p;
    root.output_length = len;
    proof {
        lemma_root_keeps_heap(memory@, root);
    }
    root.store(memory);
}

/// Get the input length.
pub fn input_length(memory: &mut LinearMemory) -> (len: Length)
    requires
        old(memory)@.can_open(),
    ensures
        old(memory)@.opens_to(final(memory)@),
        len == final(memory)@.root().input_length,
        old(memory)@.ready() ==> final(memory)@.live(),
{
    MemoryRoot::new(memory).input_length
}

/// Get the input offset in managed memory.
pub fn input_offset(memory: &mut LinearMemory) -> (p: Length)
    requires
        old(memory)@.can_open(),
    ensures
        old(memory)@.opens_to(final(memory)@),
        p == final(memory)@.root().input_offset,
        old(memory)@.ready() ==> final(memory)@.live(),
{
    MemoryRoot::new(memory).input_offset
}

/// Get the output length.
pub fn output_length(memory: &mut LinearMemory) -> (len: Length)
    requires
        old(memory)@.can_open(),
    ensures
        old(memory)@.opens_to(final(memory)@),
        len == final(memory)@.root().output_length,
        old(memory)@.ready() ==> final(memory)@.live(),
{
    MemoryRoot::new(memory).output_length
}

/// Get the output offset in managed memory.
pub fn output_offset(memory: &mut LinearMemory) -> (p: Length)
    requires
        old(memory)@.can_open(),
    ensures
        old(memory)@.opens_to(final(memory)@),
        p == final(memory)@.root().output_offset,
        old(memory)@.ready() ==> final(memory)@.live(),
{
    MemoryRoot::new(memory).output_offset
}

/// Reset the allocator. This also brings back in order a heap that has been
/// overwritten.
pub fn reset(memory: &mut LinearMemory)
    requires
        old(memory)@.can_open(),
    ensures
        ({
            let m = old(memory)@.opened();
            &&& old(memory)@.opens_to(m)
            &&& final(memory)@ == m.after_reset()
            &&& final(memory)@.root() == (MemoryRoot { length: m.root().length, ..fresh_root() })
            &&& final(memory)@.is_open()
            &&& final(memory)@.blocks() == Seq::<MemoryBlock>::empty()
            &&& m.length_ok() ==> final(memory)@.live()
            &&& old(memory)@.ready() ==> final(memory)@.live()
        }),
{
    let mut root = MemoryRoot::new(memory);
    root.reset(memory);
}

/// Set the error message offset. `0` clears the error. With bounds checking, another
/// offset that is not within the memory available to the allocator is ignored;
/// without it, any offset is set.
pub fn error_set(memory: &mut LinearMemory, ptr: Pointer)
    requires
        old(memory)@.can_open(),
    ensures
        ({
            let m = old(memory)@.opened();
            &&& old(memory)@.opens_to(m)
            &&& final(memory)@ == m.after_error_set(ptr)
            &&& ptr == 0 || BLOCKS <= ptr < BLOCKS + m.root().length ==> {
                final(memory)@.root().error == ptr
            }
            &&& final(memory)@.bytes.len() == m.bytes.len()
            &&& agree(final(memory)@.bytes, m.bytes, BLOCKS as int, m.bytes.len() as int)
            &&& final(memory)@.root() == if m.accepts_error(ptr) {
                MemoryRoot { error: ptr, ..m.root() }
            } else {
                m.root()
            }
            &&& final(memory)@.is_open()
            &&& old(memory)@.ready() ==> final(memory)@.live()
            &&& old(memory)@.ready() ==> final(memory)@.blocks() == m.blocks()
        }),
{
    let mut root = MemoryRoot::new(memory);
    // Allow the error to be set to 0.
    if ptr != 0 && memory.bounds_checking() && !root.pointer_in_bounds(ptr) {
        return;
    }
    root.error = ptr;
    proof {
        lemma_root_keeps_heap(memory@, root);
    }
    root.store(memory);
}

/// Get the error message offset, if it's `0` then no error has been set.
pub fn error_get(memory: &mut LinearMemory) -> (p: Pointer)
    requires
        old(memory)@.can_open(),
    ensures
        old(memory)@.opens_to(final(memory)@),
        p == final(memory)@.root().error,
        old(memory)@.ready() ==> final(memory)@.live(),
{
    MemoryRoot::new(memory).error
}

/// Get the position of the allocator, this can be used as an indication of how
/// many bytes are currently in-use.
pub fn memory_bytes(memory: &mut LinearMemory) -> (len: Length)
    requires
        old(memory)@.can_open(),
    ensures
        old(memory)@.opens_to(final(memory)@),
        len == final(memory)@.root().position,
        old(memory)@.ready() ==> final(memory)@.live(),
{
    MemoryRoot::new(memory).position
}

} // verus!
