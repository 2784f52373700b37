//! The allocator.
//!
//! It is a bump allocator that tracks the `length` of the total number of bytes
//! available to it and the `position`, how much of them has been used. Blocks
//! that have been freed are used again. When a new allocation is larger than
//! the remaining size, the allocator asks the host for more memory.
use crate::bytes::zero_range;
use crate::effects::law_alloc_succeeds;
use crate::heap::{chain, first_fit_from, fits, front_part, is_split, linked, start_of};
use crate::heap::{lemma_after_alloc, lemma_after_find, lemma_blocks, lemma_first_fit};
use crate::heap::{lemma_linked_agree, lemma_order, lemma_with_block_twice, BLOCK_SPLIT_SIZE};
use crate::layout::{block_at, lemma_with_block, lemma_with_root, with_root};
use crate::layout::{MemoryBlock, MemoryRoot, MemoryStatus};
use crate::layout::{BLOCKS, HEADER_SIZE, INITIALIZED, ROOT_SIZE};
use crate::memory::{num_pages, Length, LinearMemory, MemoryState, Pointer, PAGE_SIZE};
use vstd::prelude::*;

verus! {

/// How many bytes behind the root initialization clears: the room of as many
/// headers as a header has bytes.
pub const CLEARED_SIZE: u64 = 144;

/// The root of a memory from which nothing has been allocated yet.
pub open spec fn fresh_root() -> MemoryRoot {
    MemoryRoot {
        initialized: true,
        position: 0,
        length: (PAGE_SIZE - ROOT_SIZE) as u64,
        error: 0,
        input_offset: 0,
        input_length: 0,
        output_offset: 0,
        output_length: 0,
    }
}

impl MemoryState {
    /// This memory with at least one page, to store the root.
    pub open spec fn with_page(self) -> MemoryState {
        if self.pages() == 0 {
            self.grown(1)
        } else {
            self
        }
    }

    /// This memory once it has been initialized: a memory that already was stays
    /// as it is; in another one the root is written, and the bytes behind it are
    /// cleared, which marks the first block as unused.
    pub open spec fn opened(self) -> MemoryState {
        let m = self.with_page();
        if m.root().initialized {
            m
        } else {
            let s = m.bytes.update(INITIALIZED as int, 1);
            let s = zero_range(s, BLOCKS as int, BLOCKS + CLEARED_SIZE);
            MemoryState { bytes: with_root(s, fresh_root()), ..m }
        }
    }

    /// This memory can be initialized: it has a page for the root, or the host
    /// grants one.
    pub open spec fn can_open(self) -> bool {
        self.wf() && self.limit >= 1
    }

    /// This memory has been initialized.
    pub open spec fn is_open(self) -> bool {
        self.wf() && self.pages() >= 1 && self.root().initialized
    }

    /// This memory has been initialized, and its heap is in order.
    pub open spec fn live(self) -> bool {
        self.is_open() && self.heap_ok()
    }

    /// This memory can be allocated from: it can be initialized, and if it
    /// already is, its heap is in order.
    pub open spec fn ready(self) -> bool {
        self.can_open() && (self.is_open() ==> self.heap_ok())
    }

    /// `t` is this memory once it has been initialized. A memory that already was
    /// is the same, another one has an empty heap.
    pub open spec fn opens_to(self, t: MemoryState) -> bool {
        &&& t == self.opened()
        &&& t.is_open()
        &&& self.is_open() ==> t == self
        &&& !self.is_open() ==> t.root() == fresh_root() && t.heap_ok()
        &&& !self.is_open() ==> t.blocks() == Seq::<MemoryBlock>::empty()
        &&& t.limit == self.limit
        &&& t.bounds_checking == self.bounds_checking
    }

    /// What is available to the allocator lies in memory and has room for the
    /// reserve.
    pub open spec fn length_ok(self) -> bool {
        &&& self.root().length + ROOT_SIZE <= self.bytes.len()
        &&& self.root().length + HEADER_SIZE >= ROOT_SIZE
    }

    /// Where the memory that a reset clears ends: behind all that is available
    /// to the allocator, or at the end of memory.
    pub open spec fn reset_end(self) -> int {
        if BLOCKS + self.root().length <= self.bytes.len() {
            BLOCKS + self.root().length
        } else {
            self.bytes.len() as int
        }
    }

    /// This memory after a reset: everything allocated is zero, and of the root
    /// only the size of the memory is left.
    pub open spec fn after_reset(self) -> MemoryState {
        let s = zero_range(self.bytes, BLOCKS as int, self.reset_end());
        let root = MemoryRoot { length: self.root().length, ..fresh_root() };
        MemoryState { bytes: with_root(s, root), ..self }
    }

    /// `p` lies in the memory that is available to the allocator.
    pub open spec fn in_bounds(self, p: int) -> bool {
        BLOCKS <= p < BLOCKS + self.root().length
    }

    /// `p` lies behind the root and in memory, or at its end. This is less
    /// accurate than `in_bounds`.
    pub open spec fn in_bounds_fast(self, p: int) -> bool {
        ROOT_SIZE <= p <= self.bytes.len()
    }
}

/// What initialization leaves.
pub proof fn lemma_opened(m: MemoryState)
    requires
        m.can_open(),
    ensures
        m.opens_to(m.opened()),
        m.ready() ==> m.opened().live(),
{
    let g = m.with_page();
    if m.pages() == 0 {
        assert(g.bytes[INITIALIZED as int] == 0);
    }
    if !g.root().initialized {
        let s = zero_range(
            g.bytes.update(INITIALIZED as int, 1),
            BLOCKS as int,
            BLOCKS + CLEARED_SIZE,
        );
        lemma_with_root(s, fresh_root());
        assert(s[INITIALIZED as int] == 1);
        assert(chain(m.opened().bytes, Seq::<MemoryBlock>::empty(), m.opened().heap_end()));
        lemma_blocks(m.opened(), Seq::<MemoryBlock>::empty());
    }
}

/// What a reset leaves.
pub proof fn lemma_after_reset(m: MemoryState)
    requires
        m.is_open(),
    ensures
        m.after_reset().is_open(),
        m.after_reset().bytes.len() == m.bytes.len(),
        m.after_reset().root() == (MemoryRoot { length: m.root().length, ..fresh_root() }),
        forall|i: int|
            BLOCKS <= i < m.reset_end() ==> #[trigger] m.after_reset().bytes[i] == 0,
        m.after_reset().blocks() == Seq::<MemoryBlock>::empty(),
        m.length_ok() ==> m.after_reset().heap_ok(),
{
    let s = zero_range(m.bytes, BLOCKS as int, m.reset_end());
    let root = MemoryRoot { length: m.root().length, ..fresh_root() };
    let t = m.after_reset();
    lemma_with_root(s, root);
    assert(s[INITIALIZED as int] == m.bytes[INITIALIZED as int]);
    assert(chain(t.bytes, Seq::<MemoryBlock>::empty(), t.heap_end()));
    lemma_blocks(t, Seq::<MemoryBlock>::empty());
}

impl MemoryRoot {
    /// Initialize or load the `MemoryRoot` from the correct position in memory.
    pub fn new(memory: &mut LinearMemory) -> (root: MemoryRoot)
        requires
            old(memory)@.can_open(),
        ensures
            old(memory)@.opens_to(final(memory)@),
            root == final(memory)@.root(),
            old(memory)@.ready() ==> final(memory)@.live(),
    {
        proof {
            lemma_opened(memory@);
        }
        // Ensure that at least one page is allocated to store the root.
        if memory.memory_size() == 0 {
            memory.memory_grow(1);
        }
        let mut root = MemoryRoot::load(memory);
        if root.initialized {
            return root;
        }
        root.initialized = true;
        root.position = 0;
        root.length = PAGE_SIZE as u64 - ROOT_SIZE;
        root.error = 0;
        root.input_offset = 0;
        root.input_length = 0;
        root.output_offset = 0;
        root.output_length = 0;

        memory.write_u8(INITIALIZED, 1);
        // Ensure the first block is marked as unused.
        memory.fill_zero(BLOCKS, BLOCKS + CLEARED_SIZE);
        root.store(memory);
        root
    }

    /// Resets the position of the allocator and zeroes out all allocations. No
    /// block is left, whatever was in their place, so this brings back in order a
    /// heap that has been overwritten.
    pub fn reset(&mut self, memory: &mut LinearMemory)
        requires
            old(memory)@.is_open(),
            *old(self) == old(memory)@.root(),
        ensures
            final(memory)@ == old(memory)@.after_reset(),
            *final(self) == final(memory)@.root(),
            *final(self) == (MemoryRoot { length: old(self).length, ..fresh_root() }),
            final(memory)@.is_open(),
            final(memory)@.blocks() == Seq::<MemoryBlock>::empty(),
            old(memory)@.length_ok() ==> final(memory)@.live(),
    {
        let size: u64 = memory.size();
        let end: u64 = if self.length <= size - BLOCKS {
            BLOCKS + self.length
        } else {
            size
        };
        memory.fill_zero(BLOCKS, end);
        self.position = 0;
        self.error = 0;
        self.input_offset = 0;
        self.input_length = 0;
        self.output_offset = 0;
        self.output_length = 0;
        self.store(memory);
        proof {
            lemma_after_reset(old(memory)@);
        }
    }

    /// Whether `p` lies in the memory that is available to the allocator.
    pub fn pointer_in_bounds(&self, p: Pointer) -> (yes: bool)
        ensures
            yes == (BLOCKS <= p < BLOCKS + self.length),
    {
        p >= BLOCKS && p - BLOCKS < self.length
    }

    /// Similar to `pointer_in_bounds` but less accurate on the upper bound. This
    /// uses the total memory size, instead of `length`.
    pub fn pointer_in_bounds_fast(memory: &LinearMemory, p: Pointer) -> (yes: bool)
        requires
            memory@.wf(),
        ensures
            yes == memory@.in_bounds_fast(p as int),
            yes == (ROOT_SIZE <= p <= memory@.bytes.len()),
    {
        p >= ROOT_SIZE && p <= memory.size()
    }

    /// Find a block that is free to use: an unused or freed block of at least
    /// `length` bytes. One with too much excess is split, and its back part is
    /// the block found. The `self_position` argument is used to avoid loading the
    /// allocator's position more than once when performing an allocation.
    pub fn find_free_block(
        &self,
        memory: &mut LinearMemory,
        length: Length,
        self_position: u64,
    ) -> (block: Option<MemoryBlock>)
        requires
            old(memory)@.wf(),
            old(memory)@.heap_ok(),
            self_position == old(memory)@.root().position,
        ensures
            block == if old(memory)@.can_reuse(length as int) {
                Some(old(memory)@.found_block(length as int))
            } else {
                None
            },
            final(memory)@ == old(memory)@.after_find(length as int),
            final(memory)@.wf(),
            final(memory)@.heap_ok(),
            final(memory)@.root() == old(memory)@.root(),
            final(memory)@.bytes.len() == old(memory)@.bytes.len(),
            final(memory)@.blocks() == old(memory)@.find_blocks(length as int),
            block matches Some(found) ==> {
                let old_block = old(memory)@.blocks()[old(memory)@.first_fit(length as int)];
                &&& length <= found.size < length + BLOCK_SPLIT_SIZE
                &&& found.end() == old_block.end()
                &&& is_split(old_block, length as int) ==> {
                    let front = front_part(old_block, length as int);
                    &&& front.end() == found.offset
                    &&& front.size + HEADER_SIZE + found.size == old_block.size
                }
            },
    {
        let ghost m = memory@;
        let ghost bs = m.blocks();
        let ghost n = length as int;
        let ghost mut i: int = 0;
        proof {
            assert(chain(m.bytes, bs, m.heap_end()));
            lemma_first_fit(bs, n, 0);
        }
        // Get the first block.
        let mut at: u64 = BLOCKS;
        let end: u64 = BLOCKS + self_position;

        // Only loop while the block pointer is less than the current position.
        while at < end
            invariant
                memory@ == m,
                m == old(memory)@,
                m.wf(),
                m.heap_ok(),
                bs == m.blocks(),
                n == length,
                end == m.heap_end(),
                chain(m.bytes, bs, end as int),
                0 <= i <= bs.len(),
                at == start_of(bs, i),
                m.first_fit(n) == first_fit_from(bs, n, i),
            decreases bs.len() - i,
        {
            proof {
                lemma_order(m.bytes, bs, i, bs.len() as int);
                assert(start_of(bs, i) == bs[i].offset);
                assert(bs[i] == block_at(m.bytes, at as int));
                if i > 0 {
                    lemma_order(m.bytes, bs, 0, i);
                }
            }
            let mut b = MemoryBlock::load(memory, at);

            // Re-use unused and freed blocks when they're large enough.
            if (b.status == MemoryStatus::Unused.code() || b.status == MemoryStatus::Free.code())
                && b.size as u64 >= length {
                assert(fits(bs[i], n));
                assert(m.first_fit(n) == i);
                proof {
                    lemma_after_find(m, n);
                }
                // Split block if there is too much excess.
                if b.size as u64 - length >= BLOCK_SPLIT_SIZE {
                    b.size = b.size - length as u32 - HEADER_SIZE as u32;
                    b.used = 0;
                    assert(b == front_part(bs[i], n));
                    b.store(memory);

                    let b1 = MemoryBlock {
                        offset: b.next_ptr() as u32,
                        status: MemoryStatus::Free.code(),
                        size: length as u32,
                        used: 0,
                    };
                    b1.store(memory);
                    assert(memory@ == m.after_find(n));
                    return Some(b1);
                }
                // Otherwise return the whole block.
                return Some(b);
            }
            // Get the next block.
            at = b.next_ptr();
            proof {
                i = i + 1;
            }
        }
        proof {
            if i < bs.len() {
                lemma_order(m.bytes, bs, i, bs.len() as int);
            }
        }
        None
    }

    /// Create a new `MemoryBlock`, when `Some(block)` is returned, `block` will
    /// contain at least enough room for `length` bytes but may be as large as
    /// `length` + `BLOCK_SPLIT_SIZE` bytes. When `None` is returned the allocation
    /// has failed.
    pub fn allocate(&mut self, memory: &mut LinearMemory, length: Length) -> (block: Option<
        MemoryBlock,
    >)
        requires
            old(memory)@.wf(),
            old(memory)@.heap_ok(),
            *old(self) == old(memory)@.root(),
        ensures
            final(memory)@ == old(memory)@.after_alloc(length as int),
            block == if old(memory)@.can_alloc(length as int) {
                Some(old(memory)@.alloc_block(length as int))
            } else {
                None
            },
            *final(self) == final(memory)@.root(),
            *final(self) == old(memory)@.alloc_root(length as int),
            final(memory)@.wf(),
            final(memory)@.heap_ok(),
            final(memory)@.blocks() == old(memory)@.alloc_blocks(length as int),
            block is Some <==> {
                let m = old(memory)@;
                ||| exists|j: int|
                    0 <= j < m.blocks().len() && (#[trigger] m.blocks()[j]).status != 1
                        && m.blocks()[j].status <= 2 && length <= m.blocks()[j].size
                ||| m.root().position + length + ROOT_SIZE <= m.root().length + (m.limit * PAGE_SIZE
                    - m.bytes.len())
            },
            block is None ==> final(memory)@ == old(memory)@,
            block matches Some(b) ==> {
                &&& length <= b.size < length + BLOCK_SPLIT_SIZE
                &&& b.used == length
                &&& b.end() <= final(memory)@.heap_end() <= final(memory)@.bytes.len()
            },
    {
        let ghost m = memory@;
        let ghost n = length as int;
        let ghost bs = m.blocks();
        proof {
            lemma_after_alloc(m, n);
            law_alloc_succeeds(m, length);
            lemma_first_fit(bs, n, 0);
            assert(chain(m.bytes, bs, m.heap_end()));
            if m.can_reuse(n) {
                lemma_order(m.bytes, bs, m.first_fit(n), bs.len() as int);
            }
        }
        let self_position: u64 = self.position;
        let self_length: u64 = self.length;

        // If there's a free block then re-use it.
        match self.find_free_block(memory, length, self_position) {
            Some(found) => {
                let mut b = found;
                b.used = length as u32;
                b.status = MemoryStatus::Active.code();
                b.store(memory);
                proof {
                    assert(b == m.alloc_block(n));
                    if is_split(bs[m.first_fit(n)], n) {
                        lemma_with_block(m.bytes, front_part(bs[m.first_fit(n)], n));
                        lemma_with_block_twice(m.after_split(n).bytes, found, b);
                    }
                }
                return Some(b);
            },
            None => {},
        }

        // No memory has room for more than 32 bits can count.
        if length > 0xffff_ffff {
            assert(m.pages() + m.growth(n) > m.limit);
            return None;
        }
        // When the allocation is larger than the number of bytes available we
        // will need to try to grow the memory.
        let needed: u64 = self_position + length + ROOT_SIZE;
        if needed >= self_length {
            // Calculate the number of pages needed to cover the remaining bytes.
            let npages: usize = num_pages(needed - self_length);
            assert(npages == m.growth(n));
            let x: usize = memory.memory_grow(npages);
            if x == usize::MAX {
                return None;
            }
            self.length = self_length + npages as u64 * PAGE_SIZE as u64;
        } else {
            assert(m.grown(0) =~= m);
        }

        // Bump the position by the size of the actual data + the size of the header.
        self.position = self_position + HEADER_SIZE + length;

        // Initialize a new block at the current position.
        let block = MemoryBlock {
            offset: (BLOCKS + self_position) as u32,
            status: MemoryStatus::Active.code(),
            size: length as u32,
            used: length as u32,
        };
        block.store(memory);
        self.store(memory);
        Some(block)
    }

    /// Finds the block at an offset in memory: the one whose header lies right
    /// before `offs`. Nothing tells whether a block was ever put there.
    pub fn find_block(&self, memory: &LinearMemory, offs: Pointer) -> (block: Option<MemoryBlock>)
        requires
            memory@.wf(),
        ensures
            block == if memory@.in_bounds_fast(offs as int) {
                Some(block_at(memory@.bytes, offs - HEADER_SIZE))
            } else {
                None
            },
    {
        if !MemoryRoot::pointer_in_bounds_fast(memory, offs) {
            return None;
        }
        Some(MemoryBlock::load(memory, offs - HEADER_SIZE))
    }
}

impl LinearMemory {
    /// Whether this memory can be allocated from: it can be initialized, and if
    /// it already is, its blocks fill the heap one behind the other.
    pub fn is_ready(&self) -> (yes: bool)
        requires
            self@.wf(),
        ensures
            yes == self@.ready(),
    {
        if self.limit() == 0 {
            return false;
        }
        if self.memory_size() == 0 {
            return true;
        }
        let root = MemoryRoot::load(self);
        if !root.initialized {
            return true;
        }
        let size: u64 = self.size();
        if root.length > size - ROOT_SIZE || root.position > root.length || root.position
            + ROOT_SIZE > root.length + HEADER_SIZE {
            return false;
        }
        let ghost s = self@.bytes;
        let ghost mut bs: Seq<MemoryBlock> = Seq::empty();
        let end: u64 = BLOCKS + root.position;
        let mut at: u64 = BLOCKS;
        while at < end
            invariant
                self@.wf(),
                s == self@.bytes,
                self@.is_open(),
                end == self@.heap_end(),
                at <= end <= s.len(),
                linked(s, bs),
                at == start_of(bs, bs.len() as int),
                forall|cs: Seq<MemoryBlock>| #[trigger]
                    chain(s, cs, end as int) ==> bs.len() <= cs.len(),
            decreases end - at,
        {
            proof {
                assert forall|cs: Seq<MemoryBlock>| #[trigger]
                    chain(s, cs, end as int) implies bs.len() < cs.len() && cs[bs.len() as int]
                    == block_at(s, at as int) && cs[bs.len() as int].end() <= end by {
                    let k = bs.len() as int;
                    lemma_linked_agree(s, bs, cs, k);
                    assert(start_of(cs, k) == cs[k].offset);
                    lemma_order(s, cs, k, cs.len() as int);
                }
            }
            if end - at < HEADER_SIZE {
                return false;
            }
            let block = MemoryBlock::load(self, at);
            let next: u64 = block.next_ptr();
            if next > end {
                return false;
            }
            proof {
                let cs = bs.push(block);
                assert forall|i: int| 0 <= i < cs.len() implies #[trigger] start_of(cs, i)
                    == cs[i].offset by {
                    if i < bs.len() {
                        assert(start_of(bs, i) == bs[i].offset);
                    }
                }
                bs = cs;
            }
            at = next;
        }
        assert(chain(s, bs, end as int));
        true
    }
}

} // verus!
