//! What each operation does, told in bytes and numbers.
//!
//! The contracts of the functions name the memory that they leave. The laws here
//! say of each of these memories which bytes it has and when, so that nothing has
//! to be looked up to know what an operation is for.
use crate::bytes::{agree, get_u32, get_u64, lemma_get_u32, lemma_same_u32};
use crate::bytes::{lemma_set_u64, zero_range};
use crate::exports::lemma_with_freed;
use crate::heap::{chain, fits, front_part, lemma_after_alloc, lemma_after_find, lemma_blocks};
use crate::heap::{lemma_first_fit, lemma_order, start_of, BLOCK_SPLIT_SIZE};
use crate::layout::{block_at, lemma_root_of, lemma_with_block, lemma_with_root, with_block};
use crate::layout::with_root;
use crate::layout::{MemoryBlock, MemoryRoot, MemoryStatus, BLOCKS, ERROR, HEADER_SIZE};
use crate::layout::{INITIALIZED, INPUT_LENGTH, INPUT_OFFSET, LENGTH, OUTPUT_LENGTH};
use crate::layout::{OUTPUT_OFFSET, POSITION, ROOT_SIZE};
use crate::memory::{Length, MemoryState, Pointer, MAX_PAGES, PAGE_SIZE};
use crate::root::{fresh_root, lemma_after_reset, lemma_opened, CLEARED_SIZE};
use vstd::prelude::*;

verus! {

/// The sizes and places that everything else is told in.
pub proof fn law_places()
    ensures
        PAGE_SIZE == 65536 && MAX_PAGES == 65536,
        ROOT_SIZE == 64 && HEADER_SIZE == 12 && BLOCKS == 65,
        BLOCK_SPLIT_SIZE == 128 && CLEARED_SIZE == 12 * 12,
        INITIALIZED == 1 && POSITION == 9 && LENGTH == 17 && ERROR == 25,
        INPUT_OFFSET == 33 && INPUT_LENGTH == 41,
        OUTPUT_OFFSET == 49 && OUTPUT_LENGTH == 57,
        MemoryStatus::Unused.spec_code() == 0,
        MemoryStatus::Active.spec_code() == 1,
        MemoryStatus::Free.spec_code() == 2,
{
}

/// Numbers are little-endian.
pub proof fn law_numbers(s: Seq<u8>, at: int)
    ensures
        get_u32(s, at) == s[at] + 256 * s[at + 1] + 65536 * s[at + 2] + 16777216 * s[at + 3],
        get_u64(s, at) == get_u32(s, at) + 4294967296 * get_u32(s, at + 4),
{
    reveal(get_u32);
    reveal(get_u64);
}

/// Where two memories are said to agree, each byte of one is that of the other.
pub proof fn law_agree(s: Seq<u8>, t: Seq<u8>, from: int, to: int)
    ensures
        agree(s, t, from, to) <==> forall|i: int| from <= i < to ==> s[i] == #[trigger] t[i],
{
    if agree(s, t, from, to) {
        assert forall|i: int| from <= i < to implies s[i] == #[trigger] t[i] by {
            assert(s[i] == t[i]);
        }
    }
}

/// A block is what its header says, at the place where the header lies. Its data
/// follow the header, and the next block follows its data.
pub proof fn law_header(s: Seq<u8>, at: u32, block: MemoryBlock)
    ensures
        block.data() == block.offset + HEADER_SIZE,
        block.end() == block.offset + HEADER_SIZE + block.size,
        ({
            let b = block_at(s, at as int);
            &&& b.offset == at
            &&& b.status == s[at as int]
            &&& b.size == get_u32(s, at + 4)
            &&& b.used == get_u32(s, at + 8)
        }),
{
}

/// Writing a header puts its status and its two numbers in their places and changes
/// no other byte.
pub proof fn law_store_header(s: Seq<u8>, b: MemoryBlock)
    requires
        b.offset + HEADER_SIZE <= s.len(),
    ensures
        ({
            let t = with_block(s, b);
            &&& t.len() == s.len()
            &&& t[b.offset as int] == b.status
            &&& get_u32(t, b.offset + 4) == b.size
            &&& get_u32(t, b.offset + 8) == b.used
            &&& forall|j: int|
                0 <= j < s.len() && j != b.offset && !(b.offset + 4 <= j < b.offset + 12)
                    ==> #[trigger] t[j] == s[j]
        }),
{
    lemma_with_block(s, b);
    assert(block_at(with_block(s, b), b.offset as int) == b);
}

/// Writing the root puts its seven numbers in their places and changes no other
/// byte.
pub proof fn law_store_root(s: Seq<u8>, r: MemoryRoot)
    requires
        BLOCKS <= s.len(),
    ensures
        ({
            let t = with_root(s, r);
            &&& t.len() == s.len()
            &&& get_u64(t, POSITION as int) == r.position
            &&& get_u64(t, LENGTH as int) == r.length
            &&& get_u64(t, ERROR as int) == r.error
            &&& get_u64(t, INPUT_OFFSET as int) == r.input_offset
            &&& get_u64(t, INPUT_LENGTH as int) == r.input_length
            &&& get_u64(t, OUTPUT_OFFSET as int) == r.output_offset
            &&& get_u64(t, OUTPUT_LENGTH as int) == r.output_length
            &&& agree(t, s, 0, POSITION as int)
            &&& agree(t, s, BLOCKS as int, s.len() as int)
        }),
{
    lemma_with_root(s, r);
}

/// The root is what its bytes say.
pub proof fn law_root(m: MemoryState)
    ensures
        m.root().initialized == (m.bytes[INITIALIZED as int] != 0),
        m.root().position == get_u64(m.bytes, POSITION as int),
        m.root().length == get_u64(m.bytes, LENGTH as int),
        m.root().error == get_u64(m.bytes, ERROR as int),
        m.root().input_offset == get_u64(m.bytes, INPUT_OFFSET as int),
        m.root().input_length == get_u64(m.bytes, INPUT_LENGTH as int),
        m.root().output_offset == get_u64(m.bytes, OUTPUT_OFFSET as int),
        m.root().output_length == get_u64(m.bytes, OUTPUT_LENGTH as int),
{
}

/// Memory has whole pages, no more than the limit, and any limit that 32-bit
/// addresses and the machine can reach will do. It can be initialized wherever
/// the limit lets it have a page, and is initialized once the flag is set.
pub proof fn law_memory(m: MemoryState)
    ensures
        m.wf() <==> {
            &&& m.bytes.len() % PAGE_SIZE as nat == 0
            &&& m.bytes.len() <= m.limit * PAGE_SIZE <= usize::MAX
            &&& m.limit <= MAX_PAGES
        },
        m.wf() ==> m.bytes.len() == m.pages() * PAGE_SIZE,
        m.can_open() <==> m.wf() && m.limit > 0,
        m.is_open() <==> m.wf() && m.bytes.len() > 0 && m.bytes[INITIALIZED as int] != 0,
        m.live() <==> m.is_open() && m.heap_ok(),
        m.ready() <==> m.can_open() && (m.is_open() ==> m.live()),
{
}

/// What is available to the allocator starts behind the root and is as long as the
/// root says; the fast bounds are the end of the root and the end of memory.
pub proof fn law_bounds(m: MemoryState, p: int)
    ensures
        m.in_bounds(p) <==> BLOCKS <= p < BLOCKS + m.root().length,
        m.in_bounds_fast(p) <==> ROOT_SIZE <= p <= m.bytes.len(),
{
}

/// Growing adds zeros at the end and changes nothing else.
pub proof fn law_grown(m: MemoryState, delta: int)
    requires
        0 <= delta,
    ensures
        m.grown(delta).bytes.len() == m.bytes.len() + delta * PAGE_SIZE,
        agree(m.grown(delta).bytes, m.bytes, 0, m.bytes.len() as int),
        forall|j: int|
            m.bytes.len() <= j < m.bytes.len() + delta * PAGE_SIZE ==> #[trigger] m.grown(
                delta,
            ).bytes[j] == 0,
        m.grown(delta).limit == m.limit,
        m.grown(delta).bounds_checking == m.bounds_checking,
{
}

/// The blocks of a heap in order: the first one lies behind the root, each other
/// one at the end of the one before it, and the last one ends at the position of
/// the allocator, below which the reserve is kept. Each is what its header says.
pub proof fn law_heap(m: MemoryState)
    requires
        m.heap_ok(),
    ensures
        m.root().position + ROOT_SIZE <= m.root().length + HEADER_SIZE,
        m.root().length + ROOT_SIZE <= m.bytes.len(),
        m.heap_end() == BLOCKS + m.root().position,
        m.blocks().len() == 0 <==> m.root().position == 0,
        m.blocks().len() > 0 ==> m.blocks()[0].offset == BLOCKS,
        m.blocks().len() > 0 ==> m.blocks().last().end() == BLOCKS + m.root().position,
        forall|i: int, j: int|
            0 <= i < m.blocks().len() && j == i + 1 && j < m.blocks().len()
                ==> #[trigger] m.blocks()[i].end() == #[trigger] m.blocks()[j].offset,
        forall|i: int|
            0 <= i < m.blocks().len() ==> #[trigger] m.blocks()[i] == block_at(
                m.bytes,
                m.blocks()[i].offset as int,
            ),
{
    let bs = m.blocks();
    assert(chain(m.bytes, bs, m.heap_end()));
    if bs.len() > 0 {
        assert(start_of(bs, 0) == bs[0].offset);
        lemma_order(m.bytes, bs, 0, bs.len() as int);
    }
    assert forall|i: int, j: int| 0 <= i < bs.len() && j == i + 1 && j < bs.len() implies
        #[trigger] bs[i].end() == #[trigger] bs[j].offset by {
        assert(start_of(bs, j) == bs[j].offset);
    }
}

/// Whatever blocks lie in memory that way, the heap is in order, and these are its
/// blocks.
pub proof fn law_heap_of(m: MemoryState, bs: Seq<MemoryBlock>)
    requires
        m.root().position + ROOT_SIZE <= m.root().length + HEADER_SIZE,
        m.root().length + ROOT_SIZE <= m.bytes.len(),
        bs.len() == 0 ==> m.root().position == 0,
        bs.len() > 0 ==> bs[0].offset == BLOCKS,
        bs.len() > 0 ==> bs.last().end() == BLOCKS + m.root().position,
        forall|i: int, j: int|
            0 <= i < bs.len() && j == i + 1 && j < bs.len() ==> #[trigger] bs[i].end()
                == #[trigger] bs[j].offset,
        forall|i: int|
            0 <= i < bs.len() ==> #[trigger] bs[i] == block_at(m.bytes, bs[i].offset as int),
    ensures
        m.heap_ok(),
        m.blocks() == bs,
{
    assert forall|j: int| 0 <= j < bs.len() implies #[trigger] start_of(bs, j)
        == bs[j].offset by {
        if j > 0 {
            assert(bs[j - 1].end() == bs[j].offset);
        }
    }
    assert(chain(m.bytes, bs, m.heap_end()));
    lemma_blocks(m, bs);
}

/// Initialization leaves a memory alone whose flag is set. Any other memory gets a
/// first page if it has none, and then the flag, a length of one page less the
/// root, zeros in all other numbers of the root, and zeros behind the root. No
/// other byte changes.
pub proof fn law_open(m: MemoryState)
    requires
        m.can_open(),
    ensures
        ({
            let t = m.opened();
            let size = if m.bytes.len() == 0 {
                PAGE_SIZE as nat
            } else {
                m.bytes.len()
            };
            if m.bytes.len() > 0 && m.bytes[INITIALIZED as int] != 0 {
                t == m
            } else {
                &&& t.bytes.len() == size
                &&& t.limit == m.limit
                &&& t.bounds_checking == m.bounds_checking
                &&& t.bytes[INITIALIZED as int] == 1
                &&& get_u64(t.bytes, POSITION as int) == 0
                &&& get_u64(t.bytes, LENGTH as int) == PAGE_SIZE - ROOT_SIZE
                &&& get_u64(t.bytes, ERROR as int) == 0
                &&& get_u64(t.bytes, INPUT_OFFSET as int) == 0
                &&& get_u64(t.bytes, INPUT_LENGTH as int) == 0
                &&& get_u64(t.bytes, OUTPUT_OFFSET as int) == 0
                &&& get_u64(t.bytes, OUTPUT_LENGTH as int) == 0
                &&& forall|j: int|
                    BLOCKS <= j < BLOCKS + CLEARED_SIZE ==> #[trigger] t.bytes[j] == 0
                &&& forall|j: int|
                    0 <= j < size && j != INITIALIZED && !(POSITION <= j < BLOCKS + CLEARED_SIZE)
                        ==> #[trigger] t.bytes[j] == if j < m.bytes.len() {
                        m.bytes[j]
                    } else {
                        0
                    }
                &&& t.heap_ok()
                &&& t.blocks().len() == 0
            }
        }),
{
    lemma_opened(m);
    let g = m.with_page();
    if m.bytes.len() == 0 {
        law_grown(m, 1);
    }
    let s = zero_range(
        g.bytes.update(INITIALIZED as int, 1),
        BLOCKS as int,
        BLOCKS + CLEARED_SIZE,
    );
    lemma_with_root(s, fresh_root());
}

/// Initialization leaves one memory, and that memory is reached.
pub proof fn law_opens_to(m: MemoryState, t: MemoryState)
    requires
        m.can_open(),
    ensures
        m.opens_to(t) <==> t == m.opened(),
{
    lemma_opened(m);
}

/// A reset keeps the flag and the length, puts zeros in all other numbers of the
/// root, and zeros in all that is available to the allocator as far as memory
/// goes. No other byte changes, no block is left, and the heap is in order wherever
/// the length is one that memory has.
pub proof fn law_reset_bytes(m: MemoryState)
    requires
        m.is_open(),
    ensures
        ({
            let t = m.after_reset();
            let end = BLOCKS + m.root().length;
            &&& t.bytes.len() == m.bytes.len()
            &&& t.limit == m.limit
            &&& t.bounds_checking == m.bounds_checking
            &&& get_u64(t.bytes, POSITION as int) == 0
            &&& get_u64(t.bytes, ERROR as int) == 0
            &&& get_u64(t.bytes, INPUT_OFFSET as int) == 0
            &&& get_u64(t.bytes, INPUT_LENGTH as int) == 0
            &&& get_u64(t.bytes, OUTPUT_OFFSET as int) == 0
            &&& get_u64(t.bytes, OUTPUT_LENGTH as int) == 0
            &&& forall|j: int|
                BLOCKS <= j < end && j < m.bytes.len() ==> #[trigger] t.bytes[j] == 0
            &&& forall|j: int|
                0 <= j < m.bytes.len() && !(POSITION <= j < LENGTH) && !(ERROR <= j < BLOCKS) && !(
                BLOCKS <= j < end) ==> #[trigger] t.bytes[j] == m.bytes[j]
            &&& t.blocks().len() == 0
            &&& m.root().length + ROOT_SIZE <= m.bytes.len() && m.root().length + HEADER_SIZE
                >= ROOT_SIZE ==> t.heap_ok()
        }),
{
    lemma_after_reset(m);
    let s = zero_range(m.bytes, BLOCKS as int, m.reset_end());
    lemma_root_of(s, m.bytes);
    lemma_with_root(s, MemoryRoot { length: m.root().length, ..fresh_root() });
}

/// A block that has room is found: the first one. Nothing is found where none has
/// room.
pub proof fn law_first_fit(m: MemoryState, n: Length, i: int)
    ensures
        m.can_reuse(n as int) <==> exists|j: int|
            0 <= j < m.blocks().len() && (#[trigger] m.blocks()[j]).status != 1
                && m.blocks()[j].status <= 2 && n <= m.blocks()[j].size,
        0 <= i < m.blocks().len() && m.blocks()[i].status != 1 && m.blocks()[i].status <= 2 && n
            <= m.blocks()[i].size ==> m.can_reuse(n as int) && m.first_fit(n as int) <= i,
        m.can_reuse(n as int) ==> {
            let b = m.blocks()[m.first_fit(n as int)];
            &&& 0 <= m.first_fit(n as int) < m.blocks().len()
            &&& b.status == 0 || b.status == 2
            &&& n <= b.size
        },
        !m.can_reuse(n as int) ==> m.after_find(n as int) == m,
{
    lemma_first_fit(m.blocks(), n as int, 0);
    if 0 <= i < m.blocks().len() && m.blocks()[i].status != 1 && m.blocks()[i].status <= 2 && n
        <= m.blocks()[i].size {
        assert(fits(m.blocks()[i], n as int));
    }
    if m.can_reuse(n as int) {
        let b = m.blocks()[m.first_fit(n as int)];
        assert(fits(b, n as int));
        assert(b.status != 1 && b.status <= 2 && n <= b.size);
    } else {
        assert forall|j: int| 0 <= j < m.blocks().len() implies !((#[trigger] m.blocks()[j]).status
            != 1 && m.blocks()[j].status <= 2 && n <= m.blocks()[j].size) by {
            assert(!fits(m.blocks()[j], n as int));
        }
    }
}

/// An allocation succeeds whenever a block that is not in use has room, or the
/// pages that the host still grants make the space behind the position large
/// enough for the data and the reserve. It fails only otherwise.
pub proof fn law_alloc_succeeds(m: MemoryState, n: Length)
    requires
        m.wf(),
    ensures
        m.can_alloc(n as int) <==> {
            ||| exists|j: int|
                0 <= j < m.blocks().len() && (#[trigger] m.blocks()[j]).status != 1
                    && m.blocks()[j].status <= 2 && n <= m.blocks()[j].size
            ||| m.root().position + n + ROOT_SIZE <= m.root().length + (m.limit * PAGE_SIZE
                - m.bytes.len())
        },
        !m.can_alloc(n as int) ==> m.after_alloc(n as int) == m,
{
    law_first_fit(m, n, 0);
}

/// A block that is used again and not split: only its status and the number of
/// bytes in use change, in the block and in memory.
pub proof fn law_alloc_whole(m: MemoryState, n: Length, i: int)
    requires
        m.wf(),
        m.heap_ok(),
        0 <= i < m.blocks().len(),
        m.blocks()[i].status == 0 || m.blocks()[i].status == 2,
        n <= m.blocks()[i].size < n + BLOCK_SPLIT_SIZE,
        forall|j: int|
            0 <= j < i ==> !((#[trigger] m.blocks()[j]).status != 1 && m.blocks()[j].status <= 2
                && n <= m.blocks()[j].size),
    ensures
        ({
            let b = m.blocks()[i];
            let c = MemoryBlock { status: 1, used: n as u32, ..b };
            let t = m.after_alloc(n as int);
            &&& m.can_alloc(n as int)
            &&& m.alloc_block(n as int) == c
            &&& t.heap_ok()
            &&& t.blocks() == m.blocks().update(i, c)
            &&& t.root() == m.root()
            &&& t.limit == m.limit
            &&& t.bounds_checking == m.bounds_checking
            &&& t.bytes.len() == m.bytes.len()
            &&& t.bytes[b.offset as int] == 1
            &&& get_u32(t.bytes, b.offset + 8) == n
            &&& forall|j: int|
                0 <= j < m.bytes.len() && j != b.offset && !(b.offset + 8 <= j < b.offset + 12)
                    ==> #[trigger] t.bytes[j] == m.bytes[j]
            &&& m.found_block(n as int) == b
            &&& m.after_find(n as int) == m
        }),
{
    let bs = m.blocks();
    let b = bs[i];
    let t = m.after_alloc(n as int);
    law_first_fit(m, n, i);
    lemma_first_fit(bs, n as int, 0);
    assert(m.first_fit(n as int) == i) by {
        let f = m.first_fit(n as int);
        if f < i {
            assert(fits(bs[f], n as int));
            assert(bs[f].status != 1);
        }
    }
    lemma_after_alloc(m, n as int);
    assert(chain(m.bytes, bs, m.heap_end()));
    lemma_order(m.bytes, bs, i, bs.len() as int);
    assert(start_of(bs, i) == b.offset);
    lemma_with_block(m.bytes, m.alloc_block(n as int));
    assert(block_at(t.bytes, b.offset as int) == m.alloc_block(n as int));
    assert(b == block_at(m.bytes, b.offset as int));
    lemma_same_u32(t.bytes, m.bytes, b.offset + 4);
}

/// A block that is split: it keeps its place and its status, the last `n` bytes of
/// its data become the data of a new block, with a header in front of them, and
/// what is left stays its own, with no byte in use. The new block is handed out;
/// until then it is free. Only these two headers change.
pub proof fn law_alloc_split(m: MemoryState, n: Length, i: int)
    requires
        m.wf(),
        m.heap_ok(),
        0 <= i < m.blocks().len(),
        m.blocks()[i].status == 0 || m.blocks()[i].status == 2,
        n + BLOCK_SPLIT_SIZE <= m.blocks()[i].size,
        forall|j: int|
            0 <= j < i ==> !((#[trigger] m.blocks()[j]).status != 1 && m.blocks()[j].status <= 2
                && n <= m.blocks()[j].size),
    ensures
        ({
            let b = m.blocks()[i];
            let at = b.end() - n - HEADER_SIZE;
            let front = MemoryBlock { size: (b.size - n - HEADER_SIZE) as u32, used: 0, ..b };
            let c = MemoryBlock { offset: at as u32, status: 1, size: n as u32, used: n as u32 };
            let found = MemoryBlock { status: 2, used: 0, ..c };
            let t = m.after_alloc(n as int);
            let u = m.after_find(n as int);
            &&& m.can_alloc(n as int)
            &&& m.alloc_block(n as int) == c
            &&& m.found_block(n as int) == found
            &&& front.end() == at == c.offset
            &&& c.end() == b.end()
            &&& t.blocks() == m.blocks().update(i, front).insert(i + 1, c)
            &&& u.blocks() == m.blocks().update(i, front).insert(i + 1, found)
            &&& t.heap_ok()
            &&& u.heap_ok()
            &&& u.root() == m.root()
            &&& t.root() == m.root()
            &&& t.limit == m.limit
            &&& t.bounds_checking == m.bounds_checking
            &&& t.bytes.len() == m.bytes.len()
            &&& get_u32(t.bytes, b.offset + 4) == b.size - n - HEADER_SIZE
            &&& get_u32(t.bytes, b.offset + 8) == 0
            &&& t.bytes[at] == 1
            &&& get_u32(t.bytes, at + 4) == n
            &&& get_u32(t.bytes, at + 8) == n
            &&& forall|j: int|
                0 <= j < m.bytes.len() && !(b.offset + 4 <= j < b.offset + 12) && j != at && !(at
                    + 4 <= j < at + 12) ==> #[trigger] t.bytes[j] == m.bytes[j]
            &&& u.limit == m.limit
            &&& u.bounds_checking == m.bounds_checking
            &&& u.bytes.len() == m.bytes.len()
            &&& forall|j: int|
                0 <= j < m.bytes.len() && !(b.offset + 4 <= j < b.offset + 12) && j != at && !(at
                    + 4 <= j < at + 12) ==> #[trigger] u.bytes[j] == m.bytes[j]
        }),
{
    let bs = m.blocks();
    let b = bs[i];
    let k = n as int;
    let t = m.after_alloc(k);
    let u = m.after_find(k);
    law_first_fit(m, n, i);
    lemma_first_fit(bs, k, 0);
    assert(m.first_fit(k) == i) by {
        let f = m.first_fit(k);
        if f < i {
            assert(fits(bs[f], k));
            assert(bs[f].status != 1);
        }
    }
    lemma_after_alloc(m, k);
    lemma_after_find(m, k);
    assert(chain(m.bytes, bs, m.heap_end()));
    lemma_order(m.bytes, bs, i, bs.len() as int);
    assert(start_of(bs, i) == b.offset);
    let front = front_part(b, k);
    let s = with_block(m.bytes, front);
    lemma_with_block(m.bytes, front);
    lemma_with_block(s, m.alloc_block(k));
    lemma_with_block(s, m.found_block(k));
    assert(b == block_at(m.bytes, b.offset as int));
    assert(block_at(s, b.offset as int) == front);
    assert(s[b.offset as int] == front.status);
    assert(block_at(t.bytes, front.end()) == m.alloc_block(k));
    assert(t.bytes[front.end()] == m.alloc_block(k).status);
    lemma_get_u32(t.bytes, s, b.offset + 4);
    lemma_get_u32(t.bytes, s, b.offset + 8);
}

/// A fresh block: where no block has room, memory grows by the fewest pages `k`
/// that are enough, and the new block is put at the position of the allocator,
/// which moves behind it. Only its header, the position and the length change,
/// and memory that was added is zero.
pub proof fn law_alloc_fresh(m: MemoryState, n: Length, k: int)
    requires
        m.wf(),
        m.heap_ok(),
        forall|j: int|
            0 <= j < m.blocks().len() ==> !((#[trigger] m.blocks()[j]).status != 1
                && m.blocks()[j].status <= 2 && n <= m.blocks()[j].size),
        0 <= k,
        m.root().position + n + ROOT_SIZE <= m.root().length + k * PAGE_SIZE,
        k == 0 || m.root().position + n + ROOT_SIZE > m.root().length + (k - 1) * PAGE_SIZE,
        m.bytes.len() + k * PAGE_SIZE <= m.limit * PAGE_SIZE,
    ensures
        ({
            let at = BLOCKS + m.root().position;
            let c = MemoryBlock { offset: at as u32, status: 1, size: n as u32, used: n as u32 };
            let t = m.after_alloc(n as int);
            &&& m.can_alloc(n as int)
            &&& m.alloc_block(n as int) == c
            &&& c.offset == at
            &&& c.size == n
            &&& t.heap_ok()
            &&& t.blocks() == m.blocks().push(c)
            &&& t.root() == (MemoryRoot {
                position: (m.root().position + HEADER_SIZE + n) as u64,
                length: (m.root().length + k * PAGE_SIZE) as u64,
                ..m.root()
            })
            &&& t.root().position == m.root().position + HEADER_SIZE + n
            &&& t.root().length == m.root().length + k * PAGE_SIZE
            &&& t.limit == m.limit
            &&& t.bounds_checking == m.bounds_checking
            &&& t.bytes.len() == m.bytes.len() + k * PAGE_SIZE
            &&& t.bytes[at] == 1
            &&& get_u32(t.bytes, at + 4) == n
            &&& get_u32(t.bytes, at + 8) == n
            &&& forall|j: int|
                0 <= j < t.bytes.len() && !(POSITION <= j < ERROR) && j != at && !(at + 4 <= j < at
                    + 12) ==> #[trigger] t.bytes[j] == if j < m.bytes.len() {
                    m.bytes[j]
                } else {
                    0
                }
        }),
{
    let bs = m.blocks();
    law_first_fit(m, n, 0);
    assert(!m.can_reuse(n as int));
    assert(m.growth(n as int) == k);
    lemma_after_alloc(m, n as int);
    let g = m.grown(k);
    let c = m.alloc_block(n as int);
    let s = with_block(g.bytes, c);
    let t = m.after_alloc(n as int);
    law_grown(m, k);
    lemma_with_block(g.bytes, c);
    lemma_root_of(s, m.bytes);
    lemma_with_root(s, m.alloc_root(n as int));
    assert(block_at(s, c.offset as int) == c);
    assert(s[c.offset as int] == c.status);
    lemma_get_u32(t.bytes, s, c.offset + 4);
    lemma_get_u32(t.bytes, s, c.offset + 8);
}

/// An allocation fails, and changes nothing, where no block has room and the
/// fewest pages `k` that are enough are more than the host grants.
pub proof fn law_alloc_fails(m: MemoryState, n: Length, k: int)
    requires
        m.wf(),
        forall|j: int|
            0 <= j < m.blocks().len() ==> !((#[trigger] m.blocks()[j]).status != 1
                && m.blocks()[j].status <= 2 && n <= m.blocks()[j].size),
        0 < k,
        m.root().position + n + ROOT_SIZE > m.root().length + (k - 1) * PAGE_SIZE,
        m.bytes.len() + k * PAGE_SIZE > m.limit * PAGE_SIZE,
    ensures
        !m.can_alloc(n as int),
        m.after_alloc(n as int) == m,
{
    law_alloc_succeeds(m, n);
}

/// Freeing writes one byte, the status in front of `p`, and sets the input length
/// to zero if the input is at `p`. No other byte changes, and a pointer in front
/// of the end of the root or behind the end of memory changes none.
pub proof fn law_free_bytes(m: MemoryState, p: Pointer)
    requires
        m.is_open(),
    ensures
        ({
            let t = m.after_free(p);
            &&& t.limit == m.limit
            &&& t.bounds_checking == m.bounds_checking
            &&& t.bytes.len() == m.bytes.len()
            &&& if ROOT_SIZE <= p <= m.bytes.len() {
                &&& t.bytes[p - HEADER_SIZE] == 2
                &&& p == m.root().input_offset ==> get_u64(t.bytes, INPUT_LENGTH as int) == 0
                &&& forall|j: int|
                    0 <= j < m.bytes.len() && j != p - HEADER_SIZE && !(p == m.root().input_offset
                        && INPUT_LENGTH <= j < OUTPUT_OFFSET) ==> #[trigger] t.bytes[j]
                        == m.bytes[j]
            } else {
                t == m
            }
        }),
{
    if ROOT_SIZE <= p <= m.bytes.len() {
        let w = m.with_freed(p);
        lemma_with_freed(m, p);
        lemma_with_root(w.bytes, MemoryRoot { input_length: 0, ..w.root() });
    }
}

/// `length` gives the number in the four bytes in front of `p`, and zero in front
/// of the end of the root and behind the end of memory.
pub proof fn law_length(m: MemoryState, p: Pointer)
    ensures
        m.length_at(p) == if ROOT_SIZE <= p <= m.bytes.len() {
            get_u32(m.bytes, p - 4) as u64
        } else {
            0
        },
{
}

/// An access is refused only with bounds checking, and then where its last byte lies
/// before the end of the root or behind the byte after the last one of memory. An
/// access to the input is refused only with bounds checking, and then where the
/// input ends before it. There is something to access where memory has all of the
/// bytes.
pub proof fn law_access(m: MemoryState, p: Pointer, width: int)
    ensures
        m.refuses(p, width) <==> m.bounds_checking && (p + width - 1 < ROOT_SIZE || p + width - 1
            > m.bytes.len()),
        m.reaches(p, width) <==> p as int % 0x1_0000_0000 + width <= m.bytes.len() && (
        m.bounds_checking ==> p + width <= m.bytes.len()),
        m.input_refuses(p, width) <==> m.bounds_checking && p + width > m.root().input_length,
        m.input_reaches(p, width) <==> m.root().input_offset + p <= u64::MAX && (
        m.root().input_offset + p) % 0x1_0000_0000 + width <= m.bytes.len(),
{
}

/// Loads give what memory holds at `p`. With bounds checking this is so of all
/// that ends behind the first byte of the root's end and lies in memory; what ends
/// before, or behind the byte after the last one, is loaded as zero. Without it the
/// low 32 bits of the pointer tell the place.
pub proof fn law_load(m: MemoryState, p: Pointer)
    ensures
        m.bounds_checking && ROOT_SIZE <= p && p < m.bytes.len() <= 0x1_0000_0000 ==> {
            &&& !m.refuses(p, 1)
            &&& m.reaches(p, 1)
            &&& m.u8_at(p) == m.bytes[p as int]
        },
        m.bounds_checking && (p < ROOT_SIZE || p > m.bytes.len()) ==> {
            &&& m.refuses(p, 1)
            &&& m.u8_at(p) == 0
        },
        m.bounds_checking && ROOT_SIZE <= p + 7 && p + 8 <= m.bytes.len() <= 0x1_0000_0000 ==> {
            &&& !m.refuses(p, 8)
            &&& m.reaches(p, 8)
            &&& m.u64_at(p) == get_u64(m.bytes, p as int)
        },
        m.bounds_checking && (p + 7 < ROOT_SIZE || p + 7 > m.bytes.len()) ==> {
            &&& m.refuses(p, 8)
            &&& m.u64_at(p) == 0
        },
        !m.bounds_checking && p as int % 0x1_0000_0000 < m.bytes.len() ==> {
            &&& m.reaches(p, 1)
            &&& m.u8_at(p) == m.bytes[p as int % 0x1_0000_0000]
        },
        !m.bounds_checking && p as int % 0x1_0000_0000 + 8 <= m.bytes.len() ==> {
            &&& m.reaches(p, 8)
            &&& m.u64_at(p) == get_u64(m.bytes, p as int % 0x1_0000_0000)
        },
{
}

/// Stores write `x` or `y` at `p` wherever loads read, and change no other byte;
/// elsewhere they change nothing.
pub proof fn law_store(m: MemoryState, p: Pointer, x: u8, y: u64)
    ensures
        m.bounds_checking && ROOT_SIZE <= p && p < m.bytes.len() <= 0x1_0000_0000
            ==> m.after_store_u8(p, x) == (MemoryState {
            bytes: m.bytes.update(p as int, x),
            ..m
        }),
        m.bounds_checking && (p < ROOT_SIZE || p > m.bytes.len()) ==> m.after_store_u8(p, x) == m,
        m.bounds_checking && ROOT_SIZE <= p + 7 && p + 8 <= m.bytes.len() <= 0x1_0000_0000 ==> {
            let t = m.after_store_u64(p, y);
            &&& get_u64(t.bytes, p as int) == y
            &&& t.bytes.len() == m.bytes.len()
            &&& t.limit == m.limit
            &&& t.bounds_checking == m.bounds_checking
            &&& agree(t.bytes, m.bytes, 0, p as int)
            &&& agree(t.bytes, m.bytes, p + 8, m.bytes.len() as int)
        },
        m.bounds_checking && (p + 7 < ROOT_SIZE || p + 7 > m.bytes.len()) ==> m.after_store_u64(
            p,
            y,
        ) == m,
        !m.bounds_checking && p as int % 0x1_0000_0000 < m.bytes.len() ==> m.after_store_u8(p, x)
            == (MemoryState { bytes: m.bytes.update(p as int % 0x1_0000_0000, x), ..m }),
        !m.bounds_checking && p as int % 0x1_0000_0000 + 8 <= m.bytes.len() ==> {
            let t = m.after_store_u64(p, y);
            let at = p as int % 0x1_0000_0000;
            &&& get_u64(t.bytes, at) == y
            &&& t.bytes.len() == m.bytes.len()
            &&& t.limit == m.limit
            &&& t.bounds_checking == m.bounds_checking
            &&& agree(t.bytes, m.bytes, 0, at)
            &&& agree(t.bytes, m.bytes, at + 8, m.bytes.len() as int)
        },
{
    let at = p as int % 0x1_0000_0000;
    if at + 8 <= m.bytes.len() {
        lemma_set_u64(m.bytes, at, y);
    }
}

/// The input is loaded at its offset: byte `p` of it is the byte of memory `p`
/// behind the offset. With bounds checking this is so of all that lies within the
/// input's length, and what does not is loaded as zero; without it there is no
/// end.
pub proof fn law_input_bytes(m: MemoryState, p: Pointer)
    requires
        m.bytes.len() <= 0x1_0000_0000,
    ensures
        ({
            let at = m.root().input_offset + p;
            let len = m.root().input_length;
            &&& m.bounds_checking && p >= len ==> m.input_refuses(p, 1) && m.input_u8_at(p) == 0
            &&& m.bounds_checking && p + 8 > len ==> m.input_refuses(p, 8) && m.input_u64_at(p) == 0
            &&& (p < len || !m.bounds_checking) && at < m.bytes.len() ==> {
                &&& m.input_reaches(p, 1)
                &&& m.input_u8_at(p) == m.bytes[at]
            }
            &&& (p + 8 <= len || !m.bounds_checking) && at + 8 <= m.bytes.len() ==> {
                &&& m.input_reaches(p, 8)
                &&& m.input_u64_at(p) == get_u64(m.bytes, at)
            }
            &&& (p < len || !m.bounds_checking) && at <= u64::MAX && at % 0x1_0000_0000
                < m.bytes.len() ==> {
                &&& m.input_reaches(p, 1)
                &&& m.input_u8_at(p) == m.bytes[at % 0x1_0000_0000]
            }
            &&& (p + 8 <= len || !m.bounds_checking) && at <= u64::MAX && at % 0x1_0000_0000 + 8
                <= m.bytes.len() ==> {
                &&& m.input_reaches(p, 8)
                &&& m.input_u64_at(p) == get_u64(m.bytes, at % 0x1_0000_0000)
            }
        }),
{
}

/// Every range whose first and last byte are available to the allocator can be set
/// as input, and without bounds checking any range. Then the two numbers of the
/// input are `p` and `len`, and no other byte of memory changes. Another range
/// changes nothing.
pub proof fn law_input_set_bytes(m: MemoryState, p: Pointer, len: Length)
    requires
        m.is_open(),
    ensures
        ({
            let t = m.after_input_set(p, len);
            let end = BLOCKS + m.root().length;
            if !m.bounds_checking || (BLOCKS <= p < end && BLOCKS < p + len <= end) {
                &&& get_u64(t.bytes, INPUT_OFFSET as int) == p
                &&& get_u64(t.bytes, INPUT_LENGTH as int) == len
                &&& t.limit == m.limit
                &&& t.bounds_checking == m.bounds_checking
                &&& t.bytes.len() == m.bytes.len()
                &&& agree(t.bytes, m.bytes, 0, INPUT_OFFSET as int)
                &&& agree(t.bytes, m.bytes, OUTPUT_OFFSET as int, m.bytes.len() as int)
            } else {
                t == m
            }
        }),
{
    lemma_with_root(m.bytes, MemoryRoot { input_offset: p, input_length: len, ..m.root() });
}

/// Every range whose first and last byte are available to the allocator can be set
/// as output, and without bounds checking any range. Then the two numbers of the
/// output are `p` and `len`, and no other byte of memory changes. Another range
/// changes nothing.
pub proof fn law_output_set_bytes(m: MemoryState, p: Pointer, len: Length)
    requires
        m.is_open(),
    ensures
        ({
            let t = m.after_output_set(p, len);
            let end = BLOCKS + m.root().length;
            if !m.bounds_checking || (BLOCKS <= p < end && BLOCKS < p + len <= end) {
                &&& get_u64(t.bytes, OUTPUT_OFFSET as int) == p
                &&& get_u64(t.bytes, OUTPUT_LENGTH as int) == len
                &&& t.limit == m.limit
                &&& t.bounds_checking == m.bounds_checking
                &&& t.bytes.len() == m.bytes.len()
                &&& agree(t.bytes, m.bytes, 0, OUTPUT_OFFSET as int)
                &&& agree(t.bytes, m.bytes, BLOCKS as int, m.bytes.len() as int)
            } else {
                t == m
            }
        }),
{
    lemma_with_root(m.bytes, MemoryRoot { output_offset: p, output_length: len, ..m.root() });
}

/// Zero and every offset that is available to the allocator can be set as error,
/// and without bounds checking any offset. Then the number of the error is `p`, and
/// no other byte of memory changes. Another offset changes nothing.
pub proof fn law_error_set_bytes(m: MemoryState, p: Pointer)
    requires
        m.is_open(),
    ensures
        ({
            let t = m.after_error_set(p);
            if p == 0 || !m.bounds_checking || BLOCKS <= p < BLOCKS + m.root().length {
                &&& get_u64(t.bytes, ERROR as int) == p
                &&& t.limit == m.limit
                &&& t.bounds_checking == m.bounds_checking
                &&& t.bytes.len() == m.bytes.len()
                &&& agree(t.bytes, m.bytes, 0, ERROR as int)
                &&& agree(t.bytes, m.bytes, INPUT_OFFSET as int, m.bytes.len() as int)
            } else {
                t == m
            }
        }),
{
    lemma_with_root(m.bytes, MemoryRoot { error: p, ..m.root() });
}

} // verus!
