//! What holds of the kernel as a whole, across its functions.
use crate::bytes::{agree, get_u64, le_bytes_u64, lemma_get_u64, lemma_set_u64, set_u64};
use crate::effects::{law_alloc_split, law_first_fit};
use crate::exports::{lemma_root_keeps_heap, lemma_with_freed};
use crate::heap::{chain, fits, front_part, is_split, linked, lemma_after_alloc};
use crate::heap::{lemma_after_find, lemma_blocks, lemma_chain_update, lemma_first_fit};
use crate::heap::{lemma_heap_frame, lemma_order, start_of, BLOCK_SPLIT_SIZE};
use crate::layout::{block_at, lemma_block_at, lemma_root_of, lemma_with_block, lemma_with_root};
use crate::layout::{lemma_with_status, with_block, MemoryBlock, MemoryRoot, MemoryStatus};
use crate::layout::{BLOCKS, HEADER_SIZE, ROOT_SIZE};
use crate::memory::{address, Length, MemoryState, Pointer, PAGE_SIZE};
use crate::root::{fresh_root, lemma_after_reset, lemma_opened};
use vstd::prelude::*;

verus! {

/// Memory is initialized once: what has been initialized is loaded as it is, by
/// the first call as by every later one. A memory that can be allocated from has
/// its heap in order once it is initialized.
pub proof fn law_initialized_once(m: MemoryState)
    requires
        m.can_open(),
    ensures
        m.opened().is_open(),
        m.opened().opened() == m.opened(),
        m.is_open() ==> m.opened() == m,
        m.ready() ==> m.opened().live(),
        m.live() ==> m.ready(),
{
    lemma_opened(m);
    lemma_opened(m.opened());
}

/// The size of some blocks, their headers included.
pub open spec fn total_size(bs: Seq<MemoryBlock>) -> int
    decreases bs.len(),
{
    if bs.len() == 0 {
        0
    } else {
        total_size(bs.drop_last()) + HEADER_SIZE + bs.last().size
    }
}

proof fn lemma_total_size(s: Seq<u8>, bs: Seq<MemoryBlock>, i: int)
    requires
        linked(s, bs),
        0 <= i <= bs.len(),
    ensures
        start_of(bs, i) == BLOCKS + total_size(bs.take(i)),
    decreases i,
{
    if i > 0 {
        lemma_total_size(s, bs, i - 1);
        assert(bs.take(i).drop_last() =~= bs.take(i - 1));
        assert(start_of(bs, i - 1) == bs[i - 1].offset);
    }
}

/// The offset of a block is that of the first block plus the size of all the
/// blocks before it, their data included. All blocks together take up exactly
/// the space below the allocator's position, they lie in memory, and no two of
/// them overlap.
pub proof fn law_layout(m: MemoryState)
    requires
        m.live(),
    ensures
        m.root().position == total_size(m.blocks()),
        m.heap_end() <= m.bytes.len(),
        forall|i: int|
            0 <= i < m.blocks().len() ==> {
                let b = #[trigger] m.blocks()[i];
                &&& b.offset == BLOCKS + total_size(m.blocks().take(i))
                &&& b.end() <= m.heap_end()
                &&& b == block_at(m.bytes, b.offset as int)
            },
        forall|i: int, j: int|
            0 <= i < j < m.blocks().len() ==> (#[trigger] m.blocks()[i]).end() <= (
            #[trigger] m.blocks()[j]).offset,
{
    let bs = m.blocks();
    assert(chain(m.bytes, bs, m.heap_end()));
    lemma_total_size(m.bytes, bs, bs.len() as int);
    assert(bs.take(bs.len() as int) =~= bs);
    assert forall|i: int| 0 <= i < bs.len() implies {
        let b = #[trigger] bs[i];
        &&& b.offset == BLOCKS + total_size(bs.take(i))
        &&& b.end() <= m.heap_end()
        &&& b == block_at(m.bytes, b.offset as int)
    } by {
        lemma_total_size(m.bytes, bs, i);
        assert(start_of(bs, i) == bs[i].offset);
        lemma_order(m.bytes, bs, i, bs.len() as int);
    }
    assert forall|i: int, j: int| 0 <= i < j < bs.len() implies (#[trigger] bs[i]).end() <= (
    #[trigger] bs[j]).offset by {
        lemma_order(m.bytes, bs, i, j);
        assert(start_of(bs, j) == bs[j].offset);
    }
}

/// A block lies behind the root and below the position of the allocator.
proof fn lemma_block_bounds(m: MemoryState, i: int)
    requires
        m.live(),
        0 <= i < m.blocks().len(),
    ensures
        BLOCKS <= m.blocks()[i].offset,
        m.blocks()[i].end() <= m.heap_end() <= m.bytes.len(),
        m.blocks()[i] == block_at(m.bytes, m.blocks()[i].offset as int),
{
    let bs = m.blocks();
    assert(chain(m.bytes, bs, m.heap_end()));
    assert(start_of(bs, i) == bs[i].offset);
    lemma_order(m.bytes, bs, i, bs.len() as int);
    if i > 0 {
        lemma_order(m.bytes, bs, 0, i);
    }
}

/// Where the block that an allocation hands out stands among the blocks.
spec fn alloc_index(m: MemoryState, n: int) -> int {
    if !m.can_reuse(n) {
        m.blocks().len() as int
    } else if is_split(m.blocks()[m.first_fit(n)], n) {
        m.first_fit(n) + 1
    } else {
        m.first_fit(n)
    }
}

/// Splitting a block keeps the blocks filling the heap: the part in front ends
/// where the block found starts, the block found ends where the old block ended,
/// and the blocks before and behind are the same as they were. The part in front
/// keeps its status, so that it can be used again.
pub proof fn law_split(m: MemoryState, n: Length)
    requires
        m.live(),
        m.can_reuse(n as int),
        is_split(m.blocks()[m.first_fit(n as int)], n as int),
    ensures
        ({
            let i = m.first_fit(n as int);
            let t = m.after_find(n as int);
            let b = m.blocks()[i];
            let front = t.blocks()[i];
            let found = t.blocks()[i + 1];
            &&& t.live()
            &&& t.root() == m.root()
            &&& t.blocks().len() == m.blocks().len() + 1
            &&& found == m.found_block(n as int)
            &&& found.size == n
            &&& front.offset == b.offset
            &&& front.status == b.status
            &&& front.used == 0
            &&& found.status == MemoryStatus::Free.spec_code()
            &&& found.used == 0
            &&& front.end() == found.offset
            &&& found.end() == b.end()
            &&& front.size + HEADER_SIZE + found.size == b.size
            &&& forall|j: int| 0 <= j < i ==> #[trigger] t.blocks()[j] == m.blocks()[j]
            &&& forall|j: int|
                i < j < m.blocks().len() ==> #[trigger] m.blocks()[j] == t.blocks()[j + 1]
        }),
{
    lemma_first_fit(m.blocks(), n as int, 0);
    lemma_after_find(m, n as int);
}

/// A successful allocation of `n` bytes gives an offset other than `0`, behind
/// which there are at least `n` bytes of memory that belong to one active block
/// of the heap. `length` of that offset is `n`, and the range can be set as input
/// or output and its offset as error.
pub proof fn law_alloc(m: MemoryState, n: Length)
    requires
        m.live(),
        m.can_alloc(n as int),
    ensures
        m.after_alloc(n as int).live(),
        ({
            let a = m.after_alloc(n as int);
            let b = m.alloc_block(n as int);
            let p = b.data();
            &&& a.blocks().contains(b)
            &&& b.status == MemoryStatus::Active.spec_code()
            &&& b.used == n <= b.size < n + BLOCK_SPLIT_SIZE
            &&& p >= BLOCKS + HEADER_SIZE
            &&& b.end() <= a.heap_end() <= a.bytes.len()
            &&& a.length_at(p as u64) == n
            &&& n > 0 ==> a.accepts_range(p as u64, n)
            &&& a.accepts_error(p as u64)
        }),
{
    let k = n as int;
    let a = m.after_alloc(k);
    let b = m.alloc_block(k);
    lemma_after_alloc(m, k);
    lemma_first_fit(m.blocks(), k, 0);
    let j = alloc_index(m, k);
    assert(a.blocks()[j] == b);
    lemma_block_bounds(a, j);
}

/// Behind the root, an allocation writes headers only: that of the block handed
/// out, and that of a block which is split.
proof fn lemma_alloc_bytes(m: MemoryState, n: int)
    requires
        m.live(),
        m.can_alloc(n),
        0 <= n,
    ensures
        ({
            let a = m.after_alloc(n);
            let b = m.blocks()[m.first_fit(n)];
            let c = m.alloc_block(n);
            &&& m.bytes.len() <= a.bytes.len()
            &&& forall|j: int|
                BLOCKS <= j < m.bytes.len() && !(c.offset <= j < c.data()) && !(m.can_reuse(n)
                    && is_split(b, n) && b.offset <= j < b.data()) ==> #[trigger] a.bytes[j]
                    == m.bytes[j]
        }),
{
    let c = m.alloc_block(n);
    lemma_after_alloc(m, n);
    lemma_first_fit(m.blocks(), n, 0);
    if m.can_reuse(n) {
        let b = m.blocks()[m.first_fit(n)];
        lemma_block_bounds(m, m.first_fit(n));
        if is_split(b, n) {
            lemma_with_block(m.bytes, front_part(b, n));
        }
        lemma_with_block(m.after_split(n).bytes, c);
    } else {
        let g = m.grown(m.growth(n));
        lemma_with_block(g.bytes, c);
        lemma_with_root(with_block(g.bytes, c), m.alloc_root(n));
    }
}

/// An allocation leaves alone what is in use: every active block stays a block of
/// the heap, with the same data, and the block handed out does not overlap it.
pub proof fn law_alloc_keeps_active(m: MemoryState, n: Length, i: int)
    requires
        m.live(),
        0 <= i < m.blocks().len(),
        m.blocks()[i].status == MemoryStatus::Active.spec_code(),
    ensures
        ({
            let a = m.after_alloc(n as int);
            let b = m.blocks()[i];
            let c = m.alloc_block(n as int);
            &&& a.blocks().contains(b)
            &&& agree(m.bytes, a.bytes, b.offset as int, b.end())
            &&& a.length_at(b.data() as u64) == m.length_at(b.data() as u64)
            &&& m.can_alloc(n as int) ==> b.end() <= c.offset || c.end() <= b.offset
        }),
{
    let k = n as int;
    let a = m.after_alloc(k);
    let bs = m.blocks();
    let b = bs[i];
    let c = m.alloc_block(k);
    let f = m.first_fit(k);
    lemma_after_alloc(m, k);
    lemma_first_fit(bs, k, 0);
    lemma_block_bounds(m, i);
    if m.can_alloc(k) {
        let cs = a.blocks();
        let jb = if m.can_reuse(k) && is_split(bs[f], k) && i > f {
            i + 1
        } else {
            i
        };
        let jc = alloc_index(m, k);
        assert(cs[jb] == b);
        assert(cs[jc] == c);
        lemma_block_bounds(a, jb);
        assert(start_of(cs, jb) == b.offset);
        assert(start_of(cs, jc) == c.offset);
        if jb < jc {
            lemma_order(a.bytes, cs, jb, jc);
        } else {
            lemma_order(a.bytes, cs, jc, jb);
        }
        if m.can_reuse(k) {
            assert(chain(m.bytes, bs, m.heap_end()));
            assert(start_of(bs, i) == b.offset);
            assert(start_of(bs, f) == bs[f].offset);
            if i < f {
                lemma_order(m.bytes, bs, i, f);
            } else {
                lemma_order(m.bytes, bs, f, i);
            }
        }
        lemma_alloc_bytes(m, k);
    } else {
        assert(bs.contains(b));
    }
}

/// Two allocations in a row do not overlap, and the first keeps its length.
pub proof fn law_two_allocs(m: MemoryState, n1: Length, n2: Length)
    requires
        m.live(),
        m.can_alloc(n1 as int),
        m.after_alloc(n1 as int).can_alloc(n2 as int),
    ensures
        ({
            let m1 = m.after_alloc(n1 as int);
            let m2 = m1.after_alloc(n2 as int);
            let p1 = m.alloc_block(n1 as int).data();
            let p2 = m1.alloc_block(n2 as int).data();
            &&& p1 + n1 <= p2 || p2 + n2 <= p1
            &&& m2.length_at(p1 as u64) == n1
            &&& m2.length_at(p2 as u64) == n2
        }),
{
    let m1 = m.after_alloc(n1 as int);
    let b = m.alloc_block(n1 as int);
    law_alloc(m, n1);
    law_alloc(m1, n2);
    let i = choose|i: int| 0 <= i < m1.blocks().len() && m1.blocks()[i] == b;
    law_alloc_keeps_active(m1, n2, i);
}

/// An allocation that fails changes nothing. One that succeeds never takes away
/// memory: it grows by the pages that a fresh block needs, and a block that is
/// used again needs none, nor does it move the position. A fresh block needs the
/// fewest pages that leave the size of a root in reserve behind its data.
pub proof fn law_alloc_grows(m: MemoryState, n: Length)
    requires
        m.live(),
    ensures
        !m.can_alloc(n as int) ==> m.after_alloc(n as int) == m,
        m.after_alloc(n as int).pages() >= m.pages(),
        m.after_alloc(n as int).limit == m.limit,
        m.can_alloc(n as int) ==> {
            let a = m.after_alloc(n as int);
            if m.can_reuse(n as int) {
                &&& a.pages() == m.pages()
                &&& a.root() == m.root()
            } else {
                &&& a.pages() == m.pages() + m.growth(n as int)
                &&& a.root().position == m.root().position + HEADER_SIZE + n
                &&& a.root().length - m.root().length == a.bytes.len() - m.bytes.len()
            }
        },
        ({
            let needed = m.root().position + n + ROOT_SIZE;
            let k = m.growth(n as int);
            &&& needed <= m.root().length + k * PAGE_SIZE
            &&& k > 0 ==> needed > m.root().length + (k - 1) * PAGE_SIZE
        }),
{
    let k = n as int;
    lemma_after_alloc(m, k);
    lemma_first_fit(m.blocks(), k, 0);
    if m.can_reuse(k) {
        let f = m.first_fit(k);
        lemma_block_bounds(m, f);
        if is_split(m.blocks()[f], k) {
            lemma_with_block(m.bytes, front_part(m.blocks()[f], k));
        }
        lemma_with_block(m.after_split(k).bytes, m.alloc_block(k));
    } else if m.can_alloc(k) {
        let g = m.grown(m.growth(k));
        lemma_with_block(g.bytes, m.alloc_block(k));
        lemma_with_root(with_block(g.bytes, m.alloc_block(k)), m.alloc_root(k));
    }
}

/// Freeing a block of the heap marks it as free and changes no other block, no
/// data, and of the root at most the length of the input.
pub proof fn law_free(m: MemoryState, i: int)
    requires
        m.live(),
        0 <= i < m.blocks().len(),
    ensures
        ({
            let b = m.blocks()[i];
            let p = b.data() as u64;
            let f = m.after_free(p);
            &&& f.live()
            &&& f.blocks() == m.blocks().update(
                i,
                MemoryBlock { status: MemoryStatus::Free.spec_code(), ..b },
            )
            &&& f.root() == if p == m.root().input_offset {
                MemoryRoot { input_length: 0, ..m.root() }
            } else {
                m.root()
            }
            &&& f.bytes.len() == m.bytes.len()
            &&& forall|j: int|
                BLOCKS <= j < m.bytes.len() && j != b.offset ==> #[trigger] f.bytes[j]
                    == m.bytes[j]
            &&& f.length_at(p) == m.length_at(p)
        }),
{
    let bs = m.blocks();
    let b = bs[i];
    let p = b.data() as u64;
    let g = m.with_freed(p);
    let f = m.after_free(p);
    let c = MemoryBlock { status: MemoryStatus::Free.spec_code(), ..b };
    assert(chain(m.bytes, bs, m.heap_end()));
    lemma_block_bounds(m, i);
    lemma_with_freed(m, p);
    lemma_with_status(m.bytes, b.offset as int, MemoryStatus::Free.spec_code());
    lemma_chain_update(m.bytes, bs, m.heap_end(), i, c);
    lemma_with_block(m.bytes, c);
    lemma_blocks(g, bs.update(i, c));
    if p == m.root().input_offset {
        let root = MemoryRoot { input_length: 0, ..g.root() };
        lemma_root_keeps_heap(g, root);
        lemma_with_root(g.bytes, root);
        lemma_block_at(f.bytes, g.bytes, b.offset as int);
    }
}

/// Freed memory is used again: once a block has been freed, an allocation of no
/// more bytes than it has succeeds whatever the host grants, and takes it or a
/// block before it. Memory does not grow and the position does not move.
pub proof fn law_free_then_alloc(m: MemoryState, i: int, n: Length)
    requires
        m.live(),
        0 <= i < m.blocks().len(),
        n <= m.blocks()[i].size,
    ensures
        ({
            let f = m.after_free(m.blocks()[i].data() as u64);
            let a = f.after_alloc(n as int);
            &&& f.can_alloc(n as int)
            &&& f.can_reuse(n as int)
            &&& f.first_fit(n as int) <= i
            &&& a.live()
            &&& a.bytes.len() == m.bytes.len()
            &&& a.root() == f.root()
        }),
{
    law_free(m, i);
    let f = m.after_free(m.blocks()[i].data() as u64);
    lemma_first_fit(f.blocks(), n as int, 0);
    assert(fits(f.blocks()[i], n as int));
    law_alloc_grows(f, n);
    lemma_after_alloc(f, n as int);
}

/// Allocating, freeing and allocating the same number of bytes gives the same
/// offset again, unless the first allocation split a block of which enough is
/// left for the second.
pub proof fn law_alloc_free_alloc(m: MemoryState, n: Length)
    requires
        m.live(),
        m.can_alloc(n as int),
        m.can_reuse(n as int) && is_split(m.blocks()[m.first_fit(n as int)], n as int)
            ==> front_part(m.blocks()[m.first_fit(n as int)], n as int).size < n,
    ensures
        ({
            let a = m.after_alloc(n as int);
            let p = m.alloc_block(n as int).data();
            let f = a.after_free(p as u64);
            &&& f.can_alloc(n as int)
            &&& f.alloc_block(n as int).data() == p
        }),
{
    let k = n as int;
    let a = m.after_alloc(k);
    let bs = m.blocks();
    let b = m.alloc_block(k);
    let j = alloc_index(m, k);
    let fi = m.first_fit(k);
    lemma_after_alloc(m, k);
    lemma_first_fit(bs, k, 0);
    law_alloc(m, n);
    assert(a.blocks()[j] == b);
    law_free(a, j);
    law_free_then_alloc(a, j, n);
    let f = a.after_free(b.data() as u64);
    lemma_first_fit(f.blocks(), k, 0);
    assert forall|i: int| 0 <= i < j implies !fits(#[trigger] f.blocks()[i], k) by {
        if i < fi {
            assert(f.blocks()[i] == bs[i]);
        }
    }
    assert(f.first_fit(k) == j);
}

/// A reset leaves no block, no input, no output and no error, keeps the size of
/// the memory, and clears all that is available to the allocator, every allocation
/// included. It does not depend on the blocks: also where they were overwritten,
/// the heap is in order afterwards, as long as the root's length is one that
/// memory has. The next allocation is placed as the very first one.
pub proof fn law_reset(m: MemoryState, n: Length)
    requires
        m.is_open(),
    ensures
        ({
            let r = m.after_reset();
            &&& r.is_open()
            &&& r.blocks() == Seq::<MemoryBlock>::empty()
            &&& r.root() == (MemoryRoot { length: m.root().length, ..fresh_root() })
            &&& r.bytes.len() == m.bytes.len()
            &&& forall|j: int| BLOCKS <= j < m.reset_end() ==> #[trigger] r.bytes[j] == 0
            &&& m.heap_ok() ==> m.heap_end() <= m.reset_end()
            &&& m.heap_ok() ==> m.length_ok()
            &&& m.length_ok() ==> r.live()
            &&& r.can_alloc(n as int) ==> r.alloc_block(n as int).data() == BLOCKS + HEADER_SIZE
        }),
{
    lemma_after_reset(m);
    lemma_first_fit(m.after_reset().blocks(), n as int, 0);
}

/// A byte that has been stored is loaded again, and no other byte changes. A
/// refused store changes nothing, and a refused load gives `0`.
pub proof fn law_store_load_u8(m: MemoryState, p: Pointer, x: u8, q: Pointer)
    requires
        m.wf(),
        m.refuses(p, 1) || m.reaches(p, 1),
        m.refuses(q, 1) || m.reaches(q, 1),
    ensures
        m.refuses(p, 1) ==> m.after_store_u8(p, x) == m && m.u8_at(p) == 0,
        !m.refuses(p, 1) ==> m.after_store_u8(p, x).u8_at(p) == x,
        address(q) != address(p) ==> m.after_store_u8(p, x).u8_at(q) == m.u8_at(q),
{
}

/// A number that has been stored is loaded again, byte by byte with the least
/// significant one first, and no other byte changes. A refused store changes
/// nothing, and a refused load gives `0`.
pub proof fn law_store_load_u64(m: MemoryState, p: Pointer, x: u64)
    requires
        m.wf(),
        m.refuses(p, 8) || m.reaches(p, 8),
    ensures
        m.refuses(p, 8) ==> m.after_store_u64(p, x) == m && m.u64_at(p) == 0,
        !m.refuses(p, 8) ==> {
            let a = m.after_store_u64(p, x);
            &&& a.u64_at(p) == x
            &&& a.bytes.len() == m.bytes.len()
            &&& forall|j: int|
                0 <= j < m.bytes.len() ==> #[trigger] a.bytes[j] == if address(p) <= j < address(p)
                    + 8 {
                    le_bytes_u64(x)[j - address(p)]
                } else {
                    m.bytes[j]
                }
        },
{
    if !m.refuses(p, 8) {
        lemma_set_u64(m.bytes, address(p), x);
        reveal(set_u64);
    }
}

/// Storing inside the data of a block puts the byte or the number there, where it
/// is loaded again, changes no other byte, and leaves the root and all blocks as
/// they are.
pub proof fn law_store_in_block(m: MemoryState, i: int, p: Pointer, x: u8, y: u64)
    requires
        m.live(),
        0 <= i < m.blocks().len(),
        m.blocks()[i].data() <= p < m.blocks()[i].end(),
    ensures
        m.reaches(p, 1),
        m.after_store_u8(p, x).live(),
        m.after_store_u8(p, x).root() == m.root(),
        m.after_store_u8(p, x).blocks() == m.blocks(),
        m.after_store_u8(p, x).bytes == m.bytes.update(p as int, x),
        m.after_store_u8(p, x).u8_at(p) == x,
        p + 8 <= m.blocks()[i].end() ==> {
            &&& m.after_store_u64(p, y).u64_at(p) == y
            &&& get_u64(m.after_store_u64(p, y).bytes, p as int) == y
            &&& agree(m.after_store_u64(p, y).bytes, m.bytes, 0, p as int)
            &&& agree(m.after_store_u64(p, y).bytes, m.bytes, p + 8, m.bytes.len() as int)
            &&& m.reaches(p, 8)
            &&& m.after_store_u64(p, y).live()
            &&& m.after_store_u64(p, y).root() == m.root()
            &&& m.after_store_u64(p, y).blocks() == m.blocks()
        },
{
    let bs = m.blocks();
    lemma_block_bounds(m, i);
    lemma_data_keeps_heap(m, m.after_store_u8(p, x), i);
    if p + 8 <= bs[i].end() {
        lemma_set_u64(m.bytes, p as int, y);
        lemma_data_keeps_heap(m, m.after_store_u64(p, y), i);
    }
}

/// Storing behind the allocator's position leaves the root and all blocks as they
/// are.
pub proof fn law_store_behind_heap(m: MemoryState, p: Pointer, x: u8, y: u64)
    requires
        m.live(),
        m.heap_end() <= p,
    ensures
        p < m.bytes.len() ==> {
            &&& m.reaches(p, 1)
            &&& m.after_store_u8(p, x).live()
            &&& m.after_store_u8(p, x).root() == m.root()
            &&& m.after_store_u8(p, x).blocks() == m.blocks()
        },
        p + 8 <= m.bytes.len() ==> {
            &&& m.reaches(p, 8)
            &&& m.after_store_u64(p, y).live()
            &&& m.after_store_u64(p, y).root() == m.root()
            &&& m.after_store_u64(p, y).blocks() == m.blocks()
        },
{
    if p < m.bytes.len() {
        let t = m.after_store_u8(p, x);
        lemma_root_of(m.bytes, t.bytes);
        lemma_heap_frame(m, t);
    }
    if p + 8 <= m.bytes.len() {
        let t = m.after_store_u64(p, y);
        lemma_set_u64(m.bytes, p as int, y);
        lemma_root_of(m.bytes, t.bytes);
        lemma_heap_frame(m, t);
    }
}

/// A change inside the data of a block leaves the root and all blocks as they are.
proof fn lemma_data_keeps_heap(m: MemoryState, t: MemoryState, i: int)
    requires
        m.live(),
        0 <= i < m.blocks().len(),
        t.bytes.len() == m.bytes.len(),
        t.limit == m.limit,
        agree(m.bytes, t.bytes, 0, m.blocks()[i].data()),
        agree(m.bytes, t.bytes, m.blocks()[i].end(), m.bytes.len() as int),
    ensures
        t.live(),
        t.root() == m.root(),
        t.blocks() == m.blocks(),
{
    let bs = m.blocks();
    let end = m.heap_end();
    law_layout(m);
    assert(chain(m.bytes, bs, end));
    assert(start_of(bs, i) == bs[i].offset);
    if i > 0 {
        lemma_order(m.bytes, bs, 0, i);
    }
    lemma_root_of(m.bytes, t.bytes);
    assert forall|j: int| 0 <= j < bs.len() implies #[trigger] bs[j] == block_at(
        t.bytes,
        bs[j].offset as int,
    ) by {
        assert(bs[j] == block_at(m.bytes, bs[j].offset as int));
        lemma_block_at(m.bytes, t.bytes, bs[j].offset as int);
    }
    assert(chain(t.bytes, bs, end));
    lemma_blocks(t, bs);
}

/// What is set as input is got as input, and every range within the memory that is
/// available to the allocator can be set; output, error, heap and all data stay. A
/// range that is not accepted is ignored.
pub proof fn law_input_set(m: MemoryState, p: Pointer, len: Length)
    requires
        m.live(),
    ensures
        m.after_input_set(p, len).live(),
        m.after_input_set(p, len).blocks() == m.blocks(),
        m.after_input_set(p, len).bytes.len() == m.bytes.len(),
        agree(m.after_input_set(p, len).bytes, m.bytes, BLOCKS as int, m.bytes.len() as int),
        BLOCKS <= p && 0 < len && p + len <= BLOCKS + m.root().length ==> {
            &&& m.after_input_set(p, len).root().input_offset == p
            &&& m.after_input_set(p, len).root().input_length == len
        },
        !m.accepts_range(p, len) ==> m.after_input_set(p, len) == m,
        m.accepts_range(p, len) ==> m.after_input_set(p, len).root() == (MemoryRoot {
            input_offset: p,
            input_length: len,
            ..m.root()
        }),
{
    lemma_root_keeps_heap(
        m,
        MemoryRoot { input_offset: p, input_length: len, ..m.root() },
    );
}

/// What is set as output is got as output, and every range within the memory that
/// is available to the allocator can be set; input, error, heap and all data stay.
/// A range that is not accepted is ignored.
pub proof fn law_output_set(m: MemoryState, p: Pointer, len: Length)
    requires
        m.live(),
    ensures
        m.after_output_set(p, len).live(),
        m.after_output_set(p, len).blocks() == m.blocks(),
        m.after_output_set(p, len).bytes.len() == m.bytes.len(),
        agree(m.after_output_set(p, len).bytes, m.bytes, BLOCKS as int, m.bytes.len() as int),
        BLOCKS <= p && 0 < len && p + len <= BLOCKS + m.root().length ==> {
            &&& m.after_output_set(p, len).root().output_offset == p
            &&& m.after_output_set(p, len).root().output_length == len
        },
        !m.accepts_range(p, len) ==> m.after_output_set(p, len) == m,
        m.accepts_range(p, len) ==> m.after_output_set(p, len).root() == (MemoryRoot {
            output_offset: p,
            output_length: len,
            ..m.root()
        }),
{
    lemma_root_keeps_heap(
        m,
        MemoryRoot { output_offset: p, output_length: len, ..m.root() },
    );
}

/// What was allocated can be written and read: a byte that is stored anywhere in the
/// `n` bytes is loaded again, also after its range has been set as input and output
/// and its offset as error, and the block keeps its length.
pub proof fn law_alloc_store_load(m: MemoryState, n: Length, i: u64, x: u8)
    requires
        m.live(),
        m.can_alloc(n as int),
        i < n,
    ensures
        ({
            let p = m.alloc_block(n as int).data();
            let q = (p + i) as u64;
            let t = m.after_alloc(n as int).after_store_u8(q, x);
            let u = t.after_input_set(p as u64, n).after_output_set(p as u64, n).after_error_set(
                p as u64,
            );
            &&& q == p + i
            &&& t.u8_at(q) == x
            &&& u.u8_at(q) == x
            &&& u.length_at(p as u64) == n
            &&& u.live()
            &&& u.root().input_offset == p && u.root().input_length == n
            &&& u.root().output_offset == p && u.root().output_length == n
            &&& u.root().error == p
        }),
{
    let a = m.after_alloc(n as int);
    let b = m.alloc_block(n as int);
    let p = b.data() as u64;
    let q = (p + i) as u64;
    law_alloc(m, n);
    let j = choose|j: int| 0 <= j < a.blocks().len() && a.blocks()[j] == b;
    lemma_block_bounds(a, j);
    law_store_in_block(a, j, q, x, 0);
    let t = a.after_store_u8(q, x);
    law_input_set(t, p, n);
    let t1 = t.after_input_set(p, n);
    law_output_set(t1, p, n);
    let t2 = t1.after_output_set(p, n);
    law_error_set(t2, p);
    let u = t2.after_error_set(p);
    assert(agree(u.bytes, t.bytes, BLOCKS as int, u.bytes.len() as int));
    lemma_block_bounds(t, j);
    lemma_block_at(u.bytes, t.bytes, b.offset as int);
}

/// What a split leaves is not lost: where an allocation of `n` bytes splits block
/// `i`, a second one of no more bytes than the block has left takes that rest or a
/// block before it, whatever the host grants, and the position does not move.
pub proof fn law_rest_is_used(m: MemoryState, n: Length, i: int, k: Length)
    requires
        m.live(),
        0 <= i < m.blocks().len(),
        m.blocks()[i].status == 0 || m.blocks()[i].status == 2,
        n + BLOCK_SPLIT_SIZE <= m.blocks()[i].size,
        forall|j: int|
            0 <= j < i ==> !((#[trigger] m.blocks()[j]).status != 1 && m.blocks()[j].status <= 2
                && n <= m.blocks()[j].size),
        k + n + HEADER_SIZE <= m.blocks()[i].size,
    ensures
        ({
            let t = m.after_alloc(n as int);
            &&& t.live()
            &&& t.can_alloc(k as int)
            &&& t.first_fit(k as int) <= i
            &&& t.after_alloc(k as int).root() == m.root()
            &&& t.after_alloc(k as int).bytes.len() == m.bytes.len()
        }),
{
    law_alloc_split(m, n, i);
    let t = m.after_alloc(n as int);
    lemma_after_alloc(m, n as int);
    law_first_fit(t, k, i);
    law_alloc_grows(t, k);
    lemma_after_alloc(t, k as int);
}

/// Every range inside the data of a block, not only the whole of it, can be set as
/// input and as output, and every offset inside it as error.
pub proof fn law_set_in_block(m: MemoryState, i: int, p: Pointer, len: Length)
    requires
        m.live(),
        0 <= i < m.blocks().len(),
        0 < len,
        m.blocks()[i].data() <= p,
        p + len <= m.blocks()[i].end(),
    ensures
        m.after_input_set(p, len).root() == (MemoryRoot {
            input_offset: p,
            input_length: len,
            ..m.root()
        }),
        m.after_output_set(p, len).root() == (MemoryRoot {
            output_offset: p,
            output_length: len,
            ..m.root()
        }),
        m.after_error_set(p).root() == (MemoryRoot { error: p, ..m.root() }),
{
    lemma_block_bounds(m, i);
    law_input_set(m, p, len);
    law_output_set(m, p, len);
    law_error_set(m, p);
}

/// The input is read where it was set: its byte `i` is the byte of memory `i`
/// behind its offset. With bounds checking, setting the input changes none of
/// these bytes, and behind its end there are zeros.
pub proof fn law_input_load(m: MemoryState, p: Pointer, len: Length, i: Pointer)
    requires
        m.live(),
        m.accepts_range(p, len),
    ensures
        ({
            let a = m.after_input_set(p, len);
            &&& m.bounds_checking && i >= len ==> a.input_u8_at(i) == 0
            &&& m.bounds_checking && i + 8 > len ==> a.input_u64_at(i) == 0
            &&& i < len && p + i < m.bytes.len() ==> {
                &&& a.input_reaches(i, 1)
                &&& a.input_u8_at(i) == a.u8_at((p + i) as u64)
                &&& m.bounds_checking ==> a.input_u8_at(i) == m.u8_at((p + i) as u64)
            }
            &&& i + 8 <= len && p + i + 8 <= m.bytes.len() ==> {
                &&& a.input_reaches(i, 8)
                &&& a.input_u64_at(i) == a.u64_at((p + i) as u64)
                &&& m.bounds_checking ==> a.input_u64_at(i) == m.u64_at((p + i) as u64)
            }
        }),
{
    let a = m.after_input_set(p, len);
    let root = MemoryRoot { input_offset: p, input_length: len, ..m.root() };
    law_input_set(m, p, len);
    lemma_with_root(m.bytes, root);
    if m.bounds_checking && i + 8 <= len && p + i + 8 <= m.bytes.len() {
        lemma_get_u64(a.bytes, m.bytes, p + i);
    }
}

/// What was allocated can be filled and set as input, and all of it is read back.
pub proof fn law_alloc_input(m: MemoryState, n: Length, i: Pointer)
    requires
        m.live(),
        m.can_alloc(n as int),
        i < n,
    ensures
        ({
            let a = m.after_alloc(n as int);
            let p = m.alloc_block(n as int).data() as u64;
            let t = a.after_input_set(p, n);
            &&& t.root().input_offset == p
            &&& t.root().input_length == n
            &&& t.input_reaches(i, 1)
            &&& t.input_u8_at(i) == a.u8_at((p + i) as u64)
            &&& i + 8 <= n ==> t.input_reaches(i, 8)
            &&& i + 8 <= n ==> t.input_u64_at(i) == a.u64_at((p + i) as u64)
        }),
{
    let a = m.after_alloc(n as int);
    let b = m.alloc_block(n as int);
    let p = b.data() as u64;
    let t = a.after_input_set(p, n);
    let root = MemoryRoot { input_offset: p, input_length: n, ..a.root() };
    law_alloc(m, n);
    law_input_set(a, p, n);
    lemma_with_root(a.bytes, root);
    if i + 8 <= n {
        lemma_get_u64(t.bytes, a.bytes, p + i);
    }
}

/// Freeing the input leaves an input of length `0`.
pub proof fn law_free_input(m: MemoryState)
    requires
        m.is_open(),
        m.in_bounds_fast(m.root().input_offset as int),
    ensures
        m.after_free(m.root().input_offset).root().input_length == 0,
{
    let p = m.root().input_offset;
    lemma_with_freed(m, p);
    lemma_with_root(
        m.with_freed(p).bytes,
        MemoryRoot { input_length: 0, ..m.with_freed(p).root() },
    );
}

/// The error can always be cleared. An offset that is accepted as error is got
/// again, another one is ignored, and all else stays.
pub proof fn law_error_set(m: MemoryState, p: Pointer)
    requires
        m.live(),
    ensures
        m.accepts_error(0),
        m.after_error_set(p).live(),
        m.after_error_set(p).blocks() == m.blocks(),
        m.after_error_set(p).bytes.len() == m.bytes.len(),
        agree(m.after_error_set(p).bytes, m.bytes, BLOCKS as int, m.bytes.len() as int),
        p == 0 || BLOCKS <= p < BLOCKS + m.root().length ==> m.after_error_set(p).root().error
            == p,
        !m.accepts_error(p) ==> m.after_error_set(p) == m,
        m.accepts_error(p) ==> m.after_error_set(p).root() == (MemoryRoot {
            error: p,
            ..m.root()
        }),
{
    lemma_root_keeps_heap(m, MemoryRoot { error: p, ..m.root() });
}

/// The length of an error message is had from `length`: of a message of `n`
/// allocated bytes that was set as the error, it is `n`.
pub proof fn law_error_length(m: MemoryState, n: Length)
    requires
        m.live(),
        m.can_alloc(n as int),
    ensures
        ({
            let t = m.after_alloc(n as int).after_error_set(m.alloc_block(n as int).data() as u64);
            &&& t.root().error == m.alloc_block(n as int).data()
            &&& t.length_at(t.root().error) == n
        }),
{
    let a = m.after_alloc(n as int);
    let b = m.alloc_block(n as int);
    let p = b.data() as u64;
    law_alloc(m, n);
    law_error_set(a, p);
    lemma_with_root(a.bytes, MemoryRoot { error: p, ..a.root() });
    lemma_block_at(a.after_error_set(p).bytes, a.bytes, b.offset as int);
}

} // verus!
