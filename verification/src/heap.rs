//! The blocks between the root and the position of the allocator.
use crate::bytes::{agree, set_u32};
use crate::layout::{block_at, lemma_block_at, lemma_root_of, lemma_with_block, lemma_with_root};
use crate::layout::{root_of, with_block, with_root};
use crate::layout::{MemoryBlock, MemoryRoot, MemoryStatus, BLOCKS, HEADER_SIZE, ROOT_SIZE};
use crate::memory::{pages_for, MemoryState, PAGE_SIZE};
use vstd::prelude::*;

verus! {

/// A block that is this much larger than needed is split.
pub const BLOCK_SPLIT_SIZE: u64 = 128;

/// Where block `i` of `bs` has to start: the first one behind the root, each
/// other one at the end of the one before it.
pub open spec fn start_of(bs: Seq<MemoryBlock>, i: int) -> int {
    if i <= 0 {
        BLOCKS as int
    } else {
        bs[i - 1].end()
    }
}

/// The blocks of `bs` stand in `s` as they are, one right behind the other, the
/// first one behind the root.
pub open spec fn linked(s: Seq<u8>, bs: Seq<MemoryBlock>) -> bool {
    &&& forall|i: int| 0 <= i < bs.len() ==> #[trigger] bs[i] == block_at(s, bs[i].offset as int)
    &&& forall|i: int| 0 <= i < bs.len() ==> #[trigger] start_of(bs, i) == bs[i].offset
}

/// The blocks of `bs` fill `s` from the end of the root to `end`.
pub open spec fn chain(s: Seq<u8>, bs: Seq<MemoryBlock>, end: int) -> bool {
    linked(s, bs) && start_of(bs, bs.len() as int) == end
}

impl MemoryState {
    /// The root.
    pub open spec fn root(self) -> MemoryRoot {
        root_of(self.bytes)
    }

    /// Where the allocator puts the next fresh block.
    pub open spec fn heap_end(self) -> int {
        BLOCKS + self.root().position
    }

    /// The heap is in order: what the root says of its size fits in memory, the
    /// position leaves some room below that size, and blocks fill all the space
    /// up to the position.
    pub open spec fn heap_ok(self) -> bool {
        &&& self.root().position + ROOT_SIZE <= self.root().length + HEADER_SIZE
        &&& self.root().length + ROOT_SIZE <= self.bytes.len()
        &&& exists|bs: Seq<MemoryBlock>| chain(self.bytes, bs, self.heap_end())
    }

    /// The blocks of the heap, in the order in which they lie in memory.
    pub open spec fn blocks(self) -> Seq<MemoryBlock> {
        choose|bs: Seq<MemoryBlock>| chain(self.bytes, bs, self.heap_end())
    }

    /// The index of the first block that can be used again for `n` bytes, or the
    /// number of blocks if there is none.
    pub open spec fn first_fit(self, n: int) -> int {
        first_fit_from(self.blocks(), n, 0)
    }

    /// Some block can be used again for `n` bytes.
    pub open spec fn can_reuse(self, n: int) -> bool {
        self.first_fit(n) < self.blocks().len()
    }

    /// The pages that memory has to grow by for a fresh block of `n` bytes. The
    /// size of a root is kept in reserve behind the data.
    pub open spec fn growth(self, n: int) -> int {
        let missing = self.root().position + n + ROOT_SIZE - self.root().length;
        if missing > 0 {
            pages_for(missing)
        } else {
            0
        }
    }

    /// An allocation of `n` bytes succeeds: a block can be used again, or the
    /// host grants the pages for a fresh one.
    pub open spec fn can_alloc(self, n: int) -> bool {
        self.can_reuse(n) || self.pages() + self.growth(n) <= self.limit
    }

    /// The block that an allocation of `n` bytes hands out.
    pub open spec fn alloc_block(self, n: int) -> MemoryBlock {
        if self.can_reuse(n) {
            let b = self.blocks()[self.first_fit(n)];
            if is_split(b, n) {
                back_part(b, n)
            } else {
                MemoryBlock {
                    status: MemoryStatus::Active.spec_code(),
                    used: n as u32,
                    ..b
                }
            }
        } else {
            MemoryBlock {
                offset: self.heap_end() as u32,
                status: MemoryStatus::Active.spec_code(),
                size: n as u32,
                used: n as u32,
            }
        }
    }

    /// The blocks after an allocation of `n` bytes: one block becomes active, is
    /// split with its back part active, or follows the others.
    pub open spec fn alloc_blocks(self, n: int) -> Seq<MemoryBlock> {
        let bs = self.blocks();
        let i = self.first_fit(n);
        let block = self.alloc_block(n);
        if !self.can_alloc(n) {
            bs
        } else if !self.can_reuse(n) {
            bs.push(block)
        } else if is_split(bs[i], n) {
            bs.update(i, front_part(bs[i], n)).insert(i + 1, block)
        } else {
            bs.update(i, block)
        }
    }

    /// The root after an allocation of `n` bytes: it changes for a fresh block
    /// only.
    pub open spec fn alloc_root(self, n: int) -> MemoryRoot {
        if self.can_reuse(n) || !self.can_alloc(n) {
            self.root()
        } else {
            MemoryRoot {
                position: (self.root().position + HEADER_SIZE + n) as u64,
                length: (self.root().length + self.growth(n) * PAGE_SIZE) as u64,
                ..self.root()
            }
        }
    }

    /// Memory after an allocation of `n` bytes.
    pub open spec fn after_alloc(self, n: int) -> MemoryState {
        let block = self.alloc_block(n);
        if !self.can_alloc(n) {
            self
        } else if self.can_reuse(n) {
            MemoryState { bytes: with_block(self.after_split(n).bytes, block), ..self }
        } else {
            let m = self.grown(self.growth(n));
            MemoryState { bytes: with_root(with_block(m.bytes, block), self.alloc_root(n)), ..m }
        }
    }

    /// The block that is found for `n` bytes, before it is marked as active.
    pub open spec fn found_block(self, n: int) -> MemoryBlock {
        let b = self.blocks()[self.first_fit(n)];
        if is_split(b, n) {
            free_back_part(b, n)
        } else {
            b
        }
    }

    /// Memory once a block for `n` bytes has been looked for.
    pub open spec fn after_find(self, n: int) -> MemoryState {
        if self.can_reuse(n) && is_split(self.blocks()[self.first_fit(n)], n) {
            MemoryState {
                bytes: with_block(self.after_split(n).bytes, self.found_block(n)),
                ..self
            }
        } else {
            self
        }
    }

    /// The blocks once a block for `n` bytes has been looked for: they change only
    /// where one is split, and then two blocks stand in its place.
    pub open spec fn find_blocks(self, n: int) -> Seq<MemoryBlock> {
        let bs = self.blocks();
        let i = self.first_fit(n);
        if self.can_reuse(n) && is_split(bs[i], n) {
            bs.update(i, front_part(bs[i], n)).insert(i + 1, self.found_block(n))
        } else {
            bs
        }
    }

    /// Memory once the block that is to be used again for `n` bytes has been cut
    /// short, if it is much too large.
    pub open spec fn after_split(self, n: int) -> MemoryState {
        let b = self.blocks()[self.first_fit(n)];
        if is_split(b, n) {
            MemoryState { bytes: with_block(self.bytes, front_part(b, n)), ..self }
        } else {
            self
        }
    }
}

/// Whether `b` can be used again for `n` bytes.
pub open spec fn fits(b: MemoryBlock, n: int) -> bool {
    &&& b.status == MemoryStatus::Unused.spec_code() || b.status == MemoryStatus::Free.spec_code()
    &&& b.size >= n
}

/// The index of the first block from `i` on that can be used again for `n`
/// bytes, or the number of blocks if there is none.
pub open spec fn first_fit_from(bs: Seq<MemoryBlock>, n: int, i: int) -> int
    decreases bs.len() - i,
{
    if i >= bs.len() {
        bs.len() as int
    } else if fits(bs[i], n) {
        i
    } else {
        first_fit_from(bs, n, i + 1)
    }
}

/// Whether `b` has too much excess to be used whole for `n` bytes.
pub open spec fn is_split(b: MemoryBlock, n: int) -> bool {
    b.size - n >= BLOCK_SPLIT_SIZE
}

/// What stays of `b` in front when `n` bytes, and a header for them, are split
/// off.
pub open spec fn front_part(b: MemoryBlock, n: int) -> MemoryBlock {
    MemoryBlock { size: (b.size - n - HEADER_SIZE) as u32, used: 0, ..b }
}

/// The block of `n` bytes that is split off at the end of `b`.
pub open spec fn back_part(b: MemoryBlock, n: int) -> MemoryBlock {
    MemoryBlock {
        offset: front_part(b, n).end() as u32,
        status: MemoryStatus::Active.spec_code(),
        size: n as u32,
        used: n as u32,
    }
}

/// The same block as long as it is free.
pub open spec fn free_back_part(b: MemoryBlock, n: int) -> MemoryBlock {
    MemoryBlock { status: MemoryStatus::Free.spec_code(), used: 0, ..back_part(b, n) }
}

/// Later blocks start behind the end of earlier ones.
pub proof fn lemma_order(s: Seq<u8>, bs: Seq<MemoryBlock>, i: int, j: int)
    requires
        linked(s, bs),
        0 <= i < j <= bs.len(),
    ensures
        bs[i].end() <= start_of(bs, j),
        start_of(bs, i) + HEADER_SIZE <= start_of(bs, j),
    decreases j - i,
{
    assert(start_of(bs, i) == bs[i].offset);
    if i + 1 < j {
        lemma_order(s, bs, i, j - 1);
        assert(start_of(bs, j - 1) == bs[j - 1].offset);
    }
}

/// Two ways to follow the blocks in one memory agree as far as both go.
pub proof fn lemma_linked_agree(s: Seq<u8>, a: Seq<MemoryBlock>, b: Seq<MemoryBlock>, k: int)
    requires
        linked(s, a),
        linked(s, b),
        0 <= k <= a.len(),
        k <= b.len(),
    ensures
        forall|i: int| 0 <= i < k ==> a[i] == b[i],
        start_of(a, k) == start_of(b, k),
    decreases k,
{
    if k > 0 {
        lemma_linked_agree(s, a, b, k - 1);
        assert(a[k - 1].offset == start_of(a, k - 1));
        assert(b[k - 1].offset == start_of(b, k - 1));
        assert(a[k - 1] == b[k - 1]);
    }
}

/// The blocks that fill a memory up to some end are determined.
pub proof fn lemma_chain_unique(s: Seq<u8>, a: Seq<MemoryBlock>, b: Seq<MemoryBlock>, end: int)
    requires
        chain(s, a, end),
        chain(s, b, end),
    ensures
        a == b,
{
    let k = if a.len() <= b.len() {
        a.len() as int
    } else {
        b.len() as int
    };
    lemma_linked_agree(s, a, b, k);
    if a.len() < b.len() {
        lemma_order(s, b, k, b.len() as int);
    }
    if b.len() < a.len() {
        lemma_order(s, a, k, a.len() as int);
    }
    assert(a =~= b);
}

/// A memory whose blocks are known to be `bs`.
pub proof fn lemma_blocks(m: MemoryState, bs: Seq<MemoryBlock>)
    requires
        chain(m.bytes, bs, m.heap_end()),
    ensures
        m.blocks() == bs,
        chain(m.bytes, m.blocks(), m.heap_end()),
{
    lemma_chain_unique(m.bytes, m.blocks(), bs, m.heap_end());
}

/// Where the blocks' bytes stay, the blocks stay.
pub proof fn lemma_chain_frame(s: Seq<u8>, t: Seq<u8>, bs: Seq<MemoryBlock>, end: int)
    requires
        chain(s, bs, end),
        agree(s, t, BLOCKS as int, end),
    ensures
        chain(t, bs, end),
{
    assert forall|i: int| 0 <= i < bs.len() implies #[trigger] bs[i] == block_at(
        t,
        bs[i].offset as int,
    ) by {
        lemma_order(s, bs, i, bs.len() as int);
        assert(start_of(bs, i) == bs[i].offset);
        if i > 0 {
            lemma_order(s, bs, 0, i);
        }
        lemma_block_at(s, t, bs[i].offset as int);
    }
}

/// Where the blocks' bytes and what the root says of them stay, so does the heap.
pub proof fn lemma_heap_frame(m: MemoryState, t: MemoryState)
    requires
        m.heap_ok(),
        m.bytes.len() <= t.bytes.len(),
        t.root().position == m.root().position,
        t.root().length == m.root().length,
        agree(m.bytes, t.bytes, BLOCKS as int, m.heap_end()),
    ensures
        t.heap_ok(),
        t.blocks() == m.blocks(),
{
    assert(chain(m.bytes, m.blocks(), m.heap_end()));
    lemma_chain_frame(m.bytes, t.bytes, m.blocks(), m.heap_end());
    lemma_blocks(t, m.blocks());
}

/// Rewriting the header of one block, but not its size, changes that block only.
pub proof fn lemma_chain_update(
    s: Seq<u8>,
    bs: Seq<MemoryBlock>,
    end: int,
    i: int,
    b: MemoryBlock,
)
    requires
        chain(s, bs, end),
        end <= s.len(),
        0 <= i < bs.len(),
        b.offset == bs[i].offset,
        b.size == bs[i].size,
    ensures
        chain(with_block(s, b), bs.update(i, b), end),
{
    let t = with_block(s, b);
    let cs = bs.update(i, b);
    lemma_order(s, bs, i, bs.len() as int);
    assert(start_of(bs, i) == bs[i].offset);
    lemma_with_block(s, b);
    assert forall|j: int| 0 <= j < cs.len() implies #[trigger] cs[j] == block_at(
        t,
        cs[j].offset as int,
    ) && start_of(cs, j) == cs[j].offset by {
        assert(start_of(bs, j) == bs[j].offset);
        assert(bs[j] == block_at(s, bs[j].offset as int));
        if j < i {
            lemma_order(s, bs, j, i);
            lemma_block_at(s, t, bs[j].offset as int);
        }
        if j > i {
            lemma_order(s, bs, i, j);
            lemma_order(s, bs, j, bs.len() as int);
            lemma_block_at(s, t, bs[j].offset as int);
        }
    }
    assert forall|j: int| 0 <= j < cs.len() implies #[trigger] start_of(cs, j)
        == cs[j].offset by {
        assert(cs[j] == block_at(t, cs[j].offset as int));
    }
}

/// Writing a header inside the data of a block, and cutting that block short so
/// that it ends there, splits the block in two.
pub proof fn lemma_chain_split(
    s: Seq<u8>,
    bs: Seq<MemoryBlock>,
    end: int,
    i: int,
    front: MemoryBlock,
    back: MemoryBlock,
)
    requires
        chain(s, bs, end),
        end <= s.len(),
        0 <= i < bs.len(),
        front.offset == bs[i].offset,
        back.offset == front.end(),
        back.end() == bs[i].end(),
    ensures
        chain(
            with_block(with_block(s, front), back),
            bs.update(i, front).insert(i + 1, back),
            end,
        ),
{
    let s1 = with_block(s, front);
    let t = with_block(s1, back);
    let cs = bs.update(i, front).insert(i + 1, back);
    lemma_order(s, bs, i, bs.len() as int);
    assert(start_of(bs, i) == bs[i].offset);
    lemma_with_block(s, front);
    lemma_with_block(s1, back);
    lemma_block_at(t, s1, front.offset as int);
    assert forall|j: int| 0 <= j < cs.len() implies (#[trigger] cs[j]) == block_at(
        t,
        cs[j].offset as int,
    ) && start_of(cs, j) == cs[j].offset by {
        if j < i {
            assert(start_of(bs, j) == bs[j].offset);
            assert(bs[j] == block_at(s, bs[j].offset as int));
            lemma_order(s, bs, j, i);
            lemma_block_at(s, t, bs[j].offset as int);
        }
        if j > i + 1 {
            assert(start_of(bs, j - 1) == bs[j - 1].offset);
            assert(bs[j - 1] == block_at(s, bs[j - 1].offset as int));
            lemma_order(s, bs, i, j - 1);
            lemma_order(s, bs, j - 1, bs.len() as int);
            lemma_block_at(s, t, bs[j - 1].offset as int);
        }
    }
    assert forall|j: int| 0 <= j < cs.len() implies #[trigger] start_of(cs, j)
        == cs[j].offset by {
        assert(cs[j] == block_at(t, cs[j].offset as int));
    }
}

/// Writing a header at the end of the blocks adds a block.
pub proof fn lemma_chain_push(s: Seq<u8>, bs: Seq<MemoryBlock>, end: int, b: MemoryBlock)
    requires
        chain(s, bs, end),
        b.offset == end,
        end + HEADER_SIZE <= s.len(),
    ensures
        chain(with_block(s, b), bs.push(b), b.end()),
{
    let t = with_block(s, b);
    let cs = bs.push(b);
    lemma_with_block(s, b);
    lemma_chain_frame(s, t, bs, end);
    assert forall|j: int| 0 <= j < cs.len() implies #[trigger] start_of(cs, j)
        == cs[j].offset by {
        if j < bs.len() {
            assert(start_of(bs, j) == bs[j].offset);
        }
    }
}

/// The first block that fits is one of those looked at, it fits, and none before
/// it does.
pub proof fn lemma_first_fit(bs: Seq<MemoryBlock>, n: int, i: int)
    requires
        0 <= i <= bs.len(),
    ensures
        i <= first_fit_from(bs, n, i) <= bs.len(),
        first_fit_from(bs, n, i) < bs.len() ==> fits(bs[first_fit_from(bs, n, i)], n),
        forall|j: int| i <= j < first_fit_from(bs, n, i) ==> !fits(#[trigger] bs[j], n),
    decreases bs.len() - i,
{
    if i < bs.len() && !fits(bs[i], n) {
        lemma_first_fit(bs, n, i + 1);
    }
}

/// The second of two headers written at one place is the one that counts.
pub proof fn lemma_with_block_twice(s: Seq<u8>, a: MemoryBlock, b: MemoryBlock)
    requires
        a.offset == b.offset,
        a.offset + HEADER_SIZE <= s.len(),
    ensures
        with_block(with_block(s, a), b) == with_block(s, b),
{
    reveal(set_u32);
    assert(with_block(with_block(s, a), b) =~= with_block(s, b));
}

/// What looking for a block does to memory, its root and its blocks.
pub proof fn lemma_after_find(m: MemoryState, n: int)
    requires
        m.wf(),
        m.heap_ok(),
        0 <= n,
    ensures
        m.after_find(n).wf(),
        m.after_find(n).heap_ok(),
        m.after_find(n).root() == m.root(),
        m.after_find(n).bytes.len() == m.bytes.len(),
        m.after_find(n).blocks() == m.find_blocks(n),
        m.can_reuse(n) ==> {
            let b = m.blocks()[m.first_fit(n)];
            let found = m.found_block(n);
            &&& n <= found.size < n + BLOCK_SPLIT_SIZE
            &&& found.end() == b.end() <= m.heap_end()
            &&& is_split(b, n) ==> {
                &&& front_part(b, n).end() == found.offset
                &&& front_part(b, n).size + HEADER_SIZE + found.size == b.size
            }
        },
{
    let bs = m.blocks();
    let i = m.first_fit(n);
    assert(chain(m.bytes, bs, m.heap_end()));
    lemma_first_fit(bs, n, 0);
    if m.can_reuse(n) {
        let b = bs[i];
        lemma_order(m.bytes, bs, i, bs.len() as int);
        assert(start_of(bs, i) == b.offset);
        if i > 0 {
            lemma_order(m.bytes, bs, 0, i);
        }
        if is_split(b, n) {
            let front = front_part(b, n);
            let back = free_back_part(b, n);
            let t = m.after_find(n);
            lemma_chain_split(m.bytes, bs, m.heap_end(), i, front, back);
            lemma_with_block(m.bytes, front);
            lemma_with_block(with_block(m.bytes, front), back);
            lemma_root_of(t.bytes, m.bytes);
            lemma_blocks(t, m.find_blocks(n));
        }
    }
}

/// What an allocation does to the numbers in the root and to the blocks.
pub proof fn lemma_after_alloc(m: MemoryState, n: int)
    requires
        m.wf(),
        m.heap_ok(),
        0 <= n,
    ensures
        m.after_alloc(n).wf(),
        m.after_alloc(n).heap_ok(),
        m.after_alloc(n).root() == m.alloc_root(n),
        m.after_alloc(n).blocks() == m.alloc_blocks(n),
        chain(m.after_alloc(n).bytes, m.alloc_blocks(n), m.after_alloc(n).heap_end()),
        m.can_alloc(n) ==> n <= u32::MAX,
{
    let bs = m.blocks();
    let end = m.heap_end();
    let i = m.first_fit(n);
    let t = m.after_alloc(n);
    assert(chain(m.bytes, bs, end));
    lemma_first_fit(bs, n, 0);
    if m.can_reuse(n) {
        let b = bs[i];
        lemma_order(m.bytes, bs, i, bs.len() as int);
        assert(start_of(bs, i) == b.offset);
        if i > 0 {
            lemma_order(m.bytes, bs, 0, i);
        }
        if is_split(b, n) {
            let front = front_part(b, n);
            let back = back_part(b, n);
            lemma_chain_split(m.bytes, bs, end, i, front, back);
            lemma_with_block(m.bytes, front);
            lemma_with_block(with_block(m.bytes, front), back);
        } else {
            let block = m.alloc_block(n);
            lemma_chain_update(m.bytes, bs, end, i, block);
            lemma_with_block(m.bytes, block);
        }
        lemma_root_of(t.bytes, m.bytes);
        lemma_blocks(t, m.alloc_blocks(n));
    } else if m.can_alloc(n) {
        let k = m.growth(n);
        let g = m.grown(k);
        let block = m.alloc_block(n);
        let s = with_block(g.bytes, block);
        lemma_root_of(g.bytes, m.bytes);
        lemma_chain_frame(m.bytes, g.bytes, bs, end);
        lemma_chain_push(g.bytes, bs, end, block);
        lemma_with_block(g.bytes, block);
        lemma_root_of(s, g.bytes);
        lemma_with_root(s, m.alloc_root(n));
        lemma_chain_frame(s, t.bytes, bs.push(block), block.end());
        lemma_blocks(t, m.alloc_blocks(n));
    }
}

} // verus!
