//! The linear memory that the kernel manages: bytes, in whole pages, that can
//! only grow.
use crate::bytes::{get_u32, get_u64, set_u32, set_u64, zero_range};
use vstd::prelude::*;

verus! {

/// An offset in linear memory. `0` plays the part of a null pointer.
pub type Pointer = u64;

/// A number of bytes.
pub type Length = u64;

/// WebAssembly page size.
pub const PAGE_SIZE: usize = 65536;

/// The most pages a memory with 32-bit addresses can have.
pub const MAX_PAGES: usize = 65536;

/// The number of pages that hold `nbytes` bytes.
pub open spec fn pages_for(nbytes: int) -> int {
    (nbytes + PAGE_SIZE - 1) / (PAGE_SIZE as int)
}

/// Returns the number of pages needed for the given number of bytes: the
/// smallest number of pages that holds them.
///
/// A count that does not fit in `usize`, which only a 32-bit `usize` is too
/// small for, is truncated.
pub fn num_pages(nbytes: u64) -> (npages: usize)
    ensures
        npages == pages_for(nbytes as int) as usize,
        nbytes <= usize::MAX * PAGE_SIZE ==> {
            &&& npages == pages_for(nbytes as int)
            &&& nbytes <= npages * PAGE_SIZE
            &&& npages > 0 ==> (npages - 1) * PAGE_SIZE < nbytes
        },
{
    let page: u64 = PAGE_SIZE as u64;
    let npages: u64 = nbytes / page;
    let remainder: u64 = nbytes % page;
    assert(npages <= 0xffff_ffff_ffff);
    if remainder != 0 {
        #[verifier::truncate]
        ((npages + 1) as usize)
    } else {
        #[verifier::truncate]
        (npages as usize)
    }
}

/// What a memory holds and how it is set up.
#[verifier::ext_equal]
pub struct MemoryState {
    /// The content.
    pub bytes: Seq<u8>,
    /// The most pages that the host grants.
    pub limit: int,
    /// Whether pointers are tested before memory is touched.
    pub bounds_checking: bool,
}

impl MemoryState {
    /// The content is made of whole pages, no more than the limit, and the
    /// limit is one that 32-bit addresses and this machine can reach.
    pub open spec fn wf(self) -> bool {
        &&& self.bytes.len() == self.pages() * PAGE_SIZE
        &&& self.pages() <= self.limit <= MAX_PAGES
        &&& self.limit * PAGE_SIZE <= usize::MAX
    }

    /// The current size in pages.
    pub open spec fn pages(self) -> int {
        self.bytes.len() as int / PAGE_SIZE as int
    }

    /// This memory with `delta` pages of zeros added at its end.
    pub open spec fn grown(self, delta: int) -> MemoryState {
        MemoryState {
            bytes: self.bytes + Seq::new((delta * PAGE_SIZE) as nat, |i: int| 0u8),
            ..self
        }
    }
}

/// The address that a pointer stands for: its low 32 bits.
pub open spec fn address(p: Pointer) -> int {
    p as int % 0x1_0000_0000
}

/// A linear memory.
pub struct LinearMemory {
    bytes: Vec<u8>,
    limit: usize,
    bounds_checking: bool,
}

impl View for LinearMemory {
    type V = MemoryState;

    closed spec fn view(&self) -> MemoryState {
        MemoryState {
            bytes: self.bytes@,
            limit: self.limit as int,
            bounds_checking: self.bounds_checking,
        }
    }
}

impl LinearMemory {
    /// A memory of `pages` pages of zeros, which the host lets grow to `limit`
    /// pages. With `bounds_checking`, the functions that take a pointer from a
    /// plugin test it before they touch memory.
    pub fn new(pages: usize, limit: usize, bounds_checking: bool) -> (memory: LinearMemory)
        requires
            pages <= limit <= MAX_PAGES,
            limit * PAGE_SIZE <= usize::MAX,
        ensures
            memory@.wf(),
            memory@ == (MemoryState {
                bytes: Seq::new((pages * PAGE_SIZE) as nat, |i: int| 0u8),
                limit: limit as int,
                bounds_checking,
            }),
    {
        let mut bytes: Vec<u8> = Vec::new();
        bytes.resize(pages * PAGE_SIZE, 0u8);
        assert(bytes@ =~= Seq::new((pages * PAGE_SIZE) as nat, |i: int| 0u8));
        LinearMemory { bytes, limit, bounds_checking }
    }

    /// Changes how many pages the host grants. Whether memory can grow is the
    /// host's decision, and the host may decide anew before each request.
    pub fn set_limit(&mut self, limit: usize)
        requires
            old(self)@.wf(),
            old(self)@.pages() <= limit <= MAX_PAGES,
            limit * PAGE_SIZE <= usize::MAX,
        ensures
            final(self)@.wf(),
            final(self)@ == (MemoryState { limit: limit as int, ..old(self)@ }),
    {
        self.limit = limit;
    }

    /// How many pages the host grants.
    pub fn limit(&self) -> (limit: usize)
        ensures
            limit == self@.limit,
    {
        self.limit
    }

    /// Whether pointers are tested before memory is touched.
    pub fn bounds_checking(&self) -> (checking: bool)
        ensures
            checking == self@.bounds_checking,
    {
        self.bounds_checking
    }

    /// The size in bytes.
    pub fn size(&self) -> (size: u64)
        requires
            self@.wf(),
        ensures
            size == self@.bytes.len(),
    {
        self.bytes.len() as u64
    }

    /// The size in pages.
    pub fn memory_size(&self) -> (pages: usize)
        ensures
            pages == self@.pages(),
    {
        self.bytes.len() / PAGE_SIZE
    }

    /// Asks the host for `delta` more pages. Returns the size before, or
    /// `usize::MAX` where the host refuses, and then nothing changes. The host
    /// grants every request that stays within its limit.
    pub fn memory_grow(&mut self, delta: usize) -> (before: usize)
        requires
            old(self)@.wf(),
        ensures
            final(self)@.wf(),
            old(self)@.pages() + delta <= old(self)@.limit ==> {
                &&& before == old(self)@.pages()
                &&& final(self)@ == old(self)@.grown(delta as int)
                &&& final(self)@.bytes.len() == old(self)@.bytes.len() + delta * PAGE_SIZE
                &&& final(self)@.limit == old(self)@.limit
                &&& final(self)@.bounds_checking == old(self)@.bounds_checking
                &&& forall|j: int|
                    0 <= j < final(self)@.bytes.len() ==> #[trigger] final(self)@.bytes[j] == if j
                        < old(self)@.bytes.len() {
                        old(self)@.bytes[j]
                    } else {
                        0
                    }
            },
            old(self)@.pages() + delta > old(self)@.limit ==> {
                &&& before == usize::MAX
                &&& final(self)@ == old(self)@
            },
    {
        let pages: usize = self.bytes.len() / PAGE_SIZE;
        if delta > self.limit - pages {
            return usize::MAX;
        }
        let ghost old_bytes = self.bytes@;
        self.bytes.resize((pages + delta) * PAGE_SIZE, 0u8);
        proof {
            if delta > 0 {
                assert forall|i: int| 0 <= i < old_bytes.len() implies self.bytes@[i]
                    == old_bytes[i] by {
                    assert(self.bytes@.subrange(0, old_bytes.len() as int)[i] == old_bytes[i]);
                }
            }
            assert(self.bytes@ =~= old_bytes + Seq::new((delta * PAGE_SIZE) as nat, |i: int| 0u8));
        }
        pages
    }

    /// Reads the byte at `at`.
    pub(crate) fn read_u8(&self, at: u64) -> (x: u8)
        requires
            at < self@.bytes.len(),
        ensures
            x == self@.bytes[at as int],
    {
        assert(self.bytes@.len() == self.bytes.len());
        self.bytes[at as usize]
    }

    /// Reads the number in the four bytes from `at` on.
    pub(crate) fn read_u32(&self, at: u64) -> (x: u32)
        requires
            at + 4 <= self@.bytes.len(),
        ensures
            x == get_u32(self@.bytes, at as int),
    {
        assert(self.bytes@.len() == self.bytes.len());
        proof {
            reveal(get_u32);
        }
        let i: usize = at as usize;
        self.bytes[i] as u32 + 0x100 * self.bytes[i + 1] as u32 + 0x1_0000 * self.bytes[i
            + 2] as u32 + 0x100_0000 * self.bytes[i + 3] as u32
    }

    /// Reads the number in the eight bytes from `at` on.
    pub(crate) fn read_u64(&self, at: u64) -> (x: u64)
        requires
            at + 8 <= self@.bytes.len(),
        ensures
            x == get_u64(self@.bytes, at as int),
    {
        assert(self.bytes@.len() == self.bytes.len());
        proof {
            reveal(get_u64);
        }
        let i: usize = at as usize;
        self.bytes[i] as u64 + 0x100 * self.bytes[i + 1] as u64 + 0x1_0000 * self.bytes[i
            + 2] as u64 + 0x100_0000 * self.bytes[i + 3] as u64 + 0x1_0000_0000 * self.bytes[i
            + 4] as u64 + 0x100_0000_0000 * self.bytes[i + 5] as u64 + 0x1_0000_0000_0000
            * self.bytes[i + 6] as u64 + 0x100_0000_0000_0000 * self.bytes[i + 7] as u64
    }

    /// Writes `x` at `at`.
    pub(crate) fn write_u8(&mut self, at: u64, x: u8)
        requires
            at < old(self)@.bytes.len(),
        ensures
            final(self)@.bytes.len() == old(self)@.bytes.len(),
            final(self)@ == (MemoryState {
                bytes: old(self)@.bytes.update(at as int, x),
                ..old(self)@
            }),
    {
        assert(self.bytes@.len() == self.bytes.len());
        self.bytes[at as usize] = x;
    }

    /// Writes `x` in the four bytes from `at` on.
    pub(crate) fn write_u32(&mut self, at: u64, x: u32)
        requires
            at + 4 <= old(self)@.bytes.len(),
        ensures
            final(self)@.bytes.len() == old(self)@.bytes.len(),
            final(self)@ == (MemoryState {
                bytes: set_u32(old(self)@.bytes, at as int, x),
                ..old(self)@
            }),
    {
        assert(self.bytes@.len() == self.bytes.len());
        proof {
            reveal(set_u32);
        }
        let i: usize = at as usize;
        self.bytes[i] = (x % 256) as u8;
        self.bytes[i + 1] = (x / 0x100 % 256) as u8;
        self.bytes[i + 2] = (x / 0x1_0000 % 256) as u8;
        self.bytes[i + 3] = (x / 0x100_0000 % 256) as u8;
        assert(self@.bytes =~= set_u32(old(self)@.bytes, at as int, x));
    }

    /// Writes `x` in the eight bytes from `at` on.
    pub(crate) fn write_u64(&mut self, at: u64, x: u64)
        requires
            at + 8 <= old(self)@.bytes.len(),
        ensures
            final(self)@.bytes.len() == old(self)@.bytes.len(),
            final(self)@ == (MemoryState {
                bytes: set_u64(old(self)@.bytes, at as int, x),
                ..old(self)@
            }),
    {
        assert(self.bytes@.len() == self.bytes.len());
        proof {
            reveal(set_u64);
        }
        let i: usize = at as usize;
        self.bytes[i] = (x % 256) as u8;
        self.bytes[i + 1] = (x / 0x100 % 256) as u8;
        self.bytes[i + 2] = (x / 0x1_0000 % 256) as u8;
        self.bytes[i + 3] = (x / 0x100_0000 % 256) as u8;
        self.bytes[i + 4] = (x / 0x1_0000_0000 % 256) as u8;
        self.bytes[i + 5] = (x / 0x100_0000_0000 % 256) as u8;
        self.bytes[i + 6] = (x / 0x1_0000_0000_0000 % 256) as u8;
        self.bytes[i + 7] = (x / 0x100_0000_0000_0000 % 256) as u8;
        assert(self@.bytes =~= set_u64(old(self)@.bytes, at as int, x));
    }

    /// Writes zeros from `from` up to, not including, `to`.
    pub(crate) fn fill_zero(&mut self, from: u64, to: u64)
        requires
            from <= to <= old(self)@.bytes.len(),
        ensures
            final(self)@.bytes.len() == old(self)@.bytes.len(),
            final(self)@ == (MemoryState {
                bytes: zero_range(old(self)@.bytes, from as int, to as int),
                ..old(self)@
            }),
    {
        assert(self.bytes@.len() == self.bytes.len());
        let mut i: usize = from as usize;
        let end: usize = to as usize;
        while i < end
            invariant
                from <= i <= end == to <= self.bytes@.len(),
                self@.limit == old(self)@.limit,
                self@.bounds_checking == old(self)@.bounds_checking,
                self@.bytes == zero_range(old(self)@.bytes, from as int, i as int),
            decreases end - i,
        {
            self.bytes[i] = 0u8;
            i = i + 1;
            assert(self@.bytes =~= zero_range(old(self)@.bytes, from as int, i as int));
        }
        assert(zero_range(old(self)@.bytes, from as int, from as int) =~= old(self)@.bytes);
    }
}

/// The address that `p` stands for, as a number that memory is indexed by.
pub(crate) fn to_address(p: Pointer) -> (at: u64)
    ensures
        at == address(p),
{
    p % 0x1_0000_0000
}

} // verus!
