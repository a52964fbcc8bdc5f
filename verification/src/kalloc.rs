//! A page allocator that keeps the free pages in a table of its own, beside
//! the memory that it hands out. Pages that come back are filled with junk,
//! to catch whoever still reads them.

use vstd::prelude::*;
use crate::address::{Addr, PG_BIT};
use crate::memory::phys::PhysMem;

verus! {

/// Bytes in a page.
pub const PG_SIZE: usize = 4096;

/// Pages that the table of free pages has room for: those of the RAM that
/// the kernel uses.
pub const FREE_LIST_SIZE: usize = 32768;

/// The byte that freed pages are filled with.
pub const JUNK: u8 = 1;

/// The allocator: the addresses of the free pages, the last freed on top.
pub struct Kallocator {
    free_list: Vec<usize>,
}

/// The word whose eight bytes are all `val`.
pub open spec fn spec_splat(val: u8) -> u64 {
    (val * 0x0101_0101_0101_0101) as u64
}

/// The address at which `free_range` starts from `pa_start`.
pub open spec fn spec_first(pa_start: Addr) -> usize {
    ((pa_start.0 + 4095) as usize) & !PG_BIT
}

/// Number of pages that `free_range` frees from `first` up to `pa_end`:
/// those that end at or before `pa_end`.
pub open spec fn spec_count(first: usize, pa_end: Addr) -> int {
    if first + PG_SIZE <= pa_end.0 {
        (pa_end.0 - first) / PG_SIZE as int
    } else {
        0
    }
}

impl View for Kallocator {
    type V = Seq<usize>;

    /// The free pages, the next to be handed out last.
    closed spec fn view(&self) -> Seq<usize> {
        self.free_list@
    }
}

impl Kallocator {
    /// The table has room for its pages.
    pub open spec fn wf(&self) -> bool {
        self@.len() <= FREE_LIST_SIZE
    }

    /// An allocator with the pages between `end`, the end of the kernel, and
    /// `stop`, the end of RAM.
    pub fn init(mem: &mut PhysMem, end: Addr, stop: Addr) -> (kallocator: Kallocator)
        requires
            old(mem).wf(),
            end.0 + 4095 <= usize::MAX,
            stop.0 + PG_SIZE <= usize::MAX,
            spec_count(spec_first(end), stop) <= FREE_LIST_SIZE,
            forall|k: int|
                0 <= k < spec_count(spec_first(end), stop) ==> old(mem).holds_page(
                    #[trigger] (spec_first(end) + k * PG_SIZE) as u64,
                ),
        ensures
            kallocator.wf(),
            final(mem).wf(),
            final(mem).same_range(old(mem)),
            kallocator@ == Seq::new(
                spec_count(spec_first(end), stop) as nat,
                |k: int| (spec_first(end) + k * PG_SIZE) as usize,
            ),
    {
        let mut kallocator = Kallocator { free_list: Vec::new() };
        kallocator.free_range(mem, end, stop);
        assert(kallocator@ =~= Seq::new(
            spec_count(spec_first(end), stop) as nat,
            |k: int| (spec_first(end) + k * PG_SIZE) as usize,
        ));
        kallocator
    }

    /// Frees the pages from `pa_start` on that end at or before `pa_end`.
    #[verifier::rlimit(30)]
    pub fn free_range(&mut self, mem: &mut PhysMem, pa_start: Addr, pa_end: Addr)
        requires
            old(self).wf(),
            old(mem).wf(),
            pa_start.0 + 4095 <= usize::MAX,
            pa_end.0 + PG_SIZE <= usize::MAX,
            old(self)@.len() + spec_count(spec_first(pa_start), pa_end) <= FREE_LIST_SIZE,
            forall|k: int|
                0 <= k < spec_count(spec_first(pa_start), pa_end) ==> old(mem).holds_page(
                    #[trigger] (spec_first(pa_start) + k * PG_SIZE) as u64,
                ),
        ensures
            final(self).wf(),
            final(mem).wf(),
            final(mem).same_range(old(mem)),
            final(self)@ == old(self)@ + Seq::new(
                spec_count(spec_first(pa_start), pa_end) as nat,
                |k: int| (spec_first(pa_start) + k * PG_SIZE) as usize,
            ),
    {
        let mut start = pa_start.round_up_pg();
        let ghost first = start.0;
        let ghost n = spec_count(first, pa_end);
        let ghost k: int = 0;
        proof {
            assert(self@ =~= old(self)@ + Seq::new(0, |j: int| (first + j * PG_SIZE) as usize));
            assert(first == spec_first(pa_start));
            assert(first <= usize::MAX);
            if first + PG_SIZE <= pa_end.0 {
                assert(n * 4096 <= pa_end.0 - first);
            }
        }
        while start.0 <= pa_end.0 && pa_end.0 - start.0 >= PG_SIZE
            invariant
                0 <= k <= n,
                n == spec_count(first, pa_end),
                start.0 == first + k * PG_SIZE,
                first + n * PG_SIZE <= pa_end.0 || n == 0,
                pa_end.0 + PG_SIZE <= usize::MAX,
                k < n || !(start.0 + PG_SIZE <= pa_end.0),
                self.wf(),
                mem.wf(),
                mem.same_range(old(mem)),
                old(self)@.len() + n <= FREE_LIST_SIZE,
                self@ == old(self)@ + Seq::new(k as nat, |j: int| (first + j * PG_SIZE) as usize),
                forall|j: int|
                    0 <= j < n ==> old(mem).holds_page(#[trigger] (first + j * PG_SIZE) as u64),
            decreases n - k,
        {
            let ghost before = self@;
            proof {
                assert(k < n);
                assert(old(mem).holds_page((first + k * PG_SIZE) as u64));
            }
            self.kfree(mem, start);
            start = start.add(PG_SIZE);
            proof {
                assert(self@ =~= old(self)@ + Seq::new(
                    (k + 1) as nat,
                    |j: int| (first + j * PG_SIZE) as usize,
                ));
                k = k + 1;
                if k < n {
                    assert((k + 1) * 4096 <= n * 4096);
                } else {
                    assert((pa_end.0 - first) / 4096 == n);
                    assert(pa_end.0 - first < (n + 1) * 4096);
                }
            }
        }
        proof {
            if k < n {
                assert((k + 1) * 4096 <= n * 4096);
                assert(false);
            }
        }
    }

    /// Frees the page of physical memory at `pa`, which normally should have
    /// come from `kalloc`.
    pub fn kfree(&mut self, mem: &mut PhysMem, pa: Addr)
        requires
            old(self).wf(),
            old(self)@.len() < FREE_LIST_SIZE,
            old(mem).wf(),
            old(mem).holds_page(pa.0 as u64),
        ensures
            final(self).wf(),
            final(self)@ == old(self)@.push(pa.0),
            final(mem).wf(),
            final(mem).same_range(old(mem)),
            forall|a: u64|
                final(mem).holds(a) ==> #[trigger] final(mem).at(a) == if pa.0 <= a < pa.0
                    + PG_SIZE {
                    spec_splat(JUNK)
                } else {
                    old(mem).at(a)
                },
    {
        Self::memset(mem, pa, JUNK, PG_SIZE);
        self.push_back(pa.into());
    }

    /// A page of physical memory for the kernel to use, or nothing where no
    /// page is free.
    pub fn kalloc(&mut self) -> (page: Option<Addr>)
        requires
            old(self).wf(),
        ensures
            final(self).wf(),
            old(self)@.len() == 0 ==> page is None && final(self)@ == old(self)@,
            old(self)@.len() > 0 ==> page == Some(Addr(old(self)@.last())) && final(self)@ == old(
                self,
            )@.drop_last(),
    {
        self.pop_back()
    }

    /// Fills the `sz` bytes from `base_addr` on with the byte `val`, word by
    /// word.
    #[verifier::rlimit(30)]
    pub fn memset(mem: &mut PhysMem, base_addr: Addr, val: u8, sz: usize)
        requires
            old(mem).wf(),
            base_addr.0 % 8 == 0,
            sz % 8 == 0,
            old(mem).base() <= base_addr.0,
            base_addr.0 + sz <= old(mem).end(),
        ensures
            final(mem).wf(),
            final(mem).same_range(old(mem)),
            forall|a: u64|
                final(mem).holds(a) ==> #[trigger] final(mem).at(a) == if base_addr.0 <= a
                    < base_addr.0 + sz {
                    spec_splat(val)
                } else {
                    old(mem).at(a)
                },
    {
        let byte: u64 = val as u64;
        assert(byte * 0x0101_0101_0101_0101 <= u64::MAX) by (nonlinear_arith)
            requires
                byte <= 255,
        ;
        let word: u64 = byte * 0x0101_0101_0101_0101;
        let base: u64 = base_addr.0 as u64;
        let mut offset: usize = 0;
        while offset < sz
            invariant
                offset <= sz,
                offset % 8 == 0,
                sz % 8 == 0,
                base == base_addr.0,
                base % 8 == 0,
                word == spec_splat(val),
                mem.wf(),
                mem.same_range(old(mem)),
                old(mem).base() <= base,
                base + sz <= old(mem).end(),
                forall|a: u64|
                    mem.holds(a) ==> #[trigger] mem.at(a) == if base <= a < base + offset {
                        word
                    } else {
                        old(mem).at(a)
                    },
            decreases sz - offset,
        {
            let ghost before = *mem;
            let addr: u64 = base + offset as u64;
            assert(mem.holds(addr));
            mem.write(addr, word);
            proof {
                assert forall|a: u64| mem.holds(a) implies #[trigger] mem.at(a) == if base <= a
                    < base + offset + 8 {
                    word
                } else {
                    old(mem).at(a)
                } by {
                    assert(before.holds(a));
                    before.lemma_slots(a, addr);
                    if a != addr {
                        assert(mem.at(a) == before.at(a));
                        assert(!(addr < a < addr + 8)) by {
                            assert(a % 8 == 0 && addr % 8 == 0);
                        }
                    }
                }
            }
            offset = offset + 8;
        }
    }

    /// Puts `addr` on top of the free pages.
    pub fn push_back(&mut self, addr: usize)
        requires
            old(self)@.len() < FREE_LIST_SIZE,
        ensures
            final(self)@ == old(self)@.push(addr),
    {
        self.free_list.push(addr);
    }

    /// Takes the page on top of the free pages.
    pub fn pop_back(&mut self) -> (page: Option<Addr>)
        ensures
            old(self)@.len() == 0 ==> page is None && final(self)@ == old(self)@,
            old(self)@.len() > 0 ==> page == Some(Addr(old(self)@.last())) && final(self)@ == old(
                self,
            )@.drop_last(),
    {
        match self.free_list.pop() {
            Some(addr) => Some(Addr::from(addr)),
            None => None,
        }
    }
}

} // verus!
