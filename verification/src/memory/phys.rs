//! Physical memory as the kernel addresses it: a run of pages of 64-bit words.

use vstd::prelude::*;
use crate::arch::PGSIZE;

verus! {

/// Words in a page.
pub const PGWORDS: usize = 512;

/// A contiguous range of physical memory that starts at a page boundary and
/// holds whole pages.
pub struct PhysMem {
    base: u64,
    words: Vec<u64>,
}

impl View for PhysMem {
    type V = Seq<u64>;

    /// The words of the memory, lowest address first.
    closed spec fn view(&self) -> Seq<u64> {
        self.words@
    }
}

impl PhysMem {
    /// Address of the first word.
    pub closed spec fn base(&self) -> u64 {
        self.base
    }

    /// One beyond the address of the last byte.
    pub open spec fn end(&self) -> int {
        self.base() + 8 * self@.len()
    }

    pub open spec fn wf(&self) -> bool {
        &&& self.base() % PGSIZE == 0
        &&& self@.len() % (PGWORDS as nat) == 0
        &&& self.end() <= u64::MAX
    }

    /// `addr` is the address of a word of this memory.
    pub open spec fn holds(&self, addr: u64) -> bool {
        &&& addr % 8 == 0
        &&& self.base() <= addr < self.end()
    }

    /// `pa` is the address of a page of this memory.
    pub open spec fn holds_page(&self, pa: u64) -> bool {
        &&& pa % PGSIZE == 0
        &&& self.base() <= pa
        &&& pa + PGSIZE <= self.end()
    }

    /// Index of the word at `addr`.
    pub open spec fn slot(&self, addr: u64) -> int {
        (addr - self.base()) / 8
    }

    /// The word at `addr`.
    pub open spec fn at(&self, addr: u64) -> u64 {
        self@[self.slot(addr)]
    }

    /// `self` differs from `before` at most in the word at `addr`, which
    /// holds `value`.
    pub open spec fn is_write(&self, before: &PhysMem, addr: u64, value: u64) -> bool {
        &&& self.base() == before.base()
        &&& self@ == before@.update(before.slot(addr), value)
    }

    /// `self` and `before` cover the same addresses.
    pub open spec fn same_range(&self, before: &PhysMem) -> bool {
        &&& self.base() == before.base()
        &&& self@.len() == before@.len()
    }

    /// Distinct words have distinct places.
    pub proof fn lemma_slots(&self, a: u64, b: u64)
        requires
            self.wf(),
            self.holds(a),
            self.holds(b),
        ensures
            0 <= self.slot(a) < self@.len(),
            (self.slot(a) == self.slot(b)) == (a == b),
    {
        let base = self.base();
        assert(base % 8 == 0);
        assert((a - base) % 8 == 0);
        assert((b - base) % 8 == 0);
        assert(a - base == 8 * ((a - base) / 8));
        assert(b - base == 8 * ((b - base) / 8));
    }

    /// Memory of `pages` zeroed pages from `base` on; `None` where `base` is
    /// no page boundary or the range does not fit the address space.
    pub fn new(base: u64, pages: usize) -> (mem: Option<PhysMem>)
        ensures
            mem is Some <==> base % PGSIZE == 0 && base + PGSIZE * pages <= u64::MAX && pages
                * PGWORDS <= usize::MAX,
            mem matches Some(m) ==> {
                &&& m.wf()
                &&& m.base() == base
                &&& m@.len() == pages * PGWORDS
                &&& forall|i: int| 0 <= i < m@.len() ==> m@[i] == 0
            },
    {
        if base % PGSIZE != 0 {
            return None;
        }
        if pages > usize::MAX / PGWORDS {
            return None;
        }
        let n: usize = pages * PGWORDS;
        if (n as u64) > (u64::MAX - base) / 8 {
            return None;
        }
        let mut words: Vec<u64> = Vec::new();
        let mut i: usize = 0;
        while i < n
            invariant
                i <= n,
                words@.len() == i,
                forall|j: int| 0 <= j < i ==> words@[j] == 0,
            decreases n - i,
        {
            words.push(0);
            i = i + 1;
        }
        Some(PhysMem { base, words })
    }

    /// Index of the word at `addr`.
    fn index(&self, addr: u64) -> (i: usize)
        requires
            self.wf(),
            self.base() <= addr < self.end(),
        ensures
            i == self.slot(addr),
            i < self@.len(),
    {
        let i: u64 = (addr - self.base) / 8;
        assert(i < self.words.len());
        i as usize
    }

    /// Address of the first word.
    pub fn start(&self) -> (base: u64)
        ensures
            base == self.base(),
    {
        self.base
    }

    /// Number of pages.
    pub fn pages(&self) -> (n: usize)
        requires
            self.wf(),
        ensures
            n * PGWORDS == self@.len(),
    {
        self.words.len() / PGWORDS
    }

    /// Whether `pa` is the address of a page of this memory.
    pub fn contains_page(&self, pa: u64) -> (held: bool)
        requires
            self.wf(),
        ensures
            held == self.holds_page(pa),
    {
        pa % PGSIZE == 0 && self.base <= pa && pa - self.base < 8 * (self.words.len() as u64)
    }

    /// Whether `addr` is the address of a word of this memory.
    pub fn contains(&self, addr: u64) -> (held: bool)
        requires
            self.wf(),
        ensures
            held == self.holds(addr),
    {
        addr % 8 == 0 && self.base <= addr && addr - self.base < 8 * (self.words.len() as u64)
    }

    /// The word at `addr`.
    pub fn read(&self, addr: u64) -> (value: u64)
        requires
            self.wf(),
            self.holds(addr),
        ensures
            value == self.at(addr),
    {
        let i: usize = self.index(addr);
        self.words[i]
    }

    /// Stores `value` in the word at `addr`.
    pub fn write(&mut self, addr: u64, value: u64)
        requires
            old(self).wf(),
            old(self).holds(addr),
        ensures
            final(self).wf(),
            final(self).is_write(old(self), addr, value),
    {
        let i: usize = self.index(addr);
        self.words[i] = value;
    }

    /// Stores `value` in every word of the page at `pa`.
    pub fn fill_page(&mut self, pa: u64, value: u64)
        requires
            old(self).wf(),
            old(self).holds_page(pa),
        ensures
            final(self).wf(),
            final(self).same_range(old(self)),
            forall|a: u64|
                final(self).holds(a) ==> #[trigger] final(self).at(a) == if pa <= a < pa + PGSIZE {
                    value
                } else {
                    old(self).at(a)
                },
    {
        let first: usize = self.index(pa);
        let mut k: usize = 0;
        while k < PGWORDS
            invariant
                k <= PGWORDS,
                self.wf(),
                self.same_range(old(self)),
                old(self).wf(),
                old(self).holds_page(pa),
                first == (pa - self.base()) / 8,
                forall|j: int|
                    0 <= j < self@.len() ==> #[trigger] self@[j] == if first <= j < first + k {
                        value
                    } else {
                        old(self)@[j]
                    },
            decreases PGWORDS - k,
        {
            self.words[first + k] = value;
            k = k + 1;
        }
        assert forall|a: u64| final(self).holds(a) implies #[trigger] final(self).at(a) == if pa
            <= a < pa + PGSIZE {
            value
        } else {
            old(self).at(a)
        } by {
            let j = self.slot(a);
            assert(0 <= j < self@.len());
        }
    }
}

} // verus!
