//! Physical page allocator, for user processes, kernel stacks and page-table
//! pages. It hands out whole pages and keeps the free ones in a list that is
//! threaded through the pages themselves.

use vstd::prelude::*;
use crate::arch::PGSIZE;
use crate::memory::layout::PHYSTOP;
use crate::memory::phys::PhysMem;

verus! {

/// What a free page holds in its first word: the page that follows it in the
/// free list.
#[derive(Clone, Copy, Debug)]
pub struct Page {
    pub next: Option<u64>,
}

impl Page {
    /// The word that stands for `next`: the address itself, or zero where
    /// nothing follows.
    pub open spec fn spec_encode(next: Option<u64>) -> u64 {
        match next {
            Some(pa) => pa,
            None => 0,
        }
    }

    /// The link that `word` stands for.
    pub open spec fn spec_decode(word: u64) -> Option<u64> {
        if word == 0 {
            None
        } else {
            Some(word)
        }
    }

    pub fn encode(&self) -> (word: u64)
        ensures
            word == Self::spec_encode(self.next),
    {
        match self.next {
            Some(pa) => pa,
            None => 0,
        }
    }

    pub fn decode(word: u64) -> (page: Page)
        ensures
            page.next == Self::spec_decode(word),
    {
        if word == 0 {
            Page { next: None }
        } else {
            Page { next: Some(word) }
        }
    }
}

/// The linked-list page allocator.
pub struct Kalloc {
    head: Option<u64>,
    free: Ghost<Seq<u64>>,
}

/// The word that the `i`-th page of the free list `free` holds: the address
/// of the page after it, or zero in the last one.
pub open spec fn link(free: Seq<u64>, i: int) -> u64 {
    if i + 1 < free.len() {
        free[i + 1]
    } else {
        0
    }
}

/// Number of pages that `insert` takes from `start` up to `end`.
pub open spec fn pages_between(start: u64, end: u64) -> int {
    if start < end {
        (end - start + PGSIZE - 1) / (PGSIZE as int)
    } else {
        0
    }
}

/// The free list after the `n` pages from `start` on were freed in rising
/// order onto `free`: the highest page comes first.
pub open spec fn pushed(free: Seq<u64>, start: u64, n: int) -> Seq<u64> {
    Seq::new(n as nat, |k: int| (start + (n - 1 - k) * PGSIZE) as u64) + free
}

impl View for Kalloc {
    type V = Seq<u64>;

    /// The free pages, the next to be handed out first.
    closed spec fn view(&self) -> Seq<u64> {
        self.free@
    }
}

impl Kalloc {
    /// The free list lies in `mem` as a chain of distinct pages, each holding
    /// the address of the next.
    pub closed spec fn wf(&self, mem: &PhysMem) -> bool {
        &&& mem.wf()
        &&& self.head_of() == if self@.len() == 0 {
            None
        } else {
            Some(self@[0])
        }
        &&& self@.no_duplicates()
        &&& forall|i: int|
            0 <= i < self@.len() ==> mem.holds_page(#[trigger] self@[i]) && self@[i] != 0
        &&& forall|i: int| 0 <= i < self@.len() ==> mem.at(self@[i]) == #[trigger] link(self@, i)
    }

    /// Every free page lies in `mem` and none is at address zero.
    pub proof fn lemma_free_pages(&self, mem: &PhysMem)
        requires
            self.wf(mem),
        ensures
            mem.wf(),
            self@.no_duplicates(),
            forall|i: int| 0 <= i < self@.len() ==> mem.holds_page(#[trigger] self@[i]) && self@[i] != 0,
    {
    }

    /// The free list stays well formed in a memory that agrees with `mem` on
    /// the first word of every free page.
    pub proof fn lemma_frame(&self, mem: &PhysMem, after: &PhysMem)
        requires
            self.wf(mem),
            after.wf(),
            after.same_range(mem),
            forall|i: int| 0 <= i < self@.len() ==> after.at(#[trigger] self@[i]) == mem.at(self@[i]),
        ensures
            self.wf(after),
    {
    }

    /// An allocator without pages.
    pub fn new() -> (kalloc: Kalloc)
        ensures
            kalloc@ == Seq::<u64>::empty(),
            forall|mem: &PhysMem| mem.wf() ==> #[trigger] kalloc.wf(mem),
    {
        Kalloc { head: None, free: Ghost(Seq::empty()) }
    }

    /// Whether at least `n` pages are free.
    #[verifier::rlimit(30)]
    pub fn available(&self, mem: &PhysMem, n: usize) -> (enough: bool)
        requires
            self.wf(mem),
        ensures
            enough == (self@.len() >= n),
    {
        let mut seen: usize = 0;
        let mut cursor: Option<u64> = self.head;
        while seen < n
            invariant
                self.wf(mem),
                seen <= n,
                seen <= self@.len(),
                cursor == if seen < self@.len() {
                    Some(self@[seen as int])
                } else {
                    None::<u64>
                },
            decreases n - seen,
        {
            match cursor {
                None => {
                    return false;
                },
                Some(pa) => {
                    assert(pa == self@[seen as int]);
                    assert(mem.holds_page(pa) && mem.at(pa) == link(self@, seen as int));
                    let word = mem.read(pa);
                    assert(word != 0 <==> seen + 1 < self@.len()) by {
                        if seen + 1 < self@.len() {
                            assert(self@[seen + 1] != 0);
                        }
                    }
                    let next = Page::decode(word).next;
                    seen = seen + 1;
                    cursor = next;
                },
            }
        }
        true
    }

    /// Takes the first page off the free list. The page is handed out as it
    /// is: clearing it is the caller's business.
    #[verifier::rlimit(30)]
    pub fn alloc_page(&mut self, mem: &PhysMem) -> (page: Option<u64>)
        requires
            old(self).wf(mem),
        ensures
            final(self).wf(mem),
            old(self)@.len() == 0 ==> page is None && final(self)@ == old(self)@,
            old(self)@.len() > 0 ==> page == Some(old(self)@[0]) && final(self)@ == old(
                self,
            )@.skip(1),
    {
        match self.head {
            None => None,
            Some(pa) => {
                let next = Page::decode(mem.read(pa)).next;
                proof {
                    let before = self.free@;
                    let rest = before.skip(1);
                    assert forall|i: int| 0 <= i < rest.len() implies mem.holds_page(
                        #[trigger] rest[i],
                    ) && rest[i] != 0 by {
                        assert(rest[i] == before[i + 1]);
                    }
                    assert forall|i: int| 0 <= i < rest.len() implies mem.at(rest[i])
                        == #[trigger] link(rest, i) by {
                        assert(rest[i] == before[i + 1]);
                        assert(mem.at(before[i + 1]) == link(before, i + 1));
                    }
                    assert(mem.at(pa) == link(before, 0));
                    assert(rest.no_duplicates()) by {
                        assert forall|i: int, j: int|
                            0 <= i < rest.len() && 0 <= j < rest.len() && i != j implies rest[i]
                            != rest[j] by {
                            assert(rest[i] == before[i + 1]);
                            assert(rest[j] == before[j + 1]);
                        }
                    }
                    if rest.len() > 0 {
                        assert(rest[0] == before[1]);
                    }
                }
                self.head = next;
                self.free = Ghost(self.free@.skip(1));
                Some(pa)
            },
        }
    }

    /// Puts the page at `addr` in front of the free list.
    #[verifier::rlimit(30)]
    pub fn free(&mut self, mem: &mut PhysMem, addr: u64)
        requires
            old(self).wf(old(mem)),
            old(mem).holds_page(addr),
            addr != 0,
            !old(self)@.contains(addr),
        ensures
            final(self).wf(final(mem)),
            final(self)@ == seq![addr] + old(self)@,
            final(mem).is_write(old(mem), addr, Page::spec_encode(old(self).head_of())),
    {
        let next = Page { next: self.head };
        mem.write(addr, next.encode());
        proof {
            let before = self.free@;
            let after = seq![addr] + before;
            assert forall|i: int| 0 <= i < after.len() implies mem.holds_page(
                #[trigger] after[i],
            ) && after[i] != 0 by {
                if i > 0 {
                    assert(after[i] == before[i - 1]);
                }
            }
            assert forall|i: int| 0 <= i < after.len() implies mem.at(after[i])
                == #[trigger] link(after, i) by {
                if i > 0 {
                    assert(after[i] == before[i - 1]);
                    assert(before.contains(before[i - 1]));
                    assert(old(mem).holds_page(before[i - 1]));
                    assert(old(mem).slot(before[i - 1]) != old(mem).slot(addr));
                    assert(old(mem).at(before[i - 1]) == link(before, i - 1));
                    if i + 1 < after.len() {
                        assert(after[i + 1] == before[i]);
                    }
                } else {
                    if before.len() > 0 {
                        assert(after[1] == before[0]);
                    }
                }
            }
            assert(after.no_duplicates()) by {
                assert forall|i: int, j: int|
                    0 <= i < after.len() && 0 <= j < after.len() && i != j implies after[i]
                    != after[j] by {
                    if i > 0 {
                        assert(after[i] == before[i - 1]);
                        assert(before.contains(before[i - 1]));
                    }
                    if j > 0 {
                        assert(after[j] == before[j - 1]);
                        assert(before.contains(before[j - 1]));
                    }
                }
            }
        }
        self.head = Some(addr);
        self.free = Ghost(seq![addr] + self.free@);
    }

    /// Frees every page from `start` up to `end`, lowest first.
    #[verifier::rlimit(30)]
    pub fn insert(&mut self, mem: &mut PhysMem, start: u64, end: u64)
        requires
            old(self).wf(old(mem)),
            start % PGSIZE == 0,
            forall|k: int|
                0 <= k < pages_between(start, end) ==> {
                    let pa = #[trigger] (start + k * PGSIZE);
                    &&& pa != 0
                    &&& pa <= u64::MAX
                    &&& old(mem).holds_page(pa as u64)
                    &&& !old(self)@.contains(pa as u64)
                },
        ensures
            final(self).wf(final(mem)),
            final(self)@ == pushed(old(self)@, start, pages_between(start, end)),
            final(mem).same_range(old(mem)),
            forall|a: u64|
                old(mem).holds(a) && !(a % PGSIZE == 0 && start <= a < end)
                    ==> #[trigger] final(mem).at(a) == old(mem).at(a),
    {
        let ghost n = pages_between(start, end);
        let ghost k: int = 0;
        let mut page: u64 = start;
        assert(pushed(self@, start, 0) =~= self@);
        while page < end
            invariant
                0 <= k <= n,
                n == pages_between(start, end),
                start % PGSIZE == 0,
                page == start + k * PGSIZE,
                self.wf(mem),
                self@ == pushed(old(self)@, start, k),
                mem.same_range(old(mem)),
                old(mem).wf(),
                forall|j: int|
                    0 <= j < n ==> {
                        let pa = #[trigger] (start + j * PGSIZE);
                        &&& pa != 0
                        &&& pa <= u64::MAX
                        &&& old(mem).holds_page(pa as u64)
                        &&& !old(self)@.contains(pa as u64)
                    },
                forall|a: u64|
                    old(mem).holds(a) && !(a % PGSIZE == 0 && start <= a < end)
                        ==> #[trigger] mem.at(a) == old(mem).at(a),
            decreases n - k,
        {
            let ghost before = *mem;
            let ghost free_before = self@;
            proof {
                assert(k < n);
                let pa = start + k * PGSIZE;
                assert(old(mem).holds_page(pa as u64));
                assert(!free_before.contains(page)) by {
                    if free_before.contains(page) {
                        let i = choose|i: int| 0 <= i < free_before.len() && free_before[i] == page;
                        if i < k {
                            assert(free_before[i] == start + (k - 1 - i) * PGSIZE);
                        } else {
                            assert(free_before[i] == old(self)@[i - k]);
                            assert(old(self)@.contains(page));
                        }
                    }
                }
            }
            self.free(mem, page);
            proof {
                assert(self@ =~= pushed(old(self)@, start, k + 1)) by {
                    let goal = pushed(old(self)@, start, k + 1);
                    assert(self@.len() == goal.len());
                    assert forall|i: int| 0 <= i < goal.len() implies self@[i] == goal[i] by {
                        if i > 0 {
                            assert(self@[i] == free_before[i - 1]);
                        }
                    }
                }
                assert forall|a: u64|
                    old(mem).holds(a) && !(a % PGSIZE == 0 && start <= a < end)
                    implies #[trigger] mem.at(a) == old(mem).at(a) by {
                    assert(before.at(a) == old(mem).at(a));
                    assert(before.slot(a) != before.slot(page));
                }
                k = k + 1;
            }
            page = page + PGSIZE;
        }
        assert(k == n);
    }

    /// Hands the allocator the memory between the end of the kernel image and
    /// the end of RAM.
    #[verifier::rlimit(30)]
    pub fn kinit(&mut self, mem: &mut PhysMem, end: u64)
        requires
            old(self).wf(old(mem)),
            old(self)@.len() == 0,
            end % PGSIZE == 0,
            end != 0,
            old(mem).base() <= end,
            PHYSTOP <= old(mem).end(),
        ensures
            final(self).wf(final(mem)),
            final(self)@ == pushed(Seq::empty(), end, pages_between(end, PHYSTOP)),
            final(mem).same_range(old(mem)),
    {
        assert(old(self)@ =~= Seq::empty());
        assert forall|k: int| 0 <= k < pages_between(end, PHYSTOP) implies {
            let pa = #[trigger] (end + k * PGSIZE);
            &&& pa != 0
            &&& pa <= u64::MAX
            &&& old(mem).holds_page(pa as u64)
            &&& !old(self)@.contains(pa as u64)
        } by {
            let pa = end + k * 4096;
            assert(k * PGSIZE == k * 4096);
            assert(end < PHYSTOP);
            assert(k < (PHYSTOP - end + 4095) / 4096);
            assert(PHYSTOP % 4096 == 0);
            assert((PHYSTOP - end) % 4096 == 0);
            assert(PHYSTOP - end == 4096 * ((PHYSTOP - end) / 4096));
            assert(k * 4096 + 4096 <= PHYSTOP - end);
            assert(pa % 4096 == 0);
        }
        self.insert(mem, end, PHYSTOP);
    }

    /// The page that is handed out next.
    pub closed spec fn head_of(&self) -> Option<u64> {
        self.head
    }

    /// The page that is handed out next is the first of the free list, and
    /// each free page holds the address of the page after it, the last one
    /// zero.
    pub proof fn lemma_chain(&self, mem: &PhysMem)
        requires
            self.wf(mem),
        ensures
            self.head_of() == if self@.len() == 0 {
                None
            } else {
                Some(self@[0])
            },
            forall|i: int| 0 <= i < self@.len() ==> mem.at(self@[i]) == #[trigger] link(self@, i),
    {
    }
}

} // verus!
