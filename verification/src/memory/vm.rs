//! Sv39 page tables in physical memory.
//!
//! A virtual address has 39 bits: three 9-bit indices, one per level of the
//! table, and a 12-bit offset into the page. A page-table page holds 512
//! entries of 64 bits. In an entry, bits 10 to 53 are a page number: in the
//! first two levels that of the table of the next level, in the third that of
//! the page that the address is mapped to.

use vstd::prelude::*;
use crate::arch::PGSIZE;
use crate::memory::kalloc::Kalloc;
pub use crate::memory::kvm::Kvm;
use crate::memory::phys::{PhysMem, PGWORDS};

verus! {

/// The entry is in use.
pub const PTE_V: u64 = 1;

/// The page can be read.
pub const PTE_R: u64 = 2;

/// The page can be written.
pub const PTE_W: u64 = 4;

/// The page can be executed.
pub const PTE_X: u64 = 8;

/// The page can be reached from user mode.
pub const PTE_U: u64 = 16;

/// The 44 bits of a page number.
pub const PPN_MASK: u64 = 0xFFF_FFFF_FFFF;

/// The 12 bits of an offset into a page.
pub const OFFSET_MASK: u64 = 0xFFF;

/// The levels of a page table, from the root down.
#[derive(Clone, Copy, Debug, PartialEq, Eq, Structural)]
pub enum PageTableLevel {
    Lv1,
    Lv2,
    Lv3,
}

/// Why a mapping could not be made.
#[derive(Clone, Copy, Debug, PartialEq, Eq, Structural)]
pub enum MapError {
    /// The allocator has no page left for a table.
    OutOfMemory,
    /// The virtual page is mapped already.
    Remap,
}

/// A page table, known by the physical address of its root page.
#[derive(Clone, Copy, Debug)]
pub struct PageTable {
    root: u64,
}

/// What a page table holds: the first-level indices that have a table of the
/// second level, the index pairs that have one of the third, and the entry of
/// each mapped page, by its three indices.
pub struct TableView {
    pub l2: Set<int>,
    pub l3: Set<(int, int)>,
    pub leaves: Map<(int, int, int), u64>,
}

/// Offset of `addr` into its page.
pub open spec fn spec_offset(addr: u64) -> u64 {
    addr & OFFSET_MASK
}

/// Index of `addr` into the table of the given level.
pub open spec fn spec_idx(addr: u64, level: PageTableLevel) -> u64 {
    match level {
        PageTableLevel::Lv1 => (addr >> 30) & 511,
        PageTableLevel::Lv2 => (addr >> 21) & 511,
        PageTableLevel::Lv3 => (addr >> 12) & 511,
    }
}

/// The three indices of `addr`, from the root down.
pub open spec fn spec_path(addr: u64) -> (int, int, int) {
    (
        spec_idx(addr, PageTableLevel::Lv1) as int,
        spec_idx(addr, PageTableLevel::Lv2) as int,
        spec_idx(addr, PageTableLevel::Lv3) as int,
    )
}

/// Page number of the physical address `addr`.
pub open spec fn spec_ppn(addr: u64) -> u64 {
    (addr >> 12) & PPN_MASK
}

/// Whether the entry is in use.
pub open spec fn spec_used(pte: u64) -> bool {
    pte & PTE_V != 0
}

/// Address of the page that the entry names.
pub open spec fn spec_child(pte: u64) -> u64 {
    (pte >> 10) << 12
}

/// The entry, without flags, that names the page at `addr`.
pub open spec fn spec_to_pte(addr: u64) -> u64 {
    (addr >> 12) << 10
}

/// The entry that maps a page to the physical page of `pa` with the
/// permissions `perm`.
pub open spec fn spec_leaf(pa: u64, perm: u64) -> u64 {
    (spec_ppn(pa) << 10) | perm | PTE_V
}

/// The physical address that `va` is translated to through the entry `pte`
/// of the third level.
pub open spec fn spec_target(pte: u64, va: u64) -> u64 {
    spec_child(pte) | spec_offset(va)
}

/// Entry `i` of the table page at `table`.
pub open spec fn entry(mem: &PhysMem, table: u64, i: int) -> u64 {
    mem.at((table + 8 * i) as u64)
}

/// Whether `i` is an index into a table page.
pub open spec fn is_index(i: int) -> bool {
    0 <= i < 512
}

/// Start of the page that holds `addr`.
pub open spec fn page_of(addr: u64) -> u64 {
    (addr - addr % PGSIZE) as u64
}

/// The nine bits of `virt_addr` that index the table `level` levels above the
/// last, counted from zero.
pub open spec fn spec_get_pg(virt_addr: u64, level: u8) -> u64 {
    ((virt_addr >> 12) >> (level * 9) as u64) & 0x1FF
}

pub fn get_pg(virt_addr: u64, level: u8) -> (index: u64)
    requires
        level <= 2,
    ensures
        index == spec_get_pg(virt_addr, level),
        index < 512,
{
    let tree = virt_addr >> 12;
    let shift: u64 = (level * 9) as u64;
    assert((tree >> shift) & 0x1FF < 512) by (bit_vector);
    (tree >> shift) & (0x1FF)
}

pub proof fn lemma_idx_bound(addr: u64, level: PageTableLevel)
    ensures
        spec_idx(addr, level) < 512,
{
    assert((addr >> 30) & 511 < 512) by (bit_vector);
    assert((addr >> 21) & 511 < 512) by (bit_vector);
    assert((addr >> 12) & 511 < 512) by (bit_vector);
}

/// An entry made for the table page at `addr` is in use and names that page.
pub proof fn lemma_table_entry(addr: u64)
    requires
        addr % PGSIZE == 0,
    ensures
        spec_used(spec_to_pte(addr) | PTE_V),
        spec_child(spec_to_pte(addr) | PTE_V) == addr,
{
    assert(addr % 4096 == 0 ==> spec_child(spec_to_pte(addr) | PTE_V) == addr) by (bit_vector);
    assert(spec_used(spec_to_pte(addr) | PTE_V)) by (bit_vector);
}

/// A leaf entry is in use whatever the permissions, and the empty entry is
/// not.
pub proof fn lemma_leaf_used(pa: u64, perm: u64)
    ensures
        spec_used(spec_leaf(pa, perm)),
        !spec_used(0),
{
    assert(spec_used(spec_leaf(pa, perm))) by (bit_vector);
    assert(!spec_used(0)) by (bit_vector);
}

/// With permissions that stay within the flag bits, a leaf entry for a page
/// below 2^56 translates each address of the page to that page plus the
/// address's offset.
pub proof fn lemma_leaf_target(pa: u64, perm: u64, va: u64)
    requires
        pa % PGSIZE == 0,
        pa < 0x100_0000_0000_0000,
        perm < 1024,
    ensures
        spec_target(spec_leaf(pa, perm), va) == pa + spec_offset(va),
        spec_offset(va) < PGSIZE,
{
    assert(pa % 4096 == 0 && pa < 0x100_0000_0000_0000 && perm < 1024 ==> spec_target(
        spec_leaf(pa, perm),
        va,
    ) == pa + spec_offset(va)) by (bit_vector);
    assert(spec_offset(va) < 4096) by (bit_vector);
}

/// The entries of a table page are words of that page.
pub proof fn lemma_entry_addr(table: u64, i: u64)
    requires
        table % PGSIZE == 0,
        table + PGSIZE <= u64::MAX,
        i < 512,
    ensures
        (table + 8 * i) % 8 == 0,
        table <= table + 8 * i < table + PGSIZE,
        page_of((table + 8 * i) as u64) == table,
{
    assert(table % 4096 == 0 && i < 512 ==> (table + 8 * i) % 8 == 0) by (bit_vector);
    assert(table % 4096 == 0 && i < 512 && table + 4096 <= 0xffff_ffff_ffff_ffff ==> (table + 8
        * i) % 4096 == 8 * i) by (bit_vector);
}

/// An address within a page lies in that page.
pub proof fn lemma_page_of(addr: u64, page: u64)
    requires
        page % PGSIZE == 0,
        page <= addr < page + PGSIZE,
    ensures
        page_of(addr) == page,
{
    assert(page % 4096 == 0 && page <= addr && addr - page < 4096 ==> addr - addr % 4096 == page)
        by (bit_vector);
}

/// Writing one entry of a table page changes that entry and no other of any
/// table page.
#[verifier::rlimit(30)]
pub proof fn lemma_entry_write(
    before: &PhysMem,
    after: &PhysMem,
    table: u64,
    i: int,
    value: u64,
    other: u64,
    j: int,
)
    requires
        before.wf(),
        before.holds_page(table),
        is_index(i),
        after.is_write(before, (table + 8 * i) as u64, value),
        before.holds_page(other),
        is_index(j),
    ensures
        entry(after, other, j) == if other == table && j == i {
            value
        } else {
            entry(before, other, j)
        },
{
    let a = (table + 8 * i) as u64;
    let b = (other + 8 * j) as u64;
    lemma_entry_addr(table, i as u64);
    lemma_entry_addr(other, j as u64);
    before.lemma_slots(a, b);
    assert(a == b <==> (other == table && j == i)) by {
        if a == b {
            assert(page_of(a) == page_of(b));
        }
    }
}

/// Zeroing a table page empties it and changes no entry of any other page.
#[verifier::rlimit(30)]
pub proof fn lemma_entry_fill(before: &PhysMem, after: &PhysMem, table: u64, other: u64, j: int)
    requires
        before.wf(),
        before.holds_page(table),
        after.same_range(before),
        forall|a: u64|
            after.holds(a) ==> #[trigger] after.at(a) == if table <= a < table + PGSIZE {
                0
            } else {
                before.at(a)
            },
        before.holds_page(other),
        is_index(j),
    ensures
        entry(after, other, j) == if other == table {
            0
        } else {
            entry(before, other, j)
        },
{
    let b = (other + 8 * j) as u64;
    lemma_entry_addr(other, j as u64);
    assert(after.holds(b));
    assert((table <= b < table + PGSIZE) <==> other == table) by {
        if table <= b < table + PGSIZE {
            lemma_page_of(b, table);
        }
    }
}

impl TableView {
    /// The view of a table without entries.
    pub open spec fn empty() -> TableView {
        TableView { l2: Set::empty(), l3: Set::empty(), leaves: Map::empty() }
    }

    /// Number of table pages that are missing on the way to `path`.
    pub open spec fn tables_needed(self, path: (int, int, int)) -> nat {
        if !self.l2.contains(path.0) {
            2
        } else if !self.l3.contains((path.0, path.1)) {
            1
        } else {
            0
        }
    }

    /// The view with a table for the first index of `path`.
    pub open spec fn with_l2(self, path: (int, int, int)) -> TableView {
        TableView { l2: self.l2.insert(path.0), l3: self.l3, leaves: self.leaves }
    }

    /// The view with a table for the first two indices of `path`.
    pub open spec fn with_l3(self, path: (int, int, int)) -> TableView {
        TableView { l2: self.l2, l3: self.l3.insert((path.0, path.1)), leaves: self.leaves }
    }

    /// The view with the entry `leaf` at `path`.
    pub open spec fn with_leaf(self, path: (int, int, int), leaf: u64) -> TableView {
        TableView { l2: self.l2, l3: self.l3, leaves: self.leaves.insert(path, leaf) }
    }

    /// What mapping one page does to a table, with `free` pages at hand: the
    /// result, what the table holds afterwards, and the pages still free.
    /// The tables on the way are made first, as far as the free pages reach;
    /// then a page that is mapped already is refused.
    pub open spec fn map_page(self, free: nat, path: (int, int, int), leaf: u64) -> (
        Result<(), MapError>,
        TableView,
        nat,
    ) {
        let need = self.tables_needed(path);
        if free < need {
            (
                Err(MapError::OutOfMemory),
                if free == 1 {
                    self.with_l2(path)
                } else {
                    self
                },
                0,
            )
        } else if self.leaves.contains_key(path) {
            (Err(MapError::Remap), self, free)
        } else {
            (Ok(()), self.with_l2(path).with_l3(path).with_leaf(path, leaf), (free - need) as nat)
        }
    }

    /// What mapping `n` pages in a row does, the `k`-th at the path of
    /// `va + k * PGSIZE` to the physical page of `pa + k * PGSIZE`: it stops
    /// at the first page that fails.
    pub open spec fn map(self, free: nat, va: u64, pa: u64, n: nat, perm: u64) -> (
        Result<(), MapError>,
        TableView,
        nat,
    )
        decreases n,
    {
        if n == 0 {
            (Ok(()), self, free)
        } else {
            let one = self.map_page(free, spec_path(va), spec_leaf(pa, perm));
            if one.0 is Ok {
                one.1.map(one.2, (va + PGSIZE) as u64, (pa + PGSIZE) as u64, (n - 1) as nat, perm)
            } else {
                one
            }
        }
    }
}

/// The trampoline and the trap frame lie in the last two pages of the last
/// table of a user's address space.
pub proof fn lemma_top_paths()
    ensures
        spec_path(crate::memory::layout::TRAMPOLINE) == (255int, 511int, 511int),
        spec_path(crate::memory::layout::TRAPFRAME) == (255int, 511int, 510int),
        spec_path(0) == (0int, 0int, 0int),
{
    assert((0x3F_FFFF_F000u64 >> 30) & 511 == 255) by (bit_vector);
    assert((0x3F_FFFF_F000u64 >> 21) & 511 == 511) by (bit_vector);
    assert((0x3F_FFFF_F000u64 >> 12) & 511 == 511) by (bit_vector);
    assert((0x3F_FFFF_E000u64 >> 30) & 511 == 255) by (bit_vector);
    assert((0x3F_FFFF_E000u64 >> 21) & 511 == 511) by (bit_vector);
    assert((0x3F_FFFF_E000u64 >> 12) & 511 == 510) by (bit_vector);
    assert((0u64 >> 30) & 511 == 0) by (bit_vector);
    assert((0u64 >> 21) & 511 == 0) by (bit_vector);
    assert((0u64 >> 12) & 511 == 0) by (bit_vector);
}

/// What the page table of a fresh process holds: the trampoline, to be read
/// and executed, and the trap frame at `trapframe`, to be read and written.
pub open spec fn user_space(traptext: u64, trapframe: u64) -> TableView {
    TableView {
        l2: set![255int],
        l3: set![(255int, 511int)],
        leaves: map![
            (255int, 511int, 511int) => spec_leaf(traptext, PTE_R | PTE_X),
            (255int, 511int, 510int) => spec_leaf(trapframe, PTE_R | PTE_W),
        ],
    }
}

/// The path of the `k`-th page from `va` on.
pub open spec fn path_at(va: u64, k: int) -> (int, int, int) {
    spec_path((va + k * PGSIZE) as u64)
}

/// The leaf entry for the `k`-th page from `pa` on.
pub open spec fn leaf_at(pa: u64, k: int, perm: u64) -> u64 {
    spec_leaf((pa + k * PGSIZE) as u64, perm)
}

impl TableView {
    /// The view maps the `n` pages from `va` on to the `n` pages from `pa`
    /// on, with the permissions `perm`.
    pub open spec fn maps_range(self, va: u64, pa: u64, n: nat, perm: u64) -> bool {
        forall|k: int|
            0 <= k < n ==> self.leaves.contains_key(#[trigger] path_at(va, k))
                && self.leaves[path_at(va, k)] == leaf_at(pa, k, perm)
    }

    /// Every page that `self` maps, `later` maps to the same entry.
    pub open spec fn kept_by(self, later: TableView) -> bool {
        forall|p: (int, int, int)| #[trigger]
            self.leaves.contains_key(p) ==> later.leaves.contains_key(p) && later.leaves[p]
                == self.leaves[p]
    }

    /// A run of mappings that succeeds maps each page of the run as asked,
    /// keeps every earlier mapping, and maps nothing else; none of its pages
    /// was mapped before.
    #[verifier::rlimit(30)]
    pub proof fn lemma_map_ok(self, free: nat, va: u64, pa: u64, n: nat, perm: u64)
        requires
            self.map(free, va, pa, n, perm).0 is Ok,
            va + n * PGSIZE <= u64::MAX,
            pa + n * PGSIZE <= u64::MAX,
        ensures
            self.map(free, va, pa, n, perm).1.maps_range(va, pa, n, perm),
            self.kept_by(self.map(free, va, pa, n, perm).1),
            forall|k: int| 0 <= k < n ==> !self.leaves.contains_key(#[trigger] path_at(va, k)),
            forall|p: (int, int, int)| #[trigger]
                self.map(free, va, pa, n, perm).1.leaves.contains_key(p) ==> self.leaves.contains_key(
                    p,
                ) || exists|k: int| 0 <= k < n && path_at(va, k) == p,
        decreases n,
    {
        if n > 0 {
            let one = self.map_page(free, spec_path(va), spec_leaf(pa, perm));
            let va1 = (va + PGSIZE) as u64;
            let pa1 = (pa + PGSIZE) as u64;
            let out = one.1.map(one.2, va1, pa1, (n - 1) as nat, perm);
            assert(out == self.map(free, va, pa, n, perm));
            assert(va1 + (n - 1) * PGSIZE <= u64::MAX && pa1 + (n - 1) * PGSIZE <= u64::MAX) by {
                assert(n * PGSIZE == (n - 1) * PGSIZE + PGSIZE) by (nonlinear_arith);
            }
            one.1.lemma_map_ok(one.2, va1, pa1, (n - 1) as nat, perm);
            assert forall|p: (int, int, int)| #[trigger]
                self.leaves.contains_key(p) implies out.1.leaves.contains_key(p)
                && out.1.leaves[p] == self.leaves[p] by {
                assert(one.1.leaves.contains_key(p) && one.1.leaves[p] == self.leaves[p]);
            }
            assert(path_at(va, 0) == spec_path(va));
            assert(leaf_at(pa, 0, perm) == spec_leaf(pa, perm));
            assert forall|k: int| 1 <= k < n implies path_at(va, k) == path_at(va1, k - 1)
                && leaf_at(pa, k, perm) == leaf_at(pa1, k - 1, perm) by {
                assert(k * PGSIZE == (k - 1) * PGSIZE + PGSIZE) by (nonlinear_arith);
                assert(0 <= (k - 1) * PGSIZE <= (n - 1) * PGSIZE) by (nonlinear_arith)
                    requires
                        1 <= k < n,
                ;
            }
            assert forall|k: int| 0 <= k < n implies out.1.leaves.contains_key(
                #[trigger] path_at(va, k),
            ) && out.1.leaves[path_at(va, k)] == leaf_at(pa, k, perm) by {
                if k == 0 {
                    assert(one.1.leaves.contains_key(spec_path(va)));
                } else {
                    assert(path_at(va, k) == path_at(va1, k - 1));
                }
            }
            assert forall|k: int| 0 <= k < n implies !self.leaves.contains_key(
                #[trigger] path_at(va, k),
            ) by {
                if k > 0 {
                    assert(path_at(va, k) == path_at(va1, k - 1));
                    assert(!one.1.leaves.contains_key(path_at(va1, k - 1)));
                }
            }
            assert forall|p: (int, int, int)| #[trigger]
                out.1.leaves.contains_key(p) implies self.leaves.contains_key(p) || exists|k: int|
                0 <= k < n && path_at(va, k) == p by {
                if !self.leaves.contains_key(p) {
                    if one.1.leaves.contains_key(p) {
                        assert(path_at(va, 0) == p);
                    } else {
                        let k1 = choose|k: int| 0 <= k < n - 1 && path_at(va1, k) == p;
                        assert(path_at(va, k1 + 1) == p);
                    }
                }
            }
        }
    }

    /// A run of mappings leaves no more pages free than it found.
    pub proof fn lemma_map_uses(self, free: nat, va: u64, pa: u64, n: nat, perm: u64)
        ensures
            self.map(free, va, pa, n, perm).2 <= free,
        decreases n,
    {
        if n > 0 {
            let one = self.map_page(free, spec_path(va), spec_leaf(pa, perm));
            if one.0 is Ok {
                one.1.lemma_map_uses(
                    one.2,
                    (va + PGSIZE) as u64,
                    (pa + PGSIZE) as u64,
                    (n - 1) as nat,
                    perm,
                );
            }
        }
    }

    /// A run of one page is the mapping of that page.
    pub proof fn lemma_map_one(self, free: nat, va: u64, pa: u64, perm: u64)
        ensures
            self.map(free, va, pa, 1, perm) == self.map_page(
                free,
                spec_path(va),
                spec_leaf(pa, perm),
            ),
    {
        reveal_with_fuel(TableView::map, 2);
    }
}

/// How memory and free list may change under an operation on the table
/// rooted at `root`: the range stays, the free list only loses pages, the
/// table only gains pages that were free, and a word changes only in a page
/// that belonged to the table or was free.
#[verifier::opaque]
pub open spec fn evolves(
    root: u64,
    before: &PhysMem,
    free_before: Seq<u64>,
    after: &PhysMem,
    free_after: Seq<u64>,
) -> bool {
    &&& after.same_range(before)
    &&& forall|p: u64| #[trigger] free_after.contains(p) ==> free_before.contains(p)
    &&& forall|p: u64| #[trigger]
        PageTable::owns(after, root, p) ==> PageTable::owns(before, root, p)
            || free_before.contains(p)
    &&& forall|a: u64|
        before.holds(a) && !PageTable::owns(before, root, page_of(a)) && !free_before.contains(
            page_of(a),
        ) ==> #[trigger] after.at(a) == before.at(a)
}

pub proof fn lemma_evolves_refl(root: u64, mem: &PhysMem, free: Seq<u64>)
    ensures
        evolves(root, mem, free, mem, free),
{
    reveal(evolves);
}

pub proof fn lemma_evolves_trans(
    root: u64,
    m0: &PhysMem,
    f0: Seq<u64>,
    m1: &PhysMem,
    f1: Seq<u64>,
    m2: &PhysMem,
    f2: Seq<u64>,
)
    requires
        evolves(root, m0, f0, m1, f1),
        evolves(root, m1, f1, m2, f2),
    ensures
        evolves(root, m0, f0, m2, f2),
{
    reveal(evolves);
    assert forall|a: u64|
        m0.holds(a) && !PageTable::owns(m0, root, page_of(a)) && !f0.contains(
            page_of(a),
        ) implies #[trigger] m2.at(a) == m0.at(a) by {
        assert(m1.at(a) == m0.at(a));
        assert(m1.holds(a));
        if PageTable::owns(m1, root, page_of(a)) {
            assert(false);
        }
        if f1.contains(page_of(a)) {
            assert(false);
        }
    }
}

impl PageTable {
    /// Physical address of the root page.
    pub closed spec fn root(&self) -> u64 {
        self.root
    }

    pub open spec fn has_l2(mem: &PhysMem, root: u64, i1: int) -> bool {
        spec_used(entry(mem, root, i1))
    }

    pub open spec fn l2(mem: &PhysMem, root: u64, i1: int) -> u64 {
        spec_child(entry(mem, root, i1))
    }

    pub open spec fn has_l3(mem: &PhysMem, root: u64, i1: int, i2: int) -> bool {
        Self::has_l2(mem, root, i1) && spec_used(entry(mem, Self::l2(mem, root, i1), i2))
    }

    pub open spec fn l3(mem: &PhysMem, root: u64, i1: int, i2: int) -> u64 {
        spec_child(entry(mem, Self::l2(mem, root, i1), i2))
    }

    pub open spec fn has_leaf(mem: &PhysMem, root: u64, i1: int, i2: int, i3: int) -> bool {
        Self::has_l3(mem, root, i1, i2) && spec_used(entry(mem, Self::l3(mem, root, i1, i2), i3))
    }

    pub open spec fn leaf(mem: &PhysMem, root: u64, i1: int, i2: int, i3: int) -> u64 {
        entry(mem, Self::l3(mem, root, i1, i2), i3)
    }

    /// The table pages form a tree in `mem`: each lies in `mem`, and no page
    /// serves twice.
    #[verifier::opaque]
    pub open spec fn tree(mem: &PhysMem, root: u64) -> bool {
        &&& mem.wf()
        &&& mem.holds_page(root)
        &&& forall|i1: int|
            is_index(i1) && #[trigger] Self::has_l2(mem, root, i1) ==> {
                &&& mem.holds_page(Self::l2(mem, root, i1))
                &&& Self::l2(mem, root, i1) != root
            }
        &&& forall|i1: int, j1: int|
            is_index(i1) && is_index(j1) && #[trigger] Self::has_l2(mem, root, i1)
                && #[trigger] Self::has_l2(mem, root, j1) && i1 != j1 ==> Self::l2(mem, root, i1)
                != Self::l2(mem, root, j1)
        &&& forall|i1: int, i2: int|
            is_index(i1) && is_index(i2) && #[trigger] Self::has_l3(mem, root, i1, i2) ==> {
                &&& mem.holds_page(Self::l3(mem, root, i1, i2))
                &&& Self::l3(mem, root, i1, i2) != root
            }
        &&& forall|i1: int, i2: int, j1: int|
            is_index(i1) && is_index(i2) && is_index(j1) && #[trigger] Self::has_l3(
                mem,
                root,
                i1,
                i2,
            ) && #[trigger] Self::has_l2(mem, root, j1) ==> Self::l3(mem, root, i1, i2) != Self::l2(
                mem,
                root,
                j1,
            )
        &&& forall|i1: int, i2: int, j1: int, j2: int|
            is_index(i1) && is_index(i2) && is_index(j1) && is_index(j2) && #[trigger] Self::has_l3(
                mem,
                root,
                i1,
                i2,
            ) && #[trigger] Self::has_l3(mem, root, j1, j2) && (i1 != j1 || i2 != j2) ==> Self::l3(
                mem,
                root,
                i1,
                i2,
            ) != Self::l3(mem, root, j1, j2)
    }

    /// Whether `page` is a page of the table rooted at `root`.
    pub open spec fn owns(mem: &PhysMem, root: u64, page: u64) -> bool {
        ||| page == root
        ||| exists|i1: int| is_index(i1) && #[trigger] Self::has_l2(mem, root, i1) && Self::l2(mem, root, i1) == page
        ||| exists|i1: int, i2: int|
            is_index(i1) && is_index(i2) && #[trigger] Self::has_l3(mem, root, i1, i2) && Self::l3(
                mem,
                root,
                i1,
                i2,
            ) == page
    }

    /// What the table rooted at `root` holds.
    pub open spec fn contents(mem: &PhysMem, root: u64) -> TableView {
        TableView {
            l2: Set::new(|i1: int| is_index(i1) && Self::has_l2(mem, root, i1)),
            l3: Set::new(
                |p: (int, int)| is_index(p.0) && is_index(p.1) && Self::has_l3(mem, root, p.0, p.1),
            ),
            leaves: Map::new(
                |p: (int, int, int)|
                    is_index(p.0) && is_index(p.1) && is_index(p.2) && Self::has_leaf(
                        mem,
                        root,
                        p.0,
                        p.1,
                        p.2,
                    ),
                |p: (int, int, int)| Self::leaf(mem, root, p.0, p.1, p.2),
            ),
        }
    }

    /// What this table holds in `mem`.
    pub open spec fn view(&self, mem: &PhysMem) -> TableView {
        Self::contents(mem, self.root())
    }

    /// The table is a tree in `mem`, the allocator's free list is in order,
    /// and no page of the table is free.
    pub open spec fn wf(&self, mem: &PhysMem, kalloc: &Kalloc) -> bool {
        Self::sound(mem, kalloc, self.root())
    }

    /// The table rooted at `root` is a tree in `mem`, the allocator's free
    /// list is in order, and no page of the table is free.
    pub open spec fn sound(mem: &PhysMem, kalloc: &Kalloc, root: u64) -> bool {
        &&& kalloc.wf(mem)
        &&& Self::tree(mem, root)
        &&& forall|k: int| 0 <= k < kalloc@.len() ==> !Self::owns(mem, root, #[trigger] kalloc@[k])
    }

    /// The physical address that `va` is translated to, where it is mapped.
    pub open spec fn spec_translate(&self, mem: &PhysMem, va: u64) -> Option<u64> {
        let leaves = self.view(mem).leaves;
        if leaves.contains_key(spec_path(va)) {
            Some(spec_target(leaves[spec_path(va)], va))
        } else {
            None
        }
    }

    /// The pages of a tree lie in memory.
    pub proof fn lemma_tree_pages(mem: &PhysMem, root: u64)
        requires
            Self::tree(mem, root),
        ensures
            mem.wf(),
            mem.holds_page(root),
            forall|i1: int|
                is_index(i1) && #[trigger] Self::has_l2(mem, root, i1) ==> mem.holds_page(
                    Self::l2(mem, root, i1),
                ),
            forall|i1: int, i2: int|
                is_index(i1) && is_index(i2) && #[trigger] Self::has_l3(mem, root, i1, i2)
                    ==> mem.holds_page(Self::l3(mem, root, i1, i2)),
    {
        reveal(PageTable::tree);
    }

    /// `after` holds the same table pages as `before`, in the same places.
    pub open spec fn same_tables(before: &PhysMem, after: &PhysMem, root: u64) -> bool {
        &&& forall|i1: int|
            is_index(i1) ==> {
                &&& #[trigger] Self::has_l2(after, root, i1) == Self::has_l2(before, root, i1)
                &&& Self::has_l2(before, root, i1) ==> Self::l2(after, root, i1) == Self::l2(
                    before,
                    root,
                    i1,
                )
            }
        &&& forall|i1: int, i2: int|
            is_index(i1) && is_index(i2) ==> {
                &&& #[trigger] Self::has_l3(after, root, i1, i2) == Self::has_l3(
                    before,
                    root,
                    i1,
                    i2,
                )
                &&& Self::has_l3(before, root, i1, i2) ==> Self::l3(after, root, i1, i2)
                    == Self::l3(before, root, i1, i2)
            }
    }

    /// A memory with the same table pages in the same places holds a tree
    /// where the other does, with the same pages.
    #[verifier::rlimit(30)]
    pub proof fn lemma_same_tables(before: &PhysMem, after: &PhysMem, root: u64)
        requires
            Self::tree(before, root),
            after.wf(),
            after.same_range(before),
            Self::same_tables(before, after, root),
        ensures
            Self::tree(after, root),
            forall|p: u64| #[trigger] Self::owns(after, root, p) == Self::owns(before, root, p),
            Self::contents(after, root).l2 == Self::contents(before, root).l2,
            Self::contents(after, root).l3 == Self::contents(before, root).l3,
    {
        reveal(PageTable::tree);
        assert forall|p: u64| #[trigger] Self::owns(after, root, p) == Self::owns(
            before,
            root,
            p,
        ) by {
            if Self::owns(after, root, p) && p != root {
                if exists|i1: int|
                    is_index(i1) && #[trigger] Self::has_l2(after, root, i1) && Self::l2(
                        after,
                        root,
                        i1,
                    ) == p {
                    let i1 = choose|i1: int|
                        is_index(i1) && #[trigger] Self::has_l2(after, root, i1) && Self::l2(
                            after,
                            root,
                            i1,
                        ) == p;
                    assert(Self::has_l2(before, root, i1));
                } else {
                    let (i1, i2) = choose|i1: int, i2: int|
                        is_index(i1) && is_index(i2) && #[trigger] Self::has_l3(
                            after,
                            root,
                            i1,
                            i2,
                        ) && Self::l3(after, root, i1, i2) == p;
                    assert(Self::has_l3(before, root, i1, i2));
                }
            }
            if Self::owns(before, root, p) && p != root {
                if exists|i1: int|
                    is_index(i1) && #[trigger] Self::has_l2(before, root, i1) && Self::l2(
                        before,
                        root,
                        i1,
                    ) == p {
                    let i1 = choose|i1: int|
                        is_index(i1) && #[trigger] Self::has_l2(before, root, i1) && Self::l2(
                            before,
                            root,
                            i1,
                        ) == p;
                    assert(Self::has_l2(after, root, i1));
                } else {
                    let (i1, i2) = choose|i1: int, i2: int|
                        is_index(i1) && is_index(i2) && #[trigger] Self::has_l3(
                            before,
                            root,
                            i1,
                            i2,
                        ) && Self::l3(before, root, i1, i2) == p;
                    assert(Self::has_l3(after, root, i1, i2));
                }
            }
        }
        assert(Self::contents(after, root).l2 =~= Self::contents(before, root).l2);
        assert(Self::contents(after, root).l3 =~= Self::contents(before, root).l3);
    }

    /// What a new leaf entry does to the tree: `after` is `before` but for
    /// the entry `leaf` at the end of `path`, whose tables exist.
    #[verifier::rlimit(30)]
    proof fn lemma_set_leaf(
        before: &PhysMem,
        after: &PhysMem,
        root: u64,
        lv3: u64,
        path: (int, int, int),
        leaf: u64,
    )
        requires
            Self::tree(before, root),
            after.wf(),
            after.same_range(before),
            is_index(path.0) && is_index(path.1) && is_index(path.2),
            Self::has_l3(before, root, path.0, path.1),
            lv3 == Self::l3(before, root, path.0, path.1),
            !Self::has_leaf(before, root, path.0, path.1, path.2),
            spec_used(leaf),
            after.is_write(before, (lv3 + 8 * path.2) as u64, leaf),
        ensures
            Self::tree(after, root),
            Self::contents(after, root) == Self::contents(before, root).with_leaf(path, leaf),
            forall|p: u64| #[trigger] Self::owns(after, root, p) == Self::owns(before, root, p),
            Self::owns(before, root, lv3),
            before.holds_page(lv3),
    {
        Self::lemma_tree_pages(before, root);
        assert forall|other: u64, j: int|
            before.holds_page(other) && is_index(j) implies #[trigger] entry(after, other, j)
            == if other == lv3 && j == path.2 {
            leaf
        } else {
            entry(before, other, j)
        } by {
            lemma_entry_write(before, after, lv3, path.2, leaf, other, j);
        }
        assert(Self::has_l2(before, root, path.0));
        assert(lv3 != root && forall|i1: int|
            is_index(i1) && Self::has_l2(before, root, i1) ==> Self::l2(before, root, i1) != lv3)
            by {
            reveal(PageTable::tree);
        }
        assert forall|i1: int, i2: int|
            is_index(i1) && is_index(i2) && Self::has_l3(before, root, i1, i2) implies (Self::l3(
            before,
            root,
            i1,
            i2,
        ) == lv3 <==> (i1 == path.0 && i2 == path.1)) by {
            reveal(PageTable::tree);
        }
        assert forall|i1: int| is_index(i1) implies {
            &&& #[trigger] Self::has_l2(after, root, i1) == Self::has_l2(before, root, i1)
            &&& Self::l2(after, root, i1) == Self::l2(before, root, i1)
        } by {
            assert(entry(after, root, i1) == entry(before, root, i1));
        }
        assert forall|i1: int, i2: int| is_index(i1) && is_index(i2) implies {
            &&& #[trigger] Self::has_l3(after, root, i1, i2) == Self::has_l3(before, root, i1, i2)
            &&& Self::has_l2(before, root, i1) ==> Self::l3(after, root, i1, i2) == Self::l3(
                before,
                root,
                i1,
                i2,
            )
        } by {
            assert(Self::has_l2(after, root, i1) == Self::has_l2(before, root, i1));
            if Self::has_l2(before, root, i1) {
                let t2 = Self::l2(before, root, i1);
                assert(entry(after, t2, i2) == entry(before, t2, i2));
            }
        }
        assert(Self::same_tables(before, after, root));
        Self::lemma_same_tables(before, after, root);
        assert forall|p: (int, int, int)|
            is_index(p.0) && is_index(p.1) && is_index(p.2) implies {
            &&& Self::has_leaf(after, root, p.0, p.1, p.2) == (Self::has_leaf(
                before,
                root,
                p.0,
                p.1,
                p.2,
            ) || p == path)
            &&& Self::has_leaf(before, root, p.0, p.1, p.2) ==> Self::leaf(
                after,
                root,
                p.0,
                p.1,
                p.2,
            ) == Self::leaf(before, root, p.0, p.1, p.2)
            &&& p == path ==> Self::leaf(after, root, p.0, p.1, p.2) == leaf
        } by {
            assert(Self::has_l3(after, root, p.0, p.1) == Self::has_l3(before, root, p.0, p.1));
            if Self::has_l3(before, root, p.0, p.1) {
                let t3 = Self::l3(before, root, p.0, p.1);
                assert(t3 == lv3 <==> (p.0 == path.0 && p.1 == path.1));
                assert(entry(after, t3, p.2) == if t3 == lv3 && p.2 == path.2 {
                    leaf
                } else {
                    entry(before, t3, p.2)
                });
            }
        }
        assert(Self::contents(after, root).leaves =~= Self::contents(before, root).with_leaf(
            path,
            leaf,
        ).leaves);
        assert(Self::owns(before, root, lv3));
    }

    /// A table stays well formed with the allocator, and memory evolves as
    /// it may, when one entry was written in the table page `written` and
    /// the table gained no page.
    #[verifier::rlimit(30)]
    proof fn lemma_written(
        &self,
        before: &PhysMem,
        after: &PhysMem,
        kalloc: &Kalloc,
        written: u64,
        i: int,
        pte: u64,
    )
        requires
            self.wf(before, kalloc),
            Self::tree(after, self.root()),
            Self::owns(before, self.root(), written),
            before.holds_page(written),
            is_index(i),
            after.is_write(before, (written + 8 * i) as u64, pte),
            after.wf(),
            forall|p: u64| #[trigger] Self::owns(after, self.root(), p) == Self::owns(
                before,
                self.root(),
                p,
            ),
        ensures
            self.wf(after, kalloc),
            evolves(self.root(), before, kalloc@, after, kalloc@),
    {
        reveal(evolves);
        let root = self.root();
        kalloc.lemma_free_pages(before);
        assert forall|k: int| 0 <= k < kalloc@.len() implies after.at(#[trigger] kalloc@[k])
            == before.at(kalloc@[k]) by {
            lemma_entry_write(before, after, written, i, pte, kalloc@[k], 0);
        }
        kalloc.lemma_frame(before, after);
        assert forall|a: u64|
            before.holds(a) && !Self::owns(before, root, page_of(a)) && !kalloc@.contains(
                page_of(a),
            ) implies #[trigger] after.at(a) == before.at(a) by {
            lemma_entry_addr(written, i as u64);
            let w = (written + 8 * i) as u64;
            assert(page_of(w) == written);
            assert(a != w);
            assert(before.holds(w));
            before.lemma_slots(a, w);
        }
    }

    /// Stores the entry `leaf` for the page at `path`, whose tables exist.
    fn set_leaf(
        &self,
        mem: &mut PhysMem,
        kalloc: &Kalloc,
        lv3: u64,
        i3: usize,
        leaf: u64,
        Ghost(path): Ghost<(int, int, int)>,
    )
        requires
            self.wf(old(mem), kalloc),
            is_index(path.0) && is_index(path.1) && path.2 == i3 && i3 < PGWORDS,
            Self::has_l3(old(mem), self.root(), path.0, path.1),
            lv3 == Self::l3(old(mem), self.root(), path.0, path.1),
            !Self::has_leaf(old(mem), self.root(), path.0, path.1, path.2),
            spec_used(leaf),
        ensures
            self.wf(final(mem), kalloc),
            evolves(self.root(), old(mem), kalloc@, final(mem), kalloc@),
            self.view(final(mem)) == self.view(old(mem)).with_leaf(path, leaf),
    {
        let ghost before = *mem;
        proof {
            Self::lemma_tree_pages(mem, self.root());
        }
        Self::put(mem, lv3, i3, leaf);
        proof {
            Self::lemma_set_leaf(&before, mem, self.root(), lv3, path, leaf);
            self.lemma_written(&before, mem, kalloc, lv3, i3 as int, leaf);
        }
    }

    /// A table without any entry, in a page taken from the allocator; `None`
    /// where the allocator has no page left.
    #[verifier::rlimit(30)]
    pub fn create_table(mem: &mut PhysMem, kalloc: &mut Kalloc) -> (table: Option<PageTable>)
        requires
            old(kalloc).wf(old(mem)),
        ensures
            final(kalloc).wf(final(mem)),
            final(mem).same_range(old(mem)),
            table is Some <==> old(kalloc)@.len() > 0,
            table is None ==> *final(mem) == *old(mem) && final(kalloc)@ == old(kalloc)@,
            table matches Some(t) ==> {
                &&& t.root() == old(kalloc)@[0]
                &&& final(kalloc)@ == old(kalloc)@.skip(1)
                &&& t.wf(final(mem), final(kalloc))
                &&& t.view(final(mem)) == TableView::empty()
                &&& forall|p: u64| #[trigger] Self::owns(final(mem), t.root(), p) <==> p == t.root()
                &&& forall|a: u64|
                    final(mem).holds(a) ==> #[trigger] final(mem).at(a) == if t.root() <= a
                        < t.root() + PGSIZE {
                        0
                    } else {
                        old(mem).at(a)
                    }
            },
    {
        let ghost before = *mem;
        let ghost free_before = kalloc@;
        proof {
            kalloc.lemma_free_pages(mem);
        }
        match kalloc.alloc_page(mem) {
            None => None,
            Some(addr) => {
                assert(addr == free_before[0]);
                mem.fill_page(addr, 0);
                proof {
                    let after = *mem;
                    assert forall|other: u64, j: int|
                        before.holds_page(other) && is_index(j) implies #[trigger] entry(
                        &after,
                        other,
                        j,
                    ) == if other == addr {
                        0
                    } else {
                        entry(&before, other, j)
                    } by {
                        lemma_entry_fill(&before, &after, addr, other, j);
                    }
                    assert forall|k: int| 0 <= k < kalloc@.len() implies after.at(
                        #[trigger] kalloc@[k],
                    ) == before.at(kalloc@[k]) by {
                        kalloc.lemma_free_pages(&before);
                        assert(kalloc@[k] == free_before[k + 1]);
                        assert(entry(&after, kalloc@[k], 0) == entry(&before, kalloc@[k], 0));
                    }
                    kalloc.lemma_frame(&before, &after);
                    lemma_leaf_used(0, 0);
                    reveal(PageTable::tree);
                    assert forall|i1: int| is_index(i1) implies !#[trigger] Self::has_l2(
                        &after,
                        addr,
                        i1,
                    ) by {
                        assert(entry(&after, addr, i1) == 0);
                    }
                    assert(Self::tree(&after, addr));
                    assert(Self::contents(&after, addr).l2 =~= Set::<int>::empty());
                    assert(Self::contents(&after, addr).l3 =~= Set::<(int, int)>::empty());
                    assert(Self::contents(&after, addr).leaves =~= Map::<
                        (int, int, int),
                        u64,
                    >::empty());
                    assert forall|k: int| 0 <= k < kalloc@.len() implies !Self::owns(
                        &after,
                        addr,
                        #[trigger] kalloc@[k],
                    ) by {
                        assert(kalloc@[k] == free_before[k + 1]);
                    }
                }
                Some(PageTable { root: addr })
            },
        }
    }

    /// What a new, empty table of the third level does to the tree: `after`
    /// is `before` but for the zeroed page `fresh` and the entry `pte`, which
    /// names it, in the table `lv2`.
    #[verifier::rlimit(30)]
    proof fn lemma_add_l3(
        before: &PhysMem,
        after: &PhysMem,
        root: u64,
        lv2: u64,
        path: (int, int, int),
        fresh: u64,
        pte: u64,
    )
        requires
            Self::tree(before, root),
            after.wf(),
            after.same_range(before),
            is_index(path.0) && is_index(path.1),
            Self::has_l2(before, root, path.0),
            lv2 == Self::l2(before, root, path.0),
            !Self::has_l3(before, root, path.0, path.1),
            before.holds_page(fresh),
            !Self::owns(before, root, fresh),
            spec_used(pte),
            spec_child(pte) == fresh,
            forall|other: u64, j: int|
                before.holds_page(other) && is_index(j) ==> #[trigger] entry(after, other, j)
                    == if other == lv2 && j == path.1 {
                    pte
                } else if other == fresh {
                    0
                } else {
                    entry(before, other, j)
                },
        ensures
            Self::tree(after, root),
            Self::contents(after, root) == Self::contents(before, root).with_l3(path),
            Self::has_l3(after, root, path.0, path.1),
            Self::l3(after, root, path.0, path.1) == fresh,
            forall|p: u64| #[trigger]
                Self::owns(after, root, p) ==> Self::owns(before, root, p) || p == fresh,
    {
        reveal(PageTable::tree);
        lemma_leaf_used(0, 0);
        assert(Self::owns(before, root, lv2));
        assert forall|i1: int| is_index(i1) implies {
            &&& #[trigger] Self::has_l2(after, root, i1) == Self::has_l2(before, root, i1)
            &&& Self::l2(after, root, i1) == Self::l2(before, root, i1)
        } by {
            assert(entry(after, root, i1) == entry(before, root, i1));
        }
        assert forall|i1: int| is_index(i1) && Self::has_l2(before, root, i1) implies Self::l2(
            before,
            root,
            i1,
        ) != fresh by {
            assert(Self::owns(before, root, Self::l2(before, root, i1)));
        }
        assert forall|i1: int, i2: int|
            is_index(i1) && is_index(i2) && Self::has_l3(before, root, i1, i2) implies Self::l3(
            before,
            root,
            i1,
            i2,
        ) != fresh by {
            assert(Self::owns(before, root, Self::l3(before, root, i1, i2)));
        }
        assert forall|i1: int, i2: int| is_index(i1) && is_index(i2) implies {
            &&& #[trigger] Self::has_l3(after, root, i1, i2) == (Self::has_l3(before, root, i1, i2)
                || (i1 == path.0 && i2 == path.1))
            &&& Self::has_l3(before, root, i1, i2) ==> Self::l3(after, root, i1, i2) == Self::l3(
                before,
                root,
                i1,
                i2,
            )
            &&& (i1 == path.0 && i2 == path.1) ==> Self::l3(after, root, i1, i2) == fresh
        } by {
            assert(Self::has_l2(after, root, i1) == Self::has_l2(before, root, i1));
            if Self::has_l2(before, root, i1) {
                let t2 = Self::l2(before, root, i1);
                assert(t2 == lv2 <==> i1 == path.0);
                assert(entry(after, t2, i2) == if t2 == lv2 && i2 == path.1 {
                    pte
                } else {
                    entry(before, t2, i2)
                });
            }
        }
        assert(Self::tree(after, root));
        assert(Self::contents(after, root).l2 =~= Self::contents(before, root).l2);
        assert(Self::contents(after, root).l3 =~= Self::contents(before, root).l3.insert(
            (path.0, path.1),
        ));
        assert forall|p: (int, int, int)|
            is_index(p.0) && is_index(p.1) && is_index(p.2) implies {
            &&& Self::has_leaf(after, root, p.0, p.1, p.2) == Self::has_leaf(
                before,
                root,
                p.0,
                p.1,
                p.2,
            )
            &&& Self::has_leaf(before, root, p.0, p.1, p.2) ==> Self::leaf(
                after,
                root,
                p.0,
                p.1,
                p.2,
            ) == Self::leaf(before, root, p.0, p.1, p.2)
        } by {
            if Self::has_l3(before, root, p.0, p.1) {
                let t3 = Self::l3(before, root, p.0, p.1);
                assert(Self::has_l2(before, root, p.0));
                assert(entry(after, t3, p.2) == entry(before, t3, p.2));
            } else if p.0 == path.0 && p.1 == path.1 {
                assert(entry(after, fresh, p.2) == 0);
            }
        }
        assert(Self::contents(after, root).leaves =~= Self::contents(before, root).leaves);
        assert forall|p: u64| #[trigger] Self::owns(after, root, p) implies Self::owns(
            before,
            root,
            p,
        ) || p == fresh by {
            if p != root && p != fresh {
                if exists|i1: int|
                    is_index(i1) && #[trigger] Self::has_l2(after, root, i1) && Self::l2(
                        after,
                        root,
                        i1,
                    ) == p {
                    let i1 = choose|i1: int|
                        is_index(i1) && #[trigger] Self::has_l2(after, root, i1) && Self::l2(
                            after,
                            root,
                            i1,
                        ) == p;
                    assert(Self::has_l2(before, root, i1));
                } else {
                    let (i1, i2) = choose|i1: int, i2: int|
                        is_index(i1) && is_index(i2) && #[trigger] Self::has_l3(
                            after,
                            root,
                            i1,
                            i2,
                        ) && Self::l3(after, root, i1, i2) == p;
                    assert(Self::has_l3(before, root, i1, i2));
                }
            }
        }
    }

    /// A table stays well formed with the allocator, and memory and free
    /// list evolve as they may, when the first free page `fresh` was zeroed
    /// and joined the table and one entry was written in the table page
    /// `written`.
    #[verifier::rlimit(30)]
    proof fn lemma_grown(
        &self,
        before: &PhysMem,
        free_before: Seq<u64>,
        zeroed: &PhysMem,
        after: &PhysMem,
        kalloc: &Kalloc,
        written: u64,
        i: int,
        pte: u64,
    )
        requires
            Self::tree(before, self.root()),
            Self::tree(after, self.root()),
            free_before.len() > 0,
            free_before.no_duplicates(),
            forall|k: int|
                0 <= k < free_before.len() ==> before.holds_page(#[trigger] free_before[k])
                    && !Self::owns(before, self.root(), free_before[k]),
            kalloc@ == free_before.skip(1),
            kalloc.wf(zeroed),
            zeroed.same_range(before),
            forall|a: u64|
                zeroed.holds(a) ==> #[trigger] zeroed.at(a) == if free_before[0] <= a
                    < free_before[0] + PGSIZE {
                    0
                } else {
                    before.at(a)
                },
            Self::owns(before, self.root(), written),
            before.holds_page(written),
            is_index(i),
            after.is_write(zeroed, (written + 8 * i) as u64, pte),
            after.wf(),
            forall|p: u64| #[trigger]
                Self::owns(after, self.root(), p) ==> Self::owns(before, self.root(), p) || p
                    == free_before[0],
        ensures
            self.wf(after, kalloc),
            evolves(self.root(), before, free_before, after, kalloc@),
    {
        reveal(evolves);
        let root = self.root();
        let fresh = free_before[0];
        assert(free_before.contains(fresh));
        kalloc.lemma_free_pages(zeroed);
        assert forall|k: int| 0 <= k < kalloc@.len() implies after.at(#[trigger] kalloc@[k])
            == zeroed.at(kalloc@[k]) by {
            assert(kalloc@[k] == free_before[k + 1]);
            lemma_entry_write(zeroed, after, written, i, pte, kalloc@[k], 0);
        }
        kalloc.lemma_frame(zeroed, after);
        assert forall|k: int| 0 <= k < kalloc@.len() implies !Self::owns(
            after,
            root,
            #[trigger] kalloc@[k],
        ) by {
            assert(kalloc@[k] == free_before[k + 1]);
        }
        assert forall|p: u64| #[trigger] kalloc@.contains(p) implies free_before.contains(p) by {
            let k = choose|k: int| 0 <= k < kalloc@.len() && kalloc@[k] == p;
            assert(free_before[k + 1] == p);
        }
        assert forall|a: u64|
            before.holds(a) && !Self::owns(before, root, page_of(a)) && !free_before.contains(
                page_of(a),
            ) implies #[trigger] after.at(a) == before.at(a) by {
            lemma_entry_addr(written, i as u64);
            let w = (written + 8 * i) as u64;
            assert(page_of(w) == written);
            assert(a != w);
            assert(zeroed.holds(a));
            assert(zeroed.holds(w));
            assert(zeroed.slot(a) != zeroed.slot(w));
            assert(after.at(a) == zeroed.at(a));
            if fresh <= a < fresh + PGSIZE {
                lemma_page_of(a, fresh);
                assert(false);
            }
            assert(zeroed.at(a) == before.at(a));
        }
    }

    /// Makes the table of the third level for the first two indices of
    /// `path`, which has none yet, and hands back its address; `None` and
    /// nothing changed where the allocator has no page left.
    #[verifier::rlimit(30)]
    fn add_l3(
        &self,
        mem: &mut PhysMem,
        kalloc: &mut Kalloc,
        lv2: u64,
        i2: usize,
        Ghost(path): Ghost<(int, int, int)>,
    ) -> (made: Option<u64>)
        requires
            self.wf(old(mem), old(kalloc)),
            is_index(path.0) && path.1 == i2 && i2 < PGWORDS,
            Self::has_l2(old(mem), self.root(), path.0),
            lv2 == Self::l2(old(mem), self.root(), path.0),
            !Self::has_l3(old(mem), self.root(), path.0, path.1),
        ensures
            self.wf(final(mem), final(kalloc)),
            evolves(self.root(), old(mem), old(kalloc)@, final(mem), final(kalloc)@),
            made is Some <==> old(kalloc)@.len() > 0,
            made is None ==> *final(mem) == *old(mem) && final(kalloc)@ == old(kalloc)@,
            made matches Some(t) ==> {
                &&& final(kalloc)@ == old(kalloc)@.skip(1)
                &&& self.view(final(mem)) == self.view(old(mem)).with_l3(path)
                &&& Self::has_l3(final(mem), self.root(), path.0, path.1)
                &&& t == Self::l3(final(mem), self.root(), path.0, path.1)
            },
    {
        let ghost before = *mem;
        let ghost free_before = kalloc@;
        let ghost root = self.root();
        proof {
            reveal(PageTable::tree);
            kalloc.lemma_free_pages(mem);
            lemma_evolves_refl(root, mem, kalloc@);
        }
        match Self::create_table(mem, kalloc) {
            None => None,
            Some(table) => {
                let ghost zeroed = *mem;
                let pte = table.to_pte() | PTE_V;
                Self::put(mem, lv2, i2, pte);
                proof {
                    let after = *mem;
                    let fresh = table.root();
                    lemma_table_entry(fresh);
                    assert(Self::owns(&before, root, lv2));
                    assert forall|other: u64, j: int|
                        before.holds_page(other) && is_index(j) implies #[trigger] entry(
                        &after,
                        other,
                        j,
                    ) == if other == lv2 && j == i2 {
                        pte
                    } else if other == fresh {
                        0
                    } else {
                        entry(&before, other, j)
                    } by {
                        lemma_entry_fill(&before, &zeroed, fresh, other, j);
                        lemma_entry_write(&zeroed, &after, lv2, i2 as int, pte, other, j);
                    }
                    Self::lemma_add_l3(&before, &after, root, lv2, path, fresh, pte);
                    self.lemma_grown(
                        &before,
                        free_before,
                        &zeroed,
                        &after,
                        kalloc,
                        lv2,
                        i2 as int,
                        pte,
                    );
                }
                Some(table.root)
            },
        }
    }

    /// What a new, empty table of the second level does to the tree: `after`
    /// is `before` but for the zeroed page `fresh` and the entry `pte`, which
    /// names it, in the root page.
    #[verifier::rlimit(30)]
    proof fn lemma_add_l2(
        before: &PhysMem,
        after: &PhysMem,
        root: u64,
        path: (int, int, int),
        fresh: u64,
        pte: u64,
    )
        requires
            Self::tree(before, root),
            after.wf(),
            after.same_range(before),
            is_index(path.0),
            !Self::has_l2(before, root, path.0),
            before.holds_page(fresh),
            !Self::owns(before, root, fresh),
            spec_used(pte),
            spec_child(pte) == fresh,
            forall|other: u64, j: int|
                before.holds_page(other) && is_index(j) ==> #[trigger] entry(after, other, j)
                    == if other == root && j == path.0 {
                    pte
                } else if other == fresh {
                    0
                } else {
                    entry(before, other, j)
                },
        ensures
            Self::tree(after, root),
            Self::contents(after, root) == Self::contents(before, root).with_l2(path),
            Self::has_l2(after, root, path.0),
            Self::l2(after, root, path.0) == fresh,
            forall|i2: int| is_index(i2) ==> !Self::has_l3(after, root, path.0, i2),
            forall|p: u64| #[trigger]
                Self::owns(after, root, p) ==> Self::owns(before, root, p) || p == fresh,
    {
        reveal(PageTable::tree);
        lemma_leaf_used(0, 0);
        assert forall|i1: int| is_index(i1) implies {
            &&& #[trigger] Self::has_l2(after, root, i1) == (Self::has_l2(before, root, i1) || i1
                == path.0)
            &&& Self::has_l2(before, root, i1) ==> Self::l2(after, root, i1) == Self::l2(
                before,
                root,
                i1,
            )
            &&& i1 == path.0 ==> Self::l2(after, root, i1) == fresh
        } by {
            assert(entry(after, root, i1) == if i1 == path.0 {
                pte
            } else {
                entry(before, root, i1)
            });
        }
        assert forall|i1: int| is_index(i1) && Self::has_l2(before, root, i1) implies Self::l2(
            before,
            root,
            i1,
        ) != fresh by {
            assert(Self::owns(before, root, Self::l2(before, root, i1)));
        }
        assert forall|i1: int, i2: int|
            is_index(i1) && is_index(i2) && Self::has_l3(before, root, i1, i2) implies Self::l3(
            before,
            root,
            i1,
            i2,
        ) != fresh by {
            assert(Self::owns(before, root, Self::l3(before, root, i1, i2)));
        }
        assert forall|i1: int, i2: int| is_index(i1) && is_index(i2) implies {
            &&& #[trigger] Self::has_l3(after, root, i1, i2) == Self::has_l3(before, root, i1, i2)
            &&& Self::has_l3(before, root, i1, i2) ==> Self::l3(after, root, i1, i2) == Self::l3(
                before,
                root,
                i1,
                i2,
            )
        } by {
            assert(Self::has_l2(after, root, i1) == (Self::has_l2(before, root, i1) || i1
                == path.0));
            if Self::has_l2(before, root, i1) {
                let t2 = Self::l2(before, root, i1);
                assert(entry(after, t2, i2) == entry(before, t2, i2));
            } else if i1 == path.0 {
                assert(entry(after, fresh, i2) == 0);
            }
        }
        assert(Self::tree(after, root));
        assert(Self::contents(after, root).l2 =~= Self::contents(before, root).l2.insert(path.0));
        assert(Self::contents(after, root).l3 =~= Self::contents(before, root).l3);
        assert forall|p: (int, int, int)|
            is_index(p.0) && is_index(p.1) && is_index(p.2) implies {
            &&& Self::has_leaf(after, root, p.0, p.1, p.2) == Self::has_leaf(
                before,
                root,
                p.0,
                p.1,
                p.2,
            )
            &&& Self::has_leaf(before, root, p.0, p.1, p.2) ==> Self::leaf(
                after,
                root,
                p.0,
                p.1,
                p.2,
            ) == Self::leaf(before, root, p.0, p.1, p.2)
        } by {
            assert(Self::has_l3(after, root, p.0, p.1) == Self::has_l3(before, root, p.0, p.1));
            if Self::has_l3(before, root, p.0, p.1) {
                let t3 = Self::l3(before, root, p.0, p.1);
                assert(entry(after, t3, p.2) == entry(before, t3, p.2));
            }
        }
        assert(Self::contents(after, root).leaves =~= Self::contents(before, root).leaves);
        assert forall|p: u64| #[trigger] Self::owns(after, root, p) implies Self::owns(
            before,
            root,
            p,
        ) || p == fresh by {
            if p != root && p != fresh {
                if exists|i1: int|
                    is_index(i1) && #[trigger] Self::has_l2(after, root, i1) && Self::l2(
                        after,
                        root,
                        i1,
                    ) == p {
                    let i1 = choose|i1: int|
                        is_index(i1) && #[trigger] Self::has_l2(after, root, i1) && Self::l2(
                            after,
                            root,
                            i1,
                        ) == p;
                    assert(Self::has_l2(before, root, i1));
                } else {
                    let (i1, i2) = choose|i1: int, i2: int|
                        is_index(i1) && is_index(i2) && #[trigger] Self::has_l3(
                            after,
                            root,
                            i1,
                            i2,
                        ) && Self::l3(after, root, i1, i2) == p;
                    assert(Self::has_l3(before, root, i1, i2));
                }
            }
        }
    }

    /// Makes the table of the second level for the first index of `path`,
    /// which has none yet, and hands back its address; `None` and nothing
    /// changed where the allocator has no page left.
    #[verifier::rlimit(30)]
    fn add_l2(
        &self,
        mem: &mut PhysMem,
        kalloc: &mut Kalloc,
        i1: usize,
        Ghost(path): Ghost<(int, int, int)>,
    ) -> (made: Option<u64>)
        requires
            self.wf(old(mem), old(kalloc)),
            path.0 == i1 && i1 < PGWORDS,
            !Self::has_l2(old(mem), self.root(), path.0),
        ensures
            self.wf(final(mem), final(kalloc)),
            evolves(self.root(), old(mem), old(kalloc)@, final(mem), final(kalloc)@),
            made is Some <==> old(kalloc)@.len() > 0,
            made is None ==> *final(mem) == *old(mem) && final(kalloc)@ == old(kalloc)@,
            made matches Some(t) ==> {
                &&& final(kalloc)@ == old(kalloc)@.skip(1)
                &&& self.view(final(mem)) == self.view(old(mem)).with_l2(path)
                &&& Self::has_l2(final(mem), self.root(), path.0)
                &&& t == Self::l2(final(mem), self.root(), path.0)
                &&& forall|i2: int| is_index(i2) ==> !Self::has_l3(final(mem), self.root(), path.0, i2)
            },
    {
        let ghost before = *mem;
        let ghost free_before = kalloc@;
        let ghost root = self.root();
        proof {
            reveal(PageTable::tree);
            kalloc.lemma_free_pages(mem);
            lemma_evolves_refl(root, mem, kalloc@);
        }
        match Self::create_table(mem, kalloc) {
            None => None,
            Some(table) => {
                let ghost zeroed = *mem;
                let pte = table.to_pte() | PTE_V;
                Self::put(mem, self.root, i1, pte);
                proof {
                    let after = *mem;
                    let fresh = table.root();
                    lemma_table_entry(fresh);
                    assert forall|other: u64, j: int|
                        before.holds_page(other) && is_index(j) implies #[trigger] entry(
                        &after,
                        other,
                        j,
                    ) == if other == root && j == i1 {
                        pte
                    } else if other == fresh {
                        0
                    } else {
                        entry(&before, other, j)
                    } by {
                        lemma_entry_fill(&before, &zeroed, fresh, other, j);
                        lemma_entry_write(&zeroed, &after, root, i1 as int, pte, other, j);
                    }
                    Self::lemma_add_l2(&before, &after, root, path, fresh, pte);
                    self.lemma_grown(
                        &before,
                        free_before,
                        &zeroed,
                        &after,
                        kalloc,
                        root,
                        i1 as int,
                        pte,
                    );
                }
                Some(table.root)
            },
        }
    }

    /// An address in a page that is mapped, with permissions that stay
    /// within the flag bits, to a page below 2^56 is translated to that page
    /// plus the address's offset.
    pub proof fn lemma_mapped_translates(&self, mem: &PhysMem, va: u64, pa: u64, perm: u64)
        requires
            self.view(mem).leaves.contains_key(spec_path(va)),
            self.view(mem).leaves[spec_path(va)] == spec_leaf(pa, perm),
            pa % PGSIZE == 0,
            pa < 0x100_0000_0000_0000,
            perm < 1024,
        ensures
            self.spec_translate(mem, va) == Some((pa + spec_offset(va)) as u64),
    {
        lemma_leaf_target(pa, perm, va);
    }

    /// The table whose root page is at `addr`.
    pub fn from_addr(addr: u64) -> (table: PageTable)
        ensures
            table.root() == addr,
    {
        PageTable { root: addr }
    }

    /// The table that the entry `pte` names.
    pub fn from_pte(pte: u64) -> (table: PageTable)
        ensures
            table.root() == spec_child(pte),
    {
        let ppn = (pte >> 10) << 12;
        Self::from_addr(ppn)
    }

    /// The entry, without flags, that names this table.
    pub fn to_pte(&self) -> (pte: u64)
        ensures
            pte == spec_to_pte(self.root()),
    {
        let addr = self.root;
        (addr >> 12) << 10
    }

    /// Physical address of the root page.
    pub fn base_addr(&mut self) -> (addr: u64)
        ensures
            addr == old(self).root(),
            *final(self) == *old(self),
    {
        self.root
    }

    pub fn offset(addr: u64) -> (off: u64)
        ensures
            off == spec_offset(addr),
    {
        addr & OFFSET_MASK
    }

    pub fn idx(addr: u64, level: PageTableLevel) -> (i: usize)
        ensures
            i == spec_idx(addr, level),
            i < PGWORDS,
    {
        proof {
            lemma_idx_bound(addr, level);
        }
        let idx: u64 = match level {
            PageTableLevel::Lv1 => (addr >> 30) & 511,
            PageTableLevel::Lv2 => (addr >> 21) & 511,
            PageTableLevel::Lv3 => (addr >> 12) & 511,
        };
        idx as usize
    }

    pub fn ppn(addr: u64) -> (n: u64)
        ensures
            n == spec_ppn(addr),
    {
        (addr >> 12) & PPN_MASK
    }

    pub fn used(pte: u64) -> (used: bool)
        ensures
            used == spec_used(pte),
    {
        pte & PTE_V != 0
    }

    /// Entry `i` of the table page at `table`.
    fn get(mem: &PhysMem, table: u64, i: usize) -> (pte: u64)
        requires
            mem.wf(),
            mem.holds_page(table),
            i < PGWORDS,
        ensures
            pte == entry(mem, table, i as int),
    {
        proof {
            lemma_entry_addr(table, i as u64);
        }
        mem.read(table + 8 * (i as u64))
    }

    /// Stores `pte` as entry `i` of the table page at `table`.
    fn put(mem: &mut PhysMem, table: u64, i: usize, pte: u64)
        requires
            old(mem).wf(),
            old(mem).holds_page(table),
            i < PGWORDS,
        ensures
            final(mem).wf(),
            final(mem).same_range(old(mem)),
            final(mem).is_write(old(mem), (table + 8 * i) as u64, pte),
    {
        proof {
            lemma_entry_addr(table, i as u64);
        }
        mem.write(table + 8 * (i as u64), pte);
    }

    /// Maps the virtual page of `virt_addr` to the physical page of
    /// `phys_addr` with the permissions `perm`. The tables on the way are made
    /// as needed, each in a page from the allocator.
    #[verifier::rlimit(30)]
    pub fn map_page(
        &mut self,
        mem: &mut PhysMem,
        kalloc: &mut Kalloc,
        virt_addr: u64,
        phys_addr: u64,
        perm: u64,
    ) -> (res: Result<(), MapError>)
        requires
            old(self).wf(old(mem), old(kalloc)),
        ensures
            *final(self) == *old(self),
            final(self).wf(final(mem), final(kalloc)),
            evolves(old(self).root(), old(mem), old(kalloc)@, final(mem), final(kalloc)@),
            ({
                let out = old(self).view(old(mem)).map_page(
                    old(kalloc)@.len(),
                    spec_path(virt_addr),
                    spec_leaf(phys_addr, perm),
                );
                &&& res == out.0
                &&& final(self).view(final(mem)) == out.1
                &&& final(kalloc)@ == old(kalloc)@.skip(old(kalloc)@.len() - out.2)
            }),
    {
        let ghost path = spec_path(virt_addr);
        let ghost m0 = *mem;
        let ghost f0 = kalloc@;
        let ghost root = self.root();
        let ghost v0 = self.view(mem);
        proof {
            lemma_evolves_refl(root, mem, kalloc@);
            assert(f0.skip(0) =~= f0);
            Self::lemma_tree_pages(mem, root);
        }
        let lv1_idx = Self::idx(virt_addr, PageTableLevel::Lv1);
        let lv2_idx = Self::idx(virt_addr, PageTableLevel::Lv2);
        let lv3_idx = Self::idx(virt_addr, PageTableLevel::Lv3);
        let lv1_pte = Self::get(mem, self.root, lv1_idx);
        let lv2: u64 = if Self::used(lv1_pte) {
            proof {
                assert(v0.with_l2(path).l2 =~= v0.l2);
            }
            PageTable::from_pte(lv1_pte).root
        } else {
            match self.add_l2(mem, kalloc, lv1_idx, Ghost(path)) {
                Some(t) => t,
                None => {
                    return Err(MapError::OutOfMemory);
                },
            }
        };
        let ghost m1 = *mem;
        let ghost f1 = kalloc@;
        let ghost v1 = self.view(mem);
        proof {
            Self::lemma_tree_pages(mem, root);
            lemma_evolves_refl(root, mem, kalloc@);
            assert(f1 =~= f0.skip(
                if v0.l2.contains(path.0) {
                    0int
                } else {
                    1int
                },
            ));
            assert(v0.l3.contains((path.0, path.1)) ==> v0.l2.contains(path.0));
        }
        assert(v1 == v0.with_l2(path));
        assert(Self::has_l2(&m1, root, path.0) && lv2 == Self::l2(&m1, root, path.0));
        let lv2_pte = Self::get(mem, lv2, lv2_idx);
        let lv3: u64 = if Self::used(lv2_pte) {
            proof {
                assert(Self::has_l3(&m1, root, path.0, path.1));
                assert(v1.with_l3(path).l3 =~= v1.l3);
            }
            PageTable::from_pte(lv2_pte).root
        } else {
            match self.add_l3(mem, kalloc, lv2, lv2_idx, Ghost(path)) {
                Some(t) => t,
                None => {
                    proof {
                        lemma_evolves_trans(root, &m0, f0, &m1, f1, mem, kalloc@);
                        assert(f0.skip(f0.len() as int) =~= kalloc@);
                    }
                    return Err(MapError::OutOfMemory);
                },
            }
        };
        let ghost m2 = *mem;
        let ghost f2 = kalloc@;
        let ghost v2 = self.view(mem);
        proof {
            Self::lemma_tree_pages(mem, root);
            lemma_evolves_trans(root, &m0, f0, &m1, f1, &m2, f2);
            assert(v2 == v1.with_l3(path));
            assert(f2 =~= f1.skip(
                if v1.l3.contains((path.0, path.1)) {
                    0int
                } else {
                    1int
                },
            ));
            assert(v1.l3 == v0.l3);
            assert(f2 =~= f0.skip(v0.tables_needed(path) as int));
        }
        let lv3_pte = Self::get(mem, lv3, lv3_idx);
        if Self::used(lv3_pte) {
            assert(Self::has_leaf(&m2, root, path.0, path.1, path.2));
            assert(v2.leaves.contains_key(path));
            return Err(MapError::Remap);
        }
        let leaf = (Self::ppn(phys_addr) << 10) | perm | PTE_V;
        proof {
            lemma_leaf_used(phys_addr, perm);
            assert(!v2.leaves.contains_key(path));
        }
        self.set_leaf(mem, kalloc, lv3, lv3_idx, leaf, Ghost(path));
        proof {
            lemma_evolves_trans(root, &m0, f0, &m2, f2, mem, kalloc@);
        }
        Ok(())
    }

    /// Maps the `range` bytes of virtual addresses from `virt_addr` on to the
    /// physical addresses from `phys_addr` on, page by page, and stops at
    /// the first page that cannot be mapped.
    #[verifier::rlimit(30)]
    pub fn map(
        &mut self,
        mem: &mut PhysMem,
        kalloc: &mut Kalloc,
        virt_addr: u64,
        phys_addr: u64,
        range: u64,
        perm: u64,
    ) -> (res: Result<(), MapError>)
        requires
            old(self).wf(old(mem), old(kalloc)),
            range % PGSIZE == 0,
            virt_addr + range <= u64::MAX,
            phys_addr + range <= u64::MAX,
        ensures
            *final(self) == *old(self),
            final(self).wf(final(mem), final(kalloc)),
            evolves(old(self).root(), old(mem), old(kalloc)@, final(mem), final(kalloc)@),
            ({
                let out = old(self).view(old(mem)).map(
                    old(kalloc)@.len(),
                    virt_addr,
                    phys_addr,
                    (range / PGSIZE) as nat,
                    perm,
                );
                &&& res == out.0
                &&& final(self).view(final(mem)) == out.1
                &&& final(kalloc)@ == old(kalloc)@.skip(old(kalloc)@.len() - out.2)
            }),
    {
        let ghost root = self.root();
        let ghost m0 = *mem;
        let ghost f0 = kalloc@;
        let ghost goal = self.view(mem).map(
            kalloc@.len(),
            virt_addr,
            phys_addr,
            (range / PGSIZE) as nat,
            perm,
        );
        let ghost left: nat = (range / PGSIZE) as nat;
        let mut phys = phys_addr;
        let mut virt = virt_addr;
        let end = phys_addr + range;
        proof {
            lemma_evolves_refl(root, mem, kalloc@);
            assert(f0.skip(0) =~= f0);
        }
        while phys < end
            invariant
                *self == *old(self),
                root == self.root(),
                m0 == *old(mem),
                f0 == old(kalloc)@,
                goal == old(self).view(old(mem)).map(
                    old(kalloc)@.len(),
                    virt_addr,
                    phys_addr,
                    (range / PGSIZE) as nat,
                    perm,
                ),
                self.wf(mem, kalloc),
                evolves(root, &m0, f0, mem, kalloc@),
                end == phys + left * PGSIZE,
                virt + left * PGSIZE <= u64::MAX,
                end <= u64::MAX,
                goal == self.view(mem).map(kalloc@.len(), virt, phys, left, perm),
                kalloc@.len() <= f0.len(),
                kalloc@ == f0.skip(f0.len() - kalloc@.len()),
            decreases left,
        {
            let ghost m1 = *mem;
            let ghost f1 = kalloc@;
            let ghost v1 = self.view(mem);
            proof {
                assert(left > 0) by {
                    if left == 0 {
                        assert(left * PGSIZE == 0);
                    }
                }
                assert(left * PGSIZE == (left - 1) * PGSIZE + PGSIZE) by (nonlinear_arith);
                assert((left - 1) * PGSIZE >= 0) by (nonlinear_arith)
                    requires
                        left > 0,
                ;
            }
            match self.map_page(mem, kalloc, virt, phys, perm) {
                Ok(()) => {},
                Err(e) => {
                    proof {
                        lemma_evolves_trans(root, &m0, f0, &m1, f1, mem, kalloc@);
                        assert(kalloc@ =~= f0.skip(f0.len() - kalloc@.len()));
                    }
                    return Err(e);
                },
            }
            proof {
                lemma_evolves_trans(root, &m0, f0, &m1, f1, mem, kalloc@);
                assert(kalloc@ =~= f0.skip(f0.len() - kalloc@.len()));
                left = (left - 1) as nat;
            }
            phys += PGSIZE;
            virt += PGSIZE;
        }
        proof {
            assert(left == 0) by {
                if left > 0 {
                    assert(left * PGSIZE >= PGSIZE) by (nonlinear_arith)
                        requires
                            left > 0,
                    ;
                }
            }
        }
        Ok(())
    }

    /// A table is not touched by a change to memory that stays within a page
    /// that is neither the table's nor free.
    #[verifier::rlimit(30)]
    pub proof fn lemma_foreign_write(
        before: &PhysMem,
        after: &PhysMem,
        kalloc: &Kalloc,
        root: u64,
        pa: u64,
    )
        requires
            Self::sound(before, kalloc, root),
            before.holds_page(pa),
            !Self::owns(before, root, pa),
            !kalloc@.contains(pa),
            after.wf(),
            after.same_range(before),
            forall|a: u64|
                before.holds(a) && page_of(a) != pa ==> #[trigger] after.at(a) == before.at(a),
        ensures
            Self::sound(after, kalloc, root),
            Self::contents(after, root) == Self::contents(before, root),
            forall|p: u64| #[trigger] Self::owns(after, root, p) == Self::owns(before, root, p),
    {
        Self::lemma_tree_pages(before, root);
        assert forall|other: u64, j: int|
            before.holds_page(other) && other != pa && is_index(j) implies #[trigger] entry(
            after,
            other,
            j,
        ) == entry(before, other, j) by {
            lemma_entry_addr(other, j as u64);
            assert(before.holds((other + 8 * j) as u64));
        }
        assert forall|i1: int| is_index(i1) implies {
            &&& #[trigger] Self::has_l2(after, root, i1) == Self::has_l2(before, root, i1)
            &&& Self::l2(after, root, i1) == Self::l2(before, root, i1)
        } by {
            assert(entry(after, root, i1) == entry(before, root, i1));
        }
        assert forall|i1: int, i2: int| is_index(i1) && is_index(i2) implies {
            &&& #[trigger] Self::has_l3(after, root, i1, i2) == Self::has_l3(before, root, i1, i2)
            &&& Self::has_l2(before, root, i1) ==> Self::l3(after, root, i1, i2) == Self::l3(
                before,
                root,
                i1,
                i2,
            )
        } by {
            assert(Self::has_l2(after, root, i1) == Self::has_l2(before, root, i1));
            if Self::has_l2(before, root, i1) {
                let t2 = Self::l2(before, root, i1);
                assert(Self::owns(before, root, t2));
                assert(entry(after, t2, i2) == entry(before, t2, i2));
            }
        }
        assert(Self::same_tables(before, after, root));
        Self::lemma_same_tables(before, after, root);
        assert forall|p: (int, int, int)|
            is_index(p.0) && is_index(p.1) && is_index(p.2) implies {
            &&& Self::has_leaf(after, root, p.0, p.1, p.2) == Self::has_leaf(
                before,
                root,
                p.0,
                p.1,
                p.2,
            )
            &&& Self::has_leaf(before, root, p.0, p.1, p.2) ==> Self::leaf(
                after,
                root,
                p.0,
                p.1,
                p.2,
            ) == Self::leaf(before, root, p.0, p.1, p.2)
        } by {
            assert(Self::has_l3(after, root, p.0, p.1) == Self::has_l3(before, root, p.0, p.1));
            if Self::has_l3(before, root, p.0, p.1) {
                let t3 = Self::l3(before, root, p.0, p.1);
                assert(Self::owns(before, root, t3));
                assert(entry(after, t3, p.2) == entry(before, t3, p.2));
            }
        }
        assert(Self::contents(after, root).leaves =~= Self::contents(before, root).leaves);
        kalloc.lemma_free_pages(before);
        assert forall|k: int| 0 <= k < kalloc@.len() implies after.at(#[trigger] kalloc@[k])
            == before.at(kalloc@[k]) by {
            assert(kalloc@.contains(kalloc@[k]));
            assert(before.holds(kalloc@[k]));
            assert(page_of(kalloc@[k]) == kalloc@[k]);
        }
        kalloc.lemma_frame(before, after);
    }

    /// Takes a page from the allocator, which must have one, zeroes it and
    /// stores `code` in its first word: a page beside the table rooted at
    /// `pagetable`, which is not touched.
    #[verifier::rlimit(30)]
    fn code_page(mem: &mut PhysMem, kalloc: &mut Kalloc, pagetable: u64, code: u64) -> (pa: u64)
        requires
            Self::sound(old(mem), old(kalloc), pagetable),
            old(kalloc)@.len() > 0,
        ensures
            Self::sound(final(mem), final(kalloc), pagetable),
            final(mem).same_range(old(mem)),
            Self::contents(final(mem), pagetable) == Self::contents(old(mem), pagetable),
            evolves(pagetable, old(mem), old(kalloc)@, final(mem), final(kalloc)@),
            pa == old(kalloc)@[0],
            final(kalloc)@ == old(kalloc)@.skip(1),
            final(mem).holds_page(pa),
            final(mem).wf(),
            !Self::owns(final(mem), pagetable, pa),
            !final(kalloc)@.contains(pa),
            forall|i: int|
                0 <= i < 512 ==> #[trigger] entry(final(mem), pa, i) == if i == 0 {
                    code
                } else {
                    0
                },
    {
        let ghost m0 = *mem;
        let ghost f0 = kalloc@;
        proof {
            kalloc.lemma_free_pages(mem);
        }
        let pa = match kalloc.alloc_page(mem) {
            Some(pa) => pa,
            None => {
                proof {
                    assert(false);
                }
                0
            },
        };
        let ghost f1 = kalloc@;
        proof {
            assert(pa == f0[0]);
            assert(!f1.contains(pa)) by {
                if f1.contains(pa) {
                    let k = choose|k: int| 0 <= k < f1.len() && f1[k] == pa;
                    assert(f0[k + 1] == pa);
                }
            }
            assert forall|k: int| 0 <= k < f1.len() implies !Self::owns(
                &m0,
                pagetable,
                #[trigger] f1[k],
            ) by {
                assert(f1[k] == f0[k + 1]);
            }
        }
        mem.fill_page(pa, 0);
        let ghost zeroed = *mem;
        mem.write(pa, code);
        proof {
            let m1 = *mem;
            assert(m1.same_range(&m0));
            assert(page_of(pa) == pa);
            assert forall|a: u64| m0.holds(a) && page_of(a) != pa implies #[trigger] m1.at(a)
                == m0.at(a) by {
                if pa <= a < pa + PGSIZE {
                    lemma_page_of(a, pa);
                }
                assert(zeroed.holds(a) && zeroed.holds(pa));
                assert(a != pa);
                zeroed.lemma_slots(a, pa);
                assert(zeroed.at(a) == m0.at(a));
                assert(m1.at(a) == zeroed.at(a));
            }
            Self::lemma_foreign_write(&m0, &m1, kalloc, pagetable, pa);
            assert(evolves(pagetable, &m0, f0, &m1, f1)) by {
                reveal(evolves);
                assert forall|p: u64| #[trigger] f1.contains(p) implies f0.contains(p) by {
                    let k = choose|k: int| 0 <= k < f1.len() && f1[k] == p;
                    assert(f0[k + 1] == p);
                }
                assert forall|a: u64|
                    m0.holds(a) && !Self::owns(&m0, pagetable, page_of(a)) && !f0.contains(
                        page_of(a),
                    ) implies #[trigger] m1.at(a) == m0.at(a) by {
                    assert(f0.contains(pa));
                }
            }
            assert forall|i: int| 0 <= i < 512 implies #[trigger] entry(&m1, pa, i) == if i == 0 {
                code
            } else {
                0
            } by {
                lemma_entry_fill(&m0, &zeroed, pa, pa, i);
                lemma_entry_write(&zeroed, &m1, pa, 0, code, pa, i);
            }
        }
        pa
    }

    /// Loads the first process's program, the word `code`, at address zero
    /// of the user page table rooted at `pagetable`: in a page of its own,
    /// zeroed but for the program, that user code can read, write and
    /// execute. Hands back the page. Nothing is done without three free
    /// pages, for the program and the tables on the way, or where address
    /// zero is mapped already.
    #[verifier::rlimit(30)]
    pub fn uvmfirst(mem: &mut PhysMem, kalloc: &mut Kalloc, pagetable: u64, code: u64) -> (page:
        Option<u64>)
        requires
            Self::sound(old(mem), old(kalloc), pagetable),
        ensures
            Self::sound(final(mem), final(kalloc), pagetable),
            final(mem).same_range(old(mem)),
            page is Some <==> old(kalloc)@.len() >= 3 && !Self::contents(
                old(mem),
                pagetable,
            ).leaves.contains_key(spec_path(0)),
            page is None ==> *final(mem) == *old(mem) && final(kalloc)@ == old(kalloc)@,
            page matches Some(pa) ==> {
                let out = Self::contents(old(mem), pagetable).map_page(
                    (old(kalloc)@.len() - 1) as nat,
                    spec_path(0),
                    spec_leaf(pa, PTE_W | PTE_R | PTE_X | PTE_U),
                );
                &&& pa == old(kalloc)@[0]
                &&& out.0 is Ok
                &&& Self::contents(final(mem), pagetable) == out.1
                &&& final(kalloc)@ == old(kalloc)@.skip(old(kalloc)@.len() - out.2)
                &&& final(mem).holds_page(pa)
                &&& forall|i: int|
                    0 <= i < 512 ==> #[trigger] entry(final(mem), pa, i) == if i == 0 {
                        code
                    } else {
                        0
                    }
                &&& evolves(pagetable, old(mem), old(kalloc)@, final(mem), final(kalloc)@)
            },
    {
        let mut table = PageTable::from_addr(pagetable);
        if !kalloc.available(mem, 3) {
            return None;
        }
        if table.translate(mem, 0).is_some() {
            return None;
        }
        let ghost m0 = *mem;
        let ghost f0 = kalloc@;
        let pa = Self::code_page(mem, kalloc, pagetable, code);
        let ghost m1 = *mem;
        let ghost f1 = kalloc@;
        let mapped = table.map_page(mem, kalloc, 0, pa, PTE_W | PTE_R | PTE_X | PTE_U);
        proof {
            assert(mapped is Ok);
            lemma_evolves_trans(pagetable, &m0, f0, &m1, f1, mem, kalloc@);
            assert(mem.same_range(&m0)) by {
                reveal(evolves);
            }
            assert(kalloc@ =~= f0.skip(
                f0.len() - Self::contents(&m0, pagetable).map_page(
                    (f0.len() - 1) as nat,
                    spec_path(0),
                    spec_leaf(pa, PTE_W | PTE_R | PTE_X | PTE_U),
                ).2,
            ));
            assert forall|i: int| 0 <= i < 512 implies #[trigger] entry(mem, pa, i) == entry(
                &m1,
                pa,
                i,
            ) by {
                reveal(evolves);
                lemma_entry_addr(pa, i as u64);
                let a = (pa + 8 * i) as u64;
                assert(m1.holds(a));
                assert(page_of(a) == pa);
                assert(mem.at(a) == m1.at(a));
            }
        }
        Some(pa)
    }

    /// Translates the virtual address `virt_addr`, or says that it is not
    /// mapped.
    pub fn translate(&self, mem: &PhysMem, virt_addr: u64) -> (phys: Option<u64>)
        requires
            Self::tree(mem, self.root()),
        ensures
            phys == self.spec_translate(mem, virt_addr),
    {
        proof {
            Self::lemma_tree_pages(mem, self.root());
        }
        let lv1_idx = Self::idx(virt_addr, PageTableLevel::Lv1);
        let lv1_pte = Self::get(mem, self.root, lv1_idx);
        if !Self::used(lv1_pte) {
            return None;
        }
        let lv2_tbl = PageTable::from_pte(lv1_pte);
        assert(Self::has_l2(mem, self.root(), lv1_idx as int));
        let lv2_idx = Self::idx(virt_addr, PageTableLevel::Lv2);
        let lv2_pte = Self::get(mem, lv2_tbl.root, lv2_idx);
        if !Self::used(lv2_pte) {
            return None;
        }
        let lv3_tbl = PageTable::from_pte(lv2_pte);
        assert(Self::has_l3(mem, self.root(), lv1_idx as int, lv2_idx as int));
        let lv3_idx = Self::idx(virt_addr, PageTableLevel::Lv3);
        let lv3_pte = Self::get(mem, lv3_tbl.root, lv3_idx);
        if !Self::used(lv3_pte) {
            return None;
        }
        Some(((lv3_pte >> 10) << 12) | Self::offset(virt_addr))
    }
}

} // verus!
