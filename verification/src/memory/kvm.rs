//! The kernel's own page table: the devices and the RAM at their physical
//! addresses, the trampoline at the top, and beneath it a kernel stack for
//! each process.

use vstd::prelude::*;
use crate::arch::PGSIZE;
use crate::memory::kalloc::Kalloc;
use crate::memory::layout::{
    kstack_start, spec_kstack, Image, KERNBASE, MAX_KSTACK, PHYSTOP, PLIC, PLIC_SIZE, TRAMPOLINE,
    UART, VIRTIO0,
};
use crate::memory::phys::PhysMem;
use crate::memory::vm::{
    evolves, lemma_evolves_refl, lemma_evolves_trans, MapError, PageTable, TableView, PTE_R,
    PTE_W, PTE_X,
};

verus! {

/// The kernel's own page table.
#[derive(Clone, Copy, Debug)]
pub struct Kvm {
    root: u64,
}

/// A table on the way to being filled: how it went so far, what the table
/// holds, and the pages that are still free.
pub type Built = (Result<(), MapError>, TableView, Seq<u64>);

/// The next run of mappings, where all went well so far.
pub open spec fn then_map(so_far: Built, va: u64, pa: u64, bytes: int, perm: u64) -> Built {
    if so_far.0 is Ok {
        let out = so_far.1.map(so_far.2.len(), va, pa, (bytes / PGSIZE as int) as nat, perm);
        (out.0, out.1, so_far.2.skip(so_far.2.len() - out.2))
    } else {
        so_far
    }
}

/// The kernel stack of slot `p`, in the next free page, where all went well
/// so far and a page is free.
pub open spec fn then_stack(so_far: Built, p: int) -> Built {
    if so_far.0 is Ok {
        if so_far.2.len() == 0 {
            (Err(MapError::OutOfMemory), so_far.1, so_far.2)
        } else {
            then_map(
                (so_far.0, so_far.1, so_far.2.skip(1)),
                spec_kstack(p) as u64,
                so_far.2[0],
                PGSIZE as int,
                PTE_R | PTE_W,
            )
        }
    } else {
        so_far
    }
}

/// The kernel stacks of the slots from `p` up to `n`.
pub open spec fn then_stacks(so_far: Built, p: int, n: int) -> Built
    decreases n - p,
{
    if p >= n {
        so_far
    } else {
        then_stacks(then_stack(so_far, p), p + 1, n)
    }
}

/// What is mapped for the kernel before the stacks, into the table `start`:
/// the registers of the UART, of the interrupt controller and of the disk,
/// the kernel's code to be read and executed, its data and the rest of RAM
/// to be read and written, all at their physical addresses, and the
/// trampoline at the top.
pub open spec fn spec_fixed(start: Built, image: &Image) -> Built {
    let uart = then_map(start, UART, UART, PGSIZE as int, PTE_R | PTE_W);
    let plic = then_map(uart, PLIC, PLIC, PLIC_SIZE as int, PTE_R | PTE_W);
    let disk = then_map(plic, VIRTIO0, VIRTIO0, PGSIZE as int, PTE_R | PTE_W);
    let text = then_map(disk, KERNBASE, KERNBASE, image.etext - KERNBASE, PTE_R | PTE_X);
    let data = then_map(text, image.etext, image.etext, PHYSTOP - image.etext, PTE_R | PTE_W);
    then_map(data, TRAMPOLINE, image.traptext, PGSIZE as int, PTE_R | PTE_X)
}

/// The kernel's page table for `nproc` processes, made with the free pages
/// `free`: the root comes first, then the fixed mappings, then the stacks.
pub open spec fn spec_init(free: Seq<u64>, image: &Image, nproc: int) -> Built {
    if free.len() == 0 {
        (Err(MapError::OutOfMemory), TableView::empty(), free)
    } else {
        then_stacks(spec_fixed((Ok(()), TableView::empty(), free.skip(1)), image), 0, nproc)
    }
}

/// A run that went wrong stays as it is, whatever stacks were to follow.
pub proof fn lemma_stacks_after_error(so_far: Built, p: int, n: int)
    requires
        so_far.0 is Err,
    ensures
        then_stacks(so_far, p, n) == so_far,
    decreases n - p,
{
    if p < n {
        lemma_stacks_after_error(so_far, p + 1, n);
    }
}

/// A run of mappings that went well came after others that went well, maps
/// its pages as asked, and keeps what was mapped before.
pub proof fn lemma_then_map(so_far: Built, va: u64, pa: u64, bytes: int, perm: u64)
    requires
        then_map(so_far, va, pa, bytes, perm).0 is Ok,
        0 <= bytes,
        va + bytes <= u64::MAX,
        pa + bytes <= u64::MAX,
    ensures
        so_far.0 is Ok,
        then_map(so_far, va, pa, bytes, perm).1.maps_range(
            va,
            pa,
            (bytes / PGSIZE as int) as nat,
            perm,
        ),
        so_far.1.kept_by(then_map(so_far, va, pa, bytes, perm).1),
{
    let n = (bytes / PGSIZE as int) as nat;
    assert(n * PGSIZE <= bytes) by {
        assert(bytes / 4096 * 4096 <= bytes);
    }
    so_far.1.lemma_map_ok(so_far.2.len(), va, pa, n, perm);
}

/// What was mapped stays mapped through later mappings that keep it.
pub proof fn lemma_kept(first: TableView, second: TableView, third: TableView)
    requires
        first.kept_by(second),
        second.kept_by(third),
    ensures
        first.kept_by(third),
{
    assert forall|p: (int, int, int)| #[trigger] first.leaves.contains_key(p) implies third.leaves.contains_key(
        p,
    ) && third.leaves[p] == first.leaves[p] by {
        assert(second.leaves.contains_key(p));
    }
}

/// A run of pages that is mapped stays mapped in a table that keeps it.
pub proof fn lemma_range_kept(
    first: TableView,
    later: TableView,
    va: u64,
    pa: u64,
    n: nat,
    perm: u64,
)
    requires
        first.maps_range(va, pa, n, perm),
        first.kept_by(later),
    ensures
        later.maps_range(va, pa, n, perm),
{
    assert forall|k: int| 0 <= k < n implies later.leaves.contains_key(
        #[trigger] crate::memory::vm::path_at(va, k),
    ) && later.leaves[crate::memory::vm::path_at(va, k)] == crate::memory::vm::leaf_at(
        pa,
        k,
        perm,
    ) by {
        assert(first.leaves.contains_key(crate::memory::vm::path_at(va, k)));
    }
}

/// Stacks that went well came after mappings that went well, keep what was
/// mapped before, and each has its page.
#[verifier::rlimit(30)]
pub proof fn lemma_then_stacks(so_far: Built, p: int, n: int)
    requires
        then_stacks(so_far, p, n).0 is Ok,
        0 <= p,
        n <= MAX_KSTACK,
        forall|k: int| 0 <= k < so_far.2.len() ==> #[trigger] so_far.2[k] + PGSIZE <= u64::MAX,
    ensures
        so_far.0 is Ok,
        so_far.1.kept_by(then_stacks(so_far, p, n).1),
        forall|q: int|
            p <= q < n ==> then_stacks(so_far, p, n).1.leaves.contains_key(
                #[trigger] crate::memory::vm::spec_path(spec_kstack(q) as u64),
            ),
    decreases n - p,
{
    if p < n {
        let one = then_stack(so_far, p);
        if so_far.0 is Err || so_far.2.len() == 0 {
            lemma_stacks_after_error(one, p + 1, n);
        }
        assert forall|k: int| 0 <= k < one.2.len() implies #[trigger] one.2[k] + PGSIZE
            <= u64::MAX by {
            if so_far.0 is Ok && so_far.2.len() > 0 {
                let rest = so_far.2.skip(1);
                so_far.1.lemma_map_uses(
                    rest.len(),
                    spec_kstack(p) as u64,
                    so_far.2[0],
                    1,
                    PTE_R | PTE_W,
                );
                let gone = rest.len() - one.2.len();
                assert(one.2[k] == rest[k + gone]);
                assert(rest[k + gone] == so_far.2[k + 1 + gone]);
            }
        }
        lemma_then_stacks(one, p + 1, n);
        let out = then_stacks(so_far, p, n);
        let taken: Built = (so_far.0, so_far.1, so_far.2.skip(1));
        let va = spec_kstack(p) as u64;
        assert(PGSIZE * 2 * (p + 1) == 8192 * (p + 1));
        assert(va + PGSIZE <= u64::MAX);
        lemma_then_map(taken, va, so_far.2[0], PGSIZE as int, PTE_R | PTE_W);
        lemma_kept(so_far.1, one.1, out.1);
        assert(one.1.maps_range(va, so_far.2[0], 1, PTE_R | PTE_W));
        assert(crate::memory::vm::path_at(va, 0) == crate::memory::vm::spec_path(va));
        assert(one.1.leaves.contains_key(crate::memory::vm::path_at(va, 0)));
    }
}

/// A kernel page table that was made maps the registers of the devices, the
/// kernel's code and data and the rest of RAM each to itself, the trampoline
/// to its page, and the kernel stack of each process.
#[verifier::rlimit(30)]
pub proof fn lemma_init_maps(free: Seq<u64>, image: &Image, nproc: int)
    requires
        spec_init(free, image, nproc).0 is Ok,
        Kvm::fits(image),
        0 <= nproc <= MAX_KSTACK,
        forall|k: int| 0 <= k < free.len() ==> #[trigger] free[k] + PGSIZE <= u64::MAX,
    ensures
        ({
            let view = spec_init(free, image, nproc).1;
            &&& view.maps_range(UART, UART, 1, PTE_R | PTE_W)
            &&& view.maps_range(PLIC, PLIC, (PLIC_SIZE / PGSIZE) as nat, PTE_R | PTE_W)
            &&& view.maps_range(VIRTIO0, VIRTIO0, 1, PTE_R | PTE_W)
            &&& view.maps_range(
                KERNBASE,
                KERNBASE,
                ((image.etext - KERNBASE) / PGSIZE as int) as nat,
                PTE_R | PTE_X,
            )
            &&& view.maps_range(
                image.etext,
                image.etext,
                ((PHYSTOP - image.etext) / PGSIZE as int) as nat,
                PTE_R | PTE_W,
            )
            &&& view.maps_range(TRAMPOLINE, image.traptext, 1, PTE_R | PTE_X)
            &&& forall|q: int|
                0 <= q < nproc ==> view.leaves.contains_key(
                    #[trigger] crate::memory::vm::spec_path(spec_kstack(q) as u64),
                )
        }),
{
    let rw = PTE_R | PTE_W;
    let rx = PTE_R | PTE_X;
    let start: Built = (Ok(()), TableView::empty(), free.skip(1));
    let uart = then_map(start, UART, UART, PGSIZE as int, rw);
    let plic = then_map(uart, PLIC, PLIC, PLIC_SIZE as int, rw);
    let disk = then_map(plic, VIRTIO0, VIRTIO0, PGSIZE as int, rw);
    let text = then_map(disk, KERNBASE, KERNBASE, image.etext - KERNBASE, rx);
    let data = then_map(text, image.etext, image.etext, PHYSTOP - image.etext, rw);
    let top = then_map(data, TRAMPOLINE, image.traptext, PGSIZE as int, rx);
    let out = then_stacks(top, 0, nproc);
    assert(top == spec_fixed(start, image));
    assert forall|k: int| 0 <= k < top.2.len() implies #[trigger] top.2[k] + PGSIZE
        <= u64::MAX by {
        lemma_fixed_free(start, image);
        let gone = free.len() - top.2.len();
        assert(top.2[k] == free[k + gone]);
    }
    lemma_then_stacks(top, 0, nproc);
    lemma_then_map(data, TRAMPOLINE, image.traptext, PGSIZE as int, rx);
    lemma_then_map(text, image.etext, image.etext, PHYSTOP - image.etext, rw);
    lemma_then_map(disk, KERNBASE, KERNBASE, image.etext - KERNBASE, rx);
    lemma_then_map(plic, VIRTIO0, VIRTIO0, PGSIZE as int, rw);
    lemma_then_map(uart, PLIC, PLIC, PLIC_SIZE as int, rw);
    lemma_then_map(start, UART, UART, PGSIZE as int, rw);
    lemma_kept(data.1, top.1, out.1);
    lemma_kept(text.1, data.1, out.1);
    lemma_kept(disk.1, text.1, out.1);
    lemma_kept(plic.1, disk.1, out.1);
    lemma_kept(uart.1, plic.1, out.1);
    lemma_range_kept(top.1, out.1, TRAMPOLINE, image.traptext, 1, rx);
    lemma_range_kept(
        data.1,
        out.1,
        image.etext,
        image.etext,
        ((PHYSTOP - image.etext) / PGSIZE as int) as nat,
        rw,
    );
    lemma_range_kept(
        text.1,
        out.1,
        KERNBASE,
        KERNBASE,
        ((image.etext - KERNBASE) / PGSIZE as int) as nat,
        rx,
    );
    lemma_range_kept(disk.1, out.1, VIRTIO0, VIRTIO0, 1, rw);
    lemma_range_kept(plic.1, out.1, PLIC, PLIC, (PLIC_SIZE / PGSIZE) as nat, rw);
    lemma_range_kept(uart.1, out.1, UART, UART, 1, rw);
}

/// The pages that are free after a run of mappings are the last of those
/// that were free before it.
pub proof fn lemma_then_map_free(so_far: Built, va: u64, pa: u64, bytes: int, perm: u64)
    ensures
        then_map(so_far, va, pa, bytes, perm).2.len() <= so_far.2.len(),
        then_map(so_far, va, pa, bytes, perm).2 == so_far.2.skip(
            so_far.2.len() - then_map(so_far, va, pa, bytes, perm).2.len(),
        ),
{
    if so_far.0 is Ok {
        so_far.1.lemma_map_uses(so_far.2.len(), va, pa, (bytes / PGSIZE as int) as nat, perm);
    }
    assert(so_far.2.skip(0) =~= so_far.2);
}

/// The pages that are free after the fixed mappings are the last of those
/// that were free before them.
pub proof fn lemma_fixed_free(start: Built, image: &Image)
    ensures
        spec_fixed(start, image).2.len() <= start.2.len(),
        spec_fixed(start, image).2 == start.2.skip(
            start.2.len() - spec_fixed(start, image).2.len(),
        ),
{
    let rw = PTE_R | PTE_W;
    let rx = PTE_R | PTE_X;
    let uart = then_map(start, UART, UART, PGSIZE as int, rw);
    let plic = then_map(uart, PLIC, PLIC, PLIC_SIZE as int, rw);
    let disk = then_map(plic, VIRTIO0, VIRTIO0, PGSIZE as int, rw);
    let text = then_map(disk, KERNBASE, KERNBASE, image.etext - KERNBASE, rx);
    let data = then_map(text, image.etext, image.etext, PHYSTOP - image.etext, rw);
    let top = then_map(data, TRAMPOLINE, image.traptext, PGSIZE as int, rx);
    lemma_then_map_free(start, UART, UART, PGSIZE as int, rw);
    lemma_then_map_free(uart, PLIC, PLIC, PLIC_SIZE as int, rw);
    lemma_then_map_free(plic, VIRTIO0, VIRTIO0, PGSIZE as int, rw);
    lemma_then_map_free(disk, KERNBASE, KERNBASE, image.etext - KERNBASE, rx);
    lemma_then_map_free(text, image.etext, image.etext, PHYSTOP - image.etext, rw);
    lemma_then_map_free(data, TRAMPOLINE, image.traptext, PGSIZE as int, rx);
    assert(top.2 =~= start.2.skip(start.2.len() - top.2.len()));
}

impl Kvm {
    /// Physical address of the root page.
    pub closed spec fn root(&self) -> u64 {
        self.root
    }

    /// What `image` must say of the kernel for its page table to be made:
    /// the code ends on a page boundary within RAM.
    pub open spec fn fits(image: &Image) -> bool {
        &&& image.etext % PGSIZE == 0
        &&& KERNBASE <= image.etext <= PHYSTOP
        &&& image.traptext + PGSIZE <= u64::MAX
    }

    /// One run of mappings on the way, unless an earlier one failed.
    fn step(
        table: &mut PageTable,
        mem: &mut PhysMem,
        kalloc: &mut Kalloc,
        so_far: Result<(), MapError>,
        va: u64,
        pa: u64,
        bytes: u64,
        perm: u64,
        Ghost(before): Ghost<Built>,
        Ghost(start): Ghost<(PhysMem, Seq<u64>)>,
    ) -> (res: Result<(), MapError>)
        requires
            old(table).wf(old(mem), old(kalloc)),
            bytes % PGSIZE == 0,
            va + bytes <= u64::MAX,
            pa + bytes <= u64::MAX,
            before == (so_far, old(table).view(old(mem)), old(kalloc)@),
            evolves(old(table).root(), &start.0, start.1, old(mem), old(kalloc)@),
        ensures
            *final(table) == *old(table),
            final(table).wf(final(mem), final(kalloc)),
            evolves(old(table).root(), &start.0, start.1, final(mem), final(kalloc)@),
            (res, final(table).view(final(mem)), final(kalloc)@) == then_map(
                before,
                va,
                pa,
                bytes as int,
                perm,
            ),
    {
        match so_far {
            Err(e) => Err(e),
            Ok(()) => {
                let ghost m0 = *mem;
                let ghost f0 = kalloc@;
                let res = table.map(mem, kalloc, va, pa, bytes, perm);
                proof {
                    lemma_evolves_trans(table.root(), &start.0, start.1, &m0, f0, mem, kalloc@);
                }
                res
            },
        }
    }

    /// Makes the kernel's page table, with a kernel stack for each of
    /// `nproc` processes, each in a page of its own. It stops at the first
    /// mapping that cannot be made.
    #[verifier::rlimit(30)]
    pub fn init(mem: &mut PhysMem, kalloc: &mut Kalloc, image: &Image, nproc: usize) -> (kvm:
        Result<Kvm, MapError>)
        requires
            old(kalloc).wf(old(mem)),
            Self::fits(image),
            nproc <= MAX_KSTACK,
        ensures
            final(kalloc).wf(final(mem)),
            final(mem).same_range(old(mem)),
            ({
                let built = spec_init(old(kalloc)@, image, nproc as int);
                &&& final(kalloc)@ == built.2
                &&& match kvm {
                    Ok(kvm) => {
                        &&& built.0 is Ok
                        &&& kvm.root() == old(kalloc)@[0]
                        &&& PageTable::sound(final(mem), final(kalloc), kvm.root())
                        &&& PageTable::contents(final(mem), kvm.root()) == built.1
                        &&& evolves(
                            kvm.root(),
                            old(mem),
                            old(kalloc)@,
                            final(mem),
                            final(kalloc)@,
                        )
                    },
                    Err(e) => built.0 == Err::<(), MapError>(e),
                }
            }),
    {
        let ghost m0 = *mem;
        let ghost f0 = kalloc@;
        proof {
            kalloc.lemma_free_pages(mem);
        }
        let mut table = match PageTable::create_table(mem, kalloc) {
            Some(table) => table,
            None => {
                return Err(MapError::OutOfMemory);
            },
        };
        let ghost root = table.root();
        let ghost m1 = *mem;
        let ghost f1 = kalloc@;
        let ghost start = (m1, f1);
        let ghost s0: Built = (Ok(()), TableView::empty(), f0.skip(1));
        proof {
            lemma_evolves_refl(root, mem, kalloc@);
            assert(evolves(root, &m0, f0, &m1, f1)) by {
                reveal(evolves);
                assert forall|q: u64| #[trigger] f1.contains(q) implies f0.contains(q) by {
                    let k = choose|k: int| 0 <= k < f1.len() && f1[k] == q;
                    assert(f0[k + 1] == q);
                }
                assert forall|a: u64|
                    m0.holds(a) && !PageTable::owns(&m0, root, crate::memory::vm::page_of(a))
                        && !f0.contains(crate::memory::vm::page_of(a)) implies #[trigger] m1.at(a)
                    == m0.at(a) by {
                    if root <= a < root + PGSIZE {
                        crate::memory::vm::lemma_page_of(a, root);
                    }
                }
            }
        }
        let r = Self::step(
            &mut table,
            mem,
            kalloc,
            Ok(()),
            UART,
            UART,
            PGSIZE,
            PTE_R | PTE_W,
            Ghost(s0),
            Ghost(start),
        );
        let ghost s1 = then_map(s0, UART, UART, PGSIZE as int, PTE_R | PTE_W);
        let r = Self::step(
            &mut table,
            mem,
            kalloc,
            r,
            PLIC,
            PLIC,
            PLIC_SIZE,
            PTE_R | PTE_W,
            Ghost(s1),
            Ghost(start),
        );
        let ghost s2 = then_map(s1, PLIC, PLIC, PLIC_SIZE as int, PTE_R | PTE_W);
        let r = Self::step(
            &mut table,
            mem,
            kalloc,
            r,
            VIRTIO0,
            VIRTIO0,
            PGSIZE,
            PTE_R | PTE_W,
            Ghost(s2),
            Ghost(start),
        );
        let ghost s3 = then_map(s2, VIRTIO0, VIRTIO0, PGSIZE as int, PTE_R | PTE_W);
        let r = Self::step(
            &mut table,
            mem,
            kalloc,
            r,
            KERNBASE,
            KERNBASE,
            image.etext - KERNBASE,
            PTE_R | PTE_X,
            Ghost(s3),
            Ghost(start),
        );
        let ghost s4 = then_map(s3, KERNBASE, KERNBASE, image.etext - KERNBASE, PTE_R | PTE_X);
        let r = Self::step(
            &mut table,
            mem,
            kalloc,
            r,
            image.etext,
            image.etext,
            PHYSTOP - image.etext,
            PTE_R | PTE_W,
            Ghost(s4),
            Ghost(start),
        );
        let ghost s5 = then_map(s4, image.etext, image.etext, PHYSTOP - image.etext, PTE_R | PTE_W);
        let r = Self::step(
            &mut table,
            mem,
            kalloc,
            r,
            TRAMPOLINE,
            image.traptext,
            PGSIZE,
            PTE_R | PTE_X,
            Ghost(s5),
            Ghost(start),
        );
        let ghost s6 = spec_fixed(s0, image);
        let ghost goal = spec_init(f0, image, nproc as int);
        let mut res = r;
        let mut p: usize = 0;
        while p < nproc && res.is_ok()
            invariant
                p <= nproc <= MAX_KSTACK,
                table.root() == root,
                table.wf(mem, kalloc),
                evolves(root, &start.0, start.1, mem, kalloc@),
                goal == then_stacks((res, table.view(mem), kalloc@), p as int, nproc as int),
            decreases nproc - p, (if res is Ok { 1int } else { 0int }),
        {
            let ghost before: Built = (res, table.view(mem), kalloc@);
            let ghost ma = *mem;
            let ghost fa = kalloc@;
            proof {
                kalloc.lemma_free_pages(mem);
            }
            match kalloc.alloc_page(mem) {
                None => {
                    res = Err(MapError::OutOfMemory);
                    proof {
                        let now = then_stack(before, p as int);
                        assert(now == (res, table.view(mem), kalloc@));
                        lemma_stacks_after_error(now, p + 1, nproc as int);
                        lemma_stacks_after_error(now, p as int, nproc as int);
                    }
                },
                Some(phys_addr) => {
                    let ghost fb = kalloc@;
                    proof {
                        assert(table.wf(mem, kalloc)) by {
                            assert forall|k: int| 0 <= k < fb.len() implies !PageTable::owns(
                                mem,
                                root,
                                #[trigger] fb[k],
                            ) by {
                                assert(fb[k] == fa[k + 1]);
                            }
                        }
                        assert(evolves(root, &start.0, start.1, mem, fb)) by {
                            reveal(evolves);
                            assert forall|q: u64| #[trigger] fb.contains(q) implies fa.contains(
                                q,
                            ) by {
                                let k = choose|k: int| 0 <= k < fb.len() && fb[k] == q;
                                assert(fa[k + 1] == q);
                            }
                        }
                    }
                    let virt_addr = kstack_start(p);
                    let ghost now: Built = (Ok(()), table.view(mem), fb);
                    res =
                    Self::step(
                        &mut table,
                        mem,
                        kalloc,
                        Ok(()),
                        virt_addr,
                        phys_addr,
                        PGSIZE,
                        PTE_R | PTE_W,
                        Ghost(now),
                        Ghost(start),
                    );
                    p = p + 1;
                },
            }
        }
        proof {
            lemma_evolves_trans(root, &m0, f0, &start.0, start.1, mem, kalloc@);
            assert(mem.same_range(&m0)) by {
                reveal(evolves);
            }
            if res is Err {
                lemma_stacks_after_error((res, table.view(mem), kalloc@), p as int, nproc as int);
            }
        }
        match res {
            Ok(()) => Ok(Kvm { root: table.base_addr() }),
            Err(e) => Err(e),
        }
    }

    /// The page number of the root of the kernel's page table: what a hart
    /// writes to `satp`, with the mode Sv39 and no address space identifier,
    /// to turn translation on.
    pub fn init_hart(&self) -> (ppn: u64)
        ensures
            ppn == self.root() >> 12,
    {
        self.root >> 12
    }

    /// The kernel's page table, to look addresses up in.
    pub fn table(&self) -> (table: PageTable)
        ensures
            table.root() == self.root(),
    {
        PageTable::from_addr(self.root)
    }
}

} // verus!
