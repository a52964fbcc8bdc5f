//! Physical and virtual memory layout of the `virt` machine.

use vstd::prelude::*;
use crate::arch::{MAXVA, PGSIZE};
pub use crate::arch::CLINT;

verus! {

/// UART registers.
pub const UART: u64 = 0x1000_0000;

pub const UART0_IRQ: u64 = 10;

/// virtio mmio interface.
pub const VIRTIO0: u64 = 0x1000_1000;

pub const VIRTIO0_IRQ: u64 = 1;

/// Cycles since boot.
pub const CLINT_MTIME: u64 = 0x200_BFF8;

/// Platform-level interrupt controller.
pub const PLIC: u64 = 0x0c00_0000;

/// Bytes of the PLIC's register window.
pub const PLIC_SIZE: u64 = 0x40_0000;

/// Start of RAM: the kernel is loaded here.
pub const KERNBASE: u64 = 0x8000_0000;

/// End of the RAM that the kernel uses.
pub const PHYSTOP: u64 = 0x8800_0000;

/// The trampoline page sits at the highest virtual address, in user and in
/// kernel space.
pub const TRAMPOLINE: u64 = 0x3F_FFFF_F000;

/// The trap frame page sits just below the trampoline in user space.
pub const TRAPFRAME: u64 = 0x3F_FFFF_E000;

/// Number of kernel stacks that fit beneath the trampoline, each followed by
/// a guard page.
pub const MAX_KSTACK: usize = 0x1FF_FFFF;

/// Addresses that the linker fixes and that the kernel learns at boot.
#[derive(Clone, Copy, Debug)]
pub struct Image {
    /// First address after the kernel.
    pub end: u64,
    /// First address after the kernel's code.
    pub etext: u64,
    /// Physical address of the trampoline page.
    pub traptext: u64,
    /// Machine-mode timer interrupt vector.
    pub timervec: u64,
    /// Kernel trap vector.
    pub kernelvec: u64,
    /// Entry of the trampoline into the kernel, inside the trampoline page.
    pub uservec: u64,
    /// Exit of the trampoline into user space, inside the trampoline page.
    pub userret: u64,
    /// Address of the handler for traps from user space.
    pub usertrap: u64,
    /// Address at which a fresh process starts in the kernel.
    pub forkret: u64,
}

impl Image {
    /// The trampoline lies in one page, and its entry and exit lie in it.
    pub open spec fn wf(&self) -> bool {
        &&& self.traptext % PGSIZE == 0
        &&& self.traptext + PGSIZE <= u64::MAX
        &&& self.traptext <= self.uservec < self.traptext + PGSIZE
        &&& self.traptext <= self.userret < self.traptext + PGSIZE
    }

    /// Whether the trampoline lies in one page, with its entry and exit.
    pub fn check(&self) -> (ok: bool)
        ensures
            ok == self.wf(),
    {
        self.traptext % PGSIZE == 0 && self.traptext <= u64::MAX - PGSIZE && self.traptext
            <= self.uservec && self.uservec - self.traptext < PGSIZE && self.traptext
            <= self.userret && self.userret - self.traptext < PGSIZE
    }
}

/// Lowest address of the kernel stack of slot `pid`: the stacks lie beneath
/// the trampoline, two pages apart, so that an unmapped page guards each.
pub open spec fn spec_kstack(pid: int) -> int {
    TRAMPOLINE - PGSIZE * 2 * (pid + 1)
}

pub fn kstack(pid: usize) -> (va: u64)
    requires
        pid < MAX_KSTACK,
    ensures
        va == spec_kstack(pid as int),
        va % PGSIZE == 0,
        va + PGSIZE <= TRAMPOLINE,
{
    assert(MAXVA - PGSIZE == TRAMPOLINE);
    let n: u64 = (pid + 1) as u64;
    assert(PGSIZE * 2 * n == 8192 * n);
    TRAMPOLINE - 8192 * n
}

/// Lowest address of the kernel stack of slot `pid`.
pub fn kstack_start(pid: usize) -> (va: u64)
    requires
        pid < MAX_KSTACK,
    ensures
        va == spec_kstack(pid as int),
{
    kstack(pid)
}

/// One beyond the highest address of the kernel stack of slot `pid`: the
/// initial stack pointer.
pub fn kstack_end(pid: usize) -> (va: u64)
    requires
        pid < MAX_KSTACK,
    ensures
        va == spec_kstack(pid as int) + PGSIZE,
{
    kstack(pid) + PGSIZE
}

} // verus!
