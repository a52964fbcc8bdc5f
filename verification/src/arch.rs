//! Architecture constants and the address arithmetic that goes with them.

use vstd::prelude::*;

verus! {

/// One beyond the highest virtual address that Sv39 translation is used for.
pub const MAXVA: u64 = 0x40_0000_0000;

/// Bytes in a page.
pub const PGSIZE: u64 = 4096;

/// Number of harts.
pub const NCPU: usize = 4;

/// Cycles between two timer interrupts.
pub const INTERVAL: u64 = 1000000;

/// Harts that the core local interruptor has registers for.
pub const MAX_HARTS: usize = 4095;

/// Core local interruptor, which holds the timer.
pub const CLINT: u64 = 0x200_0000;

/// Slots in the process table.
pub const NPROC: usize = 64;

/// The `satp` value that switches address translation to Sv39 with the table
/// rooted at `addr`.
pub open spec fn spec_make_satp(addr: u64) -> u64 {
    (addr >> 12) | 0x8000_0000_0000_0000u64
}

pub fn make_satp(addr: u64) -> (satp: u64)
    ensures
        satp == spec_make_satp(addr),
{
    (addr >> 12) | 0x8000_0000_0000_0000u64
}

/// Address of the register of the core local interruptor that holds the
/// time of the next timer interrupt of hart `cpu_id`.
pub open spec fn spec_mtimecmp_addr(cpu_id: usize) -> int {
    CLINT + 0x4000 + 8 * cpu_id
}

/// The number of a hart as a 64-bit word.
pub fn hart_word(id: usize) -> (word: u64)
    ensures
        word == id,
{
    id as u64
}

pub fn get_mtimecmp_addr(cpu_id: usize) -> (addr: u64)
    requires
        cpu_id < MAX_HARTS,
    ensures
        addr == spec_mtimecmp_addr(cpu_id),
{
    CLINT + 0x4000 + 8 * hart_word(cpu_id)
}

/// What a hart sets up in machine mode to get timer interrupts.
#[derive(Clone, Copy, Debug)]
pub struct Timer {
    /// Address of the hart's compare register.
    pub mtimecmp_addr: u64,
    /// To be written there: the time of the first interrupt.
    pub mtimecmp: u64,
    /// The hart's scratch area for the interrupt handler. The first three
    /// words are room for registers; then come the address of the compare
    /// register and the interval between interrupts.
    pub scratch: [u64; 5],
}

/// Asks the core local interruptor for a timer interrupt on hart `id`, one
/// interval from the time `mtime` on, and prepares the scratch area that the
/// handler asks for the next with.
pub fn setup_mscratch(id: usize, mtime: u64) -> (timer: Timer)
    requires
        id < MAX_HARTS,
        mtime + INTERVAL <= u64::MAX,
    ensures
        timer.mtimecmp_addr == spec_mtimecmp_addr(id),
        timer.mtimecmp == mtime + INTERVAL,
        timer.scratch@ == seq![0u64, 0u64, 0u64, timer.mtimecmp_addr, INTERVAL],
{
    let mtimecmp_val = mtime + INTERVAL;
    let mtimecmp_addr = get_mtimecmp_addr(id);
    let scratch = [0, 0, 0, mtimecmp_addr, INTERVAL];
    assert(scratch@ =~= seq![0u64, 0u64, 0u64, mtimecmp_addr, INTERVAL]);
    Timer { mtimecmp_addr, mtimecmp: mtimecmp_val, scratch }
}

} // verus!
