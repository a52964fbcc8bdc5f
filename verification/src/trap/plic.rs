//! The platform-level interrupt controller: which of its registers the
//! kernel writes at boot, and what.

use vstd::prelude::*;
use crate::memory::layout::{PLIC, UART0_IRQ, VIRTIO0_IRQ};

verus! {

/// Harts whose registers lie in the PLIC's window.
pub const PLIC_HARTS: usize = 256;

/// A 32-bit value to be written to a register of the PLIC.
#[derive(Clone, Copy, Debug, PartialEq, Eq, Structural)]
pub struct Write {
    pub addr: u64,
    pub value: u32,
}

/// Address of the priority register of the interrupt source `irq`.
pub open spec fn spec_priority(irq: u64) -> int {
    PLIC + irq * 4
}

/// Address of the register that enables interrupt sources for the
/// supervisor mode of hart `hart`.
pub open spec fn spec_senable(hart: int) -> int {
    PLIC + 0x2080 + 0x100 * hart
}

/// Address of the register that holds the priority threshold for the
/// supervisor mode of hart `hart`.
pub open spec fn spec_spriority(hart: int) -> int {
    PLIC + 0x201000 + 0x2000 * hart
}

/// The bits of the interrupt sources that the kernel listens to: the UART
/// and the disk.
pub const SOURCES: u32 = 0x402;

/// Gives the interrupt sources of the UART and of the disk a priority other
/// than zero, which would turn them off.
pub fn init() -> (writes: [Write; 2])
    ensures
        writes[0] == (Write { addr: spec_priority(UART0_IRQ) as u64, value: 1 }),
        writes[1] == (Write { addr: spec_priority(VIRTIO0_IRQ) as u64, value: 1 }),
{
    [
        Write { addr: PLIC + UART0_IRQ * 4, value: 1 },
        Write { addr: PLIC + VIRTIO0_IRQ * 4, value: 1 },
    ]
}

/// Enables the interrupt sources of the UART and of the disk for the
/// supervisor mode of hart `hart`, and sets its priority threshold to zero.
pub fn init_hart(hart: usize) -> (writes: [Write; 2])
    requires
        hart < PLIC_HARTS,
    ensures
        writes[0] == (Write { addr: spec_senable(hart as int) as u64, value: SOURCES }),
        writes[1] == (Write { addr: spec_spriority(hart as int) as u64, value: 0 }),
{
    let id = hart as u64;
    [
        Write { addr: PLIC + 0x2080 + 0x100 * id, value: SOURCES },
        Write { addr: PLIC + 0x201000 + 0x2000 * id, value: 0 },
    ]
}

} // verus!
