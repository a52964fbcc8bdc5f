//! The cause of a trap, as the `scause` register reports it: the highest bit
//! tells an interrupt from an exception, the other bits are a code.

use vstd::prelude::*;
use riscv::register::scause;

verus! {

/// An interrupt, by the code that `scause` holds for it.
#[derive(Clone, Copy, Debug, PartialEq, Eq, Structural)]
pub enum Interrupt {
    UserSoft,
    SupervisorSoft,
    UserTimer,
    SupervisorTimer,
    UserExternal,
    SupervisorExternal,
    Unknown,
}

/// An exception, by the code that `scause` holds for it.
#[derive(Clone, Copy, Debug, PartialEq, Eq, Structural)]
pub enum Exception {
    InstructionMisaligned,
    InstructionFault,
    IllegalInstruction,
    Breakpoint,
    LoadFault,
    StoreMisaligned,
    StoreFault,
    UserEnvCall,
    InstructionPageFault,
    LoadPageFault,
    StorePageFault,
    Unknown,
}

/// The cause of a trap.
#[derive(Clone, Copy, Debug, PartialEq, Eq, Structural)]
pub enum Trap {
    Interrupt(Interrupt),
    Exception(Exception),
}

impl Interrupt {
    /// The interrupt with the code `nr`.
    pub open spec fn spec_from(nr: usize) -> Interrupt {
        if nr == 0 {
            Interrupt::UserSoft
        } else if nr == 1 {
            Interrupt::SupervisorSoft
        } else if nr == 4 {
            Interrupt::UserTimer
        } else if nr == 5 {
            Interrupt::SupervisorTimer
        } else if nr == 8 {
            Interrupt::UserExternal
        } else if nr == 9 {
            Interrupt::SupervisorExternal
        } else {
            Interrupt::Unknown
        }
    }
}

impl Exception {
    /// The exception with the code `nr`.
    pub open spec fn spec_from(nr: usize) -> Exception {
        if nr == 0 {
            Exception::InstructionMisaligned
        } else if nr == 1 {
            Exception::InstructionFault
        } else if nr == 2 {
            Exception::IllegalInstruction
        } else if nr == 3 {
            Exception::Breakpoint
        } else if nr == 5 {
            Exception::LoadFault
        } else if nr == 6 {
            Exception::StoreMisaligned
        } else if nr == 7 {
            Exception::StoreFault
        } else if nr == 8 {
            Exception::UserEnvCall
        } else if nr == 12 {
            Exception::InstructionPageFault
        } else if nr == 13 {
            Exception::LoadPageFault
        } else if nr == 15 {
            Exception::StorePageFault
        } else {
            Exception::Unknown
        }
    }
}

/// Calls `riscv::register::scause::Interrupt::from`. Not proved: that the
/// crate decodes the codes 0, 1, 4, 5, 8 and 9 as the user and supervisor
/// software, timer and external interrupts, in that order, and every other
/// code as unknown.
#[verifier::external_body]
fn interrupt_from(nr: usize) -> (interrupt: Interrupt)
    ensures
        interrupt == Interrupt::spec_from(nr),
{
    match scause::Interrupt::from(nr) {
        scause::Interrupt::UserSoft => Interrupt::UserSoft,
        scause::Interrupt::SupervisorSoft => Interrupt::SupervisorSoft,
        scause::Interrupt::UserTimer => Interrupt::UserTimer,
        scause::Interrupt::SupervisorTimer => Interrupt::SupervisorTimer,
        scause::Interrupt::UserExternal => Interrupt::UserExternal,
        scause::Interrupt::SupervisorExternal => Interrupt::SupervisorExternal,
        scause::Interrupt::Unknown => Interrupt::Unknown,
    }
}

/// Calls `riscv::register::scause::Exception::from`. Not proved: that the
/// crate decodes the codes 0 to 3, 5 to 8, 12, 13 and 15 as the exceptions in
/// the order of the enum, and every other code as unknown.
#[verifier::external_body]
fn exception_from(nr: usize) -> (exception: Exception)
    ensures
        exception == Exception::spec_from(nr),
{
    match scause::Exception::from(nr) {
        scause::Exception::InstructionMisaligned => Exception::InstructionMisaligned,
        scause::Exception::InstructionFault => Exception::InstructionFault,
        scause::Exception::IllegalInstruction => Exception::IllegalInstruction,
        scause::Exception::Breakpoint => Exception::Breakpoint,
        scause::Exception::LoadFault => Exception::LoadFault,
        scause::Exception::StoreMisaligned => Exception::StoreMisaligned,
        scause::Exception::StoreFault => Exception::StoreFault,
        scause::Exception::UserEnvCall => Exception::UserEnvCall,
        scause::Exception::InstructionPageFault => Exception::InstructionPageFault,
        scause::Exception::LoadPageFault => Exception::LoadPageFault,
        scause::Exception::StorePageFault => Exception::StorePageFault,
        scause::Exception::Unknown => Exception::Unknown,
    }
}

/// The value of the highest bit of a register.
pub open spec fn interrupt_bit() -> int {
    usize::MAX / 2 + 1
}

/// Whether the highest bit of `bits` is set: the trap is an interrupt.
pub open spec fn spec_is_interrupt(bits: usize) -> bool {
    bits >= interrupt_bit()
}

/// The bits of `bits` below the highest: the code of the trap.
pub open spec fn spec_code(bits: usize) -> usize {
    if spec_is_interrupt(bits) {
        (bits - interrupt_bit()) as usize
    } else {
        bits
    }
}

/// The cause that the register value `bits` stands for.
pub open spec fn spec_cause(bits: usize) -> Trap {
    if spec_is_interrupt(bits) {
        Trap::Interrupt(Interrupt::spec_from(spec_code(bits)))
    } else {
        Trap::Exception(Exception::spec_from(spec_code(bits)))
    }
}

/// The register value that reports the interrupt with the code `nr`.
pub fn interrupt_bits(nr: usize) -> (bits: usize)
    requires
        nr < interrupt_bit(),
    ensures
        spec_is_interrupt(bits),
        spec_code(bits) == nr,
{
    nr + (usize::MAX / 2 + 1)
}

/// Whether the register value `bits` reports an interrupt.
pub fn is_interrupt(bits: usize) -> (interrupt: bool)
    ensures
        interrupt == spec_is_interrupt(bits),
{
    bits > usize::MAX / 2
}

/// The code that the register value `bits` reports.
pub fn code(bits: usize) -> (code: usize)
    ensures
        code == spec_code(bits),
{
    if bits > usize::MAX / 2 {
        bits - (usize::MAX / 2 + 1)
    } else {
        bits
    }
}

/// The cause that the register value `bits` reports.
pub fn cause(bits: usize) -> (trap: Trap)
    ensures
        trap == spec_cause(bits),
{
    if is_interrupt(bits) {
        Trap::Interrupt(interrupt_from(code(bits)))
    } else {
        Trap::Exception(exception_from(code(bits)))
    }
}

} // verus!
