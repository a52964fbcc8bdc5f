//! What brings the kernel to a halt.
//!
//! None of these is retried or passed over: each says that something the
//! kernel relies on does not hold, or that it met something it does not
//! implement. Whoever gets one stops the hart.

use vstd::prelude::*;
use crate::syscall::SysCall;
use crate::trap::cause::{Exception, Interrupt, Trap};

verus! {

#[derive(Clone, Copy, Debug, PartialEq, Eq, Structural)]
pub enum Fault {
    /// No process runs on the hart.
    NotHoldingProcess,
    /// The process that gives up the hart is still marked as running.
    StillRunning,
    /// The lock of the process that gives up the hart is not held.
    NotLocked,
    /// Interrupts are on where they must be off.
    InterruptsEnabled,
    /// A trap that is handled as one from user space came from the kernel.
    NotFromUser,
    /// An exception while the kernel ran.
    KernelException(Exception),
    /// An external interrupt: the kernel does not route them yet.
    ExternalInterrupt,
    /// An interrupt that the kernel has no use for.
    UnexpectedInterrupt(Interrupt),
    /// A trap from user space that is neither the timer nor a system call.
    UnexpectedTrap(Trap),
    /// A system call number that stands for no call.
    UnsupportedSyscall(u64),
    /// A system call that the kernel does not implement yet.
    UnimplementedSyscall(SysCall),
    /// The first process could not be set up: no slot or no memory.
    NoFirstProcess,
}

} // verus!
