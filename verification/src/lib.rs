//! Scheduling and trap core of a small multi-core RISC-V kernel, with the
//! memory services it rests on, stated and proved over explicit machine state.
//!
//! The kernel's state is held in values that are passed to the operations on
//! it: physical memory in a `PhysMem`, the harts in a `CMaster`, the process
//! table in a `PMaster`. What an operation would read from or write to a
//! control register, it takes as an argument or hands back for the hart to
//! write. A context switch is handed back as a `Switch` for the hart to
//! make; what follows the switch is an operation of its own.
//!
//! - `lock`: the spin lock, which masks interrupts while it is held.
//! - `process`: per-hart records, process records, the process table and the
//!   scheduler.
//! - `trap`, `syscall`, `fault`: what a trap is, what the kernel does about
//!   it, and what stops the kernel.
//! - `memory`: physical memory, the page allocator that is threaded through
//!   the free pages, the page tables, and the list that the heap is built on.
//! - `kalloc`, `address`: a page allocator that keeps its free pages in a
//!   table of its own.
//! - `arch`: constants of the machine.

pub mod address;
pub mod arch;
pub mod fault;
pub mod kalloc;
pub mod lock;
pub mod memory;
pub mod process;
pub mod syscall;
pub mod trap;
