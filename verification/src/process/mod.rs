//! Processes and the harts that run them.

pub mod cpu;
pub mod master;
pub mod proc;
pub mod trapframe;
