//! Building blocks of the kernel's heap.

pub mod list;
