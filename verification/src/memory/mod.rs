//! Physical memory, the page allocator and the Sv39 page tables.

pub mod layout;
pub mod kalloc;
pub mod kmalloc;
pub mod kvm;
pub mod phys;
pub mod vm;
