//! Mutual exclusion between harts.

pub mod spinlock;
