//! A spin lock that masks interrupts on the hart that holds it.
//!
//! Kernel data that several harts share must not change under a hart while
//! an interrupt handler on that same hart could come back for it. So a hart
//! turns its interrupts off before it claims a lock, and on again only when
//! it has given its last lock back.

use vstd::prelude::*;
use crate::process::cpu::CMaster;

verus! {

/// A value of type `T` behind a lock.
pub struct SpinLock<T> {
    locked: bool,
    data: T,
}

/// The right to the value behind a lock, from the claim to the release. The
/// value is reached through the guard only while the lock is held.
pub struct Guard<'a, T> {
    pub lock: &'a mut SpinLock<T>,
}

impl<T> SpinLock<T> {
    /// Whether a hart holds the lock.
    pub closed spec fn is_locked(&self) -> bool {
        self.locked
    }

    /// The value behind the lock.
    pub closed spec fn value(&self) -> T {
        self.data
    }

    /// A lock is what it guards and whether it is held.
    pub proof fn lemma_same(&self, other: &SpinLock<T>)
        requires
            self.is_locked() == other.is_locked(),
            self.value() == other.value(),
        ensures
            *self == *other,
    {
    }

    /// A free lock around `data`.
    pub fn new(data: T) -> (lock: SpinLock<T>)
        ensures
            !lock.is_locked(),
            lock.value() == data,
    {
        SpinLock { locked: false, data }
    }

    /// Whether a hart holds the lock.
    pub fn held(&self) -> (locked: bool)
        ensures
            locked == self.is_locked(),
    {
        self.locked
    }

    /// The value behind the lock, read without the lock: fit for a look at
    /// what may change under the reader, and for nothing else.
    pub fn peek(&self) -> (data: &T)
        ensures
            *data == self.value(),
    {
        &self.data
    }

    /// Claims the lock for hart `hart`, with its interrupts off from before
    /// the claim. A lock that is held is not claimed: the hart would spin
    /// until another hart gave it back.
    pub fn lock<'a>(&'a mut self, cmaster: &mut CMaster, hart: usize) -> (guard: Guard<'a, T>)
        requires
            !old(self).is_locked(),
            old(cmaster).wf(),
            hart < old(cmaster).harts(),
            old(cmaster).cpu(hart as int).nlock < u8::MAX,
        ensures
            final(cmaster).only_changed(
                old(cmaster),
                hart as int,
                old(cmaster).hart(hart as int).pushed(),
            ),
            guard.lock.is_locked(),
            guard.lock.value() == old(self).value(),
            *final(self) == *final(guard.lock),
    {
        cmaster.push_off(hart);
        self.locked = true;
        Guard { lock: self }
    }

    /// Gives the lock back for hart `hart`, and turns its interrupts on where
    /// this was its outermost lock and they were on before.
    pub fn unlock(&mut self, cmaster: &mut CMaster, hart: usize)
        requires
            old(self).is_locked(),
            old(cmaster).wf(),
            hart < old(cmaster).harts(),
            old(cmaster).cpu(hart as int).nlock != 0,
        ensures
            !final(self).is_locked(),
            final(self).value() == old(self).value(),
            final(cmaster).only_changed(
                old(cmaster),
                hart as int,
                old(cmaster).hart(hart as int).popped(),
            ),
    {
        self.locked = false;
        cmaster.pop_off(hart);
    }
}

impl<'a, T> Guard<'a, T> {
    /// The value behind the lock.
    pub fn deref(&self) -> (data: &T)
        requires
            old(self.lock).is_locked(),
        ensures
            *data == old(self.lock).value(),
    {
        &self.lock.data
    }

    /// The value behind the lock, to be changed.
    pub fn deref_mut(&mut self) -> (data: &mut T)
        requires
            old(self).lock.is_locked(),
        ensures
            *data == old(self).lock.value(),
            final(self).lock.value() == *final(data),
            final(self).lock.is_locked() == old(self).lock.is_locked(),
            *final(final(self).lock) == *final(old(self).lock),
    {
        &mut self.lock.data
    }

    /// Lays the guard down without giving the lock back: the lock stays
    /// held, to be given back by `SpinLock::unlock`.
    pub fn keep(self)
        ensures
            *final(self.lock) == *old(self.lock),
    {
    }

    /// Gives the lock back for hart `hart`, as `SpinLock::unlock` does.
    pub fn drop(self, cmaster: &mut CMaster, hart: usize)
        requires
            old(self.lock).is_locked(),
            old(cmaster).wf(),
            hart < old(cmaster).harts(),
            old(cmaster).cpu(hart as int).nlock != 0,
        ensures
            !final(self.lock).is_locked(),
            final(self.lock).value() == old(self.lock).value(),
            final(cmaster).only_changed(
                old(cmaster),
                hart as int,
                old(cmaster).hart(hart as int).popped(),
            ),
    {
        self.lock.unlock(cmaster, hart);
    }
}

} // verus!
