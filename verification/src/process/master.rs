//! The process table and the scheduler.
//!
//! Each hart runs the scheduler: it looks through the table for a process
//! that is ready, marks it as running and switches to it. The process gives
//! the hart back by marking itself as ready again and switching to the
//! scheduler. The switch itself is the work of the hart; what is decided
//! before and after it is decided here.
//!
//! The lock of a process is held across each switch: the scheduler takes it
//! before it switches to the process, which gives it back; the process takes
//! it before it switches to the scheduler, which gives it back.

use vstd::prelude::*;
use crate::fault::Fault;
use crate::lock::spinlock::SpinLock;
use crate::arch::PGSIZE;
use crate::memory::kalloc::Kalloc;
use crate::memory::layout::{
    kstack_end, kstack_start, spec_kstack, Image, MAX_KSTACK, TRAMPOLINE, TRAPFRAME,
};
use crate::memory::phys::PhysMem;
use crate::memory::vm::{
    entry, evolves, lemma_evolves_trans, lemma_page_of, lemma_top_paths, page_of, spec_leaf,
    spec_path, user_space, PageTable, TableView, PTE_R, PTE_U, PTE_W, PTE_X,
};
use crate::process::cpu::Context;
use crate::process::trapframe::{frame_words, TrapFrame, EPC, FRAME_WORDS, SP};
use crate::process::cpu::{lemma_relocked, lemma_relocked_within, CMaster, Hart};
use crate::process::proc::{Proc, ProcContext, State};

verus! {

/// Whose registers a context switch saves or loads.
#[derive(Clone, Copy, Debug, PartialEq, Eq, Structural)]
pub enum Holder {
    /// The scheduler of a hart.
    Hart(usize),
    /// The process in a slot.
    Proc(usize),
}

/// A context switch that the hart is to make: it saves its registers in the
/// context of `save` and loads those of `load`.
#[derive(Clone, Copy, Debug, PartialEq, Eq, Structural)]
pub struct Switch {
    pub save: Holder,
    pub load: Holder,
}

/// How the scheduler's look through the table ended.
#[derive(Clone, Copy, Debug, PartialEq, Eq, Structural)]
pub enum Sweep {
    /// The process in the slot is marked as running on the hart, with its
    /// lock held: the hart is to switch to it.
    Dispatched(usize),
    /// Another hart holds the lock of the slot: the hart is to try again
    /// from that slot on.
    Blocked(usize),
    /// The end of the table was reached.
    Idle,
}

/// The program of the first process, as the word that its eight bytes make:
/// two instructions, of which the first loads 42 into `a0` and the second
/// jumps back to the first.
pub const INITCODE: u64 = 0xffdf_f06f_02a0_0513;

/// A whole turn leaves the hart as one lock taken and given back leaves it:
/// the scheduler's lock is given back by the process, that of the process by
/// the scheduler.
pub proof fn lemma_turn(hart: Hart)
    requires
        hart.cpu.nlock < u8::MAX,
        hart.cpu.pin is None,
    ensures
        forall|slot: usize|
            (#[trigger] hart.pushed().pinned(Some(slot))).popped().pushed().pinned(None).popped()
                == hart.relocked(),
{
}

/// The process table, with the counter that process identifiers come from.
pub struct PMaster {
    procs: Vec<Proc>,
    pid: SpinLock<usize>,
}

impl PMaster {
    /// Number of slots.
    pub closed spec fn len(&self) -> nat {
        self.procs@.len()
    }

    /// The process in slot `i`.
    pub closed spec fn proc(&self, i: int) -> Proc {
        self.procs@[i]
    }

    /// The identifier that was handed out last.
    pub closed spec fn last_pid(&self) -> usize {
        self.pid.value()
    }

    /// Whether a hart holds the lock of the counter.
    pub closed spec fn pid_locked(&self) -> bool {
        self.pid.is_locked()
    }

    /// The state of the process in slot `i`.
    pub open spec fn state(&self, i: int) -> State {
        self.proc(i).state()
    }

    /// Whether a hart holds the lock of slot `i`.
    pub open spec fn locked(&self, i: int) -> bool {
        self.proc(i).locked()
    }

    /// Whether hart `h` runs the process in slot `p`.
    pub open spec fn pins(cmaster: &CMaster, h: int, p: int) -> bool {
        0 <= h < cmaster.harts() && cmaster.cpu(h).pin == Some(p as usize) && 0 <= p <= usize::MAX
    }

    /// The table is set up: each slot has its kernel stack, and the counter
    /// is free.
    pub open spec fn wf(&self) -> bool {
        &&& self.len() <= MAX_KSTACK
        &&& !self.pid_locked()
        &&& forall|i: int| 0 <= i < self.len() ==> Self::has_kstack(#[trigger] self.proc(i), i)
    }

    /// The process has the kernel stack of slot `i`.
    pub open spec fn has_kstack(proc: Proc, i: int) -> bool {
        proc.context.kstack matches Some(va) && va == spec_kstack(i)
    }

    /// What slot `i` holds when the table is set up.
    pub open spec fn is_fresh(proc: Proc, i: int) -> bool {
        &&& proc.state() == State::Unused
        &&& !proc.locked()
        &&& Self::has_kstack(proc, i)
        &&& proc.context == (ProcContext { kstack: proc.context.kstack, ..ProcContext::empty() })
    }

    /// Table and harts agree, as they do whenever no hart is halfway through
    /// an operation of the table:
    /// - a process that is on a hart is running, or is ready or gone with
    ///   its lock held, on the way back to the scheduler;
    /// - no process is on two harts;
    /// - a lock that is held is that of a process on a hart, and that hart
    ///   counts it;
    /// - a process that is running is on a hart.
    pub open spec fn coherent(&self, cmaster: &CMaster) -> bool {
        &&& self.wf()
        &&& cmaster.wf()
        &&& forall|h: int, p: int| #[trigger]
            Self::pins(cmaster, h, p) ==> p < self.len() && (self.state(p) == State::Running || (
            self.locked(p) && (self.state(p) == State::Runnable || self.state(p)
                == State::Zombie)))
        &&& forall|h1: int, h2: int, p: int|
            #[trigger] Self::pins(cmaster, h1, p) && #[trigger] Self::pins(cmaster, h2, p) ==> h1
                == h2
        &&& forall|p: int|
            0 <= p < self.len() && #[trigger] self.locked(p) ==> exists|h: int| #[trigger]
                Self::pins(cmaster, h, p) && cmaster.cpu(h).nlock >= 1
        &&& forall|p: int|
            0 <= p < self.len() && #[trigger] self.state(p) == State::Running ==> exists|h: int|
             #[trigger]
                Self::pins(cmaster, h, p)
    }

    /// A table in which no lock is held and no process is running agrees
    /// with harts that run no process: as it is after `init`, and as long as
    /// processes are only set up.
    pub proof fn lemma_idle_coherent(&self, cmaster: &CMaster)
        requires
            self.wf(),
            cmaster.wf(),
            forall|i: int|
                0 <= i < self.len() ==> !(#[trigger] self.proc(i)).locked() && self.proc(i).state()
                    != State::Running,
            forall|h: int| 0 <= h < cmaster.harts() ==> (#[trigger] cmaster.cpu(h)).pin is None,
        ensures
            self.coherent(cmaster),
    {
        assert forall|p: int| 0 <= p < self.len() implies !#[trigger] self.locked(p) by {
            assert(!self.proc(p).locked());
        }
        assert forall|p: int| 0 <= p < self.len() implies #[trigger] self.state(p)
            != State::Running by {
            assert(self.proc(p).state() != State::Running);
        }
    }

    /// No process is on two harts at once.
    pub proof fn lemma_pins_exclusive(&self, cmaster: &CMaster, h1: int, h2: int)
        requires
            self.coherent(cmaster),
            0 <= h1 < cmaster.harts(),
            0 <= h2 < cmaster.harts(),
            h1 != h2,
            cmaster.cpu(h1).pin is Some,
        ensures
            cmaster.cpu(h1).pin != cmaster.cpu(h2).pin,
    {
        let p = cmaster.cpu(h1).pin->0 as int;
        assert(Self::pins(cmaster, h1, p));
        if cmaster.cpu(h2).pin == cmaster.cpu(h1).pin {
            assert(Self::pins(cmaster, h2, p));
        }
    }

    /// The identifier of the process in slot `i`.
    pub open spec fn pid(&self, i: int) -> usize {
        self.proc(i).context.pid
    }

    /// Whether slot `i`, free in `before`, holds a process now.
    pub open spec fn set_up_since(&self, before: &PMaster, i: int) -> bool {
        before.state(i) == State::Unused && self.state(i) != State::Unused
    }

    /// The table came from `before` by operations of the table:
    /// - each process went from its state there to its state now by steps
    ///   that a process can take;
    /// - the counter did not go back;
    /// - a process that was set up there has the identifier that it had;
    /// - a process that was set up since has an identifier that the counter
    ///   handed out since, and no two of them have the same.
    pub open spec fn follows(&self, before: &PMaster) -> bool {
        &&& self.len() == before.len()
        &&& self.last_pid() >= before.last_pid()
        &&& forall|i: int|
            0 <= i < self.len() ==> {
                &&& before.state(i).reaches(#[trigger] self.state(i))
                &&& before.state(i) != State::Unused ==> self.pid(i) == before.pid(i)
                &&& self.set_up_since(before, i) ==> before.last_pid() < self.pid(i)
                    <= self.last_pid()
            }
        &&& forall|i: int, j: int|
            0 <= i < self.len() && 0 <= j < self.len() && i != j && #[trigger] self.set_up_since(
                before,
                i,
            ) && #[trigger] self.set_up_since(before, j) ==> self.pid(i) != self.pid(j)
    }

    /// Each process that is set up has an identifier that the counter handed
    /// out, and no two have the same.
    pub open spec fn numbered(&self) -> bool {
        &&& forall|i: int|
            0 <= i < self.len() && #[trigger] self.state(i) != State::Unused ==> 0 < self.pid(i)
                <= self.last_pid()
        &&& forall|i: int, j: int|
            0 <= i < self.len() && 0 <= j < self.len() && i != j && #[trigger] self.state(i)
                != State::Unused && #[trigger] self.state(j) != State::Unused ==> self.pid(i)
                != self.pid(j)
    }

    /// A table follows the table that it came from by a change to one slot,
    /// or to none, where the process in the slot took steps that it can
    /// take and kept its identifier, or was set up with an identifier that
    /// the counter handed out for it.
    pub proof fn lemma_follows_slot(&self, after: &PMaster, slot: int)
        requires
            after.same_procs_but(self, slot),
            after.last_pid() >= self.last_pid(),
            0 <= slot < self.len() ==> {
                &&& self.state(slot).reaches(after.state(slot))
                &&& self.state(slot) != State::Unused ==> after.pid(slot) == self.pid(slot)
                &&& after.set_up_since(self, slot) ==> self.last_pid() < after.pid(slot)
                    <= after.last_pid()
            },
        ensures
            after.follows(self),
    {
        assert forall|i: int| 0 <= i < after.len() implies {
            &&& self.state(i).reaches(#[trigger] after.state(i))
            &&& self.state(i) != State::Unused ==> after.pid(i) == self.pid(i)
            &&& after.set_up_since(self, i) ==> self.last_pid() < after.pid(i) <= after.last_pid()
        } by {
            if i != slot {
                assert(after.proc(i) == self.proc(i));
            }
        }
        assert forall|i: int, j: int|
            0 <= i < after.len() && 0 <= j < after.len() && i != j && #[trigger] after.set_up_since(
                self,
                i,
            ) && #[trigger] after.set_up_since(self, j) implies after.pid(i) != after.pid(j) by {
            if i != slot {
                assert(after.proc(i) == self.proc(i));
            }
            if j != slot {
                assert(after.proc(j) == self.proc(j));
            }
        }
    }

    /// A table that follows one that follows another follows that other.
    pub proof fn lemma_follows_trans(&self, mid: &PMaster, after: &PMaster)
        requires
            mid.follows(self),
            after.follows(mid),
        ensures
            after.follows(self),
    {
        assert forall|i: int| 0 <= i < after.len() implies {
            &&& self.state(i).reaches(#[trigger] after.state(i))
            &&& self.state(i) != State::Unused ==> after.pid(i) == self.pid(i)
            &&& after.set_up_since(self, i) ==> self.last_pid() < after.pid(i) <= after.last_pid()
        } by {
            assert(self.state(i).reaches(mid.state(i)));
            assert(mid.state(i).reaches(after.state(i)));
        }
        assert forall|i: int, j: int|
            0 <= i < after.len() && 0 <= j < after.len() && i != j && #[trigger] after.set_up_since(
                self,
                i,
            ) && #[trigger] after.set_up_since(self, j) implies after.pid(i) != after.pid(j) by {
            assert(self.state(i).reaches(mid.state(i)));
            assert(self.state(j).reaches(mid.state(j)));
            assert(mid.state(i).reaches(after.state(i)));
            assert(mid.state(j).reaches(after.state(j)));
            if mid.set_up_since(self, i) && mid.set_up_since(self, j) {
                assert(mid.pid(i) != mid.pid(j));
            } else if !mid.set_up_since(self, i) && !mid.set_up_since(self, j) {
                assert(after.set_up_since(mid, i) && after.set_up_since(mid, j));
            }
        }
    }

    /// Identifiers stay in order through the operations of the table: where
    /// each process had an identifier of its own from the counter, each has
    /// one in every table that follows.
    pub proof fn lemma_numbered(&self, after: &PMaster)
        requires
            self.numbered(),
            after.follows(self),
        ensures
            after.numbered(),
    {
        assert forall|i: int|
            0 <= i < after.len() && #[trigger] after.state(i) != State::Unused implies 0
            < after.pid(i) <= after.last_pid() by {
            assert(self.state(i).reaches(after.state(i)));
            if self.state(i) != State::Unused {
                assert(0 < self.pid(i) <= self.last_pid());
            } else {
                assert(after.set_up_since(self, i));
            }
        }
        assert forall|i: int, j: int|
            0 <= i < after.len() && 0 <= j < after.len() && i != j && #[trigger] after.state(i)
                != State::Unused && #[trigger] after.state(j) != State::Unused implies after.pid(i)
            != after.pid(j) by {
            assert(self.state(i).reaches(after.state(i)));
            assert(self.state(j).reaches(after.state(j)));
            if self.state(i) != State::Unused {
                assert(0 < self.pid(i) <= self.last_pid());
            } else {
                assert(after.set_up_since(self, i));
            }
            if self.state(j) != State::Unused {
                assert(0 < self.pid(j) <= self.last_pid());
            } else {
                assert(after.set_up_since(self, j));
            }
        }
    }

    /// Of two processes that were set up one after the other, whatever was
    /// done with the table in between, the later has a slot of its own and
    /// the greater identifier: `first` is the table after the earlier was
    /// set up in slot `i`, `later` the table before the other is set up, in
    /// the first free slot and with the next identifier from the counter.
    pub proof fn lemma_later_pid(first: &PMaster, later: &PMaster, i: int, free: nat)
        requires
            first.numbered(),
            later.follows(first),
            0 <= i < first.len(),
            first.state(i) != State::Unused,
            later.spec_allocate(free) is Some,
        ensures
            later.spec_allocate(free)->0 != i,
            later.last_pid() + 1 > first.pid(i),
            later.pid(i) == first.pid(i),
    {
        later.lemma_first_unused(0);
        assert(first.state(i).reaches(later.state(i)));
        assert(0 < first.pid(i) <= first.last_pid());
    }

    /// The slots are as in `before` but for slot `slot`.
    pub open spec fn same_procs_but(&self, before: &PMaster, slot: int) -> bool {
        &&& self.len() == before.len()
        &&& forall|i: int| 0 <= i < self.len() && i != slot ==> self.proc(i) == before.proc(i)
    }

    /// The table is as `before` but for slot `slot`.
    pub open spec fn same_but(&self, before: &PMaster, slot: int) -> bool {
        &&& self.same_procs_but(before, slot)
        &&& self.last_pid() == before.last_pid()
        &&& self.pid_locked() == before.pid_locked()
    }

    /// A table without slots: it is set up later, by `init`.
    pub fn new() -> (pmaster: PMaster)
        ensures
            pmaster.len() == 0,
            pmaster.last_pid() == 0,
            pmaster.wf(),
    {
        PMaster { procs: Vec::new(), pid: SpinLock::new(0) }
    }

    /// Sets the table up with `size` free slots, each with the address of its
    /// kernel stack.
    pub fn init(&mut self, size: usize)
        requires
            old(self).len() == 0,
            !old(self).pid_locked(),
            size <= MAX_KSTACK,
        ensures
            final(self).wf(),
            final(self).len() == size,
            final(self).last_pid() == old(self).last_pid(),
            forall|i: int| 0 <= i < size ==> Self::is_fresh(#[trigger] final(self).proc(i), i),
            final(self).numbered(),
    {
        let mut pid: usize = 0;
        while pid < size
            invariant
                pid <= size,
                size <= MAX_KSTACK,
                self.procs@.len() == pid,
                self.pid == old(self).pid,
                !old(self).pid_locked(),
                forall|i: int| 0 <= i < pid ==> Self::is_fresh(#[trigger] self.proc(i), i),
            decreases size - pid,
        {
            let ghost before = self.procs@;
            let ghost prev = *self;
            let mut proc = Proc::new();
            proc.context.kstack = Some(kstack_start(pid));
            assert(Self::is_fresh(proc, pid as int));
            self.procs.push(proc);
            assert forall|i: int| 0 <= i < pid + 1 implies Self::is_fresh(
                #[trigger] self.proc(i),
                i,
            ) by {
                if i < pid {
                    assert(self.procs@[i] == before[i]);
                    assert(Self::is_fresh(prev.proc(i), i));
                } else {
                    assert(self.procs@[i] == proc);
                }
            }
            pid = pid + 1;
        }
    }

    /// Number of slots.
    pub fn size(&self) -> (n: usize)
        ensures
            n == self.len(),
    {
        self.procs.len()
    }

    /// The process in slot `index`.
    pub fn index(&self, index: usize) -> (proc: &Proc)
        requires
            index < self.len(),
        ensures
            *proc == self.proc(index as int),
    {
        &self.procs[index]
    }

    /// The state of the process in slot `index`, read without its lock.
    pub fn state_of(&self, index: usize) -> (state: State)
        requires
            index < self.len(),
        ensures
            state == self.state(index as int),
    {
        let mut info = self.procs[index].info.peek();
        info.state()
    }

    /// The next process identifier.
    pub fn alloc_pid(&mut self, cmaster: &mut CMaster, hart: usize) -> (pid: usize)
        requires
            !old(self).pid_locked(),
            old(self).last_pid() < usize::MAX,
            old(cmaster).wf(),
            hart < old(cmaster).harts(),
            old(cmaster).cpu(hart as int).nlock < u8::MAX,
        ensures
            pid == old(self).last_pid() + 1,
            final(self).last_pid() == pid,
            !final(self).pid_locked(),
            final(self).len() == old(self).len(),
            forall|i: int| 0 <= i < final(self).len() ==> final(self).proc(i) == old(self).proc(i),
            final(cmaster).only_changed(
                old(cmaster),
                hart as int,
                old(cmaster).hart(hart as int).relocked(),
            ),
    {
        let mut curr = self.pid.lock(cmaster, hart);
        let next: usize = *curr.deref() + 1;
        *curr.deref_mut() = next;
        curr.drop(cmaster, hart);
        next
    }

    /// Slot of the process that runs on hart `hart`. Interrupts are off while
    /// the hart's record is read.
    pub fn my_proc(&self, cmaster: &mut CMaster, hart: usize) -> (slot: Result<usize, Fault>)
        requires
            old(cmaster).wf(),
            hart < old(cmaster).harts(),
            old(cmaster).cpu(hart as int).nlock < u8::MAX,
        ensures
            slot == match old(cmaster).cpu(hart as int).pin {
                Some(p) => Ok::<usize, Fault>(p),
                None => Err(Fault::NotHoldingProcess),
            },
            final(cmaster).only_changed(
                old(cmaster),
                hart as int,
                old(cmaster).hart(hart as int).relocked(),
            ),
    {
        cmaster.push_off(hart);
        let pin = cmaster.my_cpu(hart).pin;
        cmaster.pop_off(hart);
        match pin {
            Some(p) => Ok(p),
            None => Err(Fault::NotHoldingProcess),
        }
    }

    /// How a look through the table from slot `from` on ends: at the first
    /// slot whose lock is held or whose process is ready.
    pub open spec fn spec_sweep(&self, from: int) -> Sweep
        decreases self.len() - from,
    {
        if from < 0 || from >= self.len() {
            Sweep::Idle
        } else if self.locked(from) {
            Sweep::Blocked(from as usize)
        } else if self.state(from) == State::Runnable {
            Sweep::Dispatched(from as usize)
        } else {
            self.spec_sweep(from + 1)
        }
    }

    /// The slot at which a look through the table from `from` on ends, or
    /// the number of slots where it reaches the end.
    pub open spec fn sweep_end(&self, from: int) -> int {
        match self.spec_sweep(from) {
            Sweep::Dispatched(slot) => slot as int,
            Sweep::Blocked(slot) => slot as int,
            Sweep::Idle => if from <= self.len() {
                self.len() as int
            } else {
                from
            },
        }
    }

    /// The hart at the start of a look through the table from `from` on:
    /// a look from the first slot on begins with interrupts turned on.
    pub open spec fn entered(hart: Hart, from: int) -> Hart {
        if from == 0 {
            hart.with_sie(true)
        } else {
            hart
        }
    }

    /// Table and harts still agree when the harts changed neither the
    /// processes on them nor whether they hold locks.
    #[verifier::rlimit(30)]
    pub proof fn lemma_coherent_same(&self, cmaster: &CMaster, later: &CMaster)
        requires
            self.coherent(cmaster),
            later.wf(),
            later.harts() == cmaster.harts(),
            forall|h: int|
                0 <= h < cmaster.harts() ==> later.cpu(h).pin == cmaster.cpu(h).pin && (
                cmaster.cpu(h).nlock >= 1 ==> later.cpu(h).nlock >= 1),
        ensures
            self.coherent(later),
    {
        assert forall|h: int, p: int| #[trigger] Self::pins(later, h, p) implies Self::pins(
            cmaster,
            h,
            p,
        ) by {}
        assert forall|p: int| 0 <= p < self.len() && #[trigger] self.locked(p) implies exists|
            h: int,
        | #[trigger] Self::pins(later, h, p) && later.cpu(h).nlock >= 1 by {
            let h = choose|h: int| #[trigger] Self::pins(cmaster, h, p) && cmaster.cpu(h).nlock >= 1;
            assert(Self::pins(later, h, p));
        }
        assert forall|p: int|
            0 <= p < self.len() && #[trigger] self.state(p) == State::Running implies exists|
            h: int,
        | #[trigger] Self::pins(later, h, p) by {
            let h = choose|h: int| #[trigger] Self::pins(cmaster, h, p);
            assert(Self::pins(later, h, p));
        }
    }

    /// A table with the same slots and the same counter agrees with the
    /// harts as well.
    #[verifier::rlimit(30)]
    proof fn lemma_same_table(&self, other: &PMaster, cmaster: &CMaster)
        requires
            self.coherent(cmaster),
            self.procs@ == other.procs@,
            self.pid == other.pid,
        ensures
            other.coherent(cmaster),
    {
        assert forall|i: int| 0 <= i < other.len() implies Self::has_kstack(
            #[trigger] other.proc(i),
            i,
        ) by {
            assert(Self::has_kstack(self.proc(i), i));
        }
        assert forall|h: int, p: int| #[trigger] Self::pins(cmaster, h, p) implies p < other.len()
            && (other.state(p) == State::Running || (other.locked(p) && (other.state(p)
            == State::Runnable || other.state(p) == State::Zombie))) by {
            assert(other.proc(p) == self.proc(p));
        }
        assert forall|p: int| 0 <= p < other.len() && #[trigger] other.locked(p) implies exists|
            h: int,
        | #[trigger] Self::pins(cmaster, h, p) && cmaster.cpu(h).nlock >= 1 by {
            assert(self.locked(p));
        }
        assert forall|p: int|
            0 <= p < other.len() && #[trigger] other.state(p) == State::Running implies exists|
            h: int,
        | #[trigger] Self::pins(cmaster, h, p) by {
            assert(self.state(p) == State::Running);
        }
    }

    /// The scheduler of hart `hart` looks through the table from slot `from`
    /// on, slot by slot and each under its lock, for a process that is ready.
    /// The first it finds it marks as running on the hart, and keeps its
    /// lock for the switch. It stops before a slot whose lock is held.
    #[verifier::rlimit(30)]
    pub fn scheduler(&mut self, cmaster: &mut CMaster, hart: usize, from: usize) -> (sweep: Sweep)
        requires
            old(self).coherent(old(cmaster)),
            hart < old(cmaster).harts(),
            old(cmaster).cpu(hart as int).pin is None,
            old(cmaster).cpu(hart as int).nlock < u8::MAX,
            from <= old(self).len(),
        ensures
            final(self).coherent(final(cmaster)),
            final(self).follows(old(self)),
            sweep == old(self).spec_sweep(from as int),
            sweep matches Sweep::Dispatched(slot) ==> {
                &&& slot < old(self).len()
                &&& final(self).same_but(old(self), slot as int)
                &&& final(self).state(slot as int) == State::Running
                &&& final(self).locked(slot as int)
                &&& final(self).proc(slot as int).context == old(self).proc(slot as int).context
                &&& final(cmaster).only_changed(
                    old(cmaster),
                    hart as int,
                    Self::entered(old(cmaster).hart(hart as int), from as int).pushed().pinned(
                        Some(slot),
                    ),
                )
            },
            !(sweep is Dispatched) ==> {
                &&& final(self).same_but(old(self), -1)
                &&& final(cmaster).only_changed(
                    old(cmaster),
                    hart as int,
                    if old(self).sweep_end(from as int) > from {
                        Self::entered(old(cmaster).hart(hart as int), from as int).relocked()
                    } else {
                        Self::entered(old(cmaster).hart(hart as int), from as int)
                    },
                )
            },
    {
        if from == 0 {
            cmaster.intr_on(hart);
        }
        let ghost h1 = Self::entered(old(cmaster).hart(hart as int), from as int);
        proof {
            old(self).lemma_coherent_same(old(cmaster), cmaster);
            lemma_relocked(h1);
        }
        let n = self.procs.len();
        let mut i: usize = from;
        while i < n
            invariant
                from <= i <= n,
                n == self.len(),
                hart < cmaster.harts(),
                self.procs@ == old(self).procs@,
                self.pid == old(self).pid,
                self.coherent(cmaster),
                h1 == Self::entered(old(cmaster).hart(hart as int), from as int),
                h1.cpu.pin is None,
                h1.cpu.nlock < u8::MAX,
                old(cmaster).wf(),
                cmaster.only_changed(
                    old(cmaster),
                    hart as int,
                    if i > from {
                        h1.relocked()
                    } else {
                        h1
                    },
                ),
                old(self).spec_sweep(from as int) == old(self).spec_sweep(i as int),
                forall|j: int| from <= j < i ==> old(self).spec_sweep(j) == old(self).spec_sweep(i as int),
            decreases n - i,
        {
            if self.procs[i].info.held() {
                proof {
                    assert(old(self).locked(i as int));
                }
                return Sweep::Blocked(i);
            }
            let ghost before = *cmaster;
            let ghost table = *self;
            proof {
                lemma_relocked(h1);
                lemma_relocked(h1.relocked());
            }
            if self.procs[i].shift(cmaster, hart, State::Runnable, State::Running, true) {
                let cpu = cmaster.my_cpu_mut(hart);
                cpu.pin = Some(i);
                proof {
                    assert(self.state(i as int) == State::Running);
                    table.lemma_follows_slot(self, i as int);
                    table.lemma_dispatched(&before, self, cmaster, hart as int, i as int);
                }
                return Sweep::Dispatched(i);
            }
            proof {
                assert(self.procs@ =~= table.procs@);
                table.lemma_coherent_same(&before, cmaster);
                table.lemma_same_table(self, cmaster);
            }
            i = i + 1;
        }
        Sweep::Idle
    }

    /// Table and harts agree after hart `hart`, which ran no process, took
    /// the lock of the ready process in slot `slot`, which no hart held, and
    /// marked the process as running on itself.
    #[verifier::rlimit(30)]
    proof fn lemma_dispatched(
        &self,
        cmaster: &CMaster,
        after: &PMaster,
        later: &CMaster,
        hart: int,
        slot: int,
    )
        requires
            self.coherent(cmaster),
            0 <= hart < cmaster.harts(),
            0 <= slot < self.len(),
            cmaster.cpu(hart).pin is None,
            self.state(slot) == State::Runnable,
            !self.locked(slot),
            after.same_but(self, slot),
            after.state(slot) == State::Running,
            after.locked(slot),
            after.proc(slot).context == self.proc(slot).context,
            later.wf(),
            later.harts() == cmaster.harts(),
            later.cpu(hart).pin == Some(slot as usize),
            later.cpu(hart).nlock >= 1,
            forall|h: int|
                0 <= h < cmaster.harts() && h != hart ==> #[trigger] later.cpu(h) == cmaster.cpu(h),
        ensures
            after.coherent(later),
    {
        assert forall|i: int| 0 <= i < after.len() implies Self::has_kstack(
            #[trigger] after.proc(i),
            i,
        ) by {
            assert(Self::has_kstack(self.proc(i), i));
        }
        assert forall|h: int, p: int| #[trigger] Self::pins(later, h, p) implies p < after.len()
            && (after.state(p) == State::Running || (after.locked(p) && (after.state(p)
            == State::Runnable || after.state(p) == State::Zombie))) by {
            if h != hart {
                assert(Self::pins(cmaster, h, p));
                assert(p != slot);
                assert(after.proc(p) == self.proc(p));
            }
        }
        assert forall|h1: int, h2: int, p: int|
            #[trigger] Self::pins(later, h1, p) && #[trigger] Self::pins(later, h2, p) implies h1
            == h2 by {
            if h1 != hart {
                assert(Self::pins(cmaster, h1, p));
            }
            if h2 != hart {
                assert(Self::pins(cmaster, h2, p));
            }
        }
        assert forall|p: int| 0 <= p < after.len() && #[trigger] after.locked(p) implies exists|
            h: int,
        | #[trigger] Self::pins(later, h, p) && later.cpu(h).nlock >= 1 by {
            if p == slot {
                assert(Self::pins(later, hart, p));
            } else {
                assert(after.proc(p) == self.proc(p));
                assert(self.locked(p));
                let h = choose|h: int| #[trigger]
                    Self::pins(cmaster, h, p) && cmaster.cpu(h).nlock >= 1;
                assert(Self::pins(later, h, p));
            }
        }
        assert forall|p: int|
            0 <= p < after.len() && #[trigger] after.state(p) == State::Running implies exists|
            h: int,
        | #[trigger] Self::pins(later, h, p) by {
            if p == slot {
                assert(Self::pins(later, hart, p));
            } else {
                assert(after.proc(p) == self.proc(p));
                assert(self.state(p) == State::Running);
                let h = choose|h: int| #[trigger] Self::pins(cmaster, h, p);
                assert(Self::pins(later, h, p));
            }
        }
    }

    /// Table and harts agree after a change to slot `slot` that leaves its
    /// lock free and its process neither running nor on a hart, while the
    /// harts changed neither the processes on them nor whether they hold
    /// locks.
    #[verifier::rlimit(30)]
    proof fn lemma_changed_off_hart(
        &self,
        cmaster: &CMaster,
        after: &PMaster,
        later: &CMaster,
        slot: int,
    )
        requires
            self.coherent(cmaster),
            0 <= slot < self.len(),
            after.same_procs_but(self, slot),
            !after.pid_locked(),
            Self::has_kstack(after.proc(slot), slot),
            !after.locked(slot),
            after.state(slot) != State::Running,
            forall|h: int| !Self::pins(cmaster, h, slot),
            later.wf(),
            later.harts() == cmaster.harts(),
            forall|h: int|
                0 <= h < cmaster.harts() ==> later.cpu(h).pin == cmaster.cpu(h).pin && (
                cmaster.cpu(h).nlock >= 1 ==> later.cpu(h).nlock >= 1),
        ensures
            after.coherent(later),
    {
        assert forall|i: int| 0 <= i < after.len() implies Self::has_kstack(
            #[trigger] after.proc(i),
            i,
        ) by {
            assert(Self::has_kstack(self.proc(i), i));
        }
        assert forall|h: int, p: int| #[trigger] Self::pins(later, h, p) implies p < after.len()
            && (after.state(p) == State::Running || (after.locked(p) && (after.state(p)
            == State::Runnable || after.state(p) == State::Zombie))) by {
            assert(Self::pins(cmaster, h, p));
            assert(after.proc(p) == self.proc(p));
        }
        assert forall|h1: int, h2: int, p: int|
            #[trigger] Self::pins(later, h1, p) && #[trigger] Self::pins(later, h2, p) implies h1
            == h2 by {
            assert(Self::pins(cmaster, h1, p));
            assert(Self::pins(cmaster, h2, p));
        }
        assert forall|p: int| 0 <= p < after.len() && #[trigger] after.locked(p) implies exists|
            h: int,
        | #[trigger] Self::pins(later, h, p) && later.cpu(h).nlock >= 1 by {
            assert(after.proc(p) == self.proc(p));
            assert(self.locked(p));
            let h = choose|h: int| #[trigger] Self::pins(cmaster, h, p) && cmaster.cpu(h).nlock >= 1;
            assert(Self::pins(later, h, p));
        }
        assert forall|p: int|
            0 <= p < after.len() && #[trigger] after.state(p) == State::Running implies exists|
            h: int,
        | #[trigger] Self::pins(later, h, p) by {
            assert(after.proc(p) == self.proc(p));
            assert(self.state(p) == State::Running);
            let h = choose|h: int| #[trigger] Self::pins(cmaster, h, p);
            assert(Self::pins(later, h, p));
        }
    }

    /// Table and harts agree after hart `hart` changed the process on it, in
    /// slot `slot`, or its lock, as long as the process is running, or
    /// ready or gone with its lock held and counted by the hart; and also
    /// after the hart let go of a process that is no longer running and gave
    /// its lock back.
    #[verifier::rlimit(30)]
    proof fn lemma_changed_on_hart(
        &self,
        cmaster: &CMaster,
        after: &PMaster,
        later: &CMaster,
        hart: int,
        slot: int,
    )
        requires
            self.coherent(cmaster),
            Self::pins(cmaster, hart, slot),
            after.same_but(self, slot),
            Self::has_kstack(after.proc(slot), slot),
            later.wf(),
            later.harts() == cmaster.harts(),
            forall|h: int|
                0 <= h < cmaster.harts() && h != hart ==> #[trigger] later.cpu(h) == cmaster.cpu(h),
            later.cpu(hart).pin == Some(slot as usize) || later.cpu(hart).pin is None,
            later.cpu(hart).pin is Some ==> {
                &&& after.state(slot) == State::Running || (after.locked(slot) && (after.state(
                    slot,
                ) == State::Runnable || after.state(slot) == State::Zombie))
                &&& after.locked(slot) ==> later.cpu(hart).nlock >= 1
            },
            later.cpu(hart).pin is None ==> !after.locked(slot) && after.state(slot)
                != State::Running,
        ensures
            after.coherent(later),
    {
        assert forall|i: int| 0 <= i < after.len() implies Self::has_kstack(
            #[trigger] after.proc(i),
            i,
        ) by {
            assert(Self::has_kstack(self.proc(i), i));
        }
        assert forall|h: int, p: int| #[trigger] Self::pins(later, h, p) implies p < after.len()
            && (after.state(p) == State::Running || (after.locked(p) && (after.state(p)
            == State::Runnable || after.state(p) == State::Zombie))) by {
            if h != hart {
                assert(Self::pins(cmaster, h, p));
                assert(p != slot);
                assert(after.proc(p) == self.proc(p));
            }
        }
        assert forall|h1: int, h2: int, p: int|
            #[trigger] Self::pins(later, h1, p) && #[trigger] Self::pins(later, h2, p) implies h1
            == h2 by {
            if h1 != hart {
                assert(Self::pins(cmaster, h1, p));
            }
            if h2 != hart {
                assert(Self::pins(cmaster, h2, p));
            }
            if h1 != h2 {
                assert(Self::pins(cmaster, hart, p));
            }
        }
        assert forall|p: int| 0 <= p < after.len() && #[trigger] after.locked(p) implies exists|
            h: int,
        | #[trigger] Self::pins(later, h, p) && later.cpu(h).nlock >= 1 by {
            if p == slot {
                assert(Self::pins(later, hart, p));
            } else {
                assert(after.proc(p) == self.proc(p));
                assert(self.locked(p));
                let h = choose|h: int| #[trigger]
                    Self::pins(cmaster, h, p) && cmaster.cpu(h).nlock >= 1;
                assert(h != hart);
                assert(Self::pins(later, h, p));
            }
        }
        assert forall|p: int|
            0 <= p < after.len() && #[trigger] after.state(p) == State::Running implies exists|
            h: int,
        | #[trigger] Self::pins(later, h, p) by {
            if p == slot {
                assert(Self::pins(later, hart, p));
            } else {
                assert(after.proc(p) == self.proc(p));
                assert(self.state(p) == State::Running);
                let h = choose|h: int| #[trigger] Self::pins(cmaster, h, p);
                assert(h != hart);
                assert(Self::pins(later, h, p));
            }
        }
    }

    /// A hart that runs a process whose lock is held counts that lock.
    pub proof fn lemma_holder_counts(&self, cmaster: &CMaster, hart: int, slot: int)
        requires
            self.coherent(cmaster),
            Self::pins(cmaster, hart, slot),
            self.locked(slot),
        ensures
            cmaster.cpu(hart).nlock >= 1,
            slot < self.len(),
    {
        let h = choose|h: int| #[trigger] Self::pins(cmaster, h, slot) && cmaster.cpu(h).nlock >= 1;
        assert(h == hart);
    }

    /// Marks the process in slot `slot` as ready, where it was set up and has
    /// not run yet, and says whether it did.
    pub fn ready(&mut self, cmaster: &mut CMaster, hart: usize, slot: usize) -> (ok: bool)
        requires
            old(self).coherent(old(cmaster)),
            hart < old(cmaster).harts(),
            old(cmaster).cpu(hart as int).nlock < u8::MAX,
            slot < old(self).len(),
            !old(self).locked(slot as int),
        ensures
            ok == (old(self).state(slot as int) == State::Used),
            final(self).coherent(final(cmaster)),
            final(self).follows(old(self)),
            final(self).same_but(old(self), slot as int),
            !final(self).locked(slot as int),
            final(self).proc(slot as int).context == old(self).proc(slot as int).context,
            final(self).state(slot as int) == if ok {
                State::Runnable
            } else {
                old(self).state(slot as int)
            },
            final(cmaster).only_changed(
                old(cmaster),
                hart as int,
                old(cmaster).hart(hart as int).relocked(),
            ),
    {
        proof {
            lemma_relocked(cmaster.hart(hart as int));
            assert forall|h: int| !Self::pins(cmaster, h, slot as int) || old(self).state(
                slot as int,
            ) != State::Used by {}
        }
        let ok = self.procs[slot].shift(cmaster, hart, State::Used, State::Runnable, false);
        proof {
            old(self).lemma_follows_slot(self, slot as int);
            if ok {
                old(self).lemma_changed_off_hart(old(cmaster), self, cmaster, slot as int);
            } else {
                assert(self.procs@ =~= old(self).procs@);
                old(self).lemma_coherent_same(old(cmaster), cmaster);
                old(self).lemma_same_table(self, cmaster);
            }
        }
        ok
    }

    /// The switch back to the scheduler that the process on hart `hart` is
    /// to make, or what stands against it: the process holds its lock, is no
    /// longer marked as running, and interrupts are off.
    pub open spec fn spec_sched(&self, cmaster: &CMaster, hart: int) -> Result<Switch, Fault> {
        if cmaster.sie(hart) {
            Err(Fault::InterruptsEnabled)
        } else {
            match cmaster.cpu(hart).pin {
                None => Err(Fault::NotHoldingProcess),
                Some(slot) => if !self.locked(slot as int) {
                    Err(Fault::NotLocked)
                } else if self.state(slot as int) == State::Running {
                    Err(Fault::StillRunning)
                } else {
                    Ok(Switch { save: Holder::Proc(slot), load: Holder::Hart(hart as usize) })
                },
            }
        }
    }

    /// Switch to the scheduler. The process must hold its own lock and have
    /// changed its state, and interrupts must be off.
    pub fn sched(&self, cmaster: &CMaster, hart: usize) -> (switch: Result<Switch, Fault>)
        requires
            self.coherent(cmaster),
            hart < cmaster.harts(),
        ensures
            switch == self.spec_sched(cmaster, hart as int),
    {
        if cmaster.intr_get(hart) {
            return Err(Fault::InterruptsEnabled);
        }
        match cmaster.my_cpu(hart).pin {
            None => Err(Fault::NotHoldingProcess),
            Some(slot) => {
                assert(Self::pins(cmaster, hart as int, slot as int));
                if !self.procs[slot].info.held() {
                    Err(Fault::NotLocked)
                } else if self.state_of(slot) == State::Running {
                    Err(Fault::StillRunning)
                } else {
                    Ok(Switch { save: Holder::Proc(slot), load: Holder::Hart(hart) })
                }
            },
        }
    }

    /// Give up the hart for one scheduling round: the process on hart `hart`
    /// takes its lock, marks itself as ready and is to switch to the
    /// scheduler.
    #[verifier::rlimit(30)]
    pub fn step(&mut self, cmaster: &mut CMaster, hart: usize) -> (switch: Result<Switch, Fault>)
        requires
            old(self).coherent(old(cmaster)),
            hart < old(cmaster).harts(),
            old(cmaster).cpu(hart as int).nlock < u8::MAX,
            old(cmaster).cpu(hart as int).pin matches Some(slot) ==> !old(self).locked(slot as int),
        ensures
            final(self).coherent(final(cmaster)),
            final(self).follows(old(self)),
            switch == match old(cmaster).cpu(hart as int).pin {
                None => Err::<Switch, Fault>(Fault::NotHoldingProcess),
                Some(slot) => Ok(Switch { save: Holder::Proc(slot), load: Holder::Hart(hart) }),
            },
            switch is Err ==> final(self).same_but(old(self), -1) && final(cmaster).only_changed(
                old(cmaster),
                hart as int,
                old(cmaster).hart(hart as int).relocked(),
            ),
            old(cmaster).cpu(hart as int).pin matches Some(slot) ==> {
                &&& final(self).same_but(old(self), slot as int)
                &&& old(self).state(slot as int) == State::Running
                &&& final(self).state(slot as int) == State::Runnable
                &&& final(self).locked(slot as int)
                &&& final(self).proc(slot as int).context == old(self).proc(slot as int).context
                &&& final(cmaster).only_changed(
                    old(cmaster),
                    hart as int,
                    old(cmaster).hart(hart as int).pushed(),
                )
            },
    {
        proof {
            lemma_relocked(cmaster.hart(hart as int));
        }
        let slot = match self.my_proc(cmaster, hart) {
            Ok(slot) => slot,
            Err(fault) => {
                proof {
                    old(self).lemma_coherent_same(old(cmaster), cmaster);
                }
                return Err(fault);
            },
        };
        let ghost mid = *cmaster;
        proof {
            old(self).lemma_coherent_same(old(cmaster), cmaster);
            assert(Self::pins(old(cmaster), hart as int, slot as int));
            assert(old(self).state(slot as int) == State::Running);
        }
        let moved = self.procs[slot].shift(cmaster, hart, State::Running, State::Runnable, true);
        proof {
            assert(moved);
            old(self).lemma_follows_slot(self, slot as int);
            old(self).lemma_changed_on_hart(&mid, self, cmaster, hart as int, slot as int);
        }
        self.sched(cmaster, hart)
    }

    /// The process on hart `hart`, which the scheduler has just switched to,
    /// gives back its lock, which the scheduler took for the switch.
    pub fn resume(&mut self, cmaster: &mut CMaster, hart: usize)
        requires
            old(self).coherent(old(cmaster)),
            hart < old(cmaster).harts(),
            old(cmaster).cpu(hart as int).pin matches Some(slot) && old(self).locked(slot as int)
                && old(self).state(slot as int) == State::Running,
        ensures
            final(self).coherent(final(cmaster)),
            final(self).follows(old(self)),
            old(cmaster).cpu(hart as int).pin matches Some(slot) && {
                &&& final(self).same_but(old(self), slot as int)
                &&& !final(self).locked(slot as int)
                &&& final(self).state(slot as int) == State::Running
                &&& final(self).proc(slot as int).context == old(self).proc(slot as int).context
            },
            final(cmaster).only_changed(
                old(cmaster),
                hart as int,
                old(cmaster).hart(hart as int).popped(),
            ),
    {
        let slot = cmaster.my_proc(hart);
        proof {
            assert(Self::pins(cmaster, hart as int, slot as int));
            self.lemma_holder_counts(cmaster, hart as int, slot as int);
        }
        self.procs[slot].release(cmaster, hart);
        proof {
            old(self).lemma_follows_slot(self, slot as int);
            old(self).lemma_changed_on_hart(old(cmaster), self, cmaster, hart as int, slot as int);
        }
    }

    /// The scheduler of hart `hart`, back in control after the process on
    /// the hart switched to it, with interrupts off as the process left them:
    /// the hart runs no process now, and the lock that the process took for
    /// the switch is given back.
    pub fn unpin(&mut self, cmaster: &mut CMaster, hart: usize)
        requires
            old(self).coherent(old(cmaster)),
            hart < old(cmaster).harts(),
            !old(cmaster).sie(hart as int),
            old(cmaster).cpu(hart as int).pin matches Some(slot) && old(self).locked(slot as int)
                && old(self).state(slot as int) != State::Running,
        ensures
            final(self).coherent(final(cmaster)),
            final(self).follows(old(self)),
            old(cmaster).cpu(hart as int).pin matches Some(slot) && {
                &&& final(self).same_but(old(self), slot as int)
                &&& !final(self).locked(slot as int)
                &&& final(self).state(slot as int) == old(self).state(slot as int)
                &&& final(self).proc(slot as int).context == old(self).proc(slot as int).context
            },
            final(cmaster).only_changed(
                old(cmaster),
                hart as int,
                old(cmaster).hart(hart as int).pinned(None).popped(),
            ),
    {
        let slot = cmaster.my_proc(hart);
        proof {
            assert(Self::pins(cmaster, hart as int, slot as int));
            self.lemma_holder_counts(cmaster, hart as int, slot as int);
        }
        let cpu = cmaster.my_cpu_mut(hart);
        cpu.pin = None;
        self.procs[slot].release(cmaster, hart);
        proof {
            old(self).lemma_follows_slot(self, slot as int);
            old(self).lemma_changed_on_hart(old(cmaster), self, cmaster, hart as int, slot as int);
        }
    }

    /// Pages that a new process takes: one for its trap frame and three for
    /// its page table.
    pub const PAGES_PER_PROC: usize = 4;

    /// What a new process gets from memory: a zeroed trap frame and a page
    /// table that maps the trampoline and the trap frame. The four pages come
    /// from the allocator, which must have them.
    #[verifier::rlimit(30)]
    fn address_space(mem: &mut PhysMem, kalloc: &mut Kalloc, traptext: u64) -> (made: (u64, u64))
        requires
            old(kalloc).wf(old(mem)),
            old(kalloc)@.len() >= 4,
            traptext + PGSIZE <= u64::MAX,
        ensures
            made.0 == old(kalloc)@[0],
            made.1 == old(kalloc)@[1],
            final(kalloc)@ == old(kalloc)@.skip(4),
            final(mem).same_range(old(mem)),
            final(mem).holds_page(made.0),
            PageTable::sound(final(mem), final(kalloc), made.1),
            PageTable::contents(final(mem), made.1) == user_space(traptext, made.0),
            !PageTable::owns(final(mem), made.1, made.0),
            forall|p: u64| #[trigger]
                PageTable::owns(final(mem), made.1, p) ==> old(kalloc)@.contains(p),
            frame_words(final(mem), made.0) == Seq::new(FRAME_WORDS as nat, |i: int| 0u64),
            forall|a: u64|
                old(mem).holds(a) && !old(kalloc)@.contains(page_of(a)) ==> #[trigger] final(mem).at(a)
                    == old(mem).at(a),
    {
        let ghost m0 = *mem;
        let ghost f0 = kalloc@;
        proof {
            kalloc.lemma_free_pages(mem);
            lemma_top_paths();
        }
        let trapframe = match TrapFrame::new(mem, kalloc) {
            Some(addr) => addr,
            None => {
                proof {
                    assert(false);
                }
                0
            },
        };
        let ghost m1 = *mem;
        let ghost f1 = kalloc@;
        let mut pagetable = match PageTable::create_table(mem, kalloc) {
            Some(table) => table,
            None => {
                proof {
                    assert(false);
                }
                PageTable::from_addr(0)
            },
        };
        let ghost m2 = *mem;
        let ghost f2 = kalloc@;
        let ghost root = pagetable.root();
        let ghost v2 = pagetable.view(mem);
        proof {
            assert(root == f0[1]);
            assert(trapframe != root);
            v2.lemma_map_one(f2.len(), TRAMPOLINE, traptext, PTE_R | PTE_X);
        }
        let first = pagetable.map(mem, kalloc, TRAMPOLINE, traptext, PGSIZE, PTE_R | PTE_X);
        let ghost m3 = *mem;
        let ghost f3 = kalloc@;
        let ghost v3 = pagetable.view(mem);
        proof {
            assert(first is Ok);
            v3.lemma_map_one(f3.len(), TRAPFRAME, trapframe, PTE_R | PTE_W);
            assert(v3.l2.contains(255));
            assert(v3.l3.contains((255, 511)));
            assert(!v3.leaves.contains_key((255, 511, 510)));
        }
        let second = pagetable.map(mem, kalloc, TRAPFRAME, trapframe, PGSIZE, PTE_R | PTE_W);
        proof {
            assert(second is Ok);
            let v4 = pagetable.view(mem);
            let goal = user_space(traptext, trapframe);
            assert(v4.l2 =~= goal.l2);
            assert(v4.l3 =~= goal.l3);
            assert(v4.leaves =~= goal.leaves);
            assert(kalloc@ =~= f0.skip(4));
            lemma_evolves_trans(root, &m2, f2, &m3, f3, mem, kalloc@);
            reveal(evolves);
            assert forall|p: u64| f2.contains(p) implies f0.contains(p) by {
                let k = choose|k: int| 0 <= k < f2.len() && f2[k] == p;
                assert(f0[k + 2] == p);
            }
            assert(f0.contains(root));
            assert(!f2.contains(trapframe)) by {
                if f2.contains(trapframe) {
                    let k = choose|k: int| 0 <= k < f2.len() && f2[k] == trapframe;
                    assert(f0[k + 2] == trapframe);
                }
            }
            assert(!PageTable::owns(mem, root, trapframe));
            assert forall|p: u64| #[trigger] PageTable::owns(mem, root, p) implies f0.contains(
                p,
            ) by {}
            assert forall|a: u64| m0.holds(a) && !f0.contains(page_of(a)) implies #[trigger] mem.at(
                a,
            ) == m0.at(a) by {
                assert(f0.contains(trapframe) && f0.contains(root));
                if trapframe <= a < trapframe + PGSIZE {
                    crate::memory::vm::lemma_page_of(a, trapframe);
                }
                if root <= a < root + PGSIZE {
                    crate::memory::vm::lemma_page_of(a, root);
                }
                assert(m1.at(a) == m0.at(a));
                assert(m2.at(a) == m1.at(a));
                assert(!PageTable::owns(&m2, root, page_of(a)));
                assert(mem.at(a) == m2.at(a));
            }
            assert forall|i: int| 0 <= i < FRAME_WORDS implies frame_words(mem, trapframe)[i]
                == 0 by {
                let a = (trapframe + 8 * i) as u64;
                assert(trapframe % 8 == 0);
                crate::memory::vm::lemma_page_of(a, trapframe);
                assert(frame_words(&m1, trapframe)[i] == 0);
                assert(m2.at(a) == m1.at(a));
                assert(!f2.contains(trapframe)) by {
                    if f2.contains(trapframe) {
                        let k = choose|k: int| 0 <= k < f2.len() && f2[k] == trapframe;
                        assert(f0[k + 2] == trapframe);
                    }
                }
                assert(!PageTable::owns(&m2, root, page_of(a)));
                assert(mem.at(a) == m2.at(a));
            }
            assert(frame_words(mem, trapframe) =~= Seq::new(FRAME_WORDS as nat, |i: int| 0u64));
        }
        (trapframe, pagetable.base_addr())
    }

    /// The first free slot from `from` on.
    pub open spec fn first_unused(&self, from: int) -> Option<usize>
        decreases self.len() - from,
    {
        if from < 0 || from >= self.len() {
            None
        } else if self.state(from) == State::Unused {
            Some(from as usize)
        } else {
            self.first_unused(from + 1)
        }
    }

    /// Whether the lock of a slot before `upto` is free.
    pub open spec fn any_free_lock(&self, upto: int) -> bool {
        exists|j: int| 0 <= j < upto && !#[trigger] self.locked(j)
    }

    /// The slot that a new process gets, with `free` pages at hand: the
    /// first free one, where there is one and the pages suffice.
    pub open spec fn spec_allocate(&self, free: nat) -> Option<usize> {
        if free >= Self::PAGES_PER_PROC {
            self.first_unused(0)
        } else {
            None
        }
    }

    /// What the slot of a new process holds beside its state: the process
    /// starts in the kernel at `forkret`, on top of its kernel stack.
    pub open spec fn fresh_context(
        kstack: Option<u64>,
        pid: usize,
        trapframe: u64,
        pagetable: u64,
        forkret: u64,
    ) -> ProcContext {
        ProcContext {
            kstack,
            context: Context {
                ra: forkret,
                sp: (kstack->0 + PGSIZE) as u64,
                ..Context::zeroed()
            },
            pid,
            trapframe,
            pagetable,
        }
    }

    /// Looks in the process table for a free slot. If it finds one and memory
    /// suffices, it sets the slot up with what a process needs to run in the
    /// kernel: the next identifier, a trap frame, a page table that maps
    /// trampoline and trap frame, and a context that starts the process at
    /// `forkret` on its own kernel stack.
    #[verifier::rlimit(30)]
    pub fn allocate(
        &mut self,
        cmaster: &mut CMaster,
        hart: usize,
        mem: &mut PhysMem,
        kalloc: &mut Kalloc,
        image: &Image,
    ) -> (slot: Option<usize>)
        requires
            old(self).coherent(old(cmaster)),
            hart < old(cmaster).harts(),
            old(cmaster).cpu(hart as int).nlock < u8::MAX - 1,
            old(kalloc).wf(old(mem)),
            old(self).last_pid() < usize::MAX,
            image.traptext + PGSIZE <= u64::MAX,
        ensures
            final(self).coherent(final(cmaster)),
            final(self).follows(old(self)),
            final(kalloc).wf(final(mem)),
            final(mem).same_range(old(mem)),
            forall|a: u64|
                old(mem).holds(a) && !old(kalloc)@.contains(page_of(a)) ==> #[trigger] final(mem).at(a)
                    == old(mem).at(a),
            slot == old(self).spec_allocate(old(kalloc)@.len()),
            slot is None ==> {
                &&& final(self).same_but(old(self), -1)
                &&& *final(mem) == *old(mem)
                &&& final(kalloc)@ == old(kalloc)@
            },
            slot matches Some(i) ==> {
                &&& i < old(self).len()
                &&& final(self).same_procs_but(old(self), i as int)
                &&& final(self).last_pid() == old(self).last_pid() + 1
                &&& final(self).state(i as int) == State::Used
                &&& !final(self).locked(i as int)
                &&& final(self).proc(i as int).context == Self::fresh_context(
                    old(self).proc(i as int).context.kstack,
                    final(self).last_pid(),
                    old(kalloc)@[0],
                    old(kalloc)@[1],
                    image.forkret,
                )
                &&& final(kalloc)@ == old(kalloc)@.skip(4)
                &&& PageTable::sound(final(mem), final(kalloc), old(kalloc)@[1])
                &&& PageTable::contents(final(mem), old(kalloc)@[1]) == user_space(
                    image.traptext,
                    old(kalloc)@[0],
                )
                &&& final(mem).holds_page(old(kalloc)@[0])
                &&& frame_words(final(mem), old(kalloc)@[0]) == Seq::new(
                    FRAME_WORDS as nat,
                    |i: int| 0u64,
                )
                &&& !PageTable::owns(final(mem), old(kalloc)@[1], old(kalloc)@[0])
                &&& forall|p: u64| #[trigger]
                    PageTable::owns(final(mem), old(kalloc)@[1], p) ==> old(kalloc)@.contains(p)
            },
            final(cmaster).only_changed(
                old(cmaster),
                hart as int,
                if old(self).any_free_lock(
                    match old(self).first_unused(0) {
                        Some(i) => i + 1,
                        None => old(self).len() as int,
                    },
                ) {
                    old(cmaster).hart(hart as int).relocked()
                } else {
                    old(cmaster).hart(hart as int)
                },
            ),
    {
        let enough = kalloc.available(mem, Self::PAGES_PER_PROC);
        let ghost h0 = cmaster.hart(hart as int);
        proof {
            lemma_relocked(h0);
            lemma_relocked(h0.relocked());
            lemma_relocked_within(h0);
            lemma_relocked_within(h0.relocked());
            assert(old(self).follows(old(self)));
            kalloc.lemma_free_pages(mem);
        }
        let n = self.procs.len();
        let mut pin: usize = 0;
        while pin < n
            invariant
                pin <= n,
                n == self.len(),
                hart < cmaster.harts(),
                self.procs@ == old(self).procs@,
                self.pid == old(self).pid,
                self.coherent(cmaster),
                old(self).coherent(old(cmaster)),
                h0 == old(cmaster).hart(hart as int),
                h0.cpu.nlock < u8::MAX - 1,
                h0.relocked().relocked() == h0.relocked(),
                h0.relocked().pushed() == h0.pushed(),
                h0.pushed().relocked() == h0.pushed(),
                h0.relocked().cpu.nlock == h0.cpu.nlock,
                old(cmaster).wf(),
                cmaster.only_changed(
                    old(cmaster),
                    hart as int,
                    if old(self).any_free_lock(pin as int) {
                        h0.relocked()
                    } else {
                        h0
                    },
                ),
                old(self).first_unused(0) == old(self).first_unused(pin as int),
                *mem == *old(mem),
                *kalloc == *old(kalloc),
                kalloc.wf(mem),
                enough == (kalloc@.len() >= Self::PAGES_PER_PROC),
                old(self).last_pid() < usize::MAX,
                image.traptext + PGSIZE <= u64::MAX,
            decreases n - pin,
        {
            if self.procs[pin].info.held() {
                proof {
                    assert(old(self).locked(pin as int));
                    let h = choose|h: int| #[trigger]
                        Self::pins(old(cmaster), h, pin as int) && old(cmaster).cpu(h).nlock >= 1;
                    assert(old(self).state(pin as int) != State::Unused);
                    assert(old(self).any_free_lock(pin + 1) == old(self).any_free_lock(
                        pin as int,
                    )) by {
                        if old(self).any_free_lock(pin + 1) {
                            let j = choose|j: int| 0 <= j < pin + 1 && !#[trigger] old(self).locked(j);
                            assert(j < pin);
                        }
                    }
                }
            } else {
                let ghost before = *cmaster;
                let ghost table = *self;
                proof {
                    assert(!old(self).locked(pin as int));
                    assert(old(self).any_free_lock(pin + 1));
                }
                if !enough {
                    let state = self.procs[pin].probe(cmaster, hart);
                    proof {
                        assert(self.procs@ =~= table.procs@);
                        table.lemma_coherent_same(&before, cmaster);
                        table.lemma_same_table(self, cmaster);
                    }
                    if state == State::Unused {
                        return None;
                    }
                } else if self.procs[pin].shift(cmaster, hart, State::Unused, State::Used, true) {
                    let ghost held = *self;
                    assert(held.proc(pin as int).context == table.proc(pin as int).context);
                    assert(Self::has_kstack(table.proc(pin as int), pin as int));
                    let new_pid = self.alloc_pid(cmaster, hart);
                    assert(self.proc(pin as int) == held.proc(pin as int));
                    let made = Self::address_space(mem, kalloc, image.traptext);
                    let mut context = Context::default();
                    context.ra = image.forkret;
                    context.sp = kstack_end(pin);
                    let proc = &mut self.procs[pin];
                    proc.context.pid = new_pid;
                    proc.context.trapframe = made.0;
                    proc.context.pagetable = made.1;
                    proc.context.context = context;
                    proc.release(cmaster, hart);
                    proof {
                        assert(Self::has_kstack(old(self).proc(pin as int), pin as int));
                        assert forall|h: int| !Self::pins(old(cmaster), h, pin as int) by {
                            if Self::pins(old(cmaster), h, pin as int) {
                                assert(old(self).state(pin as int) == State::Unused);
                            }
                        }
                        assert(self.same_procs_but(old(self), pin as int)) by {
                            assert forall|j: int| 0 <= j < self.len() && j != pin implies self.proc(
                                j,
                            ) == old(self).proc(j) by {
                                assert(self.proc(j) == held.proc(j));
                                assert(held.proc(j) == table.proc(j));
                            }
                        }
                        old(self).lemma_follows_slot(self, pin as int);
                        old(self).lemma_changed_off_hart(
                            old(cmaster),
                            self,
                            cmaster,
                            pin as int,
                        );
                    }
                    return Some(pin);
                } else {
                    proof {
                        assert(self.procs@ =~= table.procs@);
                        table.lemma_coherent_same(&before, cmaster);
                        table.lemma_same_table(self, cmaster);
                    }
                }
            }
            pin = pin + 1;
        }
        None
    }

    /// Pages that the first process takes: those of any process, and three
    /// for its program and the tables that map it.
    pub const PAGES_FIRST_PROC: usize = 7;

    /// What the first process finds in memory beyond what any process finds:
    /// its program at address zero, and a trap frame that starts it there
    /// with a page of stack.
    pub open spec fn first_space(traptext: u64, trapframe: u64, program: u64) -> TableView {
        user_space(traptext, trapframe).map_page(
            2,
            spec_path(0),
            spec_leaf(program, PTE_W | PTE_R | PTE_X | PTE_U),
        ).1
    }

    /// The trap frame with which the first process enters user space: the
    /// program counter at zero, the stack pointer at the end of the first
    /// page.
    pub open spec fn first_frame() -> Seq<u64> {
        Seq::new(FRAME_WORDS as nat, |i: int| 0u64).update(EPC as int, 0).update(SP as int, PGSIZE)
    }

    /// Loads the program of the first process into the address space that
    /// was made for it, and sets its trap frame to start it.
    #[verifier::rlimit(30)]
    fn first_image(
        mem: &mut PhysMem,
        kalloc: &mut Kalloc,
        trapframe: u64,
        pagetable: u64,
        Ghost(traptext): Ghost<u64>,
    )
        requires
            PageTable::sound(old(mem), old(kalloc), pagetable),
            PageTable::contents(old(mem), pagetable) == user_space(traptext, trapframe),
            old(kalloc)@.len() >= 3,
            old(mem).holds_page(trapframe),
            !old(kalloc)@.contains(trapframe),
            !PageTable::owns(old(mem), pagetable, trapframe),
            frame_words(old(mem), trapframe) == Seq::new(FRAME_WORDS as nat, |i: int| 0u64),
        ensures
            PageTable::sound(final(mem), final(kalloc), pagetable),
            final(mem).same_range(old(mem)),
            final(kalloc)@ == old(kalloc)@.skip(3),
            PageTable::contents(final(mem), pagetable) == Self::first_space(
                traptext,
                trapframe,
                old(kalloc)@[0],
            ),
            frame_words(final(mem), trapframe) == Self::first_frame(),
            entry(final(mem), old(kalloc)@[0], 0) == INITCODE,
            forall|a: u64|
                old(mem).holds(a) && page_of(a) != trapframe && !PageTable::owns(
                    old(mem),
                    pagetable,
                    page_of(a),
                ) && !old(kalloc)@.contains(page_of(a)) ==> #[trigger] final(mem).at(a) == old(
                    mem,
                ).at(a),
    {
        let ghost m0 = *mem;
        let ghost f0 = kalloc@;
        proof {
            lemma_top_paths();
            kalloc.lemma_free_pages(mem);
        }
        let page = PageTable::uvmfirst(mem, kalloc, pagetable, INITCODE);
        let ghost m1 = *mem;
        proof {
            assert(page is Some);
            assert(kalloc@ =~= f0.skip(3));
            reveal(evolves);
            assert forall|i: int| 0 <= i < FRAME_WORDS implies frame_words(&m1, trapframe)[i]
                == frame_words(&m0, trapframe)[i] by {
                let a = (trapframe + 8 * i) as u64;
                assert(trapframe % 8 == 0);
                lemma_page_of(a, trapframe);
            }
            assert(frame_words(&m1, trapframe) =~= frame_words(&m0, trapframe));
            assert(!PageTable::owns(&m1, pagetable, trapframe));
            kalloc.lemma_free_pages(mem);
        }
        TrapFrame::set(mem, trapframe, EPC, 0);
        let ghost m2 = *mem;
        TrapFrame::set(mem, trapframe, SP, PGSIZE);
        proof {
            assert forall|a: u64| m1.holds(a) && page_of(a) != trapframe implies #[trigger] mem.at(
                a,
            ) == m1.at(a) by {
                assert(trapframe % 8 == 0);
                let w1 = (trapframe + 8 * EPC) as u64;
                let w2 = (trapframe + 8 * SP) as u64;
                lemma_page_of(w1, trapframe);
                lemma_page_of(w2, trapframe);
                m1.lemma_slots(a, w1);
                m2.lemma_slots(a, w2);
                assert(m2.at(a) == m1.at(a));
            }
            PageTable::lemma_foreign_write(&m1, mem, kalloc, pagetable, trapframe);
            let pa = f0[0];
            assert(f0.contains(pa));
            assert(entry(mem, pa, 0) == entry(&m1, pa, 0)) by {
                assert(page_of(pa) == pa);
                assert(m1.holds(pa));
            }
        }
    }

    /// Sets up the first process: a slot, with the program at address zero of
    /// its address space and a trap frame that starts it there, marked as
    /// ready. Nothing is done without the memory for all of it.
    #[verifier::rlimit(30)]
    pub fn user_init(
        &mut self,
        cmaster: &mut CMaster,
        hart: usize,
        mem: &mut PhysMem,
        kalloc: &mut Kalloc,
        image: &Image,
    ) -> (slot: Result<usize, Fault>)
        requires
            old(self).coherent(old(cmaster)),
            hart < old(cmaster).harts(),
            old(cmaster).cpu(hart as int).nlock < u8::MAX - 1,
            old(kalloc).wf(old(mem)),
            old(self).last_pid() < usize::MAX,
            image.traptext + PGSIZE <= u64::MAX,
        ensures
            final(self).coherent(final(cmaster)),
            final(self).follows(old(self)),
            final(kalloc).wf(final(mem)),
            final(mem).same_range(old(mem)),
            forall|a: u64|
                old(mem).holds(a) && !old(kalloc)@.contains(page_of(a)) ==> #[trigger] final(mem).at(a)
                    == old(mem).at(a),
            slot is Ok <==> old(self).first_unused(0) is Some && old(kalloc)@.len()
                >= Self::PAGES_FIRST_PROC,
            slot is Err ==> {
                &&& slot == Err::<usize, Fault>(Fault::NoFirstProcess)
                &&& final(self).same_but(old(self), -1)
                &&& *final(mem) == *old(mem)
                &&& final(kalloc)@ == old(kalloc)@
            },
            slot matches Ok(i) ==> {
                &&& Some(i) == old(self).first_unused(0)
                &&& i < old(self).len()
                &&& final(self).same_procs_but(old(self), i as int)
                &&& final(self).last_pid() == old(self).last_pid() + 1
                &&& final(self).state(i as int) == State::Runnable
                &&& !final(self).locked(i as int)
                &&& final(self).proc(i as int).context == Self::fresh_context(
                    old(self).proc(i as int).context.kstack,
                    final(self).last_pid(),
                    old(kalloc)@[0],
                    old(kalloc)@[1],
                    image.forkret,
                )
                &&& final(kalloc)@ == old(kalloc)@.skip(7)
                &&& PageTable::sound(final(mem), final(kalloc), old(kalloc)@[1])
                &&& PageTable::contents(final(mem), old(kalloc)@[1]) == Self::first_space(
                    image.traptext,
                    old(kalloc)@[0],
                    old(kalloc)@[4],
                )
                &&& final(mem).holds_page(old(kalloc)@[0])
                &&& frame_words(final(mem), old(kalloc)@[0]) == Self::first_frame()
                &&& entry(final(mem), old(kalloc)@[4], 0) == INITCODE
            },
            final(cmaster).only_changed(
                old(cmaster),
                hart as int,
                if old(kalloc)@.len() >= Self::PAGES_FIRST_PROC && old(self).any_free_lock(
                    match old(self).first_unused(0) {
                        Some(i) => i + 1,
                        None => old(self).len() as int,
                    },
                ) {
                    old(cmaster).hart(hart as int).relocked()
                } else {
                    old(cmaster).hart(hart as int)
                },
            ),
    {
        if !kalloc.available(mem, Self::PAGES_FIRST_PROC) {
            proof {
                assert(old(self).follows(old(self)));
            }
            return Err(Fault::NoFirstProcess);
        }
        let ghost f0 = kalloc@;
        let ghost m0 = *mem;
        proof {
            lemma_relocked(cmaster.hart(hart as int));
            kalloc.lemma_free_pages(mem);
        }
        let pin = match self.allocate(cmaster, hart, mem, kalloc, image) {
            Some(pin) => pin,
            None => {
                return Err(Fault::NoFirstProcess);
            },
        };
        let ghost table = *self;
        let ghost cpus = *cmaster;
        let ghost m1 = *mem;
        let ghost f1 = kalloc@;
        let trapframe = self.procs[pin].context.trapframe;
        let pagetable = self.procs[pin].context.pagetable;
        proof {
            assert(trapframe == f0[0] && pagetable == f0[1]);
            assert(!f1.contains(trapframe)) by {
                if f1.contains(trapframe) {
                    let k = choose|k: int| 0 <= k < f1.len() && f1[k] == trapframe;
                    assert(f0[k + 4] == trapframe);
                }
            }
            assert(f1[0] == f0[4]);
        }
        Self::first_image(mem, kalloc, trapframe, pagetable, Ghost(image.traptext));
        proof {
            assert(kalloc@ =~= f0.skip(7));
            assert forall|a: u64| m0.holds(a) && !f0.contains(page_of(a)) implies #[trigger] mem.at(
                a,
            ) == m0.at(a) by {
                assert(f0.contains(trapframe));
                assert(m1.at(a) == m0.at(a));
                if f1.contains(page_of(a)) {
                    let k = choose|k: int| 0 <= k < f1.len() && f1[k] == page_of(a);
                    assert(f0[k + 4] == page_of(a));
                }
            }
        }
        let ok = self.ready(cmaster, hart, pin);
        proof {
            assert(ok);
            old(self).lemma_follows_trans(&table, self);
            assert(self.same_procs_but(old(self), pin as int)) by {
                assert forall|j: int| 0 <= j < self.len() && j != pin implies self.proc(j) == old(
                    self,
                ).proc(j) by {
                    assert(self.proc(j) == table.proc(j));
                    assert(table.proc(j) == old(self).proc(j));
                }
            }
            assert(old(self).any_free_lock(pin + 1)) by {
                if old(self).locked(pin as int) {
                    let h = choose|h: int| #[trigger]
                        Self::pins(old(cmaster), h, pin as int) && old(cmaster).cpu(h).nlock >= 1;
                    assert(false);
                }
            }
        }
        Ok(pin)
    }

    /// The table has no more slots than a machine word counts.
    pub proof fn lemma_len(&self)
        ensures
            self.len() <= usize::MAX,
    {
        assert(self.procs.len() == self.procs@.len());
    }

    /// The first free slot is free, and no slot before it is; there is none
    /// exactly if no slot is free.
    pub proof fn lemma_first_unused(&self, from: int)
        requires
            0 <= from,
        ensures
            match self.first_unused(from) {
                Some(i) => from <= i < self.len() && self.state(i as int) == State::Unused
                    && forall|j: int| from <= j < i ==> self.state(j) != State::Unused,
                None => forall|j: int| from <= j < self.len() ==> self.state(j) != State::Unused,
            },
        decreases self.len() - from,
    {
        self.lemma_len();
        if from < self.len() && self.state(from) != State::Unused {
            self.lemma_first_unused(from + 1);
        }
    }

    /// A table without a free slot takes no new process, however much memory
    /// there is; a table with a free slot takes one as soon as there are
    /// pages for it.
    pub proof fn lemma_allocate_owed(&self, free: nat)
        ensures
            (forall|i: int| 0 <= i < self.len() ==> self.state(i) != State::Unused)
                ==> self.spec_allocate(free) is None,
            (exists|i: int| 0 <= i < self.len() && self.state(i) == State::Unused) && free
                >= Self::PAGES_PER_PROC ==> self.spec_allocate(free) is Some,
    {
        self.lemma_first_unused(0);
    }

    /// Every slot holds the same process in the same state as in `other`,
    /// with its lock as there, and the counter stands as there.
    pub open spec fn alike(&self, other: &PMaster) -> bool {
        &&& self.len() == other.len()
        &&& self.last_pid() == other.last_pid()
        &&& forall|i: int|
            0 <= i < self.len() ==> {
                &&& #[trigger] self.state(i) == other.state(i)
                &&& self.locked(i) == other.locked(i)
                &&& self.proc(i).context == other.proc(i).context
            }
    }

    /// The slots that a hart gives a turn, one after the other, when it looks
    /// through the table from `from` on and each process gives the hart up as
    /// soon as it has it: the ready ones, up to the first whose lock is held.
    pub open spec fn ready_slots(&self, from: int) -> Seq<usize>
        decreases self.len() - from,
    {
        if from < 0 || from >= self.len() || self.locked(from) {
            Seq::empty()
        } else if self.state(from) == State::Runnable {
            seq![from as usize] + self.ready_slots(from + 1)
        } else {
            self.ready_slots(from + 1)
        }
    }

    /// The ready slots from the end of a look through the table on are those
    /// from its start on.
    pub proof fn lemma_ready_slots(&self, from: int)
        requires
            0 <= from,
        ensures
            self.ready_slots(from) == match self.spec_sweep(from) {
                Sweep::Dispatched(slot) => seq![slot] + self.ready_slots(slot + 1),
                _ => Seq::empty(),
            },
        decreases self.len() - from,
    {
        self.lemma_len();
        if from < self.len() && !self.locked(from) && self.state(from) != State::Runnable {
            self.lemma_ready_slots(from + 1);
        }
    }

    /// A table that is alike follows.
    pub proof fn lemma_alike_follows(&self, after: &PMaster)
        requires
            after.alike(self),
        ensures
            after.follows(self),
    {
        assert forall|i: int| 0 <= i < after.len() implies {
            &&& self.state(i).reaches(#[trigger] after.state(i))
            &&& self.state(i) != State::Unused ==> after.pid(i) == self.pid(i)
            &&& after.set_up_since(self, i) ==> self.last_pid() < after.pid(i) <= after.last_pid()
        } by {
            assert(after.state(i) == self.state(i));
        }
        assert forall|i: int, j: int|
            0 <= i < after.len() && 0 <= j < after.len() && i != j && #[trigger] after.set_up_since(
                self,
                i,
            ) && #[trigger] after.set_up_since(self, j) implies after.pid(i) != after.pid(j) by {
            assert(after.state(i) == self.state(i));
        }
    }

    /// A table that is alike looks the same to the scheduler.
    pub proof fn lemma_alike(&self, other: &PMaster, from: int)
        requires
            self.alike(other),
            0 <= from,
        ensures
            self.spec_sweep(from) == other.spec_sweep(from),
            self.ready_slots(from) == other.ready_slots(from),
        decreases self.len() - from,
    {
        if from < self.len() {
            assert(self.state(from) == other.state(from));
            self.lemma_alike(other, from + 1);
        }
    }

    /// A whole turn on hart `hart`, for a process that gives the hart up as
    /// soon as it has it: the scheduler looks through the table from slot
    /// `from` on and marks the first ready process as running; the process
    /// gives back its lock, marks itself as ready again and switches to the
    /// scheduler, which takes the hart back. After the turn the process is
    /// ready as before, and the hart runs no process.
    #[verifier::rlimit(30)]
    pub fn turn(&mut self, cmaster: &mut CMaster, hart: usize, from: usize) -> (sweep: Sweep)
        requires
            old(self).coherent(old(cmaster)),
            hart < old(cmaster).harts(),
            old(cmaster).cpu(hart as int).pin is None,
            old(cmaster).cpu(hart as int).nlock < u8::MAX,
            from <= old(self).len(),
        ensures
            final(self).coherent(final(cmaster)),
            final(self).alike(old(self)),
            final(self).follows(old(self)),
            sweep == old(self).spec_sweep(from as int),
            final(cmaster).only_changed(
                old(cmaster),
                hart as int,
                if old(self).sweep_end(from as int) > from || sweep is Dispatched {
                    Self::entered(old(cmaster).hart(hart as int), from as int).relocked()
                } else {
                    Self::entered(old(cmaster).hart(hart as int), from as int)
                },
            ),
    {
        let ghost h0 = cmaster.hart(hart as int);
        proof {
            lemma_relocked(Self::entered(h0, from as int));
            lemma_turn(Self::entered(h0, from as int));
        }
        let sweep = self.scheduler(cmaster, hart, from);
        match sweep {
            Sweep::Dispatched(slot) => {
                let ghost t1 = *self;
                proof {
                    old(self).lemma_sweep(from as int);
                }
                assert(cmaster.cpu(hart as int).pin == Some(slot));
                self.resume(cmaster, hart);
                let ghost t2 = *self;
                assert(cmaster.cpu(hart as int).pin == Some(slot));
                let switch = self.step(cmaster, hart);
                let ghost t3 = *self;
                assert(switch is Ok);
                assert(cmaster.cpu(hart as int).pin == Some(slot));
                self.unpin(cmaster, hart);
                proof {
                    assert forall|i: int| 0 <= i < self.len() implies {
                        &&& #[trigger] self.state(i) == old(self).state(i)
                        &&& self.locked(i) == old(self).locked(i)
                        &&& self.proc(i).context == old(self).proc(i).context
                    } by {
                        if i != slot {
                            assert(self.proc(i) == t3.proc(i));
                            assert(t3.proc(i) == t2.proc(i));
                            assert(t2.proc(i) == t1.proc(i));
                            assert(t1.proc(i) == old(self).proc(i));
                        } else {
                            assert(self.state(i) == t3.state(i));
                            assert(t3.state(i) == State::Runnable);
                            assert(self.proc(i).context == t3.proc(i).context);
                            assert(t3.proc(i).context == t2.proc(i).context);
                            assert(t2.proc(i).context == t1.proc(i).context);
                            assert(t1.proc(i).context == old(self).proc(i).context);
                        }
                    }
                }
            },
            _ => {
                proof {
                    assert forall|i: int| 0 <= i < self.len() implies {
                        &&& #[trigger] self.state(i) == old(self).state(i)
                        &&& self.locked(i) == old(self).locked(i)
                        &&& self.proc(i).context == old(self).proc(i).context
                    } by {
                        assert(self.proc(i) == old(self).proc(i));
                    }
                }
            },
        }
        proof {
            old(self).lemma_alike_follows(self);
        }
        sweep
    }

    /// What a look through the table finds: a slot at which it ends is in the
    /// table; one that it marks as running was ready, with its lock free;
    /// and no slot before it was ready or had its lock held.
    pub proof fn lemma_sweep(&self, from: int)
        requires
            0 <= from,
        ensures
            match self.spec_sweep(from) {
                Sweep::Dispatched(slot) => from <= slot < self.len() && self.state(slot as int)
                    == State::Runnable && !self.locked(slot as int),
                Sweep::Blocked(slot) => from <= slot < self.len() && self.locked(slot as int),
                Sweep::Idle => true,
            },
            forall|j: int|
                from <= j < self.sweep_end(from) ==> !self.locked(j) && self.state(j)
                    != State::Runnable,
        decreases self.len() - from,
    {
        self.lemma_len();
        if from < self.len() && !self.locked(from) && self.state(from) != State::Runnable {
            self.lemma_sweep(from + 1);
        }
    }

    /// One round of the scheduler on hart `hart`, with processes that each
    /// give the hart up as soon as they have it: every ready process gets a
    /// turn, in the order of the table, up to the first slot whose lock
    /// another hart holds. Hands back the slots that had their turn. After
    /// the round every process is as before.
    #[verifier::rlimit(30)]
    pub fn round(&mut self, cmaster: &mut CMaster, hart: usize) -> (order: Vec<usize>)
        requires
            old(self).coherent(old(cmaster)),
            hart < old(cmaster).harts(),
            old(cmaster).cpu(hart as int).pin is None,
            old(cmaster).cpu(hart as int).nlock < u8::MAX,
        ensures
            final(self).coherent(final(cmaster)),
            final(self).alike(old(self)),
            final(self).follows(old(self)),
            order@ == old(self).ready_slots(0),
            final(cmaster).only_changed(
                old(cmaster),
                hart as int,
                if old(self).len() > 0 && !old(self).locked(0) {
                    old(cmaster).hart(hart as int).with_sie(true).relocked()
                } else {
                    old(cmaster).hart(hart as int).with_sie(true)
                },
            ),
    {
        let ghost h1 = cmaster.hart(hart as int).with_sie(true);
        proof {
            lemma_relocked(h1);
        }
        let mut order: Vec<usize> = Vec::new();
        let mut from: usize = 0;
        let n = self.procs.len();
        let mut done = false;
        proof {
            assert(order@ + old(self).ready_slots(0) =~= old(self).ready_slots(0));
        }
        while !done
            invariant
                from <= n,
                n == self.len(),
                hart < cmaster.harts(),
                self.coherent(cmaster),
                self.alike(old(self)),
                old(cmaster).wf(),
                h1 == old(cmaster).hart(hart as int).with_sie(true),
                h1.cpu.pin is None,
                h1.cpu.nlock < u8::MAX,
                h1.relocked().relocked() == h1.relocked(),
                !done && from == 0 ==> cmaster.only_changed(
                    old(cmaster),
                    hart as int,
                    old(cmaster).hart(hart as int),
                ),
                !done && from > 0 ==> old(self).len() > 0 && !old(self).locked(0)
                    && cmaster.only_changed(
                    old(cmaster),
                    hart as int,
                    h1.relocked(),
                ),
                done ==> cmaster.only_changed(
                    old(cmaster),
                    hart as int,
                    if old(self).len() > 0 && !old(self).locked(0) {
                        h1.relocked()
                    } else {
                        h1
                    },
                ),
                !done ==> order@ + old(self).ready_slots(from as int) == old(self).ready_slots(0),
                done ==> order@ == old(self).ready_slots(0),
            decreases n - from, (if done { 0int } else { 1int }),
        {
            let ghost before = *self;
            let ghost harts = *cmaster;
            proof {
                self.lemma_alike(old(self), from as int);
                old(self).lemma_ready_slots(from as int);
                old(self).lemma_sweep(from as int);
                self.lemma_sweep(from as int);
                lemma_relocked(h1.relocked());
                assert(self.locked(0) == old(self).locked(0) || self.len() == 0) by {
                    if self.len() > 0 {
                        assert(self.state(0) == old(self).state(0));
                    }
                }
            }
            match self.turn(cmaster, hart, from) {
                Sweep::Dispatched(slot) => {
                    let ghost sofar = order@;
                    order.push(slot);
                    proof {
                        assert(order@ + old(self).ready_slots(slot + 1) =~= sofar + (seq![slot]
                            + old(self).ready_slots(slot + 1)));
                    }
                    from = slot + 1;
                },
                _ => {
                    proof {
                        assert(order@ + Seq::<usize>::empty() =~= order@);
                    }
                    done = true;
                },
            }
            proof {
                assert(self.alike(old(self))) by {
                    assert forall|i: int| 0 <= i < self.len() implies {
                        &&& #[trigger] self.state(i) == old(self).state(i)
                        &&& self.locked(i) == old(self).locked(i)
                        &&& self.proc(i).context == old(self).proc(i).context
                    } by {
                        assert(self.state(i) == before.state(i));
                        assert(before.state(i) == old(self).state(i));
                    }
                }
            }
        }
        proof {
            old(self).lemma_alike_follows(self);
        }
        order
    }
}

} // verus!
