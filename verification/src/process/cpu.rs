//! Per-hart state: the registers saved across a context switch, the record
//! that the kernel keeps for each hart, and the registry of those records.

use vstd::prelude::*;
use crate::arch::NCPU;

verus! {

/// Saved registers for kernel context switches: return address, stack
/// pointer and the callee-saved registers.
#[derive(Clone, Copy, Debug, PartialEq, Eq, Structural)]
pub struct Context {
    pub ra: u64,
    pub sp: u64,
    pub s0: u64,
    pub s1: u64,
    pub s2: u64,
    pub s3: u64,
    pub s4: u64,
    pub s5: u64,
    pub s6: u64,
    pub s7: u64,
    pub s8: u64,
    pub s9: u64,
    pub s10: u64,
    pub s11: u64,
}

impl Context {
    /// The context with every register zero.
    pub open spec fn zeroed() -> Context {
        Context {
            ra: 0,
            sp: 0,
            s0: 0,
            s1: 0,
            s2: 0,
            s3: 0,
            s4: 0,
            s5: 0,
            s6: 0,
            s7: 0,
            s8: 0,
            s9: 0,
            s10: 0,
            s11: 0,
        }
    }

    pub fn default() -> (context: Context)
        ensures
            context == Context::zeroed(),
    {
        Context {
            ra: 0,
            sp: 0,
            s0: 0,
            s1: 0,
            s2: 0,
            s3: 0,
            s4: 0,
            s5: 0,
            s6: 0,
            s7: 0,
            s8: 0,
            s9: 0,
            s10: 0,
            s11: 0,
        }
    }
}

/// Per-hart state.
#[derive(Clone, Copy, Debug, PartialEq, Eq, Structural)]
pub struct CPU {
    /// Registers of the scheduler loop while a process runs.
    pub context: Context,
    /// Slot of the process that runs on this hart.
    pub pin: Option<usize>,
    /// Number of locks held.
    pub nlock: u8,
    /// Whether interrupts were enabled when the outermost lock was taken.
    pub intr: bool,
}

impl CPU {
    /// The record of a hart that runs no process and holds no lock.
    pub open spec fn idle() -> CPU {
        CPU { context: Context::zeroed(), pin: None, nlock: 0, intr: false }
    }

    pub fn new() -> (cpu: CPU)
        ensures
            cpu == CPU::idle(),
    {
        CPU { context: Context::default(), pin: None, nlock: 0, intr: false }
    }
}

/// A hart as the lock primitive sees it: its record and its
/// interrupt-enable bit.
pub struct Hart {
    pub cpu: CPU,
    pub sie: bool,
}

impl Hart {
    /// The hart after it disabled interrupts on the way to a lock: the bit is
    /// off, the depth one more, and the bit's earlier value is remembered
    /// where this is the outermost lock.
    pub open spec fn pushed(self) -> Hart {
        Hart {
            cpu: CPU {
                nlock: (self.cpu.nlock + 1) as u8,
                intr: if self.cpu.nlock == 0 {
                    self.sie
                } else {
                    self.cpu.intr
                },
                ..self.cpu
            },
            sie: false,
        }
    }

    /// The hart after it gave a lock back: the depth is one less, and
    /// interrupts are on again where no lock is left and they were on before
    /// the outermost.
    pub open spec fn popped(self) -> Hart {
        Hart {
            cpu: CPU { nlock: (self.cpu.nlock - 1) as u8, ..self.cpu },
            sie: self.sie || (self.cpu.nlock == 1 && self.cpu.intr),
        }
    }

    /// The hart after it took a lock and gave it back.
    pub open spec fn relocked(self) -> Hart {
        self.pushed().popped()
    }

    /// The hart with the process in `pin` on it.
    pub open spec fn pinned(self, pin: Option<usize>) -> Hart {
        Hart { cpu: CPU { pin, ..self.cpu }, sie: self.sie }
    }

    /// The hart with interrupts on or off.
    pub open spec fn with_sie(self, sie: bool) -> Hart {
        Hart { cpu: self.cpu, sie }
    }

    /// The hart after one step of a run: `true` takes a lock, `false` gives
    /// one back.
    pub open spec fn step(self, take: bool) -> Hart {
        if take {
            self.pushed()
        } else {
            self.popped()
        }
    }

    /// The hart after the steps of `ops`, first to last.
    pub open spec fn run(self, ops: Seq<bool>) -> Hart
        decreases ops.len(),
    {
        if ops.len() == 0 {
            self
        } else {
            self.run(ops.drop_last()).step(ops.last())
        }
    }
}

/// Locks held after the steps of `ops`, counted from none.
pub open spec fn depth(ops: Seq<bool>) -> int
    decreases ops.len(),
{
    if ops.len() == 0 {
        0
    } else {
        depth(ops.drop_last()) + if ops.last() {
            1int
        } else {
            -1int
        }
    }
}

/// At no point of `ops` is a lock given back that was not taken, nor are
/// more locks held than the record can count.
pub open spec fn nested(ops: Seq<bool>) -> bool {
    forall|k: int| 0 <= k <= ops.len() ==> 0 <= #[trigger] depth(ops.take(k)) <= u8::MAX
}

/// While a hart holds locks that it took from depth zero on, its interrupts
/// stay off and its record remembers how they were; once it holds none, they
/// are as they were.
pub proof fn lemma_run(hart: Hart, ops: Seq<bool>)
    requires
        hart.cpu.nlock == 0,
        nested(ops),
    ensures
        hart.run(ops).cpu.nlock == depth(ops),
        depth(ops) > 0 ==> !hart.run(ops).sie && hart.run(ops).cpu.intr == hart.sie,
        depth(ops) == 0 ==> hart.run(ops).sie == hart.sie,
        hart.run(ops).cpu.pin == hart.cpu.pin,
        hart.run(ops).cpu.context == hart.cpu.context,
    decreases ops.len(),
{
    assert(ops.take(ops.len() as int) =~= ops);
    if ops.len() > 0 {
        let front = ops.drop_last();
        assert forall|k: int| 0 <= k <= front.len() implies 0 <= #[trigger] depth(front.take(k))
            <= u8::MAX by {
            assert(front.take(k) =~= ops.take(k));
        }
        assert(front.take(front.len() as int) =~= front);
        lemma_run(hart, front);
    }
}

/// A hart that holds a lock is not changed by a lock that it takes and gives
/// back within.
pub proof fn lemma_relocked_within(hart: Hart)
    requires
        hart.cpu.nlock < u8::MAX - 1,
    ensures
        hart.pushed().relocked() == hart.pushed(),
{
}

/// To take a lock and give it back a second time changes nothing more, and a
/// lock taken after that leaves the hart as if it had been the first.
pub proof fn lemma_relocked(hart: Hart)
    requires
        hart.cpu.nlock < u8::MAX,
    ensures
        hart.relocked().relocked() == hart.relocked(),
        hart.relocked().pushed() == hart.pushed(),
        hart.relocked().cpu.nlock == hart.cpu.nlock,
        hart.relocked().cpu.pin == hart.cpu.pin,
        hart.cpu.nlock == 0 ==> hart.relocked().sie == hart.sie,
        hart.pushed().popped().cpu.nlock == hart.cpu.nlock,
{
}

/// Interrupts are enabled after the outermost release exactly if they were
/// enabled before the outermost acquire, however deep the nesting between
/// the two.
pub proof fn lemma_outermost_release_restores(hart: Hart, ops: Seq<bool>)
    requires
        hart.cpu.nlock == 0,
        nested(ops),
        depth(ops) == 0,
    ensures
        hart.run(ops).sie == hart.sie,
        hart.run(ops).cpu.nlock == 0,
{
    lemma_run(hart, ops);
}

/// The registry of harts.
pub struct CMaster {
    cpus: Vec<CPU>,
    sie: Vec<bool>,
}

impl CMaster {
    /// Number of harts.
    pub closed spec fn harts(&self) -> nat {
        self.cpus@.len()
    }

    /// The record of hart `hart`.
    pub closed spec fn cpu(&self, hart: int) -> CPU {
        self.cpus@[hart]
    }

    /// Whether interrupts are enabled on hart `hart`.
    pub closed spec fn sie(&self, hart: int) -> bool {
        self.sie@[hart]
    }

    /// Hart `hart` as the lock primitive sees it.
    pub open spec fn hart(&self, hart: int) -> Hart {
        Hart { cpu: self.cpu(hart), sie: self.sie(hart) }
    }

    /// Each hart has a record and an interrupt-enable bit.
    pub closed spec fn wf(&self) -> bool {
        self.cpus@.len() == self.sie@.len()
    }

    /// `self` is `before` but for hart `hart`, which is `now`.
    pub open spec fn only_changed(&self, before: &CMaster, hart: int, now: Hart) -> bool {
        &&& self.wf()
        &&& self.harts() == before.harts()
        &&& self.cpu(hart) == now.cpu
        &&& self.sie(hart) == now.sie
        &&& forall|h: int|
            #![trigger self.cpu(h)]
            #![trigger self.sie(h)]
            #![trigger self.hart(h)]
            0 <= h < self.harts() && h != hart ==> self.cpu(h) == before.cpu(h) && self.sie(h)
                == before.sie(h)
    }

    /// Every hart is idle, with interrupts off.
    pub open spec fn all_idle(&self) -> bool {
        forall|h: int|
            #![trigger self.cpu(h)]
            #![trigger self.sie(h)]
            #![trigger self.hart(h)]
            0 <= h < self.harts() ==> self.cpu(h) == CPU::idle() && !self.sie(h)
    }

    /// A registry of `n` idle harts with interrupts off.
    pub fn with_harts(n: usize) -> (cmaster: CMaster)
        ensures
            cmaster.wf(),
            cmaster.harts() == n,
            cmaster.all_idle(),
    {
        let mut cpus: Vec<CPU> = Vec::new();
        let mut sie: Vec<bool> = Vec::new();
        let mut i: usize = 0;
        while i < n
            invariant
                i <= n,
                cpus@.len() == i,
                sie@.len() == i,
                forall|h: int| 0 <= h < i ==> cpus@[h] == CPU::idle() && !sie@[h],
            decreases n - i,
        {
            cpus.push(CPU::new());
            sie.push(false);
            i = i + 1;
        }
        CMaster { cpus, sie }
    }

    /// The registry of this machine's harts, idle and with interrupts off.
    pub fn new() -> (cmaster: CMaster)
        ensures
            cmaster.wf(),
            cmaster.harts() == NCPU,
            cmaster.all_idle(),
    {
        Self::with_harts(NCPU)
    }

    /// Number of harts.
    pub fn len(&self) -> (n: usize)
        ensures
            n == self.harts(),
    {
        self.cpus.len()
    }

    /// The record of the calling hart.
    pub fn my_cpu(&self, hart: usize) -> (cpu: &CPU)
        requires
            hart < self.harts(),
        ensures
            *cpu == self.cpu(hart as int),
    {
        &self.cpus[hart]
    }

    /// The record of the calling hart, to be changed. Interrupts must be
    /// off, or the hart may be interrupted halfway through the change.
    pub fn my_cpu_mut(&mut self, hart: usize) -> (cpu: &mut CPU)
        requires
            old(self).wf(),
            hart < old(self).harts(),
            !old(self).sie(hart as int),
        ensures
            *cpu == old(self).cpu(hart as int),
            final(self).only_changed(
                old(self),
                hart as int,
                Hart { cpu: *final(cpu), sie: old(self).sie(hart as int) },
            ),
    {
        &mut self.cpus[hart]
    }

    /// Whether interrupts are enabled on hart `hart`.
    pub fn intr_get(&self, hart: usize) -> (enabled: bool)
        requires
            self.wf(),
            hart < self.harts(),
        ensures
            enabled == self.sie(hart as int),
    {
        self.sie[hart]
    }

    /// Enables interrupts on hart `hart`.
    pub fn intr_on(&mut self, hart: usize)
        requires
            old(self).wf(),
            hart < old(self).harts(),
        ensures
            final(self).only_changed(
                old(self),
                hart as int,
                Hart { cpu: old(self).cpu(hart as int), sie: true },
            ),
    {
        self.sie[hart] = true;
    }

    /// Disables interrupts on hart `hart`.
    pub fn intr_off(&mut self, hart: usize)
        requires
            old(self).wf(),
            hart < old(self).harts(),
        ensures
            final(self).only_changed(
                old(self),
                hart as int,
                Hart { cpu: old(self).cpu(hart as int), sie: false },
            ),
    {
        self.sie[hart] = false;
    }

    /// Disables interrupts on the way to a lock, and counts the lock. Where
    /// it is the outermost, the record remembers whether interrupts were on.
    pub fn push_off(&mut self, hart: usize)
        requires
            old(self).wf(),
            hart < old(self).harts(),
            old(self).cpu(hart as int).nlock < u8::MAX,
        ensures
            final(self).only_changed(old(self), hart as int, old(self).hart(hart as int).pushed()),
    {
        let enabled = self.sie[hart];
        self.sie[hart] = false;
        let cpu = &mut self.cpus[hart];
        if cpu.nlock == 0 {
            cpu.intr = enabled;
        }
        cpu.nlock += 1;
    }

    /// Counts a lock as given back, and enables interrupts where it was the
    /// outermost and they were on before it was taken.
    pub fn pop_off(&mut self, hart: usize)
        requires
            old(self).wf(),
            hart < old(self).harts(),
            old(self).cpu(hart as int).nlock != 0,
        ensures
            final(self).only_changed(old(self), hart as int, old(self).hart(hart as int).popped()),
    {
        let cpu = &mut self.cpus[hart];
        cpu.nlock -= 1;
        let enable = cpu.nlock == 0 && cpu.intr;
        if enable {
            self.sie[hart] = true;
        }
    }

    /// Slot of the process that runs on hart `hart`.
    pub fn my_proc(&self, hart: usize) -> (pin: usize)
        requires
            hart < self.harts(),
            self.cpu(hart as int).pin is Some,
        ensures
            Some(pin) == self.cpu(hart as int).pin,
    {
        self.cpus[hart].pin.unwrap()
    }
}

} // verus!
