//! A process as the kernel keeps it: its state behind a lock, and beside it
//! what only the hart that runs the process touches.

use vstd::prelude::*;
use crate::lock::spinlock::SpinLock;
use crate::process::cpu::{CMaster, Context};

verus! {

/// State of a process.
#[derive(Clone, Copy, Debug, PartialEq, Eq, Structural)]
pub enum State {
    Unused,
    Used,
    Sleeping,
    Runnable,
    Running,
    Zombie,
}

impl State {
    /// The steps that a process can take: a free slot is taken, a taken
    /// one becomes ready to run, a ready one is run, and one that runs yields
    /// or exits.
    pub open spec fn may_become(self, next: State) -> bool {
        match (self, next) {
            (State::Unused, State::Used) => true,
            (State::Used, State::Runnable) => true,
            (State::Runnable, State::Running) => true,
            (State::Running, State::Runnable) => true,
            (State::Running, State::Zombie) => true,
            _ => false,
        }
    }

    /// What a process in this state can be after any number of steps.
    pub open spec fn reaches(self, later: State) -> bool {
        match (self, later) {
            (State::Unused, State::Sleeping) => false,
            (State::Unused, _) => true,
            (State::Used, State::Used) => true,
            (State::Used, State::Runnable) => true,
            (State::Used, State::Running) => true,
            (State::Used, State::Zombie) => true,
            (State::Runnable, State::Runnable) => true,
            (State::Runnable, State::Running) => true,
            (State::Runnable, State::Zombie) => true,
            (State::Running, State::Runnable) => true,
            (State::Running, State::Running) => true,
            (State::Running, State::Zombie) => true,
            (State::Sleeping, State::Sleeping) => true,
            (State::Zombie, State::Zombie) => true,
            _ => false,
        }
    }

    /// Each state of `path` but the first is a step from the one before it.
    pub open spec fn is_path(path: Seq<State>) -> bool {
        forall|k: int| 0 <= k < path.len() - 1 ==> (#[trigger] path[k]).may_become(path[k + 1])
    }

    /// Whether a process in this state can take the step to `next`.
    pub fn can_become(self, next: State) -> (ok: bool)
        ensures
            ok == self.may_become(next),
    {
        match (self, next) {
            (State::Unused, State::Used) => true,
            (State::Used, State::Runnable) => true,
            (State::Runnable, State::Running) => true,
            (State::Running, State::Runnable) => true,
            (State::Running, State::Zombie) => true,
            _ => false,
        }
    }
}

/// A process is only ever found in a state that its steps lead to: whatever
/// path of steps it takes, it ends where `reaches` says it can.
pub proof fn lemma_paths_stay_within_reach(path: Seq<State>)
    requires
        path.len() > 0,
        State::is_path(path),
    ensures
        path[0].reaches(path.last()),
    decreases path.len(),
{
    if path.len() > 1 {
        let front = path.drop_last();
        assert forall|k: int| 0 <= k < front.len() - 1 implies (#[trigger] front[k]).may_become(
            front[k + 1],
        ) by {
            assert(path[k].may_become(path[k + 1]));
        }
        lemma_paths_stay_within_reach(front);
        assert(path[path.len() - 2].may_become(path[path.len() - 1]));
    }
}

/// Whatever `reaches` allows, some path of steps leads to.
pub proof fn lemma_reach_has_path(from: State, to: State) -> (path: Seq<State>)
    requires
        from.reaches(to),
    ensures
        path.len() > 0,
        path[0] == from,
        path.last() == to,
        State::is_path(path),
{
    let tail = match to {
        State::Used => seq![State::Used],
        State::Runnable => seq![State::Used, State::Runnable],
        State::Running => seq![State::Used, State::Runnable, State::Running],
        State::Zombie => seq![State::Used, State::Runnable, State::Running, State::Zombie],
        _ => Seq::empty(),
    };
    if from == to {
        seq![from]
    } else {
        match from {
            State::Unused => seq![State::Unused] + tail,
            State::Used => tail,
            State::Runnable => tail.skip(1),
            _ => if to == State::Runnable {
                seq![State::Running, State::Runnable]
            } else {
                seq![State::Running, State::Zombie]
            },
        }
    }
}

/// What the lock of a process guards.
#[derive(Clone, Copy, Debug)]
pub struct ProcInfo {
    state: State,
    _hart_id: usize,
}

/// What belongs to the process alone.
#[derive(Clone, Copy, Debug)]
pub struct ProcContext {
    /// Virtual address of the kernel stack, once the table is set up.
    pub kstack: Option<u64>,
    /// Registers to switch to, to run the process.
    pub context: Context,
    pub pid: usize,
    /// Physical address of the trap frame page.
    pub trapframe: u64,
    /// Physical address of the root of the user page table.
    pub pagetable: u64,
}

/// Per-process state.
pub struct Proc {
    pub info: SpinLock<ProcInfo>,
    pub context: ProcContext,
}

/// The hart number that a process record holds as long as no hart has run
/// the process: one that no hart of the machine has.
pub const NO_HART: usize = 42;

impl ProcInfo {
    pub closed spec fn spec_state(&self) -> State {
        self.state
    }

    pub closed spec fn spec_hart_id(&self) -> usize {
        self._hart_id
    }

    /// The record of a free slot: the process is unused, and no hart has run
    /// it.
    pub fn new() -> (info: ProcInfo)
        ensures
            info.state() == State::Unused,
            info.hart_id() == NO_HART,
    {
        ProcInfo { state: State::Unused, _hart_id: NO_HART }
    }

    /// The hart that the record names.
    #[verifier::when_used_as_spec(spec_hart_id)]
    pub fn hart_id(&self) -> (hart: usize)
        ensures
            hart == self.hart_id(),
    {
        self._hart_id
    }

    /// The state of the process.
    #[verifier::when_used_as_spec(spec_state)]
    pub fn state(&self) -> (state: State)
        ensures
            state == self.state(),
    {
        self.state
    }

    /// Takes the step to `next` where the process can take it, and says
    /// whether it did.
    pub fn advance(&mut self, next: State) -> (ok: bool)
        ensures
            ok == old(self).state().may_become(next),
            final(self).state() == if ok {
                next
            } else {
                old(self).state()
            },
            final(self).hart_id() == old(self).hart_id(),
    {
        if self.state.can_become(next) {
            self.state = next;
            true
        } else {
            false
        }
    }
}

impl ProcContext {
    /// What a free slot holds.
    pub open spec fn empty() -> ProcContext {
        ProcContext { kstack: None, context: Context::zeroed(), pid: 0, trapframe: 0, pagetable: 0 }
    }

    pub fn new() -> (context: ProcContext)
        ensures
            context == ProcContext::empty(),
    {
        ProcContext {
            kstack: None,
            context: Context::default(),
            pid: 0,
            pagetable: 0,
            trapframe: 0,
        }
    }
}

impl Proc {
    /// The state of the process.
    pub open spec fn state(&self) -> State {
        self.info.value().state()
    }

    /// Whether a hart holds the lock of the process.
    pub open spec fn locked(&self) -> bool {
        self.info.is_locked()
    }

    pub fn new() -> (proc: Proc)
        ensures
            proc.state() == State::Unused,
            proc.info.value().hart_id() == NO_HART,
            !proc.locked(),
            proc.context == ProcContext::empty(),
    {
        Proc { info: SpinLock::new(ProcInfo::new()), context: ProcContext::new() }
    }

    /// Under the lock of the process: where it is in the state `from`, it
    /// takes the step to `to`. The lock is given back, unless the step was
    /// taken and `hold` asks to keep it.
    pub fn shift(
        &mut self,
        cmaster: &mut CMaster,
        hart: usize,
        from: State,
        to: State,
        hold: bool,
    ) -> (moved: bool)
        requires
            !old(self).locked(),
            from.may_become(to),
            old(cmaster).wf(),
            hart < old(cmaster).harts(),
            old(cmaster).cpu(hart as int).nlock < u8::MAX,
        ensures
            moved == (old(self).state() == from),
            final(self).state() == if moved {
                to
            } else {
                old(self).state()
            },
            final(self).locked() == (moved && hold),
            final(self).context == old(self).context,
            !moved ==> *final(self) == *old(self),
            final(cmaster).only_changed(
                old(cmaster),
                hart as int,
                if moved && hold {
                    old(cmaster).hart(hart as int).pushed()
                } else {
                    old(cmaster).hart(hart as int).relocked()
                },
            ),
    {
        let mut info = self.info.lock(cmaster, hart);
        if info.deref().state() == from {
            let ok = info.deref_mut().advance(to);
            assert(ok);
            if hold {
                info.keep();
            } else {
                info.drop(cmaster, hart);
            }
            true
        } else {
            info.drop(cmaster, hart);
            proof {
                self.info.lemma_same(&old(self).info);
            }
            false
        }
    }

    /// The state of the process, read under its lock.
    pub fn probe(&mut self, cmaster: &mut CMaster, hart: usize) -> (state: State)
        requires
            !old(self).locked(),
            old(cmaster).wf(),
            hart < old(cmaster).harts(),
            old(cmaster).cpu(hart as int).nlock < u8::MAX,
        ensures
            state == old(self).state(),
            *final(self) == *old(self),
            final(cmaster).only_changed(
                old(cmaster),
                hart as int,
                old(cmaster).hart(hart as int).relocked(),
            ),
    {
        let info = self.info.lock(cmaster, hart);
        let state = info.deref().state();
        info.drop(cmaster, hart);
        proof {
            self.info.lemma_same(&old(self).info);
        }
        state
    }

    /// Gives the lock of the process back for hart `hart`.
    pub fn release(&mut self, cmaster: &mut CMaster, hart: usize)
        requires
            old(self).locked(),
            old(cmaster).wf(),
            hart < old(cmaster).harts(),
            old(cmaster).cpu(hart as int).nlock != 0,
        ensures
            !final(self).locked(),
            final(self).state() == old(self).state(),
            final(self).context == old(self).context,
            final(cmaster).only_changed(
                old(cmaster),
                hart as int,
                old(cmaster).hart(hart as int).popped(),
            ),
    {
        self.info.unlock(cmaster, hart);
    }
}

} // verus!
