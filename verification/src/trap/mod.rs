//! Traps: what the hardware reports, and what the kernel does about it.
//!
//! A trap transfers control to the kernel, from user space or from the
//! kernel itself. The kernel finds out why, and either gives the hart to the
//! scheduler, or does the system call that the process asked for, or stops.
//! Reading and writing the control registers is the work of the hart; the
//! handlers here are given what was read and say what is to be written.

pub mod cause;
pub mod plic;

use vstd::prelude::*;
use crate::arch::{make_satp, spec_make_satp, PGSIZE};
use crate::fault::Fault;
use crate::memory::layout::{Image, TRAMPOLINE};
use crate::memory::phys::PhysMem;
use crate::process::cpu::{lemma_relocked, CMaster};
use crate::process::master::{Holder, PMaster, Switch};
use crate::process::proc::State;
use crate::process::trapframe::{
    frame_words, TrapFrame, EPC, KERNEL_HARTID, KERNEL_SATP, KERNEL_SP, KERNEL_TRAP,
};
use crate::syscall::{handle, spec_handle, Effect, ECALL_LEN};
use crate::trap::cause::{cause, spec_cause, Exception, Interrupt, Trap};

verus! {

/// The mode that a trap came from.
#[derive(Clone, Copy, Debug, PartialEq, Eq, Structural)]
pub enum Privilege {
    User,
    Supervisor,
}

/// The bit of `sip` that says that a software interrupt is pending.
pub const SSIP: usize = 2;

/// What the hart is to do after a trap from the kernel.
#[derive(Clone, Copy, Debug, PartialEq, Eq, Structural)]
pub struct KernelTrap {
    /// To be written to `sip`: the interrupt is acknowledged.
    pub sip: usize,
    /// The switch to the scheduler, where a process gives up the hart.
    pub switch: Option<Switch>,
}

/// How a trap from user space goes on.
#[derive(Clone, Copy, Debug, PartialEq, Eq, Structural)]
pub enum Next {
    /// The process gives up the hart: the hart is to switch to the
    /// scheduler, and to return to user space when the process runs again.
    Yield(Switch),
    /// The system call is done: the hart is to do what it asks of the
    /// kernel's surroundings and to return to user space.
    Return(Effect),
}

/// What the hart is to do after a trap from user space.
#[derive(Clone, Copy, Debug, PartialEq, Eq, Structural)]
pub struct UserTrap {
    /// To be written to `stvec`: from now on traps are traps from the
    /// kernel.
    pub stvec: u64,
    pub next: Next,
}

/// What the hart is to do to return to user space.
#[derive(Clone, Copy, Debug, PartialEq, Eq, Structural)]
pub struct UserReturn {
    /// To be written to `stvec`: the trampoline's entry, for the next trap.
    pub stvec: u64,
    /// To be written to `sepc`: the saved user program counter.
    pub sepc: u64,
    /// The mode to return to, to be written to `sstatus`.
    pub spp: Privilege,
    /// Whether interrupts are on after the return, to be written to
    /// `sstatus`.
    pub spie: bool,
    /// The user page table as a `satp` value, for the trampoline to switch
    /// to.
    pub satp: u64,
    /// Address of the trampoline's exit, to be called with `satp`.
    pub userret: u64,
}

/// The interrupt that a trap from the kernel reports, or the exception as a
/// fault: the kernel has no use for an exception of its own.
pub open spec fn spec_devintr(scause: usize) -> Result<Interrupt, Fault> {
    match spec_cause(scause) {
        Trap::Interrupt(i) => Ok(i),
        Trap::Exception(e) => Err(Fault::KernelException(e)),
    }
}

/// Tells which interrupt a trap from the kernel reports.
pub fn devintr(scause: usize) -> (interrupt: Result<Interrupt, Fault>)
    ensures
        interrupt == spec_devintr(scause),
{
    match cause(scause) {
        Trap::Interrupt(i) => Ok(i),
        Trap::Exception(e) => Err(Fault::KernelException(e)),
    }
}

/// The fault that a trap from the kernel ends in, where it does.
pub open spec fn kernel_fault(cmaster: &CMaster, hart: int, scause: usize) -> Option<Fault> {
    if cmaster.sie(hart) {
        Some(Fault::InterruptsEnabled)
    } else {
        match spec_devintr(scause) {
            Err(fault) => Some(fault),
            Ok(Interrupt::SupervisorSoft) => None,
            Ok(Interrupt::SupervisorExternal) => Some(Fault::ExternalInterrupt),
            Ok(i) => Some(Fault::UnexpectedInterrupt(i)),
        }
    }
}

/// `sip` with the software interrupt acknowledged.
pub open spec fn spec_ack(sip: usize) -> usize {
    sip & !SSIP
}

/// A trap from the kernel on hart `hart`, with interrupts off. A software
/// interrupt stands for the timer: it is acknowledged, and the process on the
/// hart, if there is one, gives up the hart. Anything else is a fault.
#[verifier::rlimit(30)]
pub fn kerneltrap(
    pmaster: &mut PMaster,
    cmaster: &mut CMaster,
    hart: usize,
    scause: usize,
    sip: usize,
) -> (done: Result<KernelTrap, Fault>)
    requires
        old(pmaster).coherent(old(cmaster)),
        hart < old(cmaster).harts(),
        old(cmaster).cpu(hart as int).nlock < u8::MAX,
        old(cmaster).cpu(hart as int).pin matches Some(slot) ==> !old(pmaster).locked(slot as int),
    ensures
        final(pmaster).coherent(final(cmaster)),
        final(pmaster).follows(old(pmaster)),
        done == match kernel_fault(old(cmaster), hart as int, scause) {
            Some(fault) => Err::<KernelTrap, Fault>(fault),
            None => Ok(
                KernelTrap {
                    sip: spec_ack(sip),
                    switch: match old(cmaster).cpu(hart as int).pin {
                        Some(slot) => Some(
                            Switch { save: Holder::Proc(slot), load: Holder::Hart(hart) },
                        ),
                        None => None,
                    },
                },
            ),
        },
        done matches Ok(KernelTrap { switch: Some(_), .. }) ==> {
            let slot = old(cmaster).cpu(hart as int).pin->0 as int;
            &&& final(pmaster).same_but(old(pmaster), slot)
            &&& final(pmaster).state(slot) == State::Runnable
            &&& final(pmaster).locked(slot)
            &&& final(pmaster).proc(slot).context == old(pmaster).proc(slot).context
            &&& final(cmaster).only_changed(
                old(cmaster),
                hart as int,
                old(cmaster).hart(hart as int).pushed(),
            )
        },
        !(done matches Ok(KernelTrap { switch: Some(_), .. })) ==> {
            &&& final(pmaster).same_but(old(pmaster), -1)
            &&& final(cmaster).only_changed(old(cmaster), hart as int, old(cmaster).hart(hart as int))
        },
{
    if cmaster.intr_get(hart) {
        return Err(Fault::InterruptsEnabled);
    }
    match devintr(scause) {
        Err(fault) => Err(fault),
        Ok(Interrupt::SupervisorSoft) => {
            let sip = sip & !SSIP;
            let pin = cmaster.my_cpu(hart).pin;
            if pin.is_some() {
                match pmaster.step(cmaster, hart) {
                    Ok(switch) => Ok(KernelTrap { sip, switch: Some(switch) }),
                    Err(fault) => Err(fault),
                }
            } else {
                Ok(KernelTrap { sip, switch: None })
            }
        },
        Ok(Interrupt::SupervisorExternal) => Err(Fault::ExternalInterrupt),
        Ok(i) => Err(Fault::UnexpectedInterrupt(i)),
    }
}

/// The trap frame of the process in slot `slot` lies in `mem`.
pub open spec fn has_frame(pmaster: &PMaster, mem: &PhysMem, slot: int) -> bool {
    &&& mem.wf()
    &&& 0 <= slot < pmaster.len()
    &&& mem.holds_page(pmaster.proc(slot).context.trapframe)
}

/// The fault that a trap from user space ends in, where it does, with the
/// trap frame `frame` of the process at hand.
pub open spec fn user_fault(
    cmaster: &CMaster,
    hart: int,
    spp: Privilege,
    scause: usize,
    frame: Seq<u64>,
) -> Option<Fault> {
    if spp != Privilege::User {
        Some(Fault::NotFromUser)
    } else if cmaster.cpu(hart).pin is None {
        Some(Fault::NotHoldingProcess)
    } else {
        match spec_cause(scause) {
            Trap::Interrupt(Interrupt::SupervisorSoft) => None,
            Trap::Exception(Exception::UserEnvCall) => match spec_handle(frame) {
                Ok(_) => None,
                Err(fault) => Some(fault),
            },
            Trap::Interrupt(Interrupt::SupervisorExternal) => Some(Fault::ExternalInterrupt),
            t => Some(Fault::UnexpectedTrap(t)),
        }
    }
}

/// A trap from user space on hart `hart`: `spp`, `sepc` and `scause` are
/// what the registers of these names hold. The user program counter is
/// saved in the trap frame. A software interrupt stands for the timer: the
/// process gives up the hart. A system call is done, with interrupts off.
/// An external interrupt is a fault of its own: the kernel does not route
/// them yet. Anything else is a fault as well.
#[verifier::rlimit(30)]
pub fn usertrap(
    pmaster: &mut PMaster,
    cmaster: &mut CMaster,
    hart: usize,
    mem: &mut PhysMem,
    image: &Image,
    spp: Privilege,
    sepc: u64,
    scause: usize,
) -> (done: Result<UserTrap, Fault>)
    requires
        old(pmaster).coherent(old(cmaster)),
        hart < old(cmaster).harts(),
        old(cmaster).cpu(hart as int).nlock < u8::MAX,
        old(mem).wf(),
        old(cmaster).cpu(hart as int).pin matches Some(slot) ==> !old(pmaster).locked(slot as int)
            && has_frame(old(pmaster), old(mem), slot as int),
        spec_cause(scause) == Trap::Exception(Exception::UserEnvCall) ==> sepc + ECALL_LEN
            <= u64::MAX,
    ensures
        final(pmaster).coherent(final(cmaster)),
        final(pmaster).follows(old(pmaster)),
        final(mem).wf(),
        final(mem).same_range(old(mem)),
        spp != Privilege::User || old(cmaster).cpu(hart as int).pin is None ==> {
            &&& *final(mem) == *old(mem)
            &&& final(pmaster).same_but(old(pmaster), -1)
            &&& final(cmaster).only_changed(old(cmaster), hart as int, old(cmaster).hart(hart as int))
            &&& done == Err::<UserTrap, Fault>(
                if spp != Privilege::User {
                    Fault::NotFromUser
                } else {
                    Fault::NotHoldingProcess
                },
            )
        },
        spp == Privilege::User && old(cmaster).cpu(hart as int).pin is Some ==> {
            let slot = old(cmaster).cpu(hart as int).pin->0;
            let trapframe = old(pmaster).proc(slot as int).context.trapframe;
            let saved = frame_words(old(mem), trapframe).update(EPC as int, sepc);
            let syscall = spec_cause(scause) == Trap::Exception(Exception::UserEnvCall);
            let timer = spec_cause(scause) == Trap::Interrupt(Interrupt::SupervisorSoft);
            &&& done == match user_fault(old(cmaster), hart as int, spp, scause, saved) {
                Some(fault) => Err::<UserTrap, Fault>(fault),
                None => Ok(
                    UserTrap {
                        stvec: image.kernelvec,
                        next: if timer {
                            Next::Yield(Switch { save: Holder::Proc(slot), load: Holder::Hart(hart) })
                        } else {
                            Next::Return(spec_handle(saved)->Ok_0)
                        },
                    },
                ),
            }
            &&& frame_words(final(mem), trapframe) == if syscall {
                saved.update(EPC as int, (sepc + ECALL_LEN) as u64)
            } else {
                saved
            }
            &&& forall|a: u64|
                old(mem).holds(a) && a != trapframe + 8 * EPC ==> #[trigger] final(mem).at(a)
                    == old(mem).at(a)
            &&& timer ==> {
                &&& final(pmaster).same_but(old(pmaster), slot as int)
                &&& final(pmaster).state(slot as int) == State::Runnable
                &&& final(pmaster).locked(slot as int)
                &&& final(pmaster).proc(slot as int).context == old(pmaster).proc(
                    slot as int,
                ).context
                &&& final(cmaster).only_changed(
                    old(cmaster),
                    hart as int,
                    old(cmaster).hart(hart as int).pushed(),
                )
            }
            &&& !timer ==> {
                &&& final(pmaster).same_but(old(pmaster), -1)
                &&& final(cmaster).only_changed(
                    old(cmaster),
                    hart as int,
                    if syscall {
                        old(cmaster).hart(hart as int).relocked().with_sie(false)
                    } else {
                        old(cmaster).hart(hart as int).relocked()
                    },
                )
            }
        },
{
    if spp != Privilege::User {
        proof {
            old(pmaster).lemma_coherent_same(old(cmaster), cmaster);
        }
        return Err(Fault::NotFromUser);
    }
    if cmaster.my_cpu(hart).pin.is_none() {
        return Err(Fault::NotHoldingProcess);
    }
    proof {
        lemma_relocked(cmaster.hart(hart as int));
    }
    let ghost m0 = *mem;
    let slot = match pmaster.my_proc(cmaster, hart) {
        Ok(slot) => slot,
        Err(fault) => {
            return Err(fault);
        },
    };
    proof {
        old(pmaster).lemma_coherent_same(old(cmaster), cmaster);
    }
    let trapframe = pmaster.index(slot).context.trapframe;
    TrapFrame::set(mem, trapframe, EPC, sepc);
    let ghost m1 = *mem;
    proof {
        assert forall|a: u64| m0.holds(a) && a != trapframe + 8 * EPC implies #[trigger] m1.at(a)
            == m0.at(a) by {
            assert(trapframe % 8 == 0);
            m0.lemma_slots(a, (trapframe + 8 * EPC) as u64);
        }
    }
    match cause(scause) {
        Trap::Interrupt(Interrupt::SupervisorSoft) => {
            match pmaster.step(cmaster, hart) {
                Ok(switch) => Ok(UserTrap { stvec: image.kernelvec, next: Next::Yield(switch) }),
                Err(fault) => Err(fault),
            }
        },
        Trap::Exception(Exception::UserEnvCall) => {
            let ghost c1 = *cmaster;
            cmaster.intr_off(hart);
            proof {
                pmaster.lemma_coherent_same(&c1, cmaster);
            }
            let done = handle(mem, trapframe);
            proof {
                assert forall|a: u64|
                    m0.holds(a) && a != trapframe + 8 * EPC implies #[trigger] mem.at(a) == m0.at(
                    a,
                ) by {
                    assert(trapframe % 8 == 0);
                    m1.lemma_slots(a, (trapframe + 8 * EPC) as u64);
                    assert(m1.at(a) == m0.at(a));
                }
            }
            match done {
                Ok(effect) => Ok(UserTrap { stvec: image.kernelvec, next: Next::Return(effect) }),
                Err(fault) => Err(fault),
            }
        },
        Trap::Interrupt(Interrupt::SupervisorExternal) => Err(Fault::ExternalInterrupt),
        t => Err(Fault::UnexpectedTrap(t)),
    }
}

/// Address of the trampoline routine at `routine` in the trampoline's own
/// page, once that page is mapped at the top of the address space.
pub open spec fn spec_in_trampoline(image: &Image, routine: u64) -> u64 {
    (TRAMPOLINE + (routine - image.traptext)) as u64
}

/// What returning to user space asks of the hart, for the process in slot
/// `slot` with its trap frame `frame`.
pub open spec fn spec_user_return(
    pmaster: &PMaster,
    image: &Image,
    slot: int,
    frame: Seq<u64>,
) -> UserReturn {
    UserReturn {
        stvec: spec_in_trampoline(image, image.uservec),
        sepc: frame[EPC as int],
        spp: Privilege::User,
        spie: true,
        satp: spec_make_satp(pmaster.proc(slot).context.pagetable),
        userret: spec_in_trampoline(image, image.userret),
    }
}

/// The trap frame `frame` with what the trampoline needs at the next trap to
/// get into the kernel: the kernel's page table, the top of the process's
/// kernel stack, the address of the handler, and the hart.
pub open spec fn spec_linked(
    frame: Seq<u64>,
    satp: u64,
    kstack: u64,
    usertrap: u64,
    hart: usize,
) -> Seq<u64> {
    frame.update(KERNEL_SATP as int, satp).update(KERNEL_SP as int, (kstack + PGSIZE) as u64).update(
        KERNEL_TRAP as int,
        usertrap,
    ).update(KERNEL_HARTID as int, hart as u64)
}

/// Return to user space, for the process on hart `hart`; `satp` is what the
/// register of that name holds. Interrupts are turned off: from here to the
/// return the trap vector and the trap frame are being changed for user
/// space.
#[verifier::rlimit(30)]
pub fn usertrapret(
    pmaster: &PMaster,
    cmaster: &mut CMaster,
    hart: usize,
    mem: &mut PhysMem,
    image: &Image,
    satp: u64,
) -> (done: Result<UserReturn, Fault>)
    requires
        pmaster.coherent(old(cmaster)),
        image.wf(),
        hart < old(cmaster).harts(),
        old(cmaster).cpu(hart as int).nlock < u8::MAX,
        old(mem).wf(),
        old(cmaster).cpu(hart as int).pin matches Some(slot) ==> has_frame(
            pmaster,
            old(mem),
            slot as int,
        ),
    ensures
        pmaster.coherent(final(cmaster)),
        final(mem).wf(),
        final(mem).same_range(old(mem)),
        final(cmaster).only_changed(
            old(cmaster),
            hart as int,
            old(cmaster).hart(hart as int).with_sie(false).relocked(),
        ),
        match old(cmaster).cpu(hart as int).pin {
            None => done == Err::<UserReturn, Fault>(Fault::NotHoldingProcess) && *final(mem)
                == *old(mem),
            Some(slot) => {
                let context = pmaster.proc(slot as int).context;
                &&& done == Ok::<UserReturn, Fault>(
                    spec_user_return(
                        pmaster,
                        image,
                        slot as int,
                        frame_words(old(mem), context.trapframe),
                    ),
                )
                &&& frame_words(final(mem), context.trapframe) == spec_linked(
                    frame_words(old(mem), context.trapframe),
                    satp,
                    context.kstack->0,
                    image.usertrap,
                    hart,
                )
                &&& forall|a: u64|
                    old(mem).holds(a) && !(context.trapframe <= a < context.trapframe + 8 * EPC)
                        && a != context.trapframe + 8 * KERNEL_HARTID ==> #[trigger] final(mem).at(a)
                        == old(mem).at(a)
            },
        },
{
    let ghost c0 = *cmaster;
    cmaster.intr_off(hart);
    let ghost c1 = *cmaster;
    proof {
        pmaster.lemma_coherent_same(&c0, cmaster);
        lemma_relocked(cmaster.hart(hart as int));
    }
    let slot = match pmaster.my_proc(cmaster, hart) {
        Ok(slot) => slot,
        Err(fault) => {
            proof {
                pmaster.lemma_coherent_same(&c1, cmaster);
            }
            return Err(fault);
        },
    };
    proof {
        pmaster.lemma_coherent_same(&c1, cmaster);
        assert(PMaster::has_kstack(pmaster.proc(slot as int), slot as int));
    }
    let context = &pmaster.index(slot).context;
    let trapframe = context.trapframe;
    let kstack = match context.kstack {
        Some(va) => va,
        None => 0,
    };
    let ghost m0 = *mem;
    let stvec = TRAMPOLINE + (image.uservec - image.traptext);
    TrapFrame::set(mem, trapframe, KERNEL_SATP, satp);
    let ghost m1 = *mem;
    TrapFrame::set(mem, trapframe, KERNEL_SP, kstack + PGSIZE);
    let ghost m2 = *mem;
    TrapFrame::set(mem, trapframe, KERNEL_TRAP, image.usertrap);
    let ghost m3 = *mem;
    TrapFrame::set(mem, trapframe, KERNEL_HARTID, hart as u64);
    let sepc = TrapFrame::get(mem, trapframe, EPC);
    proof {
        assert forall|a: u64|
            m0.holds(a) && !(trapframe <= a < trapframe + 8 * EPC) && a != trapframe + 8
                * KERNEL_HARTID implies #[trigger] mem.at(a) == m0.at(a) by {
            assert(trapframe % 8 == 0);
            m0.lemma_slots(a, (trapframe + 8 * KERNEL_SATP) as u64);
            m1.lemma_slots(a, (trapframe + 8 * KERNEL_SP) as u64);
            m2.lemma_slots(a, (trapframe + 8 * KERNEL_TRAP) as u64);
            m3.lemma_slots(a, (trapframe + 8 * KERNEL_HARTID) as u64);
            assert(m1.at(a) == m0.at(a));
            assert(m2.at(a) == m1.at(a));
            assert(m3.at(a) == m2.at(a));
        }
    }
    let satp = make_satp(context.pagetable);
    let userret = TRAMPOLINE + (image.userret - image.traptext);
    Ok(UserReturn { stvec, sepc, spp: Privilege::User, spie: true, satp, userret })
}

/// Where a new process starts, after the scheduler switched to it for the
/// first time: it gives back its lock, which the scheduler took for the
/// switch, and returns to user space.
#[verifier::rlimit(30)]
pub fn forkret(
    pmaster: &mut PMaster,
    cmaster: &mut CMaster,
    hart: usize,
    mem: &mut PhysMem,
    image: &Image,
    satp: u64,
) -> (done: UserReturn)
    requires
        old(pmaster).coherent(old(cmaster)),
        image.wf(),
        hart < old(cmaster).harts(),
        old(cmaster).cpu(hart as int).pin matches Some(slot) && old(pmaster).locked(slot as int)
            && old(pmaster).state(slot as int) == State::Running && has_frame(
            old(pmaster),
            old(mem),
            slot as int,
        ),
    ensures
        final(pmaster).coherent(final(cmaster)),
        final(pmaster).follows(old(pmaster)),
        final(mem).wf(),
        final(mem).same_range(old(mem)),
        old(cmaster).cpu(hart as int).pin matches Some(slot) && {
            let context = old(pmaster).proc(slot as int).context;
            &&& final(pmaster).same_but(old(pmaster), slot as int)
            &&& !final(pmaster).locked(slot as int)
            &&& final(pmaster).state(slot as int) == State::Running
            &&& final(pmaster).proc(slot as int).context == context
            &&& done == spec_user_return(
                old(pmaster),
                image,
                slot as int,
                frame_words(old(mem), context.trapframe),
            )
            &&& frame_words(final(mem), context.trapframe) == spec_linked(
                frame_words(old(mem), context.trapframe),
                satp,
                context.kstack->0,
                image.usertrap,
                hart,
            )
            &&& forall|a: u64|
                old(mem).holds(a) && !(context.trapframe <= a < context.trapframe + 8 * EPC) && a
                    != context.trapframe + 8 * KERNEL_HARTID ==> #[trigger] final(mem).at(a)
                    == old(mem).at(a)
        },
        final(cmaster).only_changed(
            old(cmaster),
            hart as int,
            old(cmaster).hart(hart as int).popped().with_sie(false).relocked(),
        ),
{
    proof {
        let slot = cmaster.cpu(hart as int).pin->0 as int;
        assert(PMaster::pins(cmaster, hart as int, slot));
        pmaster.lemma_holder_counts(cmaster, hart as int, slot);
    }
    pmaster.resume(cmaster, hart);
    match usertrapret(pmaster, cmaster, hart, mem, image, satp) {
        Ok(done) => done,
        Err(_) => {
            proof {
                assert(false);
            }
            UserReturn {
                stvec: 0,
                sepc: 0,
                spp: Privilege::User,
                spie: true,
                satp: 0,
                userret: 0,
            }
        },
    }
}

/// The trap vector for traps from the kernel, to be written to `stvec`.
pub fn init(image: &Image) -> (stvec: u64)
    ensures
        stvec == image.kernelvec,
{
    image.kernelvec
}

} // verus!
