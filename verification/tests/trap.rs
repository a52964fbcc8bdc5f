use rxv6::fault::Fault;
use rxv6::memory::kalloc::Kalloc;
use rxv6::memory::layout::{kstack, Image, TRAMPOLINE};
use rxv6::memory::phys::PhysMem;
use rxv6::process::cpu::CMaster;
use rxv6::process::master::{Holder, PMaster, Sweep, Switch};
use rxv6::process::proc::State;
use rxv6::process::trapframe::{
    TrapFrame, A0, A7, EPC, KERNEL_HARTID, KERNEL_SATP, KERNEL_SP, KERNEL_TRAP, SP,
};
use rxv6::syscall::{Effect, SysCall};
use rxv6::trap::cause::{
    cause, code, interrupt_bits, is_interrupt, Exception, Interrupt, Trap,
};
use rxv6::trap::{
    devintr, forkret, init, kerneltrap, usertrap, usertrapret, KernelTrap, Next, Privilege,
    UserReturn, UserTrap,
};

const BASE: u64 = 0x8020_0000;
const TOP: usize = 1 << (usize::BITS - 1);

fn image() -> Image {
    Image {
        end: BASE,
        etext: 0x8000_8000,
        traptext: 0x8000_7000,
        timervec: 0x8000_6000,
        kernelvec: 0x8000_5000,
        uservec: 0x8000_7010,
        userret: 0x8000_7090,
        usertrap: 0x8000_1234,
        forkret: 0x8000_4321,
    }
}

fn machine(pages: usize, slots: usize) -> (PhysMem, Kalloc, CMaster, PMaster) {
    let mut mem = PhysMem::new(BASE, pages).unwrap();
    let mut kalloc = Kalloc::new();
    kalloc.insert(&mut mem, BASE, BASE + 4096 * pages as u64);
    let cmaster = CMaster::new();
    let mut pmaster = PMaster::new();
    pmaster.init(slots);
    (mem, kalloc, cmaster, pmaster)
}

/// A machine whose first process runs on hart 1, in user space.
fn running() -> (PhysMem, Kalloc, CMaster, PMaster) {
    let (mut mem, mut kalloc, mut cm, mut pm) = machine(64, 4);
    assert_eq!(pm.user_init(&mut cm, 1, &mut mem, &mut kalloc, &image()), Ok(0));
    assert_eq!(pm.scheduler(&mut cm, 1, 0), Sweep::Dispatched(0));
    forkret(&mut pm, &mut cm, 1, &mut mem, &image(), 0x8000_0000_0008_0abc);
    (mem, kalloc, cm, pm)
}

#[test]
fn interrupt_codes() {
    let want = [
        (0, Interrupt::UserSoft),
        (1, Interrupt::SupervisorSoft),
        (2, Interrupt::Unknown),
        (3, Interrupt::Unknown),
        (4, Interrupt::UserTimer),
        (5, Interrupt::SupervisorTimer),
        (6, Interrupt::Unknown),
        (7, Interrupt::Unknown),
        (8, Interrupt::UserExternal),
        (9, Interrupt::SupervisorExternal),
        (10, Interrupt::Unknown),
        (TOP - 1, Interrupt::Unknown),
    ];
    for (nr, interrupt) in want {
        assert_eq!(cause(TOP | nr), Trap::Interrupt(interrupt), "code {nr}");
    }
}

#[test]
fn exception_codes() {
    let want = [
        (0, Exception::InstructionMisaligned),
        (1, Exception::InstructionFault),
        (2, Exception::IllegalInstruction),
        (3, Exception::Breakpoint),
        (4, Exception::Unknown),
        (5, Exception::LoadFault),
        (6, Exception::StoreMisaligned),
        (7, Exception::StoreFault),
        (8, Exception::UserEnvCall),
        (9, Exception::Unknown),
        (10, Exception::Unknown),
        (11, Exception::Unknown),
        (12, Exception::InstructionPageFault),
        (13, Exception::LoadPageFault),
        (14, Exception::Unknown),
        (15, Exception::StorePageFault),
        (16, Exception::Unknown),
        (TOP - 1, Exception::Unknown),
    ];
    for (nr, exception) in want {
        assert_eq!(cause(nr), Trap::Exception(exception), "code {nr}");
    }
}

#[test]
fn interrupt_bit_and_code() {
    assert!(!is_interrupt(0));
    assert!(!is_interrupt(TOP - 1));
    assert!(is_interrupt(TOP));
    assert!(is_interrupt(usize::MAX));
    assert_eq!(code(9), 9);
    assert_eq!(code(TOP | 9), 9);
    assert_eq!(code(usize::MAX), TOP - 1);
    assert_eq!(interrupt_bits(1), TOP | 1);
}

#[test]
fn devintr_takes_interrupts_only() {
    assert_eq!(devintr(TOP | 1), Ok(Interrupt::SupervisorSoft));
    assert_eq!(devintr(TOP | 9), Ok(Interrupt::SupervisorExternal));
    assert_eq!(devintr(13), Err(Fault::KernelException(Exception::LoadPageFault)));
}

#[test]
fn external_interrupt_is_not_implemented() {
    let (_mem, _kalloc, mut cm, mut pm) = machine(8, 4);
    assert_eq!(
        kerneltrap(&mut pm, &mut cm, 0, interrupt_bits(9), 0x202),
        Err(Fault::ExternalInterrupt)
    );
    // and with a process on the hart as well
    let (_mem, _kalloc, mut cm, mut pm) = running();
    cm.intr_off(1);
    assert_eq!(
        kerneltrap(&mut pm, &mut cm, 1, interrupt_bits(9), 0),
        Err(Fault::ExternalInterrupt)
    );
    assert_eq!(pm.state_of(0), State::Running);
    assert_eq!(cm.my_cpu(1).pin, Some(0));
}

#[test]
fn kernel_trap_faults() {
    let (_mem, _kalloc, mut cm, mut pm) = machine(8, 4);
    assert_eq!(
        kerneltrap(&mut pm, &mut cm, 0, interrupt_bits(5), 0),
        Err(Fault::UnexpectedInterrupt(Interrupt::SupervisorTimer))
    );
    assert_eq!(
        kerneltrap(&mut pm, &mut cm, 0, interrupt_bits(77), 0),
        Err(Fault::UnexpectedInterrupt(Interrupt::Unknown))
    );
    assert_eq!(
        kerneltrap(&mut pm, &mut cm, 0, 2, 0),
        Err(Fault::KernelException(Exception::IllegalInstruction))
    );
    cm.intr_on(0);
    assert_eq!(kerneltrap(&mut pm, &mut cm, 0, interrupt_bits(1), 0), Err(Fault::InterruptsEnabled));
}

#[test]
fn timer_in_the_kernel_without_a_process() {
    let (_mem, _kalloc, mut cm, mut pm) = machine(8, 4);
    assert_eq!(
        kerneltrap(&mut pm, &mut cm, 0, interrupt_bits(1), 0x222),
        Ok(KernelTrap { sip: 0x220, switch: None })
    );
    assert_eq!(cm.my_cpu(0).nlock, 0);
}

#[test]
fn timer_in_the_kernel_yields_the_process() {
    let (_mem, _kalloc, mut cm, mut pm) = running();
    cm.intr_off(1);
    assert_eq!(
        kerneltrap(&mut pm, &mut cm, 1, interrupt_bits(1), 2),
        Ok(KernelTrap {
            sip: 0,
            switch: Some(Switch { save: Holder::Proc(0), load: Holder::Hart(1) }),
        })
    );
    assert_eq!(pm.state_of(0), State::Runnable);
    assert!(pm.index(0).info.held());
    pm.unpin(&mut cm, 1);
    assert!(!pm.index(0).info.held());
    assert_eq!(cm.my_cpu(1).pin, None);
}

#[test]
fn forkret_links_the_trap_frame_and_returns_to_user_space() {
    let (mut mem, mut kalloc, mut cm, mut pm) = machine(64, 4);
    assert_eq!(pm.user_init(&mut cm, 2, &mut mem, &mut kalloc, &image()), Ok(0));
    assert_eq!(pm.scheduler(&mut cm, 2, 0), Sweep::Dispatched(0));
    assert!(pm.index(0).info.held());
    let satp = 0x8000_0000_0008_0abc;
    let ret = forkret(&mut pm, &mut cm, 2, &mut mem, &image(), satp);
    assert!(!pm.index(0).info.held());
    assert_eq!(pm.state_of(0), State::Running);
    let context = pm.index(0).context;
    assert_eq!(
        ret,
        UserReturn {
            stvec: TRAMPOLINE + 0x10,
            sepc: 0,
            spp: Privilege::User,
            spie: true,
            satp: (8 << 60) | (context.pagetable >> 12),
            userret: TRAMPOLINE + 0x90,
        }
    );
    let tf = context.trapframe;
    assert_eq!(TrapFrame::get(&mem, tf, KERNEL_SATP), satp);
    assert_eq!(TrapFrame::get(&mem, tf, KERNEL_SP), kstack(0) + 4096);
    assert_eq!(TrapFrame::get(&mem, tf, KERNEL_TRAP), 0x8000_1234);
    assert_eq!(TrapFrame::get(&mem, tf, KERNEL_HARTID), 2);
    assert_eq!(TrapFrame::get(&mem, tf, EPC), 0);
    assert_eq!(TrapFrame::get(&mem, tf, SP), 4096);
    assert!(!cm.intr_get(2));
    assert_eq!(cm.my_cpu(2).nlock, 0);
}

#[test]
fn usertrapret_without_a_process() {
    let (mut mem, _kalloc, mut cm, pm) = machine(8, 4);
    cm.intr_on(0);
    assert_eq!(
        usertrapret(&pm, &mut cm, 0, &mut mem, &image(), 0),
        Err(Fault::NotHoldingProcess)
    );
    assert!(!cm.intr_get(0));
}

#[test]
fn user_trap_from_the_kernel_is_a_fault() {
    let (mut mem, _kalloc, mut cm, mut pm) = running();
    assert_eq!(
        usertrap(&mut pm, &mut cm, 1, &mut mem, &image(), Privilege::Supervisor, 0x10, interrupt_bits(1)),
        Err(Fault::NotFromUser)
    );
    let (mut mem, _kalloc, mut cm, mut pm) = machine(8, 4);
    assert_eq!(
        usertrap(&mut pm, &mut cm, 0, &mut mem, &image(), Privilege::User, 0x10, interrupt_bits(1)),
        Err(Fault::NotHoldingProcess)
    );
}

#[test]
fn timer_in_user_space_yields() {
    let (mut mem, _kalloc, mut cm, mut pm) = running();
    let tf = pm.index(0).context.trapframe;
    let done =
        usertrap(&mut pm, &mut cm, 1, &mut mem, &image(), Privilege::User, 0x44, interrupt_bits(1));
    assert_eq!(
        done,
        Ok(UserTrap {
            stvec: 0x8000_5000,
            next: Next::Yield(Switch { save: Holder::Proc(0), load: Holder::Hart(1) }),
        })
    );
    assert_eq!(TrapFrame::get(&mem, tf, EPC), 0x44);
    assert_eq!(pm.state_of(0), State::Runnable);
    assert!(pm.index(0).info.held());
    // the scheduler takes over, finds the process again and runs it
    pm.unpin(&mut cm, 1);
    assert_eq!(pm.scheduler(&mut cm, 1, 1), Sweep::Idle);
    assert_eq!(pm.scheduler(&mut cm, 1, 0), Sweep::Dispatched(0));
    pm.resume(&mut cm, 1);
    let ret = usertrapret(&pm, &mut cm, 1, &mut mem, &image(), 7).unwrap();
    assert_eq!(ret.sepc, 0x44);
    assert_eq!(TrapFrame::get(&mem, tf, KERNEL_SATP), 7);
}

#[test]
fn log_system_call() {
    let (mut mem, _kalloc, mut cm, mut pm) = running();
    let tf = pm.index(0).context.trapframe;
    TrapFrame::set(&mut mem, tf, A7, 22);
    TrapFrame::set(&mut mem, tf, A0, 42);
    cm.intr_on(1);
    let done = usertrap(&mut pm, &mut cm, 1, &mut mem, &image(), Privilege::User, 0x100, 8);
    assert_eq!(
        done,
        Ok(UserTrap { stvec: 0x8000_5000, next: Next::Return(Effect::Log(42)) })
    );
    // the program counter is past the call
    assert_eq!(TrapFrame::get(&mem, tf, EPC), 0x104);
    assert!(!cm.intr_get(1));
    assert_eq!(pm.state_of(0), State::Running);
    let ret = usertrapret(&pm, &mut cm, 1, &mut mem, &image(), 7).unwrap();
    assert_eq!(ret.sepc, 0x104);
}

#[test]
fn system_calls_that_are_not_there() {
    let (mut mem, _kalloc, mut cm, mut pm) = running();
    let tf = pm.index(0).context.trapframe;
    TrapFrame::set(&mut mem, tf, A7, 1);
    assert_eq!(
        usertrap(&mut pm, &mut cm, 1, &mut mem, &image(), Privilege::User, 0x100, 8),
        Err(Fault::UnimplementedSyscall(SysCall::Fork))
    );
    TrapFrame::set(&mut mem, tf, A7, 23);
    assert_eq!(
        usertrap(&mut pm, &mut cm, 1, &mut mem, &image(), Privilege::User, 0x100, 8),
        Err(Fault::UnsupportedSyscall(23))
    );
    TrapFrame::set(&mut mem, tf, A7, 0);
    assert_eq!(
        usertrap(&mut pm, &mut cm, 1, &mut mem, &image(), Privilege::User, 0x100, 8),
        Err(Fault::UnsupportedSyscall(0))
    );
}

#[test]
fn other_traps_from_user_space_are_faults() {
    let (mut mem, _kalloc, mut cm, mut pm) = running();
    assert_eq!(
        usertrap(&mut pm, &mut cm, 1, &mut mem, &image(), Privilege::User, 0x100, 13),
        Err(Fault::UnexpectedTrap(Trap::Exception(Exception::LoadPageFault)))
    );
    assert_eq!(
        usertrap(&mut pm, &mut cm, 1, &mut mem, &image(), Privilege::User, 0x100, interrupt_bits(5)),
        Err(Fault::UnexpectedTrap(Trap::Interrupt(Interrupt::SupervisorTimer)))
    );
    assert_eq!(pm.state_of(0), State::Running);
}

#[test]
fn external_interrupt_from_user_space_is_not_implemented() {
    let (mut mem, _kalloc, mut cm, mut pm) = running();
    let tf = pm.index(0).context.trapframe;
    assert_eq!(
        usertrap(&mut pm, &mut cm, 1, &mut mem, &image(), Privilege::User, 0x100, interrupt_bits(9)),
        Err(Fault::ExternalInterrupt)
    );
    // the process did not give up the hart, and no call was handled
    assert_eq!(pm.state_of(0), State::Running);
    assert_eq!(cm.my_cpu(1).pin, Some(0));
    assert!(!pm.index(0).info.held());
    assert_eq!(TrapFrame::get(&mem, tf, EPC), 0x100);
}

#[test]
fn kernel_trap_vector() {
    assert_eq!(init(&image()), 0x8000_5000);
}
