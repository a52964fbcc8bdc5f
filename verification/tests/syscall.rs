use rxv6::fault::Fault;
use rxv6::memory::phys::PhysMem;
use rxv6::process::trapframe::{TrapFrame, A0, A1, A5, A6, A7, EPC, RA, T6};
use rxv6::syscall::{handle, Effect, SysCall};

const BASE: u64 = 0x8020_0000;

#[test]
fn numbers_of_the_calls() {
    let calls = [
        SysCall::Fork,
        SysCall::Exit,
        SysCall::Wait,
        SysCall::Pipe,
        SysCall::Read,
        SysCall::Kill,
        SysCall::Exec,
        SysCall::Fstat,
        SysCall::Chdir,
        SysCall::Dup,
        SysCall::GetPid,
        SysCall::Sbrk,
        SysCall::Sleep,
        SysCall::Uptime,
        SysCall::Open,
        SysCall::Write,
        SysCall::Mknod,
        SysCall::Unlink,
        SysCall::Link,
        SysCall::Mkdir,
        SysCall::Close,
        SysCall::Log,
    ];
    for (i, call) in calls.iter().enumerate() {
        assert_eq!(SysCall::from_number(i as u64 + 1), Ok(*call));
    }
    assert_eq!(SysCall::from_number(0), Err(Fault::UnsupportedSyscall(0)));
    assert_eq!(SysCall::from_number(23), Err(Fault::UnsupportedSyscall(23)));
    assert_eq!(SysCall::from_number(u64::MAX), Err(Fault::UnsupportedSyscall(u64::MAX)));
}

#[test]
fn arguments_come_from_a0_to_a5() {
    let mut mem = PhysMem::new(BASE, 1).unwrap();
    for reg in A0..=A7 {
        TrapFrame::set(&mut mem, BASE, reg, 100 + reg as u64);
    }
    for n in 0..6u8 {
        assert_eq!(SysCall::nth_arg(&mem, BASE, n), Some(100 + (A0 + n as usize) as u64));
    }
    assert_eq!(SysCall::nth_arg(&mem, BASE, 6), None);
    assert_eq!(SysCall::nth_arg(&mem, BASE, 255), None);
    assert_eq!(A1, A0 + 1);
    assert_eq!(A5, A0 + 5);
    assert_eq!(A6, A0 + 6);
}

#[test]
fn call_number_comes_from_a7() {
    let mut mem = PhysMem::new(BASE, 1).unwrap();
    TrapFrame::set(&mut mem, BASE, A7, 11);
    TrapFrame::set(&mut mem, BASE, A0, 22);
    assert_eq!(SysCall::from_trapframe(&mem, BASE), Ok(SysCall::GetPid));
}

#[test]
fn handle_moves_past_the_call_whatever_it_is() {
    let mut mem = PhysMem::new(BASE, 1).unwrap();
    TrapFrame::set(&mut mem, BASE, EPC, 0x1000);
    TrapFrame::set(&mut mem, BASE, A7, 22);
    TrapFrame::set(&mut mem, BASE, A0, 9);
    assert_eq!(handle(&mut mem, BASE), Ok(Effect::Log(9)));
    assert_eq!(TrapFrame::get(&mem, BASE, EPC), 0x1004);
    TrapFrame::set(&mut mem, BASE, A7, 2);
    assert_eq!(handle(&mut mem, BASE), Err(Fault::UnimplementedSyscall(SysCall::Exit)));
    assert_eq!(TrapFrame::get(&mem, BASE, EPC), 0x1008);
    TrapFrame::set(&mut mem, BASE, A7, 99);
    assert_eq!(handle(&mut mem, BASE), Err(Fault::UnsupportedSyscall(99)));
    assert_eq!(TrapFrame::get(&mem, BASE, EPC), 0x100c);
}

#[test]
fn trap_frame_layout() {
    let names = [
        "kernel_satp", "kernel_sp", "kernel_trap", "epc", "kernel_hartid", "ra", "sp", "gp", "tp",
        "t0", "t1", "t2", "s0", "s1", "a0", "a1", "a2", "a3", "a4", "a5", "a6", "a7", "s2", "s3",
        "s4", "s5", "s6", "s7", "s8", "s9", "s10", "s11", "t3", "t4", "t5", "t6",
    ];
    assert_eq!(names.len(), 36);
    assert_eq!(EPC * 8, 24);
    assert_eq!(RA * 8, 40);
    assert_eq!(A0 * 8, 112);
    assert_eq!(A7 * 8, 168);
    assert_eq!(T6 * 8, 280);
    let mut mem = PhysMem::new(BASE, 1).unwrap();
    let mut frame = TrapFrame::default();
    frame.kernel_satp = 1;
    frame.kernel_sp = 2;
    frame.kernel_trap = 3;
    frame.epc = 4;
    frame.kernel_hartid = 5;
    frame.ra = 6;
    frame.a0 = 15;
    frame.a7 = 22;
    frame.s2 = 23;
    frame.t6 = 36;
    frame.store(&mut mem, BASE);
    let want = [(0, 1), (8, 2), (16, 3), (24, 4), (32, 5), (40, 6), (112, 15), (168, 22), (176, 23), (280, 36)];
    for (offset, value) in want {
        assert_eq!(mem.read(BASE + offset), value);
    }
    assert_eq!(mem.read(BASE + 288), 0);
    assert_eq!(TrapFrame::load(&mem, BASE), frame);
    assert_eq!(frame.to_vec().len(), 36);
    assert_eq!(frame.to_vec()[21], 22);
}
