//! System calls: the number of the call comes in register `a7`, its
//! arguments in `a0` to `a5`.

use vstd::prelude::*;
use crate::fault::Fault;
use crate::memory::phys::PhysMem;
use crate::process::trapframe::{frame_words, TrapFrame, A0, A1, A2, A3, A4, A5, A7, EPC};

verus! {

/// The system calls, in the order of their numbers, from 1 on.
#[derive(Clone, Copy, Debug, PartialEq, Eq, Structural)]
pub enum SysCall {
    Fork,
    Exit,
    Wait,
    Pipe,
    Read,
    Kill,
    Exec,
    Fstat,
    Chdir,
    Dup,
    GetPid,
    Sbrk,
    Sleep,
    Uptime,
    Open,
    Write,
    Mknod,
    Unlink,
    Link,
    Mkdir,
    Close,
    Log,
}

/// What a system call asks the kernel's surroundings to do.
#[derive(Clone, Copy, Debug, PartialEq, Eq, Structural)]
pub enum Effect {
    /// Write the value to the console.
    Log(u64),
}

/// Number of arguments that a system call can take.
pub const NARGS: u8 = 6;

/// Bytes of the instruction that makes a system call.
pub const ECALL_LEN: u64 = 4;

impl SysCall {
    /// The system call with the number `nr`.
    pub open spec fn spec_from(nr: u64) -> Option<SysCall> {
        if nr == 1 {
            Some(SysCall::Fork)
        } else if nr == 2 {
            Some(SysCall::Exit)
        } else if nr == 3 {
            Some(SysCall::Wait)
        } else if nr == 4 {
            Some(SysCall::Pipe)
        } else if nr == 5 {
            Some(SysCall::Read)
        } else if nr == 6 {
            Some(SysCall::Kill)
        } else if nr == 7 {
            Some(SysCall::Exec)
        } else if nr == 8 {
            Some(SysCall::Fstat)
        } else if nr == 9 {
            Some(SysCall::Chdir)
        } else if nr == 10 {
            Some(SysCall::Dup)
        } else if nr == 11 {
            Some(SysCall::GetPid)
        } else if nr == 12 {
            Some(SysCall::Sbrk)
        } else if nr == 13 {
            Some(SysCall::Sleep)
        } else if nr == 14 {
            Some(SysCall::Uptime)
        } else if nr == 15 {
            Some(SysCall::Open)
        } else if nr == 16 {
            Some(SysCall::Write)
        } else if nr == 17 {
            Some(SysCall::Mknod)
        } else if nr == 18 {
            Some(SysCall::Unlink)
        } else if nr == 19 {
            Some(SysCall::Link)
        } else if nr == 20 {
            Some(SysCall::Mkdir)
        } else if nr == 21 {
            Some(SysCall::Close)
        } else if nr == 22 {
            Some(SysCall::Log)
        } else {
            None
        }
    }

    /// Place in the trap frame of argument `n`.
    pub open spec fn spec_arg_reg(n: u8) -> int {
        A0 + n
    }

    /// The system call with the number `nr`, or the number as a fault.
    pub fn from_number(nr: u64) -> (call: Result<SysCall, Fault>)
        ensures
            call == match SysCall::spec_from(nr) {
                Some(c) => Ok::<SysCall, Fault>(c),
                None => Err(Fault::UnsupportedSyscall(nr)),
            },
    {
        match nr {
            1 => Ok(SysCall::Fork),
            2 => Ok(SysCall::Exit),
            3 => Ok(SysCall::Wait),
            4 => Ok(SysCall::Pipe),
            5 => Ok(SysCall::Read),
            6 => Ok(SysCall::Kill),
            7 => Ok(SysCall::Exec),
            8 => Ok(SysCall::Fstat),
            9 => Ok(SysCall::Chdir),
            10 => Ok(SysCall::Dup),
            11 => Ok(SysCall::GetPid),
            12 => Ok(SysCall::Sbrk),
            13 => Ok(SysCall::Sleep),
            14 => Ok(SysCall::Uptime),
            15 => Ok(SysCall::Open),
            16 => Ok(SysCall::Write),
            17 => Ok(SysCall::Mknod),
            18 => Ok(SysCall::Unlink),
            19 => Ok(SysCall::Link),
            20 => Ok(SysCall::Mkdir),
            21 => Ok(SysCall::Close),
            22 => Ok(SysCall::Log),
            _ => Err(Fault::UnsupportedSyscall(nr)),
        }
    }

    /// Argument `n` of the system call that the trap frame at `trapframe`
    /// holds; `None` where there is no such argument.
    pub fn nth_arg(mem: &PhysMem, trapframe: u64, n: u8) -> (arg: Option<u64>)
        requires
            mem.wf(),
            mem.holds_page(trapframe),
        ensures
            arg == if n < NARGS {
                Some(frame_words(mem, trapframe)[SysCall::spec_arg_reg(n)])
            } else {
                None
            },
    {
        match n {
            0 => Some(TrapFrame::get(mem, trapframe, A0)),
            1 => Some(TrapFrame::get(mem, trapframe, A1)),
            2 => Some(TrapFrame::get(mem, trapframe, A2)),
            3 => Some(TrapFrame::get(mem, trapframe, A3)),
            4 => Some(TrapFrame::get(mem, trapframe, A4)),
            5 => Some(TrapFrame::get(mem, trapframe, A5)),
            _ => None,
        }
    }

    /// The system call that the trap frame at `trapframe` asks for.
    pub fn from_trapframe(mem: &PhysMem, trapframe: u64) -> (call: Result<SysCall, Fault>)
        requires
            mem.wf(),
            mem.holds_page(trapframe),
        ensures
            call == match SysCall::spec_from(frame_words(mem, trapframe)[A7 as int]) {
                Some(c) => Ok::<SysCall, Fault>(c),
                None => Err(Fault::UnsupportedSyscall(frame_words(mem, trapframe)[A7 as int])),
            },
    {
        Self::from_number(TrapFrame::get(mem, trapframe, A7))
    }
}

/// What the system call `call` does, with the trap frame `frame` at hand.
pub open spec fn spec_effect(call: SysCall, frame: Seq<u64>) -> Result<Effect, Fault> {
    match call {
        SysCall::Log => Ok(Effect::Log(frame[A0 as int])),
        _ => Err(Fault::UnimplementedSyscall(call)),
    }
}

/// What handling the system call in the trap frame `frame` comes to.
pub open spec fn spec_handle(frame: Seq<u64>) -> Result<Effect, Fault> {
    match SysCall::spec_from(frame[A7 as int]) {
        Some(call) => spec_effect(call, frame),
        None => Err(Fault::UnsupportedSyscall(frame[A7 as int])),
    }
}

/// Handles the system call of the process whose trap frame is at
/// `trapframe`. The saved program counter points to the instruction that made
/// the call; it is moved on to the next one, whatever the call. Then the call
/// is done, as far as the kernel knows it.
pub fn handle(mem: &mut PhysMem, trapframe: u64) -> (done: Result<Effect, Fault>)
    requires
        old(mem).wf(),
        old(mem).holds_page(trapframe),
        frame_words(old(mem), trapframe)[EPC as int] + ECALL_LEN <= u64::MAX,
    ensures
        final(mem).wf(),
        final(mem).same_range(old(mem)),
        final(mem).is_write(
            old(mem),
            (trapframe + 8 * EPC) as u64,
            (frame_words(old(mem), trapframe)[EPC as int] + ECALL_LEN) as u64,
        ),
        frame_words(final(mem), trapframe) == frame_words(old(mem), trapframe).update(
            EPC as int,
            (frame_words(old(mem), trapframe)[EPC as int] + ECALL_LEN) as u64,
        ),
        done == spec_handle(frame_words(old(mem), trapframe)),
{
    let epc = TrapFrame::get(mem, trapframe, EPC);
    TrapFrame::set(mem, trapframe, EPC, epc + ECALL_LEN);
    match SysCall::from_trapframe(mem, trapframe) {
        Err(fault) => Err(fault),
        Ok(call) => match call {
            SysCall::Log => test_log(mem, trapframe),
            _ => Err(Fault::UnimplementedSyscall(call)),
        },
    }
}

/// The call that logs its first argument.
fn test_log(mem: &PhysMem, trapframe: u64) -> (done: Result<Effect, Fault>)
    requires
        mem.wf(),
        mem.holds_page(trapframe),
    ensures
        done == Ok::<Effect, Fault>(Effect::Log(frame_words(mem, trapframe)[A0 as int])),
{
    match SysCall::nth_arg(mem, trapframe, 0) {
        Some(a0) => Ok(Effect::Log(a0)),
        None => Err(Fault::UnsupportedSyscall(0)),
    }
}

} // verus!
