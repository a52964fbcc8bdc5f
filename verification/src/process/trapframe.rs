//! Per-process data for the trap handling code in the trampoline.
//!
//! The trap frame sits in a page of its own, mapped just under the
//! trampoline page in the user page table. On a trap from user space the
//! trampoline saves the user registers in it and picks the kernel's stack
//! pointer, hart, page table and handler address up from it; on the way back
//! it restores the user registers from it. The order of the words is fixed:
//! the trampoline is written against it.

use vstd::prelude::*;
use crate::arch::PGSIZE;
use crate::memory::kalloc::Kalloc;
use crate::memory::phys::PhysMem;

verus! {

/// Words in a trap frame.
pub const FRAME_WORDS: usize = 36;

/// Place of `kernel_satp` in the trap frame, in words.
pub const KERNEL_SATP: usize = 0;

/// Place of `kernel_sp` in the trap frame, in words.
pub const KERNEL_SP: usize = 1;

/// Place of `kernel_trap` in the trap frame, in words.
pub const KERNEL_TRAP: usize = 2;

/// Place of `epc` in the trap frame, in words.
pub const EPC: usize = 3;

/// Place of `kernel_hartid` in the trap frame, in words.
pub const KERNEL_HARTID: usize = 4;

/// Place of `ra` in the trap frame, in words.
pub const RA: usize = 5;

/// Place of `sp` in the trap frame, in words.
pub const SP: usize = 6;

/// Place of `gp` in the trap frame, in words.
pub const GP: usize = 7;

/// Place of `tp` in the trap frame, in words.
pub const TP: usize = 8;

/// Place of `t0` in the trap frame, in words.
pub const T0: usize = 9;

/// Place of `t1` in the trap frame, in words.
pub const T1: usize = 10;

/// Place of `t2` in the trap frame, in words.
pub const T2: usize = 11;

/// Place of `s0` in the trap frame, in words.
pub const S0: usize = 12;

/// Place of `s1` in the trap frame, in words.
pub const S1: usize = 13;

/// Place of `a0` in the trap frame, in words.
pub const A0: usize = 14;

/// Place of `a1` in the trap frame, in words.
pub const A1: usize = 15;

/// Place of `a2` in the trap frame, in words.
pub const A2: usize = 16;

/// Place of `a3` in the trap frame, in words.
pub const A3: usize = 17;

/// Place of `a4` in the trap frame, in words.
pub const A4: usize = 18;

/// Place of `a5` in the trap frame, in words.
pub const A5: usize = 19;

/// Place of `a6` in the trap frame, in words.
pub const A6: usize = 20;

/// Place of `a7` in the trap frame, in words.
pub const A7: usize = 21;

/// Place of `s2` in the trap frame, in words.
pub const S2: usize = 22;

/// Place of `s3` in the trap frame, in words.
pub const S3: usize = 23;

/// Place of `s4` in the trap frame, in words.
pub const S4: usize = 24;

/// Place of `s5` in the trap frame, in words.
pub const S5: usize = 25;

/// Place of `s6` in the trap frame, in words.
pub const S6: usize = 26;

/// Place of `s7` in the trap frame, in words.
pub const S7: usize = 27;

/// Place of `s8` in the trap frame, in words.
pub const S8: usize = 28;

/// Place of `s9` in the trap frame, in words.
pub const S9: usize = 29;

/// Place of `s10` in the trap frame, in words.
pub const S10: usize = 30;

/// Place of `s11` in the trap frame, in words.
pub const S11: usize = 31;

/// Place of `t3` in the trap frame, in words.
pub const T3: usize = 32;

/// Place of `t4` in the trap frame, in words.
pub const T4: usize = 33;

/// Place of `t5` in the trap frame, in words.
pub const T5: usize = 34;

/// Place of `t6` in the trap frame, in words.
pub const T6: usize = 35;

/// The registers of a process at a trap, with what the trampoline needs to
/// enter the kernel.
#[derive(Clone, Copy, Debug, PartialEq, Eq, Structural)]
pub struct TrapFrame {
    /// Kernel page table, as a `satp` value.
    pub kernel_satp: u64,
    /// Top of the process's kernel stack.
    pub kernel_sp: u64,
    /// Address of the handler for traps from user space.
    pub kernel_trap: u64,
    /// Saved user program counter.
    pub epc: u64,
    /// Hart that the process runs on.
    pub kernel_hartid: u64,
    pub ra: u64,
    pub sp: u64,
    pub gp: u64,
    pub tp: u64,
    pub t0: u64,
    pub t1: u64,
    pub t2: u64,
    pub s0: u64,
    pub s1: u64,
    pub a0: u64,
    pub a1: u64,
    pub a2: u64,
    pub a3: u64,
    pub a4: u64,
    pub a5: u64,
    pub a6: u64,
    pub a7: u64,
    pub s2: u64,
    pub s3: u64,
    pub s4: u64,
    pub s5: u64,
    pub s6: u64,
    pub s7: u64,
    pub s8: u64,
    pub s9: u64,
    pub s10: u64,
    pub s11: u64,
    pub t3: u64,
    pub t4: u64,
    pub t5: u64,
    pub t6: u64,
}

/// The words of the trap frame at `addr`, in order.
pub open spec fn frame_words(mem: &PhysMem, addr: u64) -> Seq<u64> {
    Seq::new(FRAME_WORDS as nat, |i: int| mem.at((addr + 8 * i) as u64))
}

/// Writing one word of a trap frame changes that word of it and no other.
#[verifier::rlimit(30)]
pub proof fn lemma_frame_write(before: &PhysMem, after: &PhysMem, addr: u64, reg: int, value: u64)
    requires
        before.wf(),
        before.holds_page(addr),
        0 <= reg < FRAME_WORDS,
        after.is_write(before, (addr + 8 * reg) as u64, value),
    ensures
        frame_words(after, addr) == frame_words(before, addr).update(reg, value),
{
    assert forall|i: int| 0 <= i < FRAME_WORDS implies frame_words(after, addr)[i]
        == frame_words(before, addr).update(reg, value)[i] by {
        let a = (addr + 8 * i) as u64;
        let w = (addr + 8 * reg) as u64;
        assert(before.holds(a) && before.holds(w)) by {
            assert(addr % 8 == 0);
        }
        before.lemma_slots(a, w);
    }
    assert(frame_words(after, addr) =~= frame_words(before, addr).update(reg, value));
}

impl TrapFrame {
    /// The words of the frame, in the order in which they lie in memory.
    pub open spec fn words(&self) -> Seq<u64> {
        seq![
            self.kernel_satp,
            self.kernel_sp,
            self.kernel_trap,
            self.epc,
            self.kernel_hartid,
            self.ra,
            self.sp,
            self.gp,
            self.tp,
            self.t0,
            self.t1,
            self.t2,
            self.s0,
            self.s1,
            self.a0,
            self.a1,
            self.a2,
            self.a3,
            self.a4,
            self.a5,
            self.a6,
            self.a7,
            self.s2,
            self.s3,
            self.s4,
            self.s5,
            self.s6,
            self.s7,
            self.s8,
            self.s9,
            self.s10,
            self.s11,
            self.t3,
            self.t4,
            self.t5,
            self.t6,
        ]
    }

    /// The frame with every word zero.
    pub fn default() -> (frame: TrapFrame)
        ensures
            frame.words() == Seq::new(FRAME_WORDS as nat, |i: int| 0u64),
    {
        let frame = TrapFrame {
            kernel_satp: 0,
            kernel_sp: 0,
            kernel_trap: 0,
            epc: 0,
            kernel_hartid: 0,
            ra: 0,
            sp: 0,
            gp: 0,
            tp: 0,
            t0: 0,
            t1: 0,
            t2: 0,
            s0: 0,
            s1: 0,
            a0: 0,
            a1: 0,
            a2: 0,
            a3: 0,
            a4: 0,
            a5: 0,
            a6: 0,
            a7: 0,
            s2: 0,
            s3: 0,
            s4: 0,
            s5: 0,
            s6: 0,
            s7: 0,
            s8: 0,
            s9: 0,
            s10: 0,
            s11: 0,
            t3: 0,
            t4: 0,
            t5: 0,
            t6: 0,
        };
        assert(frame.words() =~= Seq::new(FRAME_WORDS as nat, |i: int| 0u64));
        frame
    }

    /// Word `reg` of the trap frame at `addr`.
    pub fn get(mem: &PhysMem, addr: u64, reg: usize) -> (value: u64)
        requires
            mem.wf(),
            mem.holds_page(addr),
            reg < FRAME_WORDS,
        ensures
            value == frame_words(mem, addr)[reg as int],
    {
        assert(addr % 8 == 0);
        mem.read(addr + 8 * (reg as u64))
    }

    /// Stores `value` as word `reg` of the trap frame at `addr`.
    pub fn set(mem: &mut PhysMem, addr: u64, reg: usize, value: u64)
        requires
            old(mem).wf(),
            old(mem).holds_page(addr),
            reg < FRAME_WORDS,
        ensures
            final(mem).wf(),
            final(mem).same_range(old(mem)),
            final(mem).is_write(old(mem), (addr + 8 * reg) as u64, value),
            frame_words(final(mem), addr) == frame_words(old(mem), addr).update(reg as int, value),
    {
        assert(addr % 8 == 0);
        let ghost before = *mem;
        mem.write(addr + 8 * (reg as u64), value);
        proof {
            lemma_frame_write(&before, mem, addr, reg as int, value);
        }
    }

    /// The trap frame at `addr`.
    #[verifier::rlimit(30)]
    pub fn load(mem: &PhysMem, addr: u64) -> (frame: TrapFrame)
        requires
            mem.wf(),
            mem.holds_page(addr),
        ensures
            frame.words() == frame_words(mem, addr),
    {
        let frame = TrapFrame {
            kernel_satp: Self::get(mem, addr, KERNEL_SATP),
            kernel_sp: Self::get(mem, addr, KERNEL_SP),
            kernel_trap: Self::get(mem, addr, KERNEL_TRAP),
            epc: Self::get(mem, addr, EPC),
            kernel_hartid: Self::get(mem, addr, KERNEL_HARTID),
            ra: Self::get(mem, addr, RA),
            sp: Self::get(mem, addr, SP),
            gp: Self::get(mem, addr, GP),
            tp: Self::get(mem, addr, TP),
            t0: Self::get(mem, addr, T0),
            t1: Self::get(mem, addr, T1),
            t2: Self::get(mem, addr, T2),
            s0: Self::get(mem, addr, S0),
            s1: Self::get(mem, addr, S1),
            a0: Self::get(mem, addr, A0),
            a1: Self::get(mem, addr, A1),
            a2: Self::get(mem, addr, A2),
            a3: Self::get(mem, addr, A3),
            a4: Self::get(mem, addr, A4),
            a5: Self::get(mem, addr, A5),
            a6: Self::get(mem, addr, A6),
            a7: Self::get(mem, addr, A7),
            s2: Self::get(mem, addr, S2),
            s3: Self::get(mem, addr, S3),
            s4: Self::get(mem, addr, S4),
            s5: Self::get(mem, addr, S5),
            s6: Self::get(mem, addr, S6),
            s7: Self::get(mem, addr, S7),
            s8: Self::get(mem, addr, S8),
            s9: Self::get(mem, addr, S9),
            s10: Self::get(mem, addr, S10),
            s11: Self::get(mem, addr, S11),
            t3: Self::get(mem, addr, T3),
            t4: Self::get(mem, addr, T4),
            t5: Self::get(mem, addr, T5),
            t6: Self::get(mem, addr, T6),
        };
        assert(frame.words() =~= frame_words(mem, addr));
        frame
    }

    /// Stores the frame at `addr`.
    #[verifier::rlimit(30)]
    pub fn store(&self, mem: &mut PhysMem, addr: u64)
        requires
            old(mem).wf(),
            old(mem).holds_page(addr),
        ensures
            final(mem).wf(),
            final(mem).same_range(old(mem)),
            frame_words(final(mem), addr) == self.words(),
            forall|a: u64|
                old(mem).holds(a) && !(addr <= a < addr + 8 * FRAME_WORDS) ==> #[trigger] final(mem).at(a)
                    == old(mem).at(a),
    {
        let words = self.to_vec();
        let mut reg: usize = 0;
        while reg < FRAME_WORDS
            invariant
                reg <= FRAME_WORDS,
                words@ == self.words(),
                mem.wf(),
                mem.same_range(old(mem)),
                old(mem).wf(),
                old(mem).holds_page(addr),
                forall|i: int| 0 <= i < reg ==> frame_words(mem, addr)[i] == words@[i],
                forall|a: u64|
                    old(mem).holds(a) && !(addr <= a < addr + 8 * FRAME_WORDS) ==> #[trigger] mem.at(a)
                        == old(mem).at(a),
            decreases FRAME_WORDS - reg,
        {
            let ghost before = *mem;
            Self::set(mem, addr, reg, words[reg]);
            proof {
                assert forall|a: u64|
                    old(mem).holds(a) && !(addr <= a < addr + 8 * FRAME_WORDS) implies #[trigger] mem.at(
                    a,
                ) == old(mem).at(a) by {
                    let w = (addr + 8 * reg) as u64;
                    assert(before.holds(w)) by {
                        assert(addr % 8 == 0);
                    }
                    assert(before.holds(a));
                    assert(a != w);
                    before.lemma_slots(a, w);
                    assert(before.at(a) == old(mem).at(a));
                    assert(mem.at(a) == before.at(a));
                }
                assert forall|i: int| 0 <= i < reg + 1 implies frame_words(mem, addr)[i]
                    == words@[i] by {
                    assert(frame_words(&before, addr)[i] == words@[i] || i == reg);
                }
            }
            reg = reg + 1;
        }
        assert(frame_words(mem, addr) =~= self.words());
    }

    /// The words of the frame, in the order in which they lie in memory.
    pub fn to_vec(&self) -> (words: Vec<u64>)
        ensures
            words@ == self.words(),
    {
        let mut words: Vec<u64> = Vec::new();
        words.push(self.kernel_satp);
        words.push(self.kernel_sp);
        words.push(self.kernel_trap);
        words.push(self.epc);
        words.push(self.kernel_hartid);
        words.push(self.ra);
        words.push(self.sp);
        words.push(self.gp);
        words.push(self.tp);
        words.push(self.t0);
        words.push(self.t1);
        words.push(self.t2);
        words.push(self.s0);
        words.push(self.s1);
        words.push(self.a0);
        words.push(self.a1);
        words.push(self.a2);
        words.push(self.a3);
        words.push(self.a4);
        words.push(self.a5);
        words.push(self.a6);
        words.push(self.a7);
        words.push(self.s2);
        words.push(self.s3);
        words.push(self.s4);
        words.push(self.s5);
        words.push(self.s6);
        words.push(self.s7);
        words.push(self.s8);
        words.push(self.s9);
        words.push(self.s10);
        words.push(self.s11);
        words.push(self.t3);
        words.push(self.t4);
        words.push(self.t5);
        words.push(self.t6);
        assert(words@ =~= self.words());
        words
    }

    /// A zeroed trap frame in a page taken from the allocator, by its
    /// address; `None` and nothing changed where the allocator has no page
    /// left.
    #[verifier::rlimit(30)]
    pub fn new(mem: &mut PhysMem, kalloc: &mut Kalloc) -> (frame: Option<u64>)
        requires
            old(kalloc).wf(old(mem)),
        ensures
            final(kalloc).wf(final(mem)),
            final(mem).same_range(old(mem)),
            frame is Some <==> old(kalloc)@.len() > 0,
            frame is None ==> *final(mem) == *old(mem) && final(kalloc)@ == old(kalloc)@,
            frame matches Some(addr) ==> {
                &&& addr == old(kalloc)@[0]
                &&& final(mem).holds_page(addr)
                &&& final(kalloc)@ == old(kalloc)@.skip(1)
                &&& frame_words(final(mem), addr) == Seq::new(FRAME_WORDS as nat, |i: int| 0u64)
                &&& forall|a: u64|
                    old(mem).holds(a) && !(addr <= a < addr + PGSIZE) ==> #[trigger] final(mem).at(a)
                        == old(mem).at(a)
            },
    {
        let ghost before = *mem;
        let ghost free_before = kalloc@;
        proof {
            kalloc.lemma_free_pages(mem);
        }
        match kalloc.alloc_page(mem) {
            None => None,
            Some(addr) => {
                TrapFrame::default().store(mem, addr);
                proof {
                    assert forall|k: int| 0 <= k < kalloc@.len() implies mem.at(
                        #[trigger] kalloc@[k],
                    ) == before.at(kalloc@[k]) by {
                        assert(kalloc@[k] == free_before[k + 1]);
                        assert(before.holds(kalloc@[k]));
                    }
                    kalloc.lemma_frame(&before, mem);
                }
                Some(addr)
            },
        }
    }
}

} // verus!
