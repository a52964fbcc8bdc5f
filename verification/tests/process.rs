use rxv6::fault::Fault;
use rxv6::memory::kalloc::Kalloc;
use rxv6::memory::layout::{kstack, Image, TRAMPOLINE, TRAPFRAME};
use rxv6::memory::phys::PhysMem;
use rxv6::memory::vm::PageTable;
use rxv6::process::cpu::CMaster;
use rxv6::process::master::{Holder, PMaster, Sweep, Switch, INITCODE};
use rxv6::process::proc::{Proc, ProcContext, ProcInfo, State};
use rxv6::process::trapframe::{TrapFrame, EPC, SP};

const BASE: u64 = 0x8020_0000;

fn image() -> Image {
    Image {
        end: BASE,
        etext: 0x8000_8000,
        traptext: 0x8000_7000,
        timervec: 0x8000_6000,
        kernelvec: 0x8000_5000,
        uservec: 0x8000_7000,
        userret: 0x8000_7090,
        usertrap: 0x8000_1234,
        forkret: 0x8000_4321,
    }
}

fn machine(pages: usize, slots: usize) -> (PhysMem, Kalloc, CMaster, PMaster) {
    let mut mem = PhysMem::new(BASE, pages).unwrap();
    let mut kalloc = Kalloc::new();
    kalloc.insert(&mut mem, BASE, BASE + 4096 * pages as u64);
    let cmaster = CMaster::new();
    let mut pmaster = PMaster::new();
    pmaster.init(slots);
    (mem, kalloc, cmaster, pmaster)
}

const ALL: [State; 6] = [
    State::Unused,
    State::Used,
    State::Sleeping,
    State::Runnable,
    State::Running,
    State::Zombie,
];

#[test]
fn steps_of_a_process() {
    let edges = [
        (State::Unused, State::Used),
        (State::Used, State::Runnable),
        (State::Runnable, State::Running),
        (State::Running, State::Runnable),
        (State::Running, State::Zombie),
    ];
    for from in ALL {
        for to in ALL {
            assert_eq!(from.can_become(to), edges.contains(&(from, to)), "{from:?} {to:?}");
        }
    }
}

#[test]
fn advance_refuses_what_is_no_step() {
    let mut info = ProcInfo::new();
    assert_eq!(info.state(), State::Unused);
    assert!(!info.advance(State::Running));
    assert_eq!(info.state(), State::Unused);
    assert!(!info.advance(State::Unused));
    assert!(info.advance(State::Used));
    assert!(!info.advance(State::Unused));
    assert!(info.advance(State::Runnable));
    assert!(info.advance(State::Running));
    assert!(info.advance(State::Runnable));
    assert!(info.advance(State::Running));
    assert!(info.advance(State::Zombie));
    for to in ALL {
        assert!(!info.advance(to));
    }
    assert_eq!(info.state(), State::Zombie);
}

#[test]
fn fresh_records() {
    let proc = Proc::new();
    assert!(!proc.info.held());
    assert_eq!(proc.info.peek().state(), State::Unused);
    let context = ProcContext::new();
    assert_eq!(context.kstack, None);
    assert_eq!(context.pid, 0);
    assert_eq!(context.trapframe, 0);
    assert_eq!(context.pagetable, 0);
    assert_eq!(context.context.ra, 0);
}

#[test]
fn init_gives_each_slot_its_stack() {
    let (_mem, _kalloc, _cm, pm) = machine(1, 5);
    assert_eq!(pm.size(), 5);
    for i in 0..5 {
        assert_eq!(pm.state_of(i), State::Unused);
        assert_eq!(pm.index(i).context.kstack, Some(kstack(i)));
        assert!(!pm.index(i).info.held());
    }
    assert_eq!(PMaster::new().size(), 0);
}

#[test]
fn pids_count_up_from_one() {
    let (_mem, _kalloc, mut cm, mut pm) = machine(1, 1);
    cm.intr_on(0);
    assert_eq!(pm.alloc_pid(&mut cm, 0), 1);
    assert_eq!(pm.alloc_pid(&mut cm, 0), 2);
    assert_eq!(pm.alloc_pid(&mut cm, 3), 3);
    assert!(cm.intr_get(0));
    assert_eq!(cm.my_cpu(0).nlock, 0);
}

#[test]
fn allocate_sets_the_process_up() {
    let (mut mem, mut kalloc, mut cm, mut pm) = machine(16, 2);
    let slot = pm.allocate(&mut cm, 0, &mut mem, &mut kalloc, &image()).unwrap();
    assert_eq!(slot, 0);
    let context = pm.index(0).context;
    assert_eq!(context.pid, 1);
    assert_eq!(context.trapframe, BASE + 15 * 4096);
    assert_eq!(context.pagetable, BASE + 14 * 4096);
    assert_eq!(context.context.ra, 0x8000_4321);
    assert_eq!(context.context.sp, kstack(0) + 4096);
    assert_eq!(context.context.s0, 0);
    assert_eq!(context.kstack, Some(kstack(0)));
    assert_eq!(pm.state_of(0), State::Used);
    assert_eq!(pm.state_of(1), State::Unused);
    assert!(!pm.index(0).info.held());
    let table = PageTable::from_addr(context.pagetable);
    assert_eq!(table.translate(&mem, TRAMPOLINE + 4), Some(0x8000_7004));
    assert_eq!(table.translate(&mem, TRAPFRAME + 8), Some(context.trapframe + 8));
    assert_eq!(table.translate(&mem, 0), None);
    assert_eq!(TrapFrame::load(&mem, context.trapframe), TrapFrame::default());
    assert!(kalloc.available(&mem, 12));
    assert!(!kalloc.available(&mem, 13));
}

#[test]
fn allocate_fails_when_the_table_is_full() {
    for m in [0usize, 1, 4] {
        let (mut mem, mut kalloc, mut cm, mut pm) = machine(64, m);
        let mut pids = Vec::new();
        for i in 0..m {
            assert_eq!(pm.allocate(&mut cm, 0, &mut mem, &mut kalloc, &image()), Some(i));
            pids.push(pm.index(i).context.pid);
        }
        assert!(pids.windows(2).all(|w| w[0] < w[1]));
        assert_eq!(pm.allocate(&mut cm, 0, &mut mem, &mut kalloc, &image()), None);
        assert_eq!(pm.allocate(&mut cm, 0, &mut mem, &mut kalloc, &image()), None);
    }
}

#[test]
fn allocate_without_memory_changes_nothing() {
    let (mut mem, mut kalloc, mut cm, mut pm) = machine(3, 2);
    assert_eq!(pm.allocate(&mut cm, 0, &mut mem, &mut kalloc, &image()), None);
    assert_eq!(pm.state_of(0), State::Unused);
    assert!(kalloc.available(&mem, 3));
    // the identifier was not used up
    let (mut mem2, mut kalloc2, _, _) = machine(4, 0);
    assert_eq!(pm.allocate(&mut cm, 0, &mut mem2, &mut kalloc2, &image()), Some(0));
    assert_eq!(pm.index(0).context.pid, 1);
}

#[test]
fn ready_only_after_set_up() {
    let (mut mem, mut kalloc, mut cm, mut pm) = machine(16, 2);
    assert!(!pm.ready(&mut cm, 0, 0));
    assert_eq!(pm.state_of(0), State::Unused);
    pm.allocate(&mut cm, 0, &mut mem, &mut kalloc, &image());
    assert!(pm.ready(&mut cm, 0, 0));
    assert_eq!(pm.state_of(0), State::Runnable);
    assert!(!pm.ready(&mut cm, 0, 0));
    assert_eq!(pm.state_of(0), State::Runnable);
}

#[test]
fn round_trip_of_one_process() {
    let (mut mem, mut kalloc, mut cm, mut pm) = machine(16, 3);
    let slot = pm.allocate(&mut cm, 2, &mut mem, &mut kalloc, &image()).unwrap();
    assert!(pm.ready(&mut cm, 2, slot));
    assert_eq!(pm.scheduler(&mut cm, 2, 0), Sweep::Dispatched(slot));
    assert_eq!(pm.state_of(slot), State::Running);
    assert_eq!(cm.my_cpu(2).pin, Some(slot));
    assert_eq!(pm.my_proc(&mut cm, 2), Ok(slot));
    assert!(!cm.intr_get(2));
    pm.resume(&mut cm, 2);
    assert!(cm.intr_get(2));
    assert_eq!(pm.step(&mut cm, 2), Ok(Switch { save: Holder::Proc(slot), load: Holder::Hart(2) }));
    assert_eq!(pm.state_of(slot), State::Runnable);
    pm.unpin(&mut cm, 2);
    assert_eq!(pm.state_of(slot), State::Runnable);
    assert_eq!(cm.my_cpu(2).pin, None);
    assert_eq!(cm.my_cpu(2).nlock, 0);
    assert_eq!(pm.my_proc(&mut cm, 2), Err(Fault::NotHoldingProcess));
}

#[test]
fn sched_checks_the_protocol() {
    let (mut mem, mut kalloc, mut cm, mut pm) = machine(16, 3);
    assert_eq!(pm.sched(&cm, 0), Err(Fault::NotHoldingProcess));
    cm.intr_on(0);
    assert_eq!(pm.sched(&cm, 0), Err(Fault::InterruptsEnabled));
    cm.intr_off(0);
    pm.allocate(&mut cm, 0, &mut mem, &mut kalloc, &image());
    pm.ready(&mut cm, 0, 0);
    assert_eq!(pm.scheduler(&mut cm, 0, 0), Sweep::Dispatched(0));
    // the lock is held, but the process is still marked as running
    assert_eq!(pm.sched(&cm, 0), Err(Fault::StillRunning));
    pm.resume(&mut cm, 0);
    cm.intr_off(0);
    assert_eq!(pm.sched(&cm, 0), Err(Fault::NotLocked));
    assert_eq!(pm.step(&mut cm, 0), Ok(Switch { save: Holder::Proc(0), load: Holder::Hart(0) }));
    assert_eq!(pm.sched(&cm, 0), Ok(Switch { save: Holder::Proc(0), load: Holder::Hart(0) }));
}

#[test]
fn step_without_a_process() {
    let (_mem, _kalloc, mut cm, mut pm) = machine(1, 3);
    assert_eq!(pm.step(&mut cm, 1), Err(Fault::NotHoldingProcess));
}

#[test]
fn sweep_enables_interrupts_once_per_round() {
    let (_mem, _kalloc, mut cm, mut pm) = machine(1, 3);
    assert!(!cm.intr_get(0));
    assert_eq!(pm.scheduler(&mut cm, 0, 1), Sweep::Idle);
    assert!(!cm.intr_get(0));
    assert_eq!(pm.scheduler(&mut cm, 0, 0), Sweep::Idle);
    assert!(cm.intr_get(0));
    assert_eq!(pm.scheduler(&mut cm, 0, 3), Sweep::Idle);
}

#[test]
fn turn_and_round() {
    let (mut mem, mut kalloc, mut cm, mut pm) = machine(32, 5);
    for _ in 0..4 {
        pm.allocate(&mut cm, 0, &mut mem, &mut kalloc, &image());
    }
    pm.ready(&mut cm, 0, 1);
    pm.ready(&mut cm, 0, 3);
    assert_eq!(pm.turn(&mut cm, 0, 0), Sweep::Dispatched(1));
    assert_eq!(pm.turn(&mut cm, 0, 2), Sweep::Dispatched(3));
    assert_eq!(pm.turn(&mut cm, 0, 4), Sweep::Idle);
    assert_eq!(pm.round(&mut cm, 1), vec![1, 3]);
    assert_eq!(pm.round(&mut cm, 1), vec![1, 3]);
    for (slot, state) in [State::Used, State::Runnable, State::Used, State::Runnable, State::Unused]
        .into_iter()
        .enumerate()
    {
        assert_eq!(pm.state_of(slot), state);
    }
    for hart in 0..4 {
        assert_eq!(cm.my_cpu(hart).pin, None);
        assert_eq!(cm.my_cpu(hart).nlock, 0);
    }
}

/// A generator of numbers that look random and are the same at each run.
struct Dice(u64);

impl Dice {
    fn roll(&mut self, sides: usize) -> usize {
        self.0 = self.0.wrapping_mul(6364136223846793005).wrapping_add(1442695040888963407);
        ((self.0 >> 33) % sides as u64) as usize
    }
}

#[derive(Clone, Copy, PartialEq, Debug)]
enum Where {
    Scheduler(usize),
    Entering,
    InProcess,
    Leaving,
}

#[test]
fn no_process_is_on_two_harts() {
    let harts = 4;
    let slots = 6;
    let (mut mem, mut kalloc, _, mut pm) = machine(64, slots);
    let mut cm = CMaster::with_harts(harts);
    for slot in 0..5 {
        assert_eq!(pm.allocate(&mut cm, 0, &mut mem, &mut kalloc, &image()), Some(slot));
        assert!(pm.ready(&mut cm, 0, slot));
    }
    let mut at = vec![Where::Scheduler(0); harts];
    let mut dice = Dice(7);
    let mut dispatched = 0;
    let mut blocked = 0;
    for _ in 0..20_000 {
        let hart = dice.roll(harts);
        at[hart] = match at[hart] {
            Where::Scheduler(from) => match pm.scheduler(&mut cm, hart, from) {
                Sweep::Dispatched(_) => {
                    dispatched += 1;
                    Where::Entering
                }
                Sweep::Blocked(slot) => {
                    blocked += 1;
                    Where::Scheduler(slot)
                }
                Sweep::Idle => Where::Scheduler(0),
            },
            Where::Entering => {
                pm.resume(&mut cm, hart);
                Where::InProcess
            }
            Where::InProcess => {
                if dice.roll(3) == 0 {
                    pm.step(&mut cm, hart).unwrap();
                    Where::Leaving
                } else {
                    Where::InProcess
                }
            }
            Where::Leaving => {
                let slot = cm.my_cpu(hart).pin.unwrap();
                pm.unpin(&mut cm, hart);
                Where::Scheduler(slot + 1)
            }
        };
        // no two harts run the same process
        for a in 0..harts {
            for b in 0..a {
                let pin = cm.my_cpu(a).pin;
                assert!(pin.is_none() || pin != cm.my_cpu(b).pin);
            }
        }
        // a running process is on exactly one hart, and none else is
        for slot in 0..slots {
            let on = (0..harts).filter(|&h| cm.my_cpu(h).pin == Some(slot)).count();
            match pm.state_of(slot) {
                State::Running => assert_eq!(on, 1),
                State::Runnable => assert!(on <= 1 && (on == 0 || pm.index(slot).info.held())),
                _ => assert_eq!(on, 0),
            }
        }
    }
    assert!(dispatched > 100);
    assert!(blocked > 0);
}

#[test]
fn first_process() {
    let (mut mem, mut kalloc, mut cm, mut pm) = machine(16, 2);
    assert_eq!(pm.user_init(&mut cm, 0, &mut mem, &mut kalloc, &image()), Ok(0));
    assert_eq!(pm.state_of(0), State::Runnable);
    let context = pm.index(0).context;
    assert_eq!(context.pid, 1);
    let table = PageTable::from_addr(context.pagetable);
    let program = table.translate(&mem, 0).unwrap();
    assert_eq!(program, BASE + 11 * 4096);
    assert_eq!(mem.read(program), INITCODE);
    assert_eq!(mem.read(program).to_le_bytes(), [0x13, 0x05, 0xa0, 0x02, 0x6f, 0xf0, 0xdf, 0xff]);
    assert_eq!(TrapFrame::get(&mem, context.trapframe, EPC), 0);
    assert_eq!(TrapFrame::get(&mem, context.trapframe, SP), 4096);
    assert_eq!(table.translate(&mem, TRAMPOLINE), Some(0x8000_7000));
    assert!(kalloc.available(&mem, 9));
    assert!(!kalloc.available(&mem, 10));
}

#[test]
fn first_process_needs_slot_and_memory() {
    let (mut mem, mut kalloc, mut cm, mut pm) = machine(6, 2);
    assert_eq!(pm.user_init(&mut cm, 0, &mut mem, &mut kalloc, &image()), Err(Fault::NoFirstProcess));
    assert_eq!(pm.state_of(0), State::Unused);
    assert!(kalloc.available(&mem, 6));
    let (mut mem, mut kalloc, mut cm, mut pm) = machine(16, 0);
    assert_eq!(pm.user_init(&mut cm, 0, &mut mem, &mut kalloc, &image()), Err(Fault::NoFirstProcess));
    assert!(kalloc.available(&mem, 16));
}

#[test]
fn fresh_record_names_no_hart() {
    let mut info = ProcInfo::new();
    assert_eq!(info.hart_id(), 42);
    assert_eq!(info.hart_id(), rxv6::process::proc::NO_HART);
    assert!(info.advance(State::Used));
    assert_eq!(info.hart_id(), 42);
    assert_eq!(Proc::new().info.peek().hart_id(), 42);
}

#[test]
fn later_process_has_the_greater_pid_whatever_happens_between() {
    let (mut mem, mut kalloc, mut cm, mut pm) = machine(64, 6);
    let mut pids = Vec::new();
    for round in 0..5 {
        let slot = pm.allocate(&mut cm, round % 4, &mut mem, &mut kalloc, &image()).unwrap();
        assert_eq!(slot, round);
        pids.push(pm.index(slot).context.pid);
        assert!(pm.ready(&mut cm, 1, slot));
        // the table is worked on between two allocations
        for hart in 0..4 {
            assert_eq!(pm.round(&mut cm, hart).len(), round + 1);
        }
        assert_eq!(pm.scheduler(&mut cm, 3, 0), Sweep::Dispatched(0));
        pm.resume(&mut cm, 3);
        pm.step(&mut cm, 3).unwrap();
        pm.unpin(&mut cm, 3);
        pm.alloc_pid(&mut cm, 2);
    }
    assert_eq!(pids, vec![1, 3, 5, 7, 9]);
    for slot in 0..5 {
        assert_eq!(pm.index(slot).context.pid, pids[slot]);
    }
}
