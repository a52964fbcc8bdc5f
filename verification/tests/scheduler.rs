use rxv6::memory::kalloc::Kalloc;
use rxv6::memory::layout::Image;
use rxv6::memory::phys::PhysMem;
use rxv6::process::cpu::CMaster;
use rxv6::process::master::{Holder, PMaster, Sweep, Switch};
use rxv6::process::proc::State;

const BASE: u64 = 0x8020_0000;

fn image() -> Image {
    Image {
        end: BASE,
        etext: 0x8000_8000,
        traptext: 0x8000_7000,
        timervec: 0x8000_6000,
        kernelvec: 0x8000_5000,
        uservec: 0x8000_7000,
        userret: 0x8000_7090,
        usertrap: 0x8000_1234,
        forkret: 0x8000_4321,
    }
}

fn machine(pages: usize, slots: usize) -> (PhysMem, Kalloc, CMaster, PMaster) {
    let mut mem = PhysMem::new(BASE, pages).unwrap();
    let mut kalloc = Kalloc::new();
    kalloc.insert(&mut mem, BASE, BASE + 4096 * pages as u64);
    let cmaster = CMaster::new();
    let mut pmaster = PMaster::new();
    pmaster.init(slots);
    (mem, kalloc, cmaster, pmaster)
}

#[test]
fn allocate_fills_table_then_fails() {
    let m = 3;
    let (mut mem, mut kalloc, mut cm, mut pm) = machine(64, m);
    let mut last = 0;
    for i in 0..m {
        let slot = pm.allocate(&mut cm, 0, &mut mem, &mut kalloc, &image());
        assert_eq!(slot, Some(i));
        let pid = pm.index(i).context.pid;
        assert!(pid > last);
        last = pid;
        assert_eq!(pm.state_of(i), State::Used);
    }
    assert_eq!(last, m);
    assert_eq!(pm.allocate(&mut cm, 0, &mut mem, &mut kalloc, &image()), None);
}

#[test]
fn end_to_end_sweep_of_two_processes() {
    let (mut mem, mut kalloc, mut cm, mut pm) = machine(64, 4);
    let a = pm.allocate(&mut cm, 0, &mut mem, &mut kalloc, &image()).unwrap();
    let b = pm.allocate(&mut cm, 0, &mut mem, &mut kalloc, &image()).unwrap();
    assert_eq!((a, b), (0, 1));
    assert_eq!(pm.index(a).context.pid, 1);
    assert_eq!(pm.index(b).context.pid, 2);
    assert!(pm.ready(&mut cm, 0, a));
    assert!(pm.ready(&mut cm, 0, b));

    let mut order = Vec::new();
    let mut from = 0;
    loop {
        match pm.scheduler(&mut cm, 0, from) {
            Sweep::Dispatched(slot) => {
                order.push(slot);
                assert_eq!(pm.state_of(slot), State::Running);
                assert_eq!(cm.my_cpu(0).pin, Some(slot));
                pm.resume(&mut cm, 0);
                let switch = pm.step(&mut cm, 0).unwrap();
                assert_eq!(switch, Switch { save: Holder::Proc(slot), load: Holder::Hart(0) });
                pm.unpin(&mut cm, 0);
                assert_eq!(cm.my_cpu(0).pin, None);
                from = slot + 1;
            }
            Sweep::Blocked(_) => panic!("no other hart holds a lock"),
            Sweep::Idle => break,
        }
    }
    assert_eq!(order, vec![0, 1]);
    assert_eq!(pm.state_of(0), State::Runnable);
    assert_eq!(pm.state_of(1), State::Runnable);
    assert_eq!(pm.state_of(2), State::Unused);
    for hart in 0..cm.len() {
        assert_eq!(cm.my_cpu(hart).pin, None);
        assert_eq!(cm.my_cpu(hart).nlock, 0);
    }
}
