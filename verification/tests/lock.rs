use rxv6::lock::spinlock::SpinLock;
use rxv6::process::cpu::{CMaster, Context, CPU};

#[test]
fn new_hart_is_idle_with_interrupts_off() {
    let cm = CMaster::new();
    assert_eq!(cm.len(), 4);
    for hart in 0..4 {
        assert_eq!(*cm.my_cpu(hart), CPU::new());
        assert!(!cm.intr_get(hart));
    }
    let cpu = CPU::new();
    assert_eq!(cpu.pin, None);
    assert_eq!(cpu.nlock, 0);
    assert!(!cpu.intr);
    assert_eq!(cpu.context, Context::default());
    assert_eq!(Context::default().ra, 0);
    assert_eq!(Context::default().s11, 0);
}

#[test]
fn push_off_remembers_only_at_the_outermost_lock() {
    let mut cm = CMaster::new();
    cm.intr_on(1);
    cm.push_off(1);
    assert!(!cm.intr_get(1));
    assert!(cm.my_cpu(1).intr);
    assert_eq!(cm.my_cpu(1).nlock, 1);
    // nested: interrupts are off now, but the remembered flag stays
    cm.push_off(1);
    assert!(cm.my_cpu(1).intr);
    assert_eq!(cm.my_cpu(1).nlock, 2);
    cm.pop_off(1);
    assert!(!cm.intr_get(1));
    assert_eq!(cm.my_cpu(1).nlock, 1);
    cm.pop_off(1);
    assert!(cm.intr_get(1));
    assert_eq!(cm.my_cpu(1).nlock, 0);
    // the other harts were not touched
    assert!(!cm.intr_get(0));
    assert_eq!(cm.my_cpu(0).nlock, 0);
}

fn nest(cm: &mut CMaster, hart: usize, depth: usize) {
    let mut locks: Vec<SpinLock<u64>> = (0..depth).map(|i| SpinLock::new(i as u64)).collect();
    for lock in locks.iter_mut() {
        let guard = lock.lock(cm, hart);
        guard.keep();
        assert!(!cm.intr_get(hart));
    }
    assert_eq!(cm.my_cpu(hart).nlock as usize, depth);
    for lock in locks.iter_mut().rev() {
        assert!(!cm.intr_get(hart));
        lock.unlock(cm, hart);
    }
    assert_eq!(cm.my_cpu(hart).nlock, 0);
}

#[test]
fn outermost_release_restores_interrupts_at_any_depth() {
    for depth in [1usize, 2, 3, 17, 200] {
        let mut cm = CMaster::new();
        cm.intr_on(0);
        nest(&mut cm, 0, depth);
        assert!(cm.intr_get(0), "enabled before, enabled after, depth {depth}");

        let mut cm = CMaster::new();
        cm.intr_off(0);
        nest(&mut cm, 0, depth);
        assert!(!cm.intr_get(0), "disabled before, disabled after, depth {depth}");
    }
}

#[test]
fn guard_gives_the_value_and_releases() {
    let mut cm = CMaster::with_harts(2);
    cm.intr_on(1);
    let mut lock = SpinLock::new(5u64);
    assert!(!lock.held());
    {
        let mut guard = lock.lock(&mut cm, 1);
        assert_eq!(*guard.deref(), 5);
        *guard.deref_mut() = 7;
        assert!(!cm.intr_get(1));
        guard.drop(&mut cm, 1);
    }
    assert!(!lock.held());
    assert_eq!(*lock.peek(), 7);
    assert!(cm.intr_get(1));
    assert_eq!(cm.my_cpu(1).nlock, 0);
}

#[test]
fn kept_guard_leaves_the_lock_held() {
    let mut cm = CMaster::new();
    let mut lock = SpinLock::new(1u8);
    lock.lock(&mut cm, 2).keep();
    assert!(lock.held());
    assert_eq!(cm.my_cpu(2).nlock, 1);
    lock.unlock(&mut cm, 2);
    assert!(!lock.held());
    assert_eq!(cm.my_cpu(2).nlock, 0);
}

#[test]
fn my_cpu_mut_changes_the_record_of_one_hart() {
    let mut cm = CMaster::new();
    cm.my_cpu_mut(3).pin = Some(9);
    assert_eq!(cm.my_proc(3), 9);
    assert_eq!(cm.my_cpu(2).pin, None);
}
