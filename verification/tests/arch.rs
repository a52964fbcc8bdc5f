use rxv6::address::Addr;
use rxv6::arch::{
    get_mtimecmp_addr, make_satp, setup_mscratch, INTERVAL, MAXVA, NCPU, NPROC, PGSIZE,
};
use rxv6::trap::plic::{init, init_hart, Write};

#[test]
fn constants() {
    assert_eq!(MAXVA, 1 << (9 + 9 + 9 + 12 - 1));
    assert_eq!(PGSIZE, 4096);
    assert_eq!(NCPU, 4);
    assert_eq!(NPROC, 64);
    assert_eq!(INTERVAL, 1_000_000);
}

#[test]
fn satp_has_mode_and_page_number() {
    assert_eq!(make_satp(0x8020_3000), (8 << 60) | 0x80203);
    assert_eq!(make_satp(0x8020_3abc), (8 << 60) | 0x80203);
    assert_eq!(make_satp(0), 8 << 60);
}

#[test]
fn timer_registers() {
    assert_eq!(get_mtimecmp_addr(0), 0x200_4000);
    assert_eq!(get_mtimecmp_addr(3), 0x200_4018);
    let timer = setup_mscratch(2, 5_000);
    assert_eq!(timer.mtimecmp_addr, 0x200_4010);
    assert_eq!(timer.mtimecmp, 1_005_000);
    assert_eq!(timer.scratch, [0, 0, 0, 0x200_4010, 1_000_000]);
}

#[test]
fn interrupt_controller_registers() {
    assert_eq!(
        init(),
        [Write { addr: 0x0c00_0028, value: 1 }, Write { addr: 0x0c00_0004, value: 1 }]
    );
    assert_eq!(
        init_hart(0),
        [Write { addr: 0x0c00_2080, value: (1 << 10) | (1 << 1) }, Write { addr: 0x0c20_1000, value: 0 }]
    );
    assert_eq!(
        init_hart(3),
        [Write { addr: 0x0c00_2380, value: 0x402 }, Write { addr: 0x0c20_7000, value: 0 }]
    );
}

#[test]
fn addresses() {
    assert_eq!(Addr(5).add(7), Addr(12));
    assert_eq!(Addr(12).sub(7), Addr(5));
    assert_eq!(Addr::from(9).into(), 9);
    assert_eq!(Addr(0x1001).round_up_pg(), Addr(0x2000));
    assert_eq!(Addr(0x2001).round_up_pg(), Addr(0x2000));
    assert_eq!(Addr(0x2000).round_up_pg(), Addr(0x2fff));
    assert_eq!(Addr(0x3123).round_down_pg(), Addr(0x2123));
    assert_eq!(Addr(0x2123).round_down_pg(), Addr(0x2123));
    assert!(Addr(1) < Addr(2));
}
