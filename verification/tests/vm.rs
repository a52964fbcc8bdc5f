use rxv6::memory::kalloc::Kalloc;
use rxv6::memory::kvm::Kvm;
use rxv6::memory::layout::{
    kstack, kstack_end, kstack_start, Image, KERNBASE, PHYSTOP, PLIC, TRAMPOLINE, TRAPFRAME, UART,
    VIRTIO0,
};
use rxv6::memory::phys::PhysMem;
use rxv6::memory::vm::{
    get_pg, MapError, PageTable, PageTableLevel, PTE_R, PTE_U, PTE_V, PTE_W, PTE_X,
};

const BASE: u64 = 0x8020_0000;
const PGSIZE: u64 = 4096;

fn memory(pages: usize) -> (PhysMem, Kalloc) {
    let mut mem = PhysMem::new(BASE, pages).unwrap();
    let mut kalloc = Kalloc::new();
    kalloc.insert(&mut mem, BASE, BASE + PGSIZE * pages as u64);
    (mem, kalloc)
}

#[test]
fn address_fields() {
    let va: u64 = (3 << 30) | (5 << 21) | (7 << 12) | 0x123;
    assert_eq!(PageTable::idx(va, PageTableLevel::Lv1), 3);
    assert_eq!(PageTable::idx(va, PageTableLevel::Lv2), 5);
    assert_eq!(PageTable::idx(va, PageTableLevel::Lv3), 7);
    assert_eq!(PageTable::offset(va), 0x123);
    assert_eq!(PageTable::idx(TRAMPOLINE, PageTableLevel::Lv1), 255);
    assert_eq!(PageTable::idx(TRAMPOLINE, PageTableLevel::Lv2), 511);
    assert_eq!(PageTable::idx(TRAMPOLINE, PageTableLevel::Lv3), 511);
    assert_eq!(PageTable::idx(TRAPFRAME, PageTableLevel::Lv3), 510);
    assert_eq!(PageTable::ppn(0x8020_3000), 0x80203);
    assert_eq!(PageTable::ppn(u64::MAX), 0xFFF_FFFF_FFFF);
    assert!(PageTable::used(PTE_V | PTE_R));
    assert!(!PageTable::used(PTE_R | PTE_W));
}

#[test]
fn table_entries() {
    let mut table = PageTable::from_addr(0x8020_3000);
    assert_eq!(table.base_addr(), 0x8020_3000);
    assert_eq!(table.to_pte(), 0x80203 << 10);
    let mut back = PageTable::from_pte((0x80203 << 10) | PTE_V);
    assert_eq!(back.base_addr(), 0x8020_3000);
}

#[test]
fn map_page_then_translate() {
    let (mut mem, mut kalloc) = memory(8);
    let mut table = PageTable::create_table(&mut mem, &mut kalloc).unwrap();
    let root = table.base_addr();
    assert_eq!(root, BASE + 7 * PGSIZE);
    assert_eq!(table.translate(&mem, 0x4000_1234), None);
    assert_eq!(table.map_page(&mut mem, &mut kalloc, 0x4000_1000, 0x9000_5000, PTE_R | PTE_W), Ok(()));
    assert_eq!(table.translate(&mem, 0x4000_1234), Some(0x9000_5234));
    assert_eq!(table.translate(&mem, 0x4000_1000), Some(0x9000_5000));
    assert_eq!(table.translate(&mem, 0x4000_2000), None);
    assert_eq!(table.translate(&mem, 0x4000_0fff), None);
    // the root, two tables: three pages gone
    assert!(kalloc.available(&mem, 5));
    assert!(!kalloc.available(&mem, 6));
    // the leaf entry: page number, permissions, valid
    let lv2 = BASE + 6 * PGSIZE;
    let lv3 = BASE + 5 * PGSIZE;
    assert_eq!(mem.read(root + 8 * 1), ((lv2 >> 12) << 10) | PTE_V);
    assert_eq!(mem.read(lv2 + 8 * 0), ((lv3 >> 12) << 10) | PTE_V);
    assert_eq!(mem.read(lv3 + 8 * 1), (0x90005 << 10) | PTE_R | PTE_W | PTE_V);
}

#[test]
fn second_page_in_the_same_table_takes_no_page() {
    let (mut mem, mut kalloc) = memory(8);
    let mut table = PageTable::create_table(&mut mem, &mut kalloc).unwrap();
    assert_eq!(table.map_page(&mut mem, &mut kalloc, 0x1000, 0x9000_0000, PTE_R), Ok(()));
    assert!(kalloc.available(&mem, 5));
    assert_eq!(table.map_page(&mut mem, &mut kalloc, 0x2000, 0x9000_1000, PTE_R), Ok(()));
    assert!(kalloc.available(&mem, 5));
    assert_eq!(table.translate(&mem, 0x1008), Some(0x9000_0008));
    assert_eq!(table.translate(&mem, 0x2008), Some(0x9000_1008));
}

#[test]
fn remap_is_refused() {
    let (mut mem, mut kalloc) = memory(8);
    let mut table = PageTable::create_table(&mut mem, &mut kalloc).unwrap();
    assert_eq!(table.map_page(&mut mem, &mut kalloc, 0x1000, 0x9000_0000, PTE_R), Ok(()));
    assert_eq!(
        table.map_page(&mut mem, &mut kalloc, 0x1000, 0x9000_1000, PTE_R),
        Err(MapError::Remap)
    );
    assert_eq!(table.translate(&mem, 0x1000), Some(0x9000_0000));
}

#[test]
fn out_of_memory_is_reported() {
    let (mut mem, mut kalloc) = memory(2);
    let mut table = PageTable::create_table(&mut mem, &mut kalloc).unwrap();
    // one page left, two tables needed
    assert_eq!(
        table.map_page(&mut mem, &mut kalloc, 0x1000, 0x9000_0000, PTE_R),
        Err(MapError::OutOfMemory)
    );
    assert_eq!(table.translate(&mem, 0x1000), None);
    assert!(!kalloc.available(&mem, 1));
    assert!(PageTable::create_table(&mut mem, &mut kalloc).is_none());
}

#[test]
fn map_covers_a_range() {
    let (mut mem, mut kalloc) = memory(16);
    let mut table = PageTable::create_table(&mut mem, &mut kalloc).unwrap();
    // across the border of two third-level tables
    let va = (1 << 21) - 2 * PGSIZE;
    assert_eq!(table.map(&mut mem, &mut kalloc, va, 0x9000_0000, 4 * PGSIZE, PTE_R | PTE_X), Ok(()));
    for k in 0..4 {
        assert_eq!(
            table.translate(&mem, va + k * PGSIZE + 0x10),
            Some(0x9000_0010 + k * PGSIZE)
        );
    }
    assert_eq!(table.translate(&mem, va - 1), None);
    assert_eq!(table.translate(&mem, va + 4 * PGSIZE), None);
    // an empty range maps nothing
    assert_eq!(table.map(&mut mem, &mut kalloc, 0x7000_0000, 0x9100_0000, 0, PTE_R), Ok(()));
    assert_eq!(table.translate(&mem, 0x7000_0000), None);
    // a range that runs into a mapped page stops there
    assert_eq!(
        table.map(&mut mem, &mut kalloc, va - PGSIZE, 0xa000_0000, 2 * PGSIZE, PTE_R),
        Err(MapError::Remap)
    );
    assert_eq!(table.translate(&mem, va - PGSIZE), Some(0xa000_0000));
    assert_eq!(table.translate(&mem, va), Some(0x9000_0000));
}

#[test]
fn uvmfirst_loads_the_program_at_zero() {
    let (mut mem, mut kalloc) = memory(8);
    let mut table = PageTable::create_table(&mut mem, &mut kalloc).unwrap();
    let root = table.base_addr();
    let page = PageTable::uvmfirst(&mut mem, &mut kalloc, root, 0xabcd).unwrap();
    assert_eq!(page, BASE + 6 * PGSIZE);
    assert_eq!(table.translate(&mem, 0), Some(page));
    assert_eq!(table.translate(&mem, 0xfff), Some(page + 0xfff));
    assert_eq!(mem.read(page), 0xabcd);
    assert_eq!(mem.read(page + 8), 0);
    // a second program does not fit at zero
    assert_eq!(PageTable::uvmfirst(&mut mem, &mut kalloc, root, 1), None);
    // the leaf lets user code read, write and execute
    let lv3 = BASE + 4 * PGSIZE;
    assert_eq!(mem.read(lv3), ((page >> 12) << 10) | PTE_W | PTE_R | PTE_X | PTE_U | PTE_V);
}

#[test]
fn uvmfirst_needs_three_pages() {
    let (mut mem, mut kalloc) = memory(3);
    let mut table = PageTable::create_table(&mut mem, &mut kalloc).unwrap();
    let root = table.base_addr();
    assert_eq!(PageTable::uvmfirst(&mut mem, &mut kalloc, root, 1), None);
    assert!(kalloc.available(&mem, 2));
}

#[test]
fn kernel_stacks_lie_beneath_the_trampoline() {
    assert_eq!(TRAMPOLINE, (1u64 << 38) - 4096);
    assert_eq!(TRAPFRAME, TRAMPOLINE - 4096);
    assert_eq!(kstack(0), TRAMPOLINE - 2 * 4096);
    assert_eq!(kstack(1), TRAMPOLINE - 4 * 4096);
    assert_eq!(kstack(63), TRAMPOLINE - 128 * 4096);
    assert_eq!(kstack_start(5), kstack(5));
    assert_eq!(kstack_end(5), kstack(5) + 4096);
    assert_eq!(kstack(0x1FF_FFFE), 4096);
}

fn image() -> Image {
    Image {
        end: BASE,
        etext: 0x8000_8000,
        traptext: 0x8000_7000,
        timervec: 0x8000_6000,
        kernelvec: 0x8000_5000,
        uservec: 0x8000_7000,
        userret: 0x8000_7090,
        usertrap: 0x8000_1234,
        forkret: 0x8000_4321,
    }
}

#[test]
fn kernel_page_table_maps_devices_ram_and_stacks() {
    let (mut mem, mut kalloc) = memory(256);
    let kvm = Kvm::init(&mut mem, &mut kalloc, &image(), 8).unwrap();
    let table = kvm.table();
    for pa in [UART, PLIC, PLIC + 0x3f_f000, VIRTIO0, KERNBASE, 0x8000_7fff, 0x8000_8000, PHYSTOP - 1] {
        assert_eq!(table.translate(&mem, pa), Some(pa), "{pa:#x}");
    }
    assert_eq!(table.translate(&mem, UART + PGSIZE + PGSIZE), None);
    assert_eq!(table.translate(&mem, PHYSTOP), None);
    assert_eq!(table.translate(&mem, TRAMPOLINE + 0x90), Some(0x8000_7090));
    let mut stacks = Vec::new();
    for p in 0..8 {
        let pa = table.translate(&mem, kstack(p)).unwrap();
        assert!(mem.contains_page(pa));
        assert!(!stacks.contains(&pa));
        stacks.push(pa);
        // the guard page beneath each stack is not mapped
        assert_eq!(table.translate(&mem, kstack(p) - 1), None);
    }
    assert_eq!(table.translate(&mem, kstack(8)), None);
    assert_eq!(kvm.init_hart(), BASE + 255 * PGSIZE >> 12);
}

#[test]
fn kernel_page_table_without_memory() {
    let (mut mem, mut kalloc) = memory(0);
    assert!(matches!(Kvm::init(&mut mem, &mut kalloc, &image(), 1), Err(MapError::OutOfMemory)));
    let (mut mem, mut kalloc) = memory(20);
    assert!(matches!(Kvm::init(&mut mem, &mut kalloc, &image(), 1), Err(MapError::OutOfMemory)));
    assert!(!kalloc.available(&mem, 1));
}

#[test]
fn image_check() {
    assert!(image().check());
    let mut bad = image();
    bad.userret = bad.traptext + 4096;
    assert!(!bad.check());
    let mut bad = image();
    bad.traptext += 8;
    assert!(!bad.check());
}

#[test]
fn index_by_level_number() {
    let va: u64 = (3 << 30) | (5 << 21) | (7 << 12) | 0x123;
    assert_eq!(get_pg(va, 2), 3);
    assert_eq!(get_pg(va, 1), 5);
    assert_eq!(get_pg(va, 0), 7);
}
