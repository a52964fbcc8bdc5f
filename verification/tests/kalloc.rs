use rxv6::address::Addr;
use rxv6::kalloc::Kallocator;
use rxv6::memory::kalloc::{Kalloc, Page};
use rxv6::memory::phys::PhysMem;

const BASE: u64 = 0x8020_0000;
const PGSIZE: u64 = 4096;

#[test]
fn pages_come_back_last_in_first_out() {
    let mut mem = PhysMem::new(BASE, 2).unwrap();
    let start = BASE;
    let end = start + PGSIZE * 2;
    let mut kalloc = Kalloc::new();
    kalloc.insert(&mut mem, start, end);
    assert_eq!(kalloc.alloc_page(&mem).unwrap(), start + PGSIZE);
    assert_eq!(kalloc.alloc_page(&mem).unwrap(), start);
    assert_eq!(kalloc.alloc_page(&mem), None);
}

#[test]
fn free_list_is_threaded_through_the_pages() {
    let mut mem = PhysMem::new(BASE, 3).unwrap();
    let mut kalloc = Kalloc::new();
    kalloc.free(&mut mem, BASE + PGSIZE);
    assert_eq!(mem.read(BASE + PGSIZE), 0);
    kalloc.free(&mut mem, BASE);
    assert_eq!(mem.read(BASE), BASE + PGSIZE);
    kalloc.free(&mut mem, BASE + 2 * PGSIZE);
    assert_eq!(mem.read(BASE + 2 * PGSIZE), BASE);
    assert_eq!(kalloc.alloc_page(&mem), Some(BASE + 2 * PGSIZE));
    assert_eq!(kalloc.alloc_page(&mem), Some(BASE));
    assert_eq!(kalloc.alloc_page(&mem), Some(BASE + PGSIZE));
    assert_eq!(kalloc.alloc_page(&mem), None);
}

#[test]
fn available_counts_free_pages() {
    let mut mem = PhysMem::new(BASE, 5).unwrap();
    let mut kalloc = Kalloc::new();
    assert!(kalloc.available(&mem, 0));
    assert!(!kalloc.available(&mem, 1));
    kalloc.insert(&mut mem, BASE, BASE + 5 * PGSIZE);
    assert!(kalloc.available(&mem, 5));
    assert!(!kalloc.available(&mem, 6));
    kalloc.alloc_page(&mem);
    assert!(kalloc.available(&mem, 4));
    assert!(!kalloc.available(&mem, 5));
}

#[test]
fn insert_of_an_empty_range_frees_nothing() {
    let mut mem = PhysMem::new(BASE, 1).unwrap();
    let mut kalloc = Kalloc::new();
    kalloc.insert(&mut mem, BASE, BASE);
    assert_eq!(kalloc.alloc_page(&mem), None);
}

#[test]
fn insert_takes_the_page_that_a_ragged_end_starts() {
    let mut mem = PhysMem::new(BASE, 2).unwrap();
    let mut kalloc = Kalloc::new();
    kalloc.insert(&mut mem, BASE, BASE + PGSIZE + 1);
    assert_eq!(kalloc.alloc_page(&mem), Some(BASE + PGSIZE));
    assert_eq!(kalloc.alloc_page(&mem), Some(BASE));
    assert_eq!(kalloc.alloc_page(&mem), None);
}

#[test]
fn kinit_frees_ram_up_to_its_end() {
    let phystop: u64 = 0x8800_0000;
    let end = phystop - 3 * PGSIZE;
    let mut mem = PhysMem::new(end, 3).unwrap();
    let mut kalloc = Kalloc::new();
    kalloc.kinit(&mut mem, end);
    assert_eq!(kalloc.alloc_page(&mem), Some(phystop - PGSIZE));
    assert_eq!(kalloc.alloc_page(&mem), Some(phystop - 2 * PGSIZE));
    assert_eq!(kalloc.alloc_page(&mem), Some(end));
    assert_eq!(kalloc.alloc_page(&mem), None);
}

#[test]
fn page_header_round_trip() {
    assert_eq!(Page { next: None }.encode(), 0);
    assert_eq!(Page { next: Some(0x8000_1000) }.encode(), 0x8000_1000);
    assert_eq!(Page::decode(0).next, None);
    assert_eq!(Page::decode(0x8000_1000).next, Some(0x8000_1000));
}

#[test]
fn memory_refuses_bad_ranges() {
    assert!(PhysMem::new(BASE + 8, 1).is_none());
    assert!(PhysMem::new(u64::MAX - 4095, 1).is_none());
    let mem = PhysMem::new(BASE, 2).unwrap();
    assert_eq!(mem.start(), BASE);
    assert_eq!(mem.pages(), 2);
    assert!(mem.contains_page(BASE + PGSIZE));
    assert!(!mem.contains_page(BASE + 2 * PGSIZE));
    assert!(!mem.contains_page(BASE + 8));
    assert!(mem.contains(BASE + 8));
    assert!(!mem.contains(BASE + 4));
    assert!(!mem.contains(BASE - 8));
}

#[test]
fn fill_page_touches_one_page() {
    let mut mem = PhysMem::new(BASE, 2).unwrap();
    mem.write(BASE + PGSIZE - 8, 3);
    mem.fill_page(BASE + PGSIZE, 0x0101_0101_0101_0101);
    assert_eq!(mem.read(BASE + PGSIZE - 8), 3);
    assert_eq!(mem.read(BASE + PGSIZE), 0x0101_0101_0101_0101);
    assert_eq!(mem.read(BASE + 2 * PGSIZE - 8), 0x0101_0101_0101_0101);
    assert_eq!(mem.read(BASE), 0);
}

#[test]
fn table_allocator_hands_out_the_last_freed_page_first() {
    let mut mem = PhysMem::new(0x2000, 4).unwrap();
    // the range is taken from one byte beyond a page boundary on
    let mut k = Kallocator::init(&mut mem, Addr(0x1001), Addr(0x5000));
    assert_eq!(mem.read(0x2000), 0x0101_0101_0101_0101);
    assert_eq!(mem.read(0x4ff8), 0x0101_0101_0101_0101);
    assert_eq!(mem.read(0x5000), 0);
    assert_eq!(k.kalloc(), Some(Addr(0x4000)));
    assert_eq!(k.kalloc(), Some(Addr(0x3000)));
    k.push_back(0x9000);
    assert_eq!(k.pop_back(), Some(Addr(0x9000)));
    assert_eq!(k.kalloc(), Some(Addr(0x2000)));
    assert_eq!(k.kalloc(), None);
    assert_eq!(k.pop_back(), None);
    mem.write(0x3008, 0);
    k.kfree(&mut mem, Addr(0x3000));
    assert_eq!(mem.read(0x3008), 0x0101_0101_0101_0101);
    assert_eq!(mem.read(0x2ff8), 0x0101_0101_0101_0101);
    assert_eq!(k.kalloc(), Some(Addr(0x3000)));
    Kallocator::memset(&mut mem, Addr(0x2000), 0xab, 4096);
    assert_eq!(mem.read(0x2000), 0xabab_abab_abab_abab);
    assert_eq!(mem.read(0x3000), 0x0101_0101_0101_0101);
}

#[test]
fn table_allocator_of_an_empty_range() {
    let mut mem = PhysMem::new(0x2000, 1).unwrap();
    let mut k = Kallocator::init(&mut mem, Addr(0x1001), Addr(0x2fff));
    assert_eq!(k.kalloc(), None);
    assert_eq!(mem.read(0x2000), 0);
}

#[test]
fn memset_fills_any_run_of_words() {
    let mut mem = PhysMem::new(0x2000, 2).unwrap();
    Kallocator::memset(&mut mem, Addr(0x2010), 0xff, 24);
    assert_eq!(mem.read(0x2008), 0);
    assert_eq!(mem.read(0x2010), u64::MAX);
    assert_eq!(mem.read(0x2020), u64::MAX);
    assert_eq!(mem.read(0x2028), 0);
    // across the border of two pages
    Kallocator::memset(&mut mem, Addr(0x2ff8), 2, 16);
    assert_eq!(mem.read(0x2ff8), 0x0202_0202_0202_0202);
    assert_eq!(mem.read(0x3000), 0x0202_0202_0202_0202);
    assert_eq!(mem.read(0x3008), 0);
    // nothing at all
    Kallocator::memset(&mut mem, Addr(0x3008), 7, 0);
    assert_eq!(mem.read(0x3008), 0);
    // up to the last word
    Kallocator::memset(&mut mem, Addr(0x3ff8), 9, 8);
    assert_eq!(mem.read(0x3ff8), 0x0909_0909_0909_0909);
}
