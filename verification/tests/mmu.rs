use moeos::mem::mmu::{
    self, map_range, satp_ppn, unmap, virt_to_phys, Entry, EntryBits, MapError, Table,
};
use moeos::mem::page::{Heap, PAGE_SIZE};

fn heap(pages: usize) -> Heap {
    Heap::init(0x1000, pages * PAGE_SIZE)
}

#[test]
fn entry_bits_values() {
    assert_eq!(EntryBits::Empty.val(), 0);
    assert_eq!(EntryBits::Valid.val(), 1);
    assert_eq!(EntryBits::Read.val(), 2);
    assert_eq!(EntryBits::Write.val(), 4);
    assert_eq!(EntryBits::Execute.val(), 8);
    assert_eq!(EntryBits::User.val(), 0x10);
    assert_eq!(EntryBits::Global.val(), 0x20);
    assert_eq!(EntryBits::Access.val(), 0x40);
    assert_eq!(EntryBits::Dirty.val(), 0x80);
    assert_eq!(EntryBits::ReadWrite.val(), 6);
    assert_eq!(EntryBits::ReadExecute.val(), 0xa);
    assert_eq!(EntryBits::ReadWriteExecute.val(), 0xe);
    assert_eq!(EntryBits::UserReadWrite.val(), 0x16);
    assert_eq!(EntryBits::UserReadExecute.val(), 0x1a);
    assert_eq!(EntryBits::UserReadWriteExecute.val(), 0x1e);
    assert_eq!(EntryBits::Sec.val(), 1 << 59);
    assert_eq!(EntryBits::Buffer.val(), 1 << 61);
    assert_eq!(EntryBits::Cacheable.val(), 1 << 62);
    assert_eq!(EntryBits::StrongOrder.val(), 1 << 63);
}

#[test]
fn entry_predicates() {
    let mut e = Entry { entry: 0 };
    assert!(!e.is_valid());
    assert!(e.is_invaliad());
    assert!(e.is_branch());
    e.set_entry(0x2000_0001);
    assert!(e.is_valid());
    assert!(e.is_branch());
    assert!(!e.is_leaf());
    e.set_entry(0x2000_0007);
    assert!(e.is_leaf());
    assert!(!e.is_branch());
    assert_eq!(e.entry, 0x2000_0007);
    assert_eq!(Table::len(), 512);
}

#[test]
fn satp_ppn_of_root() {
    assert_eq!(satp_ppn(0x8020_3000), 0x80203);
    assert_eq!(satp_ppn(0x8020_3fff), 0x80203);
}

#[test]
fn init_allocates_a_zeroed_root() {
    let mut h = heap(4);
    assert_eq!(mmu::init(&mut h), Some(0x2000));
    assert_eq!(h.page_flags(0), 2);
    assert_eq!(virt_to_phys(&h, 0x2000, 0), None);
    assert_eq!(virt_to_phys(&h, 0x2000, 0xffff_ffff_ffff_f000), None);
    let mut tiny = heap(1);
    assert_eq!(mmu::init(&mut tiny), None);
}

#[test]
fn map_then_translate_a_4k_page() {
    let mut h = heap(8);
    // A two-page root allocation keeps the root's page taken.
    let root = h.zalloc(2).unwrap();
    // Its level-1 and level-0 indices differ (3 and 0x25).
    let va = 0x4062_5000 + 0x123;
    assert!(mmu::map(&mut h, root, va, 0x8765_4000, EntryBits::ReadWrite.val(), 0).is_ok());
    assert_eq!(virt_to_phys(&h, root, va), Some(0x8765_4123));
    assert_eq!(virt_to_phys(&h, root, 0x4062_5fff), Some(0x8765_4fff));
    // Another page of the same 2 MiB region is not mapped.
    assert_eq!(virt_to_phys(&h, root, 0x4062_6000), None);
    // Another 1 GiB region is not mapped.
    assert_eq!(virt_to_phys(&h, root, 0x8062_5000), None);
}

#[test]
fn map_then_translate_large_pages() {
    let mut h = heap(8);
    let root = h.zalloc(2).unwrap();
    assert!(mmu::map(&mut h, root, 0x4060_0000, 0x8040_0000, EntryBits::ReadExecute.val(), 1).is_ok());
    assert_eq!(virt_to_phys(&h, root, 0x4061_2345), Some(0x8041_2345));
    assert!(mmu::map(&mut h, root, 0x8000_0000, 0xc000_0000, EntryBits::ReadWrite.val(), 2).is_ok());
    assert_eq!(virt_to_phys(&h, root, 0x9234_5678), Some(0xd234_5678));
    // A level above 2 maps a 1 GiB page too.
    assert!(mmu::map(&mut h, root, 0xc000_0000, 0x4000_0000, EntryBits::ReadWrite.val(), 5).is_ok());
    assert_eq!(virt_to_phys(&h, root, 0xc000_0010), Some(0x4000_0010));
}

#[test]
fn map_reuses_existing_tables() {
    let mut h = heap(8);
    let root = h.zalloc(2).unwrap();
    assert!(mmu::map(&mut h, root, 0x4062_5000, 0x8000_0000, EntryBits::ReadWrite.val(), 0).is_ok());
    let flags_after_first = (h.page_flags(1), h.page_flags(2));
    assert!(mmu::map(&mut h, root, 0x4062_6000, 0x8000_1000, EntryBits::ReadWrite.val(), 0).is_ok());
    assert_eq!((h.page_flags(1), h.page_flags(2)), flags_after_first);
    assert_eq!(virt_to_phys(&h, root, 0x4062_5000), Some(0x8000_0000));
    assert_eq!(virt_to_phys(&h, root, 0x4062_6008), Some(0x8000_1008));
}

#[test]
fn map_with_the_root_reallocated_loses_the_root_entry() {
    // The root from a one-page allocation reads as free afterwards, so the
    // first table `map` allocates is the root page itself.
    let mut h = heap(4);
    let root = mmu::init(&mut h).unwrap();
    assert!(mmu::map(&mut h, root, 0x8020_0000, 0x8020_0000, EntryBits::ReadExecute.val(), 0).is_ok());
    assert_eq!(virt_to_phys(&h, root, 0x8020_0000), None);
}

#[test]
fn map_out_of_memory() {
    let mut h = heap(1);
    let root = h.alloc_start();
    let r = mmu::map(&mut h, root, 0x4000_0000, 0x8000_0000, EntryBits::ReadWrite.val(), 0);
    assert!(matches!(r, Err(MapError::OutOfMemory)));
    // A leaf at the root needs no table.
    assert!(mmu::map(&mut h, root, 0x4000_0000, 0x8000_0000, EntryBits::ReadWrite.val(), 2).is_ok());
    assert_eq!(virt_to_phys(&h, root, 0x4000_0004), Some(0x8000_0004));
}

#[test]
fn map_through_a_leaf_leaves_memory() {
    let mut h = heap(4);
    let root = h.zalloc(2).unwrap();
    assert!(mmu::map(&mut h, root, 0x4000_0000, 0x8000_0000, EntryBits::ReadWrite.val(), 2).is_ok());
    let r = mmu::map(&mut h, root, 0x4000_1000, 0x9000_0000, EntryBits::ReadWrite.val(), 0);
    assert!(matches!(r, Err(MapError::TableOutsideMemory)));
}

#[test]
fn map_range_with_equal_table_indices_breaks_the_path() {
    let mut h = heap(8);
    let root = h.zalloc(2).unwrap();
    // Both tables land in one page; the leaf for 0x4060_3000 overwrites the
    // branch at index 3 of it, and the next page walks through that leaf.
    let r = map_range(&mut h, root, 0x4060_3000, 0x4060_5000, EntryBits::ReadWrite.val());
    assert!(matches!(r, Err(MapError::TableOutsideMemory)));
}

#[test]
fn map_range_maps_every_page() {
    let mut h = heap(8);
    let root = h.zalloc(2).unwrap();
    // Pages 0x4062_5000 .. 0x4062_8000: 0x5010 rounded down, 0x7001 rounded up.
    assert!(map_range(&mut h, root, 0x4062_5010, 0x4062_7001, EntryBits::ReadWrite.val()).is_ok());
    assert_eq!(virt_to_phys(&h, root, 0x4062_5000), Some(0x4062_5000));
    assert_eq!(virt_to_phys(&h, root, 0x4062_6abc), Some(0x4062_6abc));
    assert_eq!(virt_to_phys(&h, root, 0x4062_7abc), Some(0x4062_7abc));
    assert_eq!(virt_to_phys(&h, root, 0x4062_8000), None);
    assert_eq!(virt_to_phys(&h, root, 0x4062_4fff), None);
    // An empty range maps nothing.
    assert!(map_range(&mut h, root, 0x4070_0000, 0x4070_0000, EntryBits::ReadWrite.val()).is_ok());
    assert_eq!(virt_to_phys(&h, root, 0x4070_0000), None);
}

#[test]
fn unmap_frees_the_tables_below_the_root() {
    let mut h = heap(8);
    let root = h.zalloc(2).unwrap();
    // The table goes into the root allocation's last page, which reads as free.
    assert!(mmu::map(&mut h, root, 0x4060_0000, 0x8040_0000, EntryBits::ReadWrite.val(), 1).is_ok());
    assert_eq!(h.page_flags(0), 1);
    assert_eq!(h.page_flags(1), 2);
    unmap(&mut h, root);
    assert_eq!(h.page_flags(0), 1);
    assert_eq!(h.page_flags(1), 0);
    // The entries stay: the freed table still answers the walk.
    assert_eq!(virt_to_phys(&h, root, 0x4060_0010), Some(0x8040_0010));
}

#[test]
fn zalloc_clears_a_page_that_held_entries() {
    let mut h = heap(4);
    let root = h.zalloc(2).unwrap();
    assert!(mmu::map(&mut h, root, 0x4000_0000, 0x8000_0000, EntryBits::ReadWrite.val(), 2).is_ok());
    assert_ne!(h.read_word(root + 8), 0);
    h.dealloc(root);
    assert_eq!(h.zalloc(2), Some(root));
    assert_eq!(h.read_word(root + 8), 0);
    assert_eq!(virt_to_phys(&h, root, 0x4000_0000), None);
}

#[test]
fn map_range_through_existing_distinct_tables_is_identity() {
    let mut h = heap(8);
    let root = h.zalloc(2).unwrap();
    // A 2 MiB leaf puts the middle table into page 1.
    assert!(mmu::map(&mut h, root, 0x4000_0000, 0x9000_0000, EntryBits::ReadWrite.val(), 1).is_ok());
    // Taking page 1 and 2 moves the first free page to 2.
    assert_eq!(h.alloc_pages(2), Some(root + 4096));
    // The last-level table for 0x4060_0000 now lands in page 2.
    assert!(mmu::map(&mut h, root, 0x4060_0000, 0x4060_0000, EntryBits::ReadWrite.val(), 0).is_ok());
    assert!(map_range(&mut h, root, 0x4060_1000, 0x4061_0000, EntryBits::ReadWrite.val()).is_ok());
    for a in (0x4060_0000..0x4061_0000).step_by(0x7f3) {
        assert_eq!(virt_to_phys(&h, root, a), Some(a));
    }
    assert_eq!(virt_to_phys(&h, root, 0x4000_1234), Some(0x9000_1234));
    assert_eq!(virt_to_phys(&h, root, 0x4061_0000), None);
}

#[test]
fn map_twice_changes_nothing_the_second_time() {
    let mut h = heap(8);
    let root = h.zalloc(2).unwrap();
    assert!(mmu::map(&mut h, root, 0x4062_5000, 0x8765_4000, EntryBits::ReadWrite.val(), 0).is_ok());
    let flags: Vec<u8> = (0..8).map(|i| h.page_flags(i)).collect();
    let words: Vec<u64> = (0..8 * 512).map(|w| h.read_word(h.alloc_start() + 8 * w)).collect();
    assert!(mmu::map(&mut h, root, 0x4062_5000, 0x8765_4000, EntryBits::ReadWrite.val(), 0).is_ok());
    assert_eq!((0..8).map(|i| h.page_flags(i)).collect::<Vec<u8>>(), flags);
    assert_eq!((0..8 * 512).map(|w| h.read_word(h.alloc_start() + 8 * w)).collect::<Vec<u64>>(), words);
}

#[test]
fn map_range_leaves_the_rest_of_the_region() {
    let mut h = heap(8);
    let root = h.zalloc(2).unwrap();
    assert!(mmu::map(&mut h, root, 0x4000_0000, 0x9000_0000, EntryBits::ReadWrite.val(), 1).is_ok());
    assert_eq!(h.alloc_pages(2), Some(root + 4096));
    assert!(mmu::map(&mut h, root, 0x4060_0000, 0x7000_0000, EntryBits::ReadWrite.val(), 0).is_ok());
    assert!(map_range(&mut h, root, 0x4060_4000, 0x4060_6000, EntryBits::ReadWrite.val()).is_ok());
    assert_eq!(virt_to_phys(&h, root, 0x4060_0123), Some(0x7000_0123));
    assert_eq!(virt_to_phys(&h, root, 0x4060_3000), None);
    assert_eq!(virt_to_phys(&h, root, 0x4060_6000), None);
    assert_eq!(virt_to_phys(&h, root, 0x4060_5008), Some(0x4060_5008));
}

#[test]
fn map_range_across_regions_through_existing_tables() {
    let mut h = heap(8);
    let root = h.zalloc(2).unwrap();
    assert!(mmu::map(&mut h, root, 0x4000_0000, 0x9000_0000, EntryBits::ReadWrite.val(), 1).is_ok());
    assert_eq!(h.alloc_pages(2), Some(root + 4096));
    // Last-level table for the region at 0x4040_0000 in page 2.
    assert!(mmu::map(&mut h, root, 0x405f_f000, 0x405f_f000, EntryBits::ReadWrite.val(), 0).is_ok());
    assert_eq!(h.alloc_pages(2), Some(root + 2 * 4096));
    // Last-level table for the region at 0x4060_0000 in page 3.
    assert!(mmu::map(&mut h, root, 0x4060_0000, 0x4060_0000, EntryBits::ReadWrite.val(), 0).is_ok());
    assert!(map_range(&mut h, root, 0x405f_c000, 0x4060_2000, EntryBits::ReadWrite.val()).is_ok());
    for a in (0x405f_c000..0x4060_2000).step_by(0x3f1) {
        assert_eq!(virt_to_phys(&h, root, a), Some(a));
    }
    assert_eq!(virt_to_phys(&h, root, 0x405f_b000), None);
    assert_eq!(virt_to_phys(&h, root, 0x4060_2000), None);
    assert_eq!(virt_to_phys(&h, root, 0x4000_1234), Some(0x9000_1234));
}
