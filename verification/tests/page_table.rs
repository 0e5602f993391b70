use ros_mm::addresses::{PhysicalPageNumber, VirtualPageNumber};
use ros_mm::frame_allocator::{frame_alloc, init_allocator};
use ros_mm::page_table::{
    PTEFlags, PageTable, PageTableEntry, PageTableError, PTE_R, PTE_U, PTE_V, PTE_W, PTE_X,
};

#[test]
fn entry_encoding_is_bit_exact() {
    let ppn = PhysicalPageNumber(0x80200);
    let flags = PTEFlags { bits: PTE_V | PTE_R | PTE_W };
    let e = PageTableEntry::new(ppn, flags);
    assert_eq!(e.bits, (0x80200u64 << 10) | 0b111);
    assert_eq!(e.ppn(), ppn);
    assert_eq!(e.flags().bits, 0b111);
    assert!(e.is_valid());
    assert!(e.readable());
    assert!(e.writable());
    assert!(!e.executable());
    assert!(!e.is_dentry());
}

#[test]
fn empty_entry_is_invalid() {
    let e = PageTableEntry::empty();
    assert_eq!(e.bits, 0);
    assert!(!e.is_valid());
    assert!(!e.is_dentry());
}

#[test]
fn directory_entry_has_no_rwx() {
    let e = PageTableEntry::new(PhysicalPageNumber(5), PTEFlags { bits: PTE_V });
    assert!(e.is_valid());
    assert!(e.is_dentry());
    let leaf = PageTableEntry::new(PhysicalPageNumber(5), PTEFlags { bits: PTE_V | PTE_X });
    assert!(!leaf.is_dentry());
}

#[test]
fn map_then_find_pte_reports_the_mapping() {
    let mut a = init_allocator(PhysicalPageNumber(0x1000), 64);
    let mut pt = PageTable::new(&mut a).unwrap();
    let vpn = VirtualPageNumber((1 << 18) | (2 << 9) | 3);
    let ppn = PhysicalPageNumber(0x2345);
    let flags = PTEFlags { bits: PTE_R | PTE_W };
    assert!(pt.map(&mut a, vpn, ppn, flags).is_ok());

    let e = pt.find_pte(vpn).unwrap().unwrap();
    assert_eq!(e.ppn(), ppn);
    assert_eq!(e.flags().bits, PTE_R | PTE_W | PTE_V);

    assert!(pt.unmap(vpn).is_ok());
    assert_eq!(pt.find_pte(vpn).unwrap(), None);
}

#[test]
fn remap_is_refused_and_entry_unchanged() {
    let mut a = init_allocator(PhysicalPageNumber(0x1000), 64);
    let mut pt = PageTable::new(&mut a).unwrap();
    let vpn = VirtualPageNumber(42);
    let first = PhysicalPageNumber(0x1111);
    assert!(pt.map(&mut a, vpn, first, PTEFlags { bits: PTE_R }).is_ok());

    let again = pt.map(&mut a, vpn, PhysicalPageNumber(0x2222), PTEFlags { bits: PTE_W });
    assert_eq!(again, Err(PageTableError::AlreadyMapped(vpn)));

    let e = pt.find_pte(vpn).unwrap().unwrap();
    assert_eq!(e.ppn(), first);
    assert_eq!(e.flags().bits, PTE_R | PTE_V);
}

#[test]
fn map_without_rwx_is_refused() {
    let mut a = init_allocator(PhysicalPageNumber(0x1000), 64);
    let mut pt = PageTable::new(&mut a).unwrap();
    let vpn = VirtualPageNumber(7);
    let r = pt.map(&mut a, vpn, PhysicalPageNumber(9), PTEFlags { bits: PTE_V | PTE_U });
    assert_eq!(r, Err(PageTableError::InvalidFlags));
    assert_eq!(pt.find_pte(vpn).unwrap(), None);
}

#[test]
fn unmap_of_unmapped_is_refused() {
    let mut a = init_allocator(PhysicalPageNumber(0x1000), 64);
    let mut pt = PageTable::new(&mut a).unwrap();
    let vpn = VirtualPageNumber(1234);
    assert_eq!(pt.unmap(vpn), Err(PageTableError::NotMapped(vpn)));
    let mapped = VirtualPageNumber(1);
    assert!(pt.map(&mut a, mapped, PhysicalPageNumber(2), PTEFlags { bits: PTE_X }).is_ok());
    assert!(pt.unmap(mapped).is_ok());
    assert_eq!(pt.unmap(mapped), Err(PageTableError::NotMapped(mapped)));
}

#[test]
fn sibling_mappings_share_directories() {
    // two virtual pages sharing the top two 9-bit levels: the first map
    // takes two directory frames, the second none. With frames handed
    // out in address order, the pages taken from the allocator show it.
    let mut a = init_allocator(PhysicalPageNumber(0), 64);
    let mut pt = PageTable::new(&mut a).unwrap();  // takes page 0
    let base: u64 = (7 << 18) | (8 << 9);
    let v1 = VirtualPageNumber(base | 1);
    let v2 = VirtualPageNumber(base | 2);
    assert!(pt.map(&mut a, v1, PhysicalPageNumber(0x100), PTEFlags { bits: PTE_R }).is_ok());
    // pages 1 and 2 went to the two directory levels
    let probe1 = frame_alloc(&mut a).unwrap();
    assert_eq!(probe1.ppn, PhysicalPageNumber(3));

    assert!(pt.map(&mut a, v2, PhysicalPageNumber(0x101), PTEFlags { bits: PTE_R }).is_ok());
    // no further directory frame was taken
    let probe2 = frame_alloc(&mut a).unwrap();
    assert_eq!(probe2.ppn, PhysicalPageNumber(4));

    let e1 = pt.find_pte(v1).unwrap().unwrap();
    let e2 = pt.find_pte(v2).unwrap().unwrap();
    assert_eq!(e1.ppn(), PhysicalPageNumber(0x100));
    assert_eq!(e2.ppn(), PhysicalPageNumber(0x101));
}

#[test]
fn distinct_slots_do_not_disturb_each_other() {
    let mut a = init_allocator(PhysicalPageNumber(0), 64);
    let mut pt = PageTable::new(&mut a).unwrap();
    let v1 = VirtualPageNumber((1 << 18) | (1 << 9) | 1);
    let v2 = VirtualPageNumber((2 << 18) | (2 << 9) | 2);
    assert!(pt.map(&mut a, v1, PhysicalPageNumber(0x10), PTEFlags { bits: PTE_R }).is_ok());
    assert!(pt.map(&mut a, v2, PhysicalPageNumber(0x20), PTEFlags { bits: PTE_W }).is_ok());
    assert!(pt.unmap(v1).is_ok());
    let e2 = pt.find_pte(v2).unwrap().unwrap();
    assert_eq!(e2.ppn(), PhysicalPageNumber(0x20));
    assert_eq!(pt.find_pte(v1).unwrap(), None);
}

#[test]
fn exhausted_allocator_stops_table_growth() {
    let mut a = init_allocator(PhysicalPageNumber(0), 1);
    let mut pt = PageTable::new(&mut a).unwrap();  // takes the only page
    let vpn = VirtualPageNumber(5);
    let r = pt.map(&mut a, vpn, PhysicalPageNumber(9), PTEFlags { bits: PTE_R });
    assert_eq!(r, Err(PageTableError::OutOfFrames));
    assert_eq!(pt.find_pte(vpn).unwrap(), None);
}

#[test]
fn table_creation_needs_a_frame() {
    let mut a = init_allocator(PhysicalPageNumber(0), 1);
    let first = PageTable::new(&mut a);
    assert!(first.is_some());
    let second = PageTable::new(&mut a);
    assert!(second.is_none());
}

#[test]
fn remap_after_unmap_succeeds() {
    let mut a = init_allocator(PhysicalPageNumber(0), 64);
    let mut pt = PageTable::new(&mut a).unwrap();
    let vpn = VirtualPageNumber(99);
    assert!(pt.map(&mut a, vpn, PhysicalPageNumber(1), PTEFlags { bits: PTE_R }).is_ok());
    assert!(pt.unmap(vpn).is_ok());
    assert!(pt.map(&mut a, vpn, PhysicalPageNumber(2), PTEFlags { bits: PTE_W }).is_ok());
    let e = pt.find_pte(vpn).unwrap().unwrap();
    assert_eq!(e.ppn(), PhysicalPageNumber(2));
    assert_eq!(e.flags().bits, PTE_W | PTE_V);
}

#[test]
fn extreme_slot_indices_map() {
    let mut a = init_allocator(PhysicalPageNumber(0), 64);
    let mut pt = PageTable::new(&mut a).unwrap();
    let low = VirtualPageNumber(0);
    let high = VirtualPageNumber(0x7FF_FFFF);
    assert!(pt.map(&mut a, low, PhysicalPageNumber(0x10), PTEFlags { bits: PTE_R }).is_ok());
    assert!(pt.map(&mut a, high, PhysicalPageNumber(0x20), PTEFlags { bits: PTE_X }).is_ok());
    assert_eq!(pt.find_pte(low).unwrap().unwrap().ppn(), PhysicalPageNumber(0x10));
    assert_eq!(pt.find_pte(high).unwrap().unwrap().ppn(), PhysicalPageNumber(0x20));
    assert!(pt.unmap(low).is_ok());
    assert_eq!(pt.find_pte(low).unwrap(), None);
    assert_eq!(pt.find_pte(high).unwrap().unwrap().ppn(), PhysicalPageNumber(0x20));
}
