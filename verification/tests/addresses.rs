use ros_mm::addresses::{
    PhysicalAddress, PhysicalPageNumber, VirtualAddress, VirtualPageNumber, PAGE_SIZE, PA_MASK,
    PPN_MASK,
};

#[test]
fn physical_address_masks_to_width() {
    let pa = PhysicalAddress::from(0xFFFF_FFFF_FFFF_FFFF);
    assert_eq!(pa.0, PA_MASK);
    let pa2 = PhysicalAddress::from(0x8020_0000);
    assert_eq!(pa2.0, 0x8020_0000);
}

#[test]
fn virtual_address_masks_to_width() {
    let va = VirtualAddress::from(0xFFFF_FFFF_FFFF_FFFF);
    assert_eq!(va.0, PA_MASK);
}

#[test]
fn page_numbers_mask_to_width() {
    assert_eq!(PhysicalPageNumber::from(0xFFFF_FFFF_FFFF_FFFF).0, PPN_MASK);
    assert_eq!(VirtualPageNumber::from(0xFFFF_FFFF_FFFF_FFFF).0, PPN_MASK);
    assert_eq!(PhysicalPageNumber::from(0x80200).0, 0x80200);
}

#[test]
fn floor_and_ceil_at_boundaries() {
    let aligned = PhysicalAddress(0x8020_0000);
    assert_eq!(aligned.floor().0, 0x80200);
    assert_eq!(aligned.ceil().0, 0x80200);
    assert_eq!(aligned.page_offset(), 0);

    let unaligned = PhysicalAddress(0x8020_0100);
    assert_eq!(unaligned.floor().0, 0x80200);
    assert_eq!(unaligned.ceil().0, 0x80201);
    assert_eq!(unaligned.page_offset(), 0x100);

    let last_byte = PhysicalAddress(0x8020_0FFF);
    assert_eq!(last_byte.floor().0, 0x80200);
    assert_eq!(last_byte.ceil().0, 0x80201);
    assert_eq!(last_byte.page_offset(), 0xFFF);
}

#[test]
fn page_number_to_address_is_a_shift() {
    let ppn = PhysicalPageNumber(0x80200);
    let pa: PhysicalAddress = ppn.into();
    assert_eq!(pa.0, 0x80200 * PAGE_SIZE);
}

#[test]
fn indexes_decomposes_into_three_levels() {
    // vpn = (3 << 18) | (5 << 9) | 7
    let vpn = VirtualPageNumber((3 << 18) | (5 << 9) | 7);
    let idx = vpn.indexes();
    assert_eq!(idx[0], 3);
    assert_eq!(idx[1], 5);
    assert_eq!(idx[2], 7);

    let all_ones = VirtualPageNumber(0x7FF_FFFF);
    let idx2 = all_ones.indexes();
    assert_eq!(idx2, [511, 511, 511]);
}

#[test]
fn aligned_address_converts_to_page_number() {
    let pa = PhysicalAddress(0x8020_0000);
    assert_eq!(pa.page_number(), PhysicalPageNumber(0x80200));
    assert_eq!(PhysicalAddress(0).page_number(), PhysicalPageNumber(0));
}
