use ros_mm::addresses::{PhysicalAddress, PhysicalPageNumber};
use ros_mm::frame_allocator::{frame_alloc, frame_alloc_multiple};
use ros_mm::memory_init::{dtb_total_size, find_memory_node, init, DtNode, MemoryInitError};

fn reg_bytes(base: u64, size: u64) -> Vec<u8> {
    let mut v = Vec::new();
    v.extend_from_slice(&base.to_be_bytes());
    v.extend_from_slice(&size.to_be_bytes());
    v
}

fn memory_node(base: u64, size: u64) -> DtNode {
    DtNode {
        name: b"memory@80000000".to_vec(),
        props: vec![(b"device_type".to_vec(), b"memory".to_vec()), (b"reg".to_vec(), reg_bytes(
            base, size,
        ))],
    }
}

fn plain_node(name: &[u8]) -> DtNode {
    DtNode { name: name.to_vec(), props: Vec::new() }
}

#[test]
fn init_covers_memory_above_the_kernel() {
    // memory [0x8000_0000, 0x8800_0000), kernel image ends mid-page
    let nodes = vec![plain_node(b"cpus"), memory_node(0x8000_0000, 0x0800_0000)];
    let kernel_end = PhysicalAddress(0x8020_0100);
    let mut a = init(kernel_end, &nodes).unwrap();
    // the first allocatable page is the one above the kernel image
    let f = frame_alloc(&mut a).unwrap();
    assert_eq!(f.ppn, PhysicalPageNumber(0x80201));
    // the pool ends exactly at the end of the region
    let rest = 0x88000 - 0x80201 - 1;
    assert!(frame_alloc_multiple(&mut a, rest).is_some());
    assert!(frame_alloc(&mut a).is_none());
}

#[test]
fn init_uses_the_first_memory_node() {
    let nodes = vec![
        plain_node(b"chosen"),
        memory_node(0x8000_0000, 0x0010_0000),
        memory_node(0x9000_0000, 0x0010_0000),
    ];
    let kernel_end = PhysicalAddress(0x8000_0000);
    let mut a = init(kernel_end, &nodes).unwrap();
    let f = frame_alloc(&mut a).unwrap();
    assert_eq!(f.ppn, PhysicalPageNumber(0x80000));
}

#[test]
fn find_memory_node_picks_first_prefixed_name() {
    let nodes = vec![
        plain_node(b"cpus"),
        plain_node(b"memor"),
        memory_node(0, 0x10000),
        plain_node(b"memory@2"),
    ];
    assert_eq!(find_memory_node(&nodes), Some(2));
    let none = vec![plain_node(b"cpus"), plain_node(b"uart")];
    assert_eq!(find_memory_node(&none), None);
}

#[test]
fn missing_memory_node_is_fatal() {
    let nodes = vec![plain_node(b"cpus")];
    let r = init(PhysicalAddress(0), &nodes);
    assert_eq!(r.err().unwrap(), MemoryInitError::NoMemoryNode);
}

#[test]
fn missing_reg_is_fatal() {
    let nodes = vec![DtNode { name: b"memory".to_vec(), props: Vec::new() }];
    let r = init(PhysicalAddress(0), &nodes);
    assert_eq!(r.err().unwrap(), MemoryInitError::MissingReg);
}

#[test]
fn short_reg_is_fatal() {
    let nodes = vec![DtNode {
        name: b"memory".to_vec(),
        props: vec![(b"reg".to_vec(), vec![0u8; 8])],
    }];
    let r = init(PhysicalAddress(0), &nodes);
    assert_eq!(r.err().unwrap(), MemoryInitError::RegTooShort);
}

#[test]
fn region_beyond_address_space_is_fatal() {
    let nodes = vec![memory_node(0xFF00_0000_0000_0000, 0x1000)];
    let r = init(PhysicalAddress(0), &nodes);
    assert_eq!(r.err().unwrap(), MemoryInitError::RegOverflow);
}

#[test]
fn kernel_filling_the_region_is_fatal() {
    let nodes = vec![memory_node(0x8000_0000, 0x0010_0000)];
    // the kernel image ends at the very end of the region
    let r = init(PhysicalAddress(0x8010_0000), &nodes);
    assert_eq!(r.err().unwrap(), MemoryInitError::EmptyRange);
}

#[test]
fn dtb_header_is_checked() {
    let mut blob = vec![0xD0u8, 0x0D, 0xFE, 0xED, 0x00, 0x00, 0x12, 0x34];
    assert_eq!(dtb_total_size(&blob), Some(0x1234));
    blob[0] = 0;
    assert_eq!(dtb_total_size(&blob), None);
    assert_eq!(dtb_total_size(&vec![0xD0u8, 0x0D, 0xFE]), None);
}
