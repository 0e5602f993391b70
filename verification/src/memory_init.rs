//! Boot-time computation of the allocatable physical range.
//!
//! The hardware memory map reaches this module as the ordered children of
//! the device tree's root, each reduced to the narrow contract the core
//! consumes: a node name and raw byte properties. The first node whose
//! name begins with "memory" carries a "reg" property holding two
//! big-endian 64-bit integers, base and size in bytes; the allocatable
//! range runs from the first page boundary at or above the kernel image's
//! end to the end of that region, and the frame allocator is initialized
//! over it.

use vstd::prelude::*;

use crate::addresses::{PhysicalAddress, PAGE_SIZE, PA_MASK};
use crate::frame_allocator::{init_allocator, FrameAllocator};

verus! {

/// One byte past the largest valid physical address.
pub const PA_SPACE_SIZE: u64 = 0x100_0000_0000_0000;

/// The big-endian magic value opening a device tree blob.
pub const DEVICE_TREE_MAGIC: u32 = 0xD00DFEED;

/// A device-tree node reduced to what this core reads: its name and its
/// raw byte properties, in order.
pub struct DtNode {
    pub name: Vec<u8>,
    pub props: Vec<(Vec<u8>, Vec<u8>)>,
}

/// Why no allocatable range could be established. Each of these is fatal
/// for a kernel: it cannot run without a usable memory map.
#[derive(Clone, Copy, PartialEq, Eq, Structural, Debug)]
pub enum MemoryInitError {
    /// No child of the root is named "memory...".
    NoMemoryNode,
    /// The memory node has no "reg" property.
    MissingReg,
    /// The "reg" property holds fewer than 16 bytes.
    RegTooShort,
    /// Base plus size exceeds the physical address space.
    RegOverflow,
    /// No whole page lies between the kernel image's end and the end of
    /// the memory region.
    EmptyRange,
}

/// The node name begins with "memory".
pub open spec fn is_memory_node(n: DtNode) -> bool {
    &&& n.name@.len() >= 6
    &&& n.name@[0] == 109u8
    &&& n.name@[1] == 101u8
    &&& n.name@[2] == 109u8
    &&& n.name@[3] == 111u8
    &&& n.name@[4] == 114u8
    &&& n.name@[5] == 121u8
}

/// The first node of `nodes` whose name begins with "memory", if any.
pub open spec fn spec_first_memory(nodes: Seq<DtNode>) -> Option<DtNode>
    decreases nodes.len(),
{
    if nodes.len() == 0 {
        None
    } else if is_memory_node(nodes[0]) {
        Some(nodes[0])
    } else {
        spec_first_memory(nodes.drop_first())
    }
}

/// The value of the first property of `props` named `name`, if any.
pub open spec fn spec_prop_raw(props: Seq<(Vec<u8>, Vec<u8>)>, name: Seq<u8>) -> Option<Seq<u8>>
    decreases props.len(),
{
    if props.len() == 0 {
        None
    } else if props[0].0@ == name {
        Some(props[0].1@)
    } else {
        spec_prop_raw(props.drop_first(), name)
    }
}

/// The big-endian 32-bit integer held by the four bytes of `s`.
pub open spec fn spec_be32(s: Seq<u8>) -> u32 {
    ((s[0] as u32) << 24) | ((s[1] as u32) << 16) | ((s[2] as u32) << 8) | (s[3] as u32)
}

/// The big-endian 64-bit integer held by the eight bytes of `s`.
pub open spec fn spec_be64(s: Seq<u8>) -> u64 {
    ((s[0] as u64) << 56) | ((s[1] as u64) << 48) | ((s[2] as u64) << 40) | ((s[3] as u64) << 32)
        | ((s[4] as u64) << 24) | ((s[5] as u64) << 16) | ((s[6] as u64) << 8) | (s[7] as u64)
}

/// The first page boundary at or above address `a`, as a page number.
pub open spec fn spec_ceil_page(a: int) -> int {
    if a % (PAGE_SIZE as int) == 0 {
        a / (PAGE_SIZE as int)
    } else {
        a / (PAGE_SIZE as int) + 1
    }
}

/// What `init` decides from the kernel image's end and the root's
/// children: either the allocatable page range `(start, pages)` or the
/// error that makes the memory map unusable.
pub open spec fn spec_init_outcome(kernel_end: PhysicalAddress, nodes: Seq<DtNode>) -> Result<
    (int, int),
    MemoryInitError,
> {
    match spec_first_memory(nodes) {
        None => Err(MemoryInitError::NoMemoryNode),
        Some(node) => match spec_prop_raw(node.props@, seq![114u8, 101u8, 103u8]) {
            None => Err(MemoryInitError::MissingReg),
            Some(reg) => if reg.len() < 16 {
                Err(MemoryInitError::RegTooShort)
            } else {
                let base = spec_be64(reg.subrange(0, 8)) as int;
                let size = spec_be64(reg.subrange(8, 16)) as int;
                if base + size > PA_SPACE_SIZE {
                    Err(MemoryInitError::RegOverflow)
                } else {
                    let start_page = spec_ceil_page(kernel_end.0 as int);
                    let end_page = (base + size) / (PAGE_SIZE as int);
                    if start_page < end_page {
                        Ok((start_page, end_page - start_page))
                    } else {
                        Err(MemoryInitError::EmptyRange)
                    }
                }
            },
        },
    }
}

/// The two byte sequences hold the same bytes.
fn bytes_eq(a: &Vec<u8>, b: &Vec<u8>) -> (r: bool)
    ensures
        r <==> a@ == b@,
{
    if a.len() != b.len() {
        proof {
            assert(a@.len() != b@.len());
        }
        return false;
    }
    let n = a.len();
    let mut i: usize = 0;
    while i < n
        invariant
            n == a@.len() && n == b@.len(),
            0 <= i <= n,
            forall|j: int| 0 <= j < i ==> a@[j] == b@[j],
        decreases n - i,
    {
        if a[i] != b[i] {
            return false;
        }
        i = i + 1;
    }
    proof {
        assert(a@ =~= b@);
    }
    true
}

impl DtNode {
    /// The raw bytes of the first property named `name`, if any.
    pub fn prop_raw(&self, name: &Vec<u8>) -> (r: Option<&Vec<u8>>)
        ensures
            match r {
                Some(v) => spec_prop_raw(self.props@, name@) == Some(v@),
                None => spec_prop_raw(self.props@, name@) is None,
            },
    {
        let n = self.props.len();
        let mut i: usize = 0;
        proof {
            assert(self.props@.subrange(0, n as int) =~= self.props@);
        }
        while i < n
            invariant
                n == self.props@.len(),
                0 <= i <= n,
                spec_prop_raw(self.props@, name@) == spec_prop_raw(
                    self.props@.subrange(i as int, n as int),
                    name@,
                ),
            decreases n - i,
        {
            let ghost pre = self.props@.subrange(i as int, n as int);
            if bytes_eq(&self.props[i].0, name) {
                proof {
                    assert(pre[0] == self.props@[i as int]);
                }
                return Some(&self.props[i].1);
            }
            proof {
                assert(pre[0] == self.props@[i as int]);
                assert(pre.drop_first() =~= self.props@.subrange(i as int + 1, n as int));
            }
            i = i + 1;
        }
        proof {
            assert(self.props@.subrange(i as int, n as int).len() == 0);
        }
        None
    }
}

/// Index of the first node of `nodes` whose name begins with "memory".
pub fn find_memory_node(nodes: &Vec<DtNode>) -> (r: Option<usize>)
    ensures
        match r {
            Some(i) => {
                &&& i < nodes@.len()
                &&& is_memory_node(nodes@[i as int])
                &&& spec_first_memory(nodes@) == Some(nodes@[i as int])
            },
            None => spec_first_memory(nodes@) is None,
        },
{
    let n = nodes.len();
    let mut i: usize = 0;
    proof {
        assert(nodes@.subrange(0, n as int) =~= nodes@);
    }
    while i < n
        invariant
            n == nodes@.len(),
            0 <= i <= n,
            spec_first_memory(nodes@) == spec_first_memory(nodes@.subrange(i as int, n as int)),
        decreases n - i,
    {
        let ghost pre = nodes@.subrange(i as int, n as int);
        let node = &nodes[i];
        let name_ok = node.name.len() >= 6 && node.name[0] == 109 && node.name[1] == 101
            && node.name[2] == 109 && node.name[3] == 111 && node.name[4] == 114 && node.name[5]
            == 121;
        proof {
            assert(pre[0] == nodes@[i as int]);
            assert(pre.drop_first() =~= nodes@.subrange(i as int + 1, n as int));
        }
        if name_ok {
            return Some(i);
        }
        i = i + 1;
    }
    proof {
        assert(nodes@.subrange(i as int, n as int).len() == 0);
    }
    None
}

/// The big-endian 64-bit integer held by `bytes[off .. off + 8]`.
fn be64(bytes: &Vec<u8>, off: usize) -> (r: u64)
    requires
        off + 8 <= bytes@.len(),
    ensures
        r == spec_be64(bytes@.subrange(off as int, off as int + 8)),
{
    let ghost s = bytes@.subrange(off as int, off as int + 8);
    let n = bytes.len();
    assert(off + 8 <= n);
    let r = ((bytes[off] as u64) << 56) | ((bytes[off + 1] as u64) << 48) | ((bytes[off + 2]
        as u64) << 40) | ((bytes[off + 3] as u64) << 32) | ((bytes[off + 4] as u64) << 24) | ((
    bytes[off + 5] as u64) << 16) | ((bytes[off + 6] as u64) << 8) | (bytes[off + 7] as u64);
    proof {
        assert(s[0] == bytes@[off as int]);
        assert(s[1] == bytes@[off as int + 1]);
        assert(s[2] == bytes@[off as int + 2]);
        assert(s[3] == bytes@[off as int + 3]);
        assert(s[4] == bytes@[off as int + 4]);
        assert(s[5] == bytes@[off as int + 5]);
        assert(s[6] == bytes@[off as int + 6]);
        assert(s[7] == bytes@[off as int + 7]);
    }
    r
}

/// The big-endian 32-bit integer held by `bytes[off .. off + 4]`.
fn be32(bytes: &Vec<u8>, off: usize) -> (r: u32)
    requires
        off + 4 <= bytes@.len(),
    ensures
        r == spec_be32(bytes@.subrange(off as int, off as int + 4)),
{
    let ghost s = bytes@.subrange(off as int, off as int + 4);
    let n = bytes.len();
    assert(off + 4 <= n);
    let r = ((bytes[off] as u32) << 24) | ((bytes[off + 1] as u32) << 16) | ((bytes[off + 2]
        as u32) << 8) | (bytes[off + 3] as u32);
    proof {
        assert(s[0] == bytes@[off as int]);
        assert(s[1] == bytes@[off as int + 1]);
        assert(s[2] == bytes@[off as int + 2]);
        assert(s[3] == bytes@[off as int + 3]);
    }
    r
}

/// Read the device tree blob's header: the big-endian magic value
/// followed by the blob's big-endian total size in bytes. `None` when
/// the bytes are too short or do not open with the magic.
pub fn dtb_total_size(bytes: &Vec<u8>) -> (r: Option<u32>)
    ensures
        match r {
            Some(n) => {
                &&& bytes@.len() >= 8
                &&& spec_be32(bytes@.subrange(0, 4)) == DEVICE_TREE_MAGIC
                &&& n == spec_be32(bytes@.subrange(4, 8))
            },
            None => bytes@.len() < 8 || spec_be32(bytes@.subrange(0, 4)) != DEVICE_TREE_MAGIC,
        },
{
    if bytes.len() < 8 {
        return None;
    }
    let magic = be32(bytes, 0);
    if magic != DEVICE_TREE_MAGIC {
        return None;
    }
    Some(be32(bytes, 4))
}

/// Compute the allocatable range from the memory map and the kernel
/// image's end, and initialize the frame allocator over it, exactly as
/// `spec_init_outcome` describes. A missing or unusable memory map is
/// fatal for the kernel; it is reported here as the error value.
pub fn init(kernel_end: PhysicalAddress, nodes: &Vec<DtNode>) -> (r: Result<
    FrameAllocator,
    MemoryInitError,
>)
    requires
        kernel_end.0 <= PA_MASK,
    ensures
        match r {
            Ok(a) => {
                &&& spec_init_outcome(kernel_end, nodes@) matches Ok(range) && range == (
                a.start_ppn(),
                a.size_pages(),
                )
                &&& a.wf()
                &&& a.capacity() == a.size_pages()
                &&& forall|o: int| !a.allocs().dom().contains(o)
            },
            Err(e) => spec_init_outcome(kernel_end, nodes@) matches Err(e2) && e2 == e,
        },
{
    let node_idx = match find_memory_node(nodes) {
        None => {
            return Err(MemoryInitError::NoMemoryNode);
        },
        Some(i) => i,
    };
    let node = &nodes[node_idx];
    let mut reg_name: Vec<u8> = Vec::new();
    reg_name.push(114);
    reg_name.push(101);
    reg_name.push(103);
    proof {
        assert(reg_name@ =~= seq![114u8, 101u8, 103u8]);
    }
    let reg = match node.prop_raw(&reg_name) {
        None => {
            return Err(MemoryInitError::MissingReg);
        },
        Some(v) => v,
    };
    if reg.len() < 16 {
        return Err(MemoryInitError::RegTooShort);
    }
    let base = be64(reg, 0);
    let size = be64(reg, 8);
    if base > PA_SPACE_SIZE || size > PA_SPACE_SIZE - base {
        return Err(MemoryInitError::RegOverflow);
    }
    let end = base + size;
    let start_page = PhysicalAddress::from(kernel_end.0).ceil();
    let end_page = end / PAGE_SIZE;
    proof {
        let ke = kernel_end.0;
        assert(ke & PA_MASK == ke) by (bit_vector)
            requires
                ke <= 0xFF_FFFF_FFFF_FFFFu64,
        ;
        assert(start_page.0 == spec_ceil_page(kernel_end.0 as int));
        assert(end_page as int == (base + size) / (PAGE_SIZE as int));
        assert(start_page.0 <= 0x1000_0000_0000) by {
            assert(kernel_end.0 as int / (PAGE_SIZE as int) <= 0xFF_FFFF_FFFF_FFFFint / 4096);
        };
        assert(end_page <= 0x1000_0000_0000);
    }
    if start_page.0 < end_page {
        let pages = end_page - start_page.0;
        Ok(init_allocator(start_page, pages))
    } else {
        Err(MemoryInitError::EmptyRange)
    }
}

} // verus!
