//! The three-level page table.
//!
//! A table is a tree of directory nodes, each backed by one allocated
//! frame and holding 512 entries. An entry is one 64-bit word: the
//! physical page number shifted left by 10, OR-ed with 8 flag bits. A
//! valid entry with none of Read/Write/Execute set is a directory entry
//! pointing at the next level; a valid entry with at least one of them
//! set is a leaf. `map` walks the three 9-bit indices of a virtual page
//! number, materializing missing directory levels from the frame
//! allocator, and installs a leaf; `unmap` clears it; `find_pte` walks
//! read-only. A walk that meets a leaf where a directory was expected
//! (or the reverse) reports the table as malformed rather than absent.

use vstd::prelude::*;

use crate::addresses::{PhysicalPageNumber, VirtualPageNumber, PPN_MASK};
use crate::frame_allocator::{frame_alloc, lemma_capacity_nonneg, Frame, FrameAllocator};
use crate::tlsf::free_run_from;

verus! {

/// Valid.
pub const PTE_V: u8 = 1;

/// Readable.
pub const PTE_R: u8 = 2;

/// Writable.
pub const PTE_W: u8 = 4;

/// Executable.
pub const PTE_X: u8 = 8;

/// User-accessible.
pub const PTE_U: u8 = 16;

/// Global mapping.
pub const PTE_G: u8 = 32;

/// Accessed.
pub const PTE_A: u8 = 64;

/// Dirty.
pub const PTE_D: u8 = 128;

/// The 8 flag bits of a page-table entry.
#[derive(Copy, Clone, PartialEq, Eq, Structural, Debug)]
pub struct PTEFlags {
    pub bits: u8,
}

/// One page-table entry: a 44-bit physical page number shifted left by
/// 10 bits, OR-ed with the 8 flag bits.
#[derive(Copy, Clone, PartialEq, Eq, Structural, Debug)]
pub struct PageTableEntry {
    pub bits: u64,
}

/// The entry word encoding page number `ppn` with flags `flags`.
pub open spec fn spec_pte_bits(ppn: u64, flags: u8) -> u64 {
    (ppn << 10) | (flags as u64)
}

/// The page number held by entry word `bits`.
pub open spec fn spec_pte_ppn(bits: u64) -> u64 {
    (bits >> 10) & PPN_MASK
}

/// The flag bits held by entry word `bits`.
pub open spec fn spec_pte_flags(bits: u64) -> u8 {
    bits as u8
}

impl PageTableEntry {
    /// The Valid bit is set.
    pub open spec fn spec_valid(self) -> bool {
        self.bits & 1 != 0
    }

    /// At least one of Read/Write/Execute is set.
    pub open spec fn spec_has_rwx(self) -> bool {
        self.bits & 14 != 0
    }

    /// A directory entry: valid with none of Read/Write/Execute.
    pub open spec fn spec_is_dentry(self) -> bool {
        self.spec_valid() && !self.spec_has_rwx()
    }

    /// A leaf entry: valid with at least one of Read/Write/Execute.
    pub open spec fn spec_is_leaf(self) -> bool {
        self.spec_valid() && self.spec_has_rwx()
    }

    /// Encode an entry from a page number and flags.
    pub fn new(ppn: PhysicalPageNumber, flags: PTEFlags) -> (r: Self)
        requires
            ppn.0 <= PPN_MASK,
        ensures
            r.bits == spec_pte_bits(ppn.0, flags.bits),
            spec_pte_ppn(r.bits) == ppn.0,
            spec_pte_flags(r.bits) == flags.bits,
            r.spec_valid() <==> flags.bits & 1 != 0,
            r.spec_has_rwx() <==> flags.bits & 14 != 0,
    {
        proof {
            lemma_pte_encode(ppn.0, flags.bits);
        }
        PageTableEntry { bits: (ppn.0 << 10) | (flags.bits as u64) }
    }

    /// The all-zero, invalid entry.
    pub fn empty() -> (r: Self)
        ensures
            r.bits == 0,
            !r.spec_valid(),
    {
        proof {
            assert(0u64 & 1 == 0) by (bit_vector);
        }
        PageTableEntry { bits: 0 }
    }

    /// The page number this entry holds.
    pub fn ppn(&self) -> (r: PhysicalPageNumber)
        ensures
            r.0 == spec_pte_ppn(self.bits),
            r.0 <= PPN_MASK,
    {
        proof {
            let b = self.bits;
            assert((b >> 10) & 0xFFF_FFFF_FFFF <= 0xFFF_FFFF_FFFFu64) by (bit_vector);
        }
        PhysicalPageNumber((self.bits >> 10) & PPN_MASK)
    }

    /// The flag bits this entry holds.
    pub fn flags(&self) -> (r: PTEFlags)
        ensures
            r.bits == spec_pte_flags(self.bits),
    {
        proof {
            let b = self.bits;
            assert((b & 0xFF) as u8 == b as u8) by (bit_vector);
            assert(b & 0xFF <= 0xFFu64) by (bit_vector);
        }
        PTEFlags { bits: (self.bits & 0xFF) as u8 }
    }

    /// The Valid bit is set.
    pub fn is_valid(&self) -> (r: bool)
        ensures
            r == self.spec_valid(),
    {
        self.bits & 1 != 0
    }

    /// The Read bit is set.
    pub fn readable(&self) -> (r: bool)
        ensures
            r == (self.bits & 2 != 0),
    {
        self.bits & 2 != 0
    }

    /// The Write bit is set.
    pub fn writable(&self) -> (r: bool)
        ensures
            r == (self.bits & 4 != 0),
    {
        self.bits & 4 != 0
    }

    /// The Execute bit is set.
    pub fn executable(&self) -> (r: bool)
        ensures
            r == (self.bits & 8 != 0),
    {
        self.bits & 8 != 0
    }

    /// A directory entry: valid with none of Read/Write/Execute set.
    pub fn is_dentry(&self) -> (r: bool)
        ensures
            r == self.spec_is_dentry(),
    {
        self.bits & 1 != 0 && self.bits & 14 == 0
    }
}

proof fn lemma_pte_encode(ppn: u64, flags: u8)
    by (bit_vector)
    requires
        ppn <= 0xFFF_FFFF_FFFF,
    ensures
        (((ppn << 10) | (flags as u64)) >> 10) & 0xFFF_FFFF_FFFF == ppn,
        ((ppn << 10) | (flags as u64)) as u8 == flags,
        ((ppn << 10) | (flags as u64)) & 1 == (flags as u64) & 1,
        ((ppn << 10) | (flags as u64)) & 14 == (flags as u64) & 14,
        ((ppn << 10) | (flags as u64)) & 1 != 0 <==> flags & 1 != 0,
        ((ppn << 10) | (flags as u64)) & 14 != 0 <==> flags & 14 != 0,
{
}

/// One directory node of the tree: the frame that backs it and the 512
/// entries it holds. The level (0 for the root, 2 for leaf tables) is
/// carried as ghost state for the structural invariant.
struct PtNode {
    frame: Frame,
    entries: Vec<PageTableEntry>,
    level: Ghost<nat>,
}

/// What walking the table for one virtual page number yields.
pub enum WalkResult {
    /// Some level on the path is absent, or the leaf entry is invalid.
    Absent,
    /// The walk met a leaf entry where a directory entry was expected,
    /// or a directory-shaped entry at the leaf level: the table is
    /// corrupt.
    Malformed,
    /// The valid leaf entry that was found.
    Leaf(PageTableEntry),
}

/// A three-level page table: the root directory frame plus every frame
/// allocated for an internal directory node, kept alive for the table's
/// whole lifetime.
pub struct PageTable {
    root_ppn: PhysicalPageNumber,
    nodes: Vec<PtNode>,
}

/// `v1` and `v2` select the same entry slot at all three levels (their
/// low 27 bits agree).
pub open spec fn same_slots(v1: VirtualPageNumber, v2: VirtualPageNumber) -> bool {
    &&& v1.level0_index() == v2.level0_index()
    &&& v1.level1_index() == v2.level1_index()
    &&& v1.level2_index() == v2.level2_index()
}

impl PageTable {
    /// Number of directory nodes (frames) the table holds, the root
    /// included.
    pub closed spec fn node_count(&self) -> int {
        self.nodes@.len() as int
    }

    spec fn node_frame(&self, i: int) -> Frame {
        self.nodes@[i].frame
    }

    spec fn node_ppn(&self, i: int) -> u64 {
        self.nodes@[i].frame.ppn.0
    }

    spec fn node_level(&self, i: int) -> nat {
        self.nodes@[i].level@
    }

    spec fn entry(&self, i: int, k: int) -> PageTableEntry {
        self.nodes@[i].entries@[k]
    }

    spec fn has_node(&self, ppn: u64) -> bool {
        exists|i: int| 0 <= i < self.node_count() && (#[trigger] self.node_ppn(i)) == ppn
    }

    spec fn node_idx(&self, ppn: u64) -> int {
        choose|i: int| 0 <= i < self.node_count() && (#[trigger] self.node_ppn(i)) == ppn
    }

    spec fn node_entry(&self, ppn: u64, k: int) -> PageTableEntry {
        self.entry(self.node_idx(ppn), k)
    }

    spec fn node_ok(&self, i: int) -> bool {
        &&& self.nodes@[i].entries@.len() == 512
        &&& self.node_ppn(i) <= PPN_MASK
        &&& self.node_level(i) <= 2
    }

    /// Slot `k` of node `i` holds a directory entry at a directory
    /// level.
    spec fn dentry_at(&self, i: int, k: int) -> bool {
        &&& 0 <= i < self.node_count()
        &&& 0 <= k < 512
        &&& self.node_level(i) < 2
        &&& self.entry(i, k).spec_is_dentry()
    }

    /// The directory entry at `(i, k)` points at a node of the next
    /// level.
    spec fn link_ok(&self, i: int, k: int) -> bool {
        exists|j: int|
            0 <= j < self.node_count() && (#[trigger] self.node_ppn(j)) == spec_pte_ppn(
                self.entry(i, k).bits,
            ) && self.node_level(j) == self.node_level(i) + 1
    }

    /// Structural invariant: the root is node 0 at level 0; every node
    /// holds 512 entries and a page number of valid width; node page
    /// numbers are distinct; every directory entry points at a node of
    /// the next level; and no two directory entries point at the same
    /// node.
    pub closed spec fn wf(&self) -> bool {
        &&& self.node_count() >= 1
        &&& self.node_ppn(0) == self.root_ppn.0
        &&& self.node_level(0) == 0
        &&& forall|i: int| 0 <= i < self.node_count() ==> #[trigger] self.node_ok(i)
        &&& forall|i: int, j: int|
            0 <= i < self.node_count() && 0 <= j < self.node_count() && i != j ==> (
            #[trigger] self.node_ppn(i)) != (#[trigger] self.node_ppn(j))
        &&& forall|i: int, k: int| #[trigger] self.dentry_at(i, k) ==> self.link_ok(i, k)
        &&& forall|i1: int, k1: int, i2: int, k2: int|
            #[trigger] self.dentry_at(i1, k1) && #[trigger] self.dentry_at(i2, k2) && spec_pte_ppn(
                self.entry(i1, k1).bits,
            ) == spec_pte_ppn(self.entry(i2, k2).bits) ==> i1 == i2 && k1 == k2
    }

    /// Every frame backing the table is a live single-page reservation
    /// of `a`.
    pub closed spec fn owned_by(&self, a: &FrameAllocator) -> bool {
        forall|i: int| 0 <= i < self.node_count() ==> (#[trigger] self.node_frame(i)).live_in(a)
    }

    /// How many directory levels on the path of `vpn` are absent and
    /// would have to be materialized before a leaf can be installed.
    pub closed spec fn dirs_missing(&self, vpn: VirtualPageNumber) -> int {
        let i0 = vpn.level0_index() as int;
        let i1 = vpn.level1_index() as int;
        let e0 = self.entry(0, i0);
        if !e0.spec_valid() {
            2
        } else if e0.spec_has_rwx() {
            0
        } else if !self.has_node(spec_pte_ppn(e0.bits)) {
            0
        } else {
            let e1 = self.node_entry(spec_pte_ppn(e0.bits), i1);
            if !e1.spec_valid() {
                1
            } else {
                0
            }
        }
    }

    /// The walk of the table for `vpn`: read the three 9-bit slots in
    /// order, descending through directory entries.
    pub closed spec fn walk(&self, vpn: VirtualPageNumber) -> WalkResult {
        let i0 = vpn.level0_index() as int;
        let i1 = vpn.level1_index() as int;
        let i2 = vpn.level2_index() as int;
        let e0 = self.entry(0, i0);
        if !e0.spec_valid() {
            WalkResult::Absent
        } else if e0.spec_has_rwx() {
            WalkResult::Malformed
        } else {
            let p1 = spec_pte_ppn(e0.bits);
            if !self.has_node(p1) {
                WalkResult::Absent
            } else {
                let e1 = self.node_entry(p1, i1);
                if !e1.spec_valid() {
                    WalkResult::Absent
                } else if e1.spec_has_rwx() {
                    WalkResult::Malformed
                } else {
                    let p2 = spec_pte_ppn(e1.bits);
                    if !self.has_node(p2) {
                        WalkResult::Absent
                    } else {
                        let e2 = self.node_entry(p2, i2);
                        if !e2.spec_valid() {
                            WalkResult::Absent
                        } else if !e2.spec_has_rwx() {
                            WalkResult::Malformed
                        } else {
                            WalkResult::Leaf(e2)
                        }
                    }
                }
            }
        }
    }

    /// The node whose page number is `node_ppn(j)` is node `j` itself:
    /// page numbers identify nodes uniquely.
    proof fn lemma_node_idx_of(&self, j: int)
        requires
            self.wf(),
            0 <= j < self.node_count(),
        ensures
            self.has_node(self.node_ppn(j)),
            self.node_idx(self.node_ppn(j)) == j,
    {
        let p = self.node_ppn(j);
        assert(self.has_node(p));
        let i = self.node_idx(p);
        if i != j {
            assert(self.node_ppn(i) != self.node_ppn(j));
        }
    }

    /// Index of the node backed by the frame with page number `ppn`.
    fn find_node(&self, ppn: u64) -> (r: Option<usize>)
        ensures
            match r {
                Some(j) => j < self.node_count() && self.node_ppn(j as int) == ppn,
                None => !self.has_node(ppn),
            },
    {
        let n = self.nodes.len();
        let mut i: usize = 0;
        while i < n
            invariant
                n == self.nodes@.len(),
                0 <= i <= n,
                forall|j: int| 0 <= j < i ==> (#[trigger] self.node_ppn(j)) != ppn,
            decreases n - i,
        {
            if self.nodes[i].frame.ppn.0 == ppn {
                return Some(i);
            }
            proof {
                assert(self.node_ppn(i as int) != ppn);
            }
            i = i + 1;
        }
        proof {
            assert(!self.has_node(ppn));
        }
        None
    }

    /// Walk the table read-only. `Ok(Some(e))` is the valid leaf entry
    /// for `vpn`; `Ok(None)` means `vpn` is unmapped (some level on the
    /// way is absent); the error reports a malformed table.
    pub fn find_pte(&self, vpn: VirtualPageNumber) -> (r: Result<
        Option<PageTableEntry>,
        PageTableError,
    >)
        requires
            self.wf(),
        ensures
            match r {
                Ok(Some(e)) => self.walk(vpn) == WalkResult::Leaf(e),
                Ok(None) => self.walk(vpn) == WalkResult::Absent,
                Err(e) => e == PageTableError::MalformedTable && self.walk(vpn)
                    == WalkResult::Malformed,
            },
    {
        let idx = vpn.indexes();
        proof {
            assert(self.node_ok(0));
        }
        let e0 = self.nodes[0].entries[idx[0]];
        if !e0.is_valid() {
            return Ok(None);
        }
        if !e0.is_dentry() {
            return Err(PageTableError::MalformedTable);
        }
        let p1 = e0.ppn();
        let j1 = match self.find_node(p1.0) {
            Some(j) => j,
            None => {
                proof {
                    assert(self.dentry_at(0, idx[0] as int));
                    assert(self.link_ok(0, idx[0] as int));
                }
                unreached()
            },
        };
        proof {
            self.lemma_node_idx_of(j1 as int);
            assert(self.node_ok(j1 as int));
        }
        let e1 = self.nodes[j1].entries[idx[1]];
        if !e1.is_valid() {
            return Ok(None);
        }
        if !e1.is_dentry() {
            return Err(PageTableError::MalformedTable);
        }
        let p2 = e1.ppn();
        let j2 = match self.find_node(p2.0) {
            Some(j) => j,
            None => {
                proof {
                    assert(self.dentry_at(0, idx[0] as int));
                    assert(self.node_level(j1 as int) == 1);
                    assert(self.dentry_at(j1 as int, idx[1] as int));
                    assert(self.link_ok(j1 as int, idx[1] as int));
                }
                unreached()
            },
        };
        proof {
            self.lemma_node_idx_of(j2 as int);
            assert(self.node_ok(j2 as int));
        }
        let e2 = self.nodes[j2].entries[idx[2]];
        if !e2.is_valid() {
            return Ok(None);
        }
        if e2.is_dentry() {
            return Err(PageTableError::MalformedTable);
        }
        Ok(Some(e2))
    }
}

/// 512 invalid entries: the contents of a freshly allocated directory.
fn empty_entries() -> (r: Vec<PageTableEntry>)
    ensures
        r@.len() == 512,
        forall|k: int| 0 <= k < 512 ==> (#[trigger] r@[k]).bits == 0,
{
    let mut v: Vec<PageTableEntry> = Vec::new();
    let mut i: usize = 0;
    while i < 512
        invariant
            i == v@.len(),
            0 <= i <= 512,
            forall|k: int| 0 <= k < i ==> (#[trigger] v@[k]).bits == 0,
        decreases 512 - i,
    {
        v.push(PageTableEntry::empty());
        i = i + 1;
    }
    v
}

/// The three 9-bit slots of any virtual page number are below 512.
proof fn lemma_vpn_slots(n: u64)
    by (bit_vector)
    ensures
        (n >> 18) & 511 < 512,
        (n >> 9) & 511 < 512,
        n & 511 < 512,
{
}

/// A zero entry word is neither valid nor a leaf.
proof fn lemma_zero_entry()
    by (bit_vector)
    ensures
        0u64 & 1 == 0,
        0u64 & 14 == 0,
{
}

/// `pt1` and `pt2` hold the same frames at the same levels in the same
/// order (their entries may differ).
spec fn similar_nodes(pt1: PageTable, pt2: PageTable) -> bool {
    &&& pt1.node_count() == pt2.node_count()
    &&& forall|i: int|
        0 <= i < pt1.node_count() ==> (#[trigger] pt1.node_frame(i)) == pt2.node_frame(i)
    &&& forall|i: int|
        0 <= i < pt1.node_count() ==> (#[trigger] pt1.node_level(i)) == pt2.node_level(i)
}

proof fn lemma_similar_has_node(pt1: PageTable, pt2: PageTable, p: u64)
    requires
        similar_nodes(pt1, pt2),
    ensures
        pt1.has_node(p) <==> pt2.has_node(p),
{
    if pt1.has_node(p) {
        let i = choose|i: int| 0 <= i < pt1.node_count() && (#[trigger] pt1.node_ppn(i)) == p;
        assert(pt1.node_frame(i) == pt2.node_frame(i));
        assert(pt2.node_ppn(i) == p);
    }
    if pt2.has_node(p) {
        let i = choose|i: int| 0 <= i < pt2.node_count() && (#[trigger] pt2.node_ppn(i)) == p;
        assert(pt1.node_frame(i) == pt2.node_frame(i));
        assert(pt1.node_ppn(i) == p);
    }
}

/// The index that `node_idx` picks satisfies its defining property.
proof fn lemma_node_idx_props(pt: PageTable, p: u64)
    requires
        pt.has_node(p),
    ensures
        0 <= pt.node_idx(p) < pt.node_count(),
        pt.node_ppn(pt.node_idx(p)) == p,
{
}

/// Two well-formed tables holding the same frames resolve every page
/// number to the same node index.
proof fn lemma_similar_node_idx(pt1: PageTable, pt2: PageTable, p: u64)
    requires
        similar_nodes(pt1, pt2),
        pt1.wf(),
        pt2.wf(),
        pt1.has_node(p),
    ensures
        pt2.has_node(p),
        pt1.node_idx(p) == pt2.node_idx(p),
        0 <= pt1.node_idx(p) < pt1.node_count(),
        pt1.node_ppn(pt1.node_idx(p)) == p,
{
    lemma_similar_has_node(pt1, pt2, p);
    lemma_node_idx_props(pt1, p);
    lemma_node_idx_props(pt2, p);
    let i1 = pt1.node_idx(p);
    let i2 = pt2.node_idx(p);
    assert(pt1.node_frame(i2) == pt2.node_frame(i2));
    assert(pt1.node_ppn(i2) == p);
    if i1 != i2 {
        assert(pt1.node_ppn(i1) != pt1.node_ppn(i2));
    }
}

impl PageTable {
    /// Create a table holding only an empty root directory, its frame
    /// taken from `a`; `None` when no frame is available, with the
    /// allocator untouched.
    pub fn new(a: &mut FrameAllocator) -> (r: Option<PageTable>)
        requires
            old(a).wf(),
        ensures
            final(a).wf(),
            final(a).start_ppn() == old(a).start_ppn(),
            final(a).size_pages() == old(a).size_pages(),
            final(a).id() == old(a).id(),
            match r {
                None => *final(a) == *old(a) && old(a).capacity() == 0,
                Some(pt) => {
                    &&& pt.wf()
                    &&& pt.owned_by(final(a))
                    &&& pt.node_count() == 1
                    &&& forall|v: VirtualPageNumber| #[trigger] pt.walk(v) == WalkResult::Absent
                    &&& final(a).capacity() == old(a).capacity() - 1
                    &&& forall|g: int|
                        #[trigger] free_run_from(old(a).allocs(), g) ==> free_run_from(
                            final(a).allocs(),
                            g + 1,
                        )
                    &&& forall|o: int|
                        #[trigger] old(a).allocs().dom().contains(o)
                            ==> final(a).allocs().dom().contains(o)
                            && final(a).allocs()[o] == old(a).allocs()[o]
                },
            },
    {
        let f = match frame_alloc(a) {
            None => {
                proof {
                    lemma_capacity_nonneg(a);
                }
                return None;
            },
            Some(f) => f,
        };
        let entries = empty_entries();
        let root_ppn = f.ppn;
        let mut nodes: Vec<PtNode> = Vec::new();
        nodes.push(PtNode { frame: f, entries, level: Ghost(0) });
        let pt = PageTable { root_ppn, nodes };
        proof {
            lemma_zero_entry();
            assert(pt.node_ok(0));
            assert forall|i: int, k: int| !#[trigger] pt.dentry_at(i, k) by {
                if 0 <= i < pt.node_count() && 0 <= k < 512 {
                    assert(pt.entry(i, k).bits == 0);
                }
            }
            assert(pt.wf());
            assert forall|v: VirtualPageNumber| #[trigger] pt.walk(v) == WalkResult::Absent by {
                lemma_vpn_slots(v.0);
                assert(pt.entry(0, v.level0_index() as int).bits == 0);
            }
        }
        Some(pt)
    }
}

/// A directory entry's target node, located by its page number, sits one
/// level below the directory that holds the entry.
proof fn lemma_link_target_level(pt: PageTable, i: int, k: int, j: int)
    requires
        pt.wf(),
        pt.dentry_at(i, k),
        0 <= j < pt.node_count(),
        pt.node_ppn(j) == spec_pte_ppn(pt.entry(i, k).bits),
    ensures
        pt.node_level(j) == pt.node_level(i) + 1,
{
    assert(pt.link_ok(i, k));
    let jw = choose|jw: int|
        0 <= jw < pt.node_count() && (#[trigger] pt.node_ppn(jw)) == spec_pte_ppn(
            pt.entry(i, k).bits,
        ) && pt.node_level(jw) == pt.node_level(i) + 1;
    if jw != j {
        assert(pt.node_ppn(jw) != pt.node_ppn(j));
    }
}

impl PageTable {
    /// Clear the leaf entry for `vpn`. An absent level or an invalid
    /// leaf reports "not mapped" with the offending virtual page number;
    /// a walk that meets the wrong kind of entry reports the table as
    /// malformed; nothing is changed on an error. Directory frames are
    /// never reclaimed here, only by whole-table teardown.
    pub fn unmap(&mut self, vpn: VirtualPageNumber) -> (r: Result<(), PageTableError>)
        requires
            old(self).wf(),
        ensures
            final(self).wf(),
            final(self).node_count() == old(self).node_count(),
            forall|a: FrameAllocator|
                #[trigger] old(self).owned_by(&a) ==> final(self).owned_by(&a),
            match r {
                Ok(u) => {
                    &&& old(self).walk(vpn) is Leaf
                    &&& final(self).walk(vpn) == WalkResult::Absent
                    &&& forall|v2: VirtualPageNumber|
                        !same_slots(v2, vpn) ==> (#[trigger] final(self).walk(v2)) == old(
                            self,
                        ).walk(v2)
                },
                Err(e) => {
                    &&& *final(self) == *old(self)
                    &&& match e {
                        PageTableError::NotMapped(v) => v == vpn && old(self).walk(vpn)
                            == WalkResult::Absent,
                        PageTableError::MalformedTable => old(self).walk(vpn)
                            == WalkResult::Malformed,
                        _ => false,
                    }
                },
            },
    {
        let idx = vpn.indexes();
        proof {
            assert(self.node_ok(0));
        }
        let e0 = self.nodes[0].entries[idx[0]];
        if !e0.is_valid() {
            return Err(PageTableError::NotMapped(vpn));
        }
        if !e0.is_dentry() {
            return Err(PageTableError::MalformedTable);
        }
        let p1 = e0.ppn();
        let j1 = match self.find_node(p1.0) {
            Some(j) => j,
            None => {
                proof {
                    assert(self.dentry_at(0, idx[0] as int));
                    assert(self.link_ok(0, idx[0] as int));
                }
                unreached()
            },
        };
        proof {
            self.lemma_node_idx_of(j1 as int);
            assert(self.node_ok(j1 as int));
            assert(self.dentry_at(0, idx[0] as int));
            lemma_link_target_level(*self, 0, idx[0] as int, j1 as int);
        }
        let e1 = self.nodes[j1].entries[idx[1]];
        if !e1.is_valid() {
            return Err(PageTableError::NotMapped(vpn));
        }
        if !e1.is_dentry() {
            return Err(PageTableError::MalformedTable);
        }
        let p2 = e1.ppn();
        let j2 = match self.find_node(p2.0) {
            Some(j) => j,
            None => {
                proof {
                    assert(self.dentry_at(j1 as int, idx[1] as int));
                    assert(self.link_ok(j1 as int, idx[1] as int));
                }
                unreached()
            },
        };
        proof {
            self.lemma_node_idx_of(j2 as int);
            assert(self.node_ok(j2 as int));
            assert(self.dentry_at(j1 as int, idx[1] as int));
            lemma_link_target_level(*self, j1 as int, idx[1] as int, j2 as int);
        }
        let e2 = self.nodes[j2].entries[idx[2]];
        if !e2.is_valid() {
            return Err(PageTableError::NotMapped(vpn));
        }
        if e2.is_dentry() {
            return Err(PageTableError::MalformedTable);
        }
        let ghost pt1 = *self;
        let ghost gi0 = idx[0] as int;
        let ghost gi1 = idx[1] as int;
        let ghost gi2 = idx[2] as int;
        let ghost gj1 = j1 as int;
        let ghost gj2 = j2 as int;
        proof {
            assert(pt1.walk(vpn) == WalkResult::Leaf(e2));
        }
        self.nodes[j2].entries[idx[2]] = PageTableEntry::empty();
        proof {
            lemma_zero_entry();
            let pt2 = *self;
            assert(pt2.nodes@[gj2].frame == pt1.nodes@[gj2].frame);
            assert(pt2.nodes@[gj2].level@ == pt1.nodes@[gj2].level@);
            assert forall|i: int| 0 <= i < pt1.node_count() implies (#[trigger] pt1.node_frame(i))
                == pt2.node_frame(i) && pt1.node_level(i) == pt2.node_level(i) by {
                if i != gj2 {
                    assert(pt2.nodes@[i] == pt1.nodes@[i]);
                }
            }
            assert(similar_nodes(pt1, pt2));
            assert forall|i: int, k: int|
                0 <= i < pt1.node_count() && 0 <= k < 512 && !(i == gj2 && k == gi2) implies (
            #[trigger] pt2.entry(i, k)) == pt1.entry(i, k) by {
                if i != gj2 {
                    assert(pt2.nodes@[i] == pt1.nodes@[i]);
                } else {
                    assert(pt2.nodes@[gj2].entries@ == pt1.nodes@[gj2].entries@.update(
                        gi2,
                        PageTableEntry { bits: 0 },
                    ));
                }
            }
            assert(pt2.entry(gj2, gi2).bits == 0);
            // well-formedness carries over: the cleared slot sits in a
            // leaf-level node, which no structural clause constrains
            assert forall|i: int| 0 <= i < pt2.node_count() implies #[trigger] pt2.node_ok(i) by {
                assert(pt1.node_ok(i));
                if i == gj2 {
                    assert(pt2.nodes@[i].entries@.len() == 512);
                }
            }
            assert forall|i: int, k: int| #[trigger] pt2.dentry_at(i, k) implies pt2.link_ok(
                i,
                k,
            ) by {
                assert(pt2.node_level(gj2) == 2);
                assert(!(i == gj2 && k == gi2));
                assert(pt1.dentry_at(i, k));
                assert(pt1.link_ok(i, k));
                let jw = choose|jw: int|
                    0 <= jw < pt1.node_count() && (#[trigger] pt1.node_ppn(jw)) == spec_pte_ppn(
                        pt1.entry(i, k).bits,
                    ) && pt1.node_level(jw) == pt1.node_level(i) + 1;
                assert(pt2.node_ppn(jw) == spec_pte_ppn(pt2.entry(i, k).bits));
                assert(pt2.node_level(jw) == pt2.node_level(i) + 1);
            }
            assert forall|i1: int, k1: int, i2: int, k2: int|
                #[trigger] pt2.dentry_at(i1, k1) && #[trigger] pt2.dentry_at(i2, k2)
                    && spec_pte_ppn(pt2.entry(i1, k1).bits) == spec_pte_ppn(
                    pt2.entry(i2, k2).bits,
                ) implies i1 == i2 && k1 == k2 by {
                assert(pt2.node_level(gj2) == 2);
                assert(pt1.dentry_at(i1, k1));
                assert(pt1.dentry_at(i2, k2));
            }
            assert forall|i: int, j: int|
                0 <= i < pt2.node_count() && 0 <= j < pt2.node_count() && i != j implies (
            #[trigger] pt2.node_ppn(i)) != (#[trigger] pt2.node_ppn(j)) by {
                assert(pt1.node_frame(i) == pt2.node_frame(i));
                assert(pt1.node_frame(j) == pt2.node_frame(j));
                assert(pt1.node_ppn(i) != pt1.node_ppn(j));
            }
            assert(pt2.wf());
            assert forall|a: FrameAllocator| #[trigger] pt1.owned_by(&a) implies pt2.owned_by(
                &a,
            ) by {
                assert forall|i: int| 0 <= i < pt2.node_count() implies (
                #[trigger] pt2.node_frame(i)).live_in(&a) by {
                    assert(pt1.node_frame(i).live_in(&a));
                    assert(pt1.node_frame(i) == pt2.node_frame(i));
                }
            }
            // the cleared slot makes vpn absent
            lemma_similar_node_idx(pt1, pt2, p1.0);
            lemma_similar_node_idx(pt1, pt2, p2.0);
            assert(pt2.entry(0, gi0) == pt1.entry(0, gi0));
            assert(pt2.walk(vpn) == WalkResult::Absent);
            // every other slot triple walks as before
            assert forall|v2: VirtualPageNumber| !same_slots(v2, vpn) implies (
            #[trigger] pt2.walk(v2)) == pt1.walk(v2) by {
                lemma_vpn_slots(v2.0);
                let a0 = v2.level0_index() as int;
                let a1 = v2.level1_index() as int;
                let a2 = v2.level2_index() as int;
                assert(pt2.entry(0, a0) == pt1.entry(0, a0));
                let f0 = pt1.entry(0, a0);
                if f0.spec_valid() && !f0.spec_has_rwx() {
                    let q1 = spec_pte_ppn(f0.bits);
                    lemma_similar_has_node(pt1, pt2, q1);
                    if pt1.has_node(q1) {
                        lemma_similar_node_idx(pt1, pt2, q1);
                        let b1 = pt1.node_idx(q1);
                        assert(pt1.dentry_at(0, a0));
                        lemma_link_target_level(pt1, 0, a0, b1);
                        assert(b1 != gj2);
                        assert(pt2.entry(b1, a1) == pt1.entry(b1, a1));
                        let f1 = pt1.entry(b1, a1);
                        if f1.spec_valid() && !f1.spec_has_rwx() {
                            let q2 = spec_pte_ppn(f1.bits);
                            lemma_similar_has_node(pt1, pt2, q2);
                            if pt1.has_node(q2) {
                                lemma_similar_node_idx(pt1, pt2, q2);
                                let b2 = pt1.node_idx(q2);
                                if b2 == gj2 {
                                    assert(pt1.dentry_at(b1, a1));
                                    assert(pt1.dentry_at(gj1, gi1));
                                    assert(spec_pte_ppn(pt1.entry(b1, a1).bits) == spec_pte_ppn(
                                        pt1.entry(gj1, gi1).bits,
                                    ));
                                    assert(b1 == gj1 && a1 == gi1);
                                    assert(pt1.dentry_at(0, gi0));
                                    assert(pt1.node_ppn(b1) == q1);
                                    assert(spec_pte_ppn(pt1.entry(0, a0).bits) == spec_pte_ppn(
                                        pt1.entry(0, gi0).bits,
                                    ));
                                    assert(a0 == gi0);
                                    assert(a2 != gi2);
                                    assert(pt2.entry(gj2, a2) == pt1.entry(gj2, a2));
                                } else {
                                    assert(pt2.entry(b2, a2) == pt1.entry(b2, a2));
                                }
                            }
                        }
                    }
                }
            }
        }
        Ok(())
    }
}

/// Flags with the Valid bit forced on keep their Read/Write/Execute
/// bits; a bare Valid bit carries none of them.
proof fn lemma_flag_bits(f: u8)
    by (bit_vector)
    ensures
        (f | 1) & 1 != 0,
        ((f | 1) & 14 != 0) <==> (f & 14 != 0),
        1u8 & 1 != 0,
        1u8 & 14 == 0,
{
}

/// Installing a fresh, empty directory for the root slot `gi0` (which
/// was invalid) keeps the table well-formed and leaves every walk as it
/// was.
proof fn lemma_dir_install(
    pt0: PageTable,
    pt2: PageTable,
    a0: FrameAllocator,
    gi0: int,
    f1frame: Frame,
    d1: PageTableEntry,
    vpn: VirtualPageNumber,
)
    requires
        pt0.wf(),
        a0.wf(),
        pt0.owned_by(&a0),
        gi0 == vpn.level0_index() as int,
        !pt0.entry(0, gi0).spec_valid(),
        !a0.allocs().dom().contains(f1frame.offset()),
        f1frame.ppn.0 == a0.start_ppn() + f1frame.offset(),
        f1frame.ppn.0 <= PPN_MASK,
        pt2.node_count() == pt0.node_count() + 1,
        pt2.root_ppn == pt0.root_ppn,
        forall|i: int|
            0 <= i < pt0.node_count() ==> (#[trigger] pt2.node_frame(i)) == pt0.node_frame(i),
        forall|i: int|
            0 <= i < pt0.node_count() ==> (#[trigger] pt2.node_level(i)) == pt0.node_level(i),
        forall|i: int, k: int|
            0 <= i < pt0.node_count() && 0 <= k < 512 && !(i == 0 && k == gi0) ==> (
            #[trigger] pt2.entry(i, k)) == pt0.entry(i, k),
        pt2.entry(0, gi0) == d1,
        pt2.node_frame(pt0.node_count()) == f1frame,
        pt2.node_level(pt0.node_count()) == 1,
        forall|k: int| 0 <= k < 512 ==> (#[trigger] pt2.entry(pt0.node_count(), k)).bits == 0,
        forall|i: int| 0 <= i < pt2.node_count() ==> #[trigger] pt2.node_ok(i),
        d1.spec_valid(),
        !d1.spec_has_rwx(),
        spec_pte_ppn(d1.bits) == f1frame.ppn.0,
    ensures
        pt2.wf(),
        forall|v2: VirtualPageNumber| (#[trigger] pt2.walk(v2)) == pt0.walk(v2),
        pt0.walk(vpn) == WalkResult::Absent,
        pt2.dentry_at(0, gi0),
        pt2.node_ppn(pt0.node_count()) == f1frame.ppn.0,
        pt2.node_idx(f1frame.ppn.0) == pt0.node_count(),
        spec_pte_ppn(pt2.entry(0, gi0).bits) == f1frame.ppn.0,
{
    lemma_zero_entry();
    lemma_vpn_slots(vpn.0);
    let gn = pt0.node_count();
    assert forall|i: int| 0 <= i < gn implies (#[trigger] pt2.node_ppn(i)) != f1frame.ppn.0 by {
        assert(pt0.node_frame(i).live_in(&a0));
        assert(a0.allocs().dom().contains(pt0.node_frame(i).offset()));
        assert(pt2.node_frame(i) == pt0.node_frame(i));
    }
    assert(pt2.node_ppn(gn) == f1frame.ppn.0);
    assert forall|i: int, j: int|
        0 <= i < pt2.node_count() && 0 <= j < pt2.node_count() && i != j implies (
    #[trigger] pt2.node_ppn(i)) != (#[trigger] pt2.node_ppn(j)) by {
        if i < gn && j < gn {
            assert(pt0.node_ppn(i) != pt0.node_ppn(j));
            assert(pt2.node_frame(i) == pt0.node_frame(i));
            assert(pt2.node_frame(j) == pt0.node_frame(j));
        }
    }
    assert forall|i: int, k: int| #[trigger] pt2.dentry_at(i, k) implies pt2.link_ok(i, k) by {
        if i == gn {
            assert(pt2.entry(gn, k).bits == 0);
            assert(!pt2.entry(gn, k).spec_valid());
        } else if i == 0 && k == gi0 {
            assert(pt2.node_ppn(gn) == spec_pte_ppn(pt2.entry(0, gi0).bits));
            assert(pt2.node_level(gn) == pt2.node_level(0) + 1);
        } else {
            assert(pt2.entry(i, k) == pt0.entry(i, k));
            assert(pt0.dentry_at(i, k));
            assert(pt0.link_ok(i, k));
            let jw = choose|jw: int|
                0 <= jw < pt0.node_count() && (#[trigger] pt0.node_ppn(jw)) == spec_pte_ppn(
                    pt0.entry(i, k).bits,
                ) && pt0.node_level(jw) == pt0.node_level(i) + 1;
            assert(pt2.node_frame(jw) == pt0.node_frame(jw));
            assert(pt2.node_ppn(jw) == spec_pte_ppn(pt2.entry(i, k).bits));
            assert(pt2.node_level(jw) == pt2.node_level(i) + 1);
        }
    }
    assert forall|x1: int, k1: int, x2: int, k2: int|
        #[trigger] pt2.dentry_at(x1, k1) && #[trigger] pt2.dentry_at(x2, k2) && spec_pte_ppn(
            pt2.entry(x1, k1).bits,
        ) == spec_pte_ppn(pt2.entry(x2, k2).bits) implies x1 == x2 && k1 == k2 by {
        assert(pt2.entry(gn, k1).bits == 0 && pt2.entry(gn, k2).bits == 0);
        if x1 == 0 && k1 == gi0 {
            if !(x2 == 0 && k2 == gi0) {
                assert(x2 != gn);
                assert(pt2.entry(x2, k2) == pt0.entry(x2, k2));
                assert(pt0.dentry_at(x2, k2));
                assert(pt0.link_ok(x2, k2));
                let jw = choose|jw: int|
                    0 <= jw < pt0.node_count() && (#[trigger] pt0.node_ppn(jw)) == spec_pte_ppn(
                        pt0.entry(x2, k2).bits,
                    ) && pt0.node_level(jw) == pt0.node_level(x2) + 1;
                assert(pt2.node_frame(jw) == pt0.node_frame(jw));
                assert(pt2.node_ppn(jw) == pt0.node_ppn(jw));
                assert(false);
            }
        } else if x2 == 0 && k2 == gi0 {
            assert(x1 != gn);
            assert(pt2.entry(x1, k1) == pt0.entry(x1, k1));
            assert(pt0.dentry_at(x1, k1));
            assert(pt0.link_ok(x1, k1));
            let jw = choose|jw: int|
                0 <= jw < pt0.node_count() && (#[trigger] pt0.node_ppn(jw)) == spec_pte_ppn(
                    pt0.entry(x1, k1).bits,
                ) && pt0.node_level(jw) == pt0.node_level(x1) + 1;
            assert(pt2.node_frame(jw) == pt0.node_frame(jw));
            assert(pt2.node_ppn(jw) == pt0.node_ppn(jw));
            assert(false);
        } else {
            assert(x1 != gn && x2 != gn);
            assert(pt2.entry(x1, k1) == pt0.entry(x1, k1));
            assert(pt2.entry(x2, k2) == pt0.entry(x2, k2));
            assert(pt0.dentry_at(x1, k1));
            assert(pt0.dentry_at(x2, k2));
        }
    }
    assert(pt2.node_frame(0) == pt0.node_frame(0));
    assert(pt2.node_level(0) == pt0.node_level(0));
    assert(pt2.node_ppn(0) == pt2.root_ppn.0);
    assert(pt2.wf());
    pt2.lemma_node_idx_of(gn);
    assert(pt0.walk(vpn) == WalkResult::Absent);
    assert forall|v2: VirtualPageNumber| (#[trigger] pt2.walk(v2)) == pt0.walk(v2) by {
        lemma_vpn_slots(v2.0);
        let b0 = v2.level0_index() as int;
        let b1 = v2.level1_index() as int;
        let b2s = v2.level2_index() as int;
        if b0 == gi0 {
            assert(pt0.walk(v2) == WalkResult::Absent);
            assert(pt2.entry(0, gi0) == d1);
            assert(pt2.node_entry(f1frame.ppn.0, b1).bits == 0);
            assert(pt2.walk(v2) == WalkResult::Absent);
        } else {
            assert(pt2.entry(0, b0) == pt0.entry(0, b0));
            let g0 = pt0.entry(0, b0);
            if g0.spec_valid() && !g0.spec_has_rwx() {
                let q1 = spec_pte_ppn(g0.bits);
                assert(pt0.dentry_at(0, b0));
                assert(pt0.link_ok(0, b0));
                assert(pt0.has_node(q1));
                lemma_node_idx_props(pt0, q1);
                let c1 = pt0.node_idx(q1);
                assert(pt2.node_frame(c1) == pt0.node_frame(c1));
                assert(pt2.node_ppn(c1) == q1);
                pt2.lemma_node_idx_of(c1);
                assert(pt2.has_node(q1) && pt2.node_idx(q1) == c1);
                lemma_link_target_level(pt0, 0, b0, c1);
                assert(pt2.entry(c1, b1) == pt0.entry(c1, b1));
                let g1 = pt0.entry(c1, b1);
                if g1.spec_valid() && !g1.spec_has_rwx() {
                    let q2 = spec_pte_ppn(g1.bits);
                    assert(pt0.dentry_at(c1, b1));
                    assert(pt0.link_ok(c1, b1));
                    assert(pt0.has_node(q2));
                    lemma_node_idx_props(pt0, q2);
                    let c2 = pt0.node_idx(q2);
                    assert(pt2.node_frame(c2) == pt0.node_frame(c2));
                    assert(pt2.node_ppn(c2) == q2);
                    pt2.lemma_node_idx_of(c2);
                    lemma_link_target_level(pt0, c1, b1, c2);
                    assert(pt2.entry(c2, b2s) == pt0.entry(c2, b2s));
                }
            }
        }
    }
}

/// Writing the leaf entry for `vpn` into its (present) leaf-level node
/// keeps the table well-formed, makes the walk of `vpn` yield that
/// entry, and leaves the walk of every other slot triple unchanged.
proof fn lemma_leaf_write(
    pt1: PageTable,
    pt2: PageTable,
    gj1: int,
    gj2: int,
    gi0: int,
    gi1: int,
    gi2: int,
    pte: PageTableEntry,
    vpn: VirtualPageNumber,
)
    requires
        pt1.wf(),
        gi0 == vpn.level0_index() as int,
        gi1 == vpn.level1_index() as int,
        gi2 == vpn.level2_index() as int,
        pt1.dentry_at(0, gi0),
        0 <= gj1 < pt1.node_count(),
        pt1.node_idx(spec_pte_ppn(pt1.entry(0, gi0).bits)) == gj1,
        pt1.node_ppn(gj1) == spec_pte_ppn(pt1.entry(0, gi0).bits),
        pt1.node_level(gj1) == 1,
        pt1.dentry_at(gj1, gi1),
        0 <= gj2 < pt1.node_count(),
        pt1.node_idx(spec_pte_ppn(pt1.entry(gj1, gi1).bits)) == gj2,
        pt1.node_ppn(gj2) == spec_pte_ppn(pt1.entry(gj1, gi1).bits),
        pt1.node_level(gj2) == 2,
        !pt1.entry(gj2, gi2).spec_valid(),
        similar_nodes(pt1, pt2),
        pt2.root_ppn == pt1.root_ppn,
        forall|i: int, k: int|
            0 <= i < pt1.node_count() && 0 <= k < 512 && !(i == gj2 && k == gi2) ==> (
            #[trigger] pt2.entry(i, k)) == pt1.entry(i, k),
        pt2.entry(gj2, gi2) == pte,
        forall|i: int| 0 <= i < pt2.node_count() ==> #[trigger] pt2.node_ok(i),
        pte.spec_valid(),
        pte.spec_has_rwx(),
    ensures
        pt2.wf(),
        pt1.walk(vpn) == WalkResult::Absent,
        pt2.walk(vpn) == WalkResult::Leaf(pte),
        forall|v2: VirtualPageNumber|
            !same_slots(v2, vpn) ==> (#[trigger] pt2.walk(v2)) == pt1.walk(v2),
        pt2.node_count() == pt1.node_count(),
{
    lemma_vpn_slots(vpn.0);
    assert forall|i: int, j: int|
        0 <= i < pt2.node_count() && 0 <= j < pt2.node_count() && i != j implies (
    #[trigger] pt2.node_ppn(i)) != (#[trigger] pt2.node_ppn(j)) by {
        assert(pt1.node_frame(i) == pt2.node_frame(i));
        assert(pt1.node_frame(j) == pt2.node_frame(j));
        assert(pt1.node_ppn(i) != pt1.node_ppn(j));
    }
    assert forall|i: int, k: int| #[trigger] pt2.dentry_at(i, k) implies pt2.link_ok(i, k) by {
        assert(pt2.node_level(gj2) == 2);
        assert(!(i == gj2 && k == gi2));
        assert(pt1.dentry_at(i, k));
        assert(pt1.link_ok(i, k));
        let jw = choose|jw: int|
            0 <= jw < pt1.node_count() && (#[trigger] pt1.node_ppn(jw)) == spec_pte_ppn(
                pt1.entry(i, k).bits,
            ) && pt1.node_level(jw) == pt1.node_level(i) + 1;
        assert(pt2.node_frame(jw) == pt1.node_frame(jw));
        assert(pt2.node_ppn(jw) == spec_pte_ppn(pt2.entry(i, k).bits));
        assert(pt2.node_level(jw) == pt2.node_level(i) + 1);
    }
    assert forall|x1: int, k1: int, x2: int, k2: int|
        #[trigger] pt2.dentry_at(x1, k1) && #[trigger] pt2.dentry_at(x2, k2) && spec_pte_ppn(
            pt2.entry(x1, k1).bits,
        ) == spec_pte_ppn(pt2.entry(x2, k2).bits) implies x1 == x2 && k1 == k2 by {
        assert(pt2.node_level(gj2) == 2);
        assert(pt1.dentry_at(x1, k1));
        assert(pt1.dentry_at(x2, k2));
    }
    assert(pt1.node_frame(0) == pt2.node_frame(0));
    assert(pt1.node_level(0) == pt2.node_level(0));
    assert(pt2.node_ppn(0) == pt2.root_ppn.0);
    assert(pt2.wf());
    lemma_similar_node_idx(pt1, pt2, pt1.node_ppn(gj1));
    lemma_similar_node_idx(pt1, pt2, pt1.node_ppn(gj2));
    assert(pt1.walk(vpn) == WalkResult::Absent);
    assert(pt2.entry(0, gi0) == pt1.entry(0, gi0));
    assert(pt2.entry(gj1, gi1) == pt1.entry(gj1, gi1));
    assert(pt2.walk(vpn) == WalkResult::Leaf(pte));
    assert forall|v2: VirtualPageNumber| !same_slots(v2, vpn) implies (#[trigger] pt2.walk(v2))
        == pt1.walk(v2) by {
        lemma_vpn_slots(v2.0);
        let a0 = v2.level0_index() as int;
        let a1 = v2.level1_index() as int;
        let a2 = v2.level2_index() as int;
        assert(pt2.entry(0, a0) == pt1.entry(0, a0));
        let f0 = pt1.entry(0, a0);
        if f0.spec_valid() && !f0.spec_has_rwx() {
            let q1 = spec_pte_ppn(f0.bits);
            lemma_similar_has_node(pt1, pt2, q1);
            if pt1.has_node(q1) {
                lemma_similar_node_idx(pt1, pt2, q1);
                let b1 = pt1.node_idx(q1);
                assert(pt1.dentry_at(0, a0));
                lemma_link_target_level(pt1, 0, a0, b1);
                assert(b1 != gj2);
                assert(pt2.entry(b1, a1) == pt1.entry(b1, a1));
                let f1 = pt1.entry(b1, a1);
                if f1.spec_valid() && !f1.spec_has_rwx() {
                    let q2 = spec_pte_ppn(f1.bits);
                    lemma_similar_has_node(pt1, pt2, q2);
                    if pt1.has_node(q2) {
                        lemma_similar_node_idx(pt1, pt2, q2);
                        let b2 = pt1.node_idx(q2);
                        if b2 == gj2 {
                            assert(pt1.dentry_at(b1, a1));
                            assert(spec_pte_ppn(pt1.entry(b1, a1).bits) == spec_pte_ppn(
                                pt1.entry(gj1, gi1).bits,
                            ));
                            assert(b1 == gj1 && a1 == gi1);
                            assert(pt1.node_ppn(b1) == q1);
                            assert(spec_pte_ppn(pt1.entry(0, a0).bits) == spec_pte_ppn(
                                pt1.entry(0, gi0).bits,
                            ));
                            assert(a0 == gi0);
                            assert(a2 != gi2);
                            assert(pt2.entry(gj2, a2) == pt1.entry(gj2, a2));
                        } else {
                            assert(pt2.entry(b2, a2) == pt1.entry(b2, a2));
                        }
                    }
                }
            }
        }
    }
}

/// Installing a fresh leaf-level node (holding only the leaf entry for
/// `vpn`) under the present level-1 directory keeps the table
/// well-formed, makes the walk of `vpn` yield that entry, and leaves the
/// walk of every other slot triple unchanged.
proof fn lemma_leaf_table_install(
    ptm: PageTable,
    pt2: PageTable,
    am: FrameAllocator,
    gj1: int,
    gi0: int,
    gi1: int,
    gi2: int,
    f2frame: Frame,
    pte: PageTableEntry,
    d2: PageTableEntry,
    vpn: VirtualPageNumber,
)
    requires
        ptm.wf(),
        am.wf(),
        ptm.owned_by(&am),
        gi0 == vpn.level0_index() as int,
        gi1 == vpn.level1_index() as int,
        gi2 == vpn.level2_index() as int,
        ptm.dentry_at(0, gi0),
        0 <= gj1 < ptm.node_count(),
        ptm.node_idx(spec_pte_ppn(ptm.entry(0, gi0).bits)) == gj1,
        ptm.node_ppn(gj1) == spec_pte_ppn(ptm.entry(0, gi0).bits),
        ptm.node_level(gj1) == 1,
        !ptm.entry(gj1, gi1).spec_valid(),
        !am.allocs().dom().contains(f2frame.offset()),
        f2frame.ppn.0 == am.start_ppn() + f2frame.offset(),
        f2frame.ppn.0 <= PPN_MASK,
        pt2.node_count() == ptm.node_count() + 1,
        pt2.root_ppn == ptm.root_ppn,
        forall|i: int|
            0 <= i < ptm.node_count() ==> (#[trigger] pt2.node_frame(i)) == ptm.node_frame(i),
        forall|i: int|
            0 <= i < ptm.node_count() ==> (#[trigger] pt2.node_level(i)) == ptm.node_level(i),
        forall|i: int, k: int|
            0 <= i < ptm.node_count() && 0 <= k < 512 && !(i == gj1 && k == gi1) ==> (
            #[trigger] pt2.entry(i, k)) == ptm.entry(i, k),
        pt2.entry(gj1, gi1) == d2,
        pt2.node_frame(ptm.node_count()) == f2frame,
        pt2.node_level(ptm.node_count()) == 2,
        forall|k: int|
            0 <= k < 512 && k != gi2 ==> (#[trigger] pt2.entry(ptm.node_count(), k)).bits == 0,
        pt2.entry(ptm.node_count(), gi2) == pte,
        forall|i: int| 0 <= i < pt2.node_count() ==> #[trigger] pt2.node_ok(i),
        d2.spec_valid(),
        !d2.spec_has_rwx(),
        spec_pte_ppn(d2.bits) == f2frame.ppn.0,
        pte.spec_valid(),
        pte.spec_has_rwx(),
    ensures
        pt2.wf(),
        ptm.walk(vpn) == WalkResult::Absent,
        pt2.walk(vpn) == WalkResult::Leaf(pte),
        forall|v2: VirtualPageNumber|
            !same_slots(v2, vpn) ==> (#[trigger] pt2.walk(v2)) == ptm.walk(v2),
        pt2.node_count() == ptm.node_count() + 1,
{
    lemma_zero_entry();
    lemma_vpn_slots(vpn.0);
    let gn = ptm.node_count();
    assert forall|i: int| 0 <= i < gn implies (#[trigger] pt2.node_ppn(i)) != f2frame.ppn.0 by {
        assert(ptm.node_frame(i).live_in(&am));
        assert(am.allocs().dom().contains(ptm.node_frame(i).offset()));
        assert(pt2.node_frame(i) == ptm.node_frame(i));
    }
    assert(pt2.node_ppn(gn) == f2frame.ppn.0);
    assert forall|i: int, j: int|
        0 <= i < pt2.node_count() && 0 <= j < pt2.node_count() && i != j implies (
    #[trigger] pt2.node_ppn(i)) != (#[trigger] pt2.node_ppn(j)) by {
        if i < gn && j < gn {
            assert(ptm.node_ppn(i) != ptm.node_ppn(j));
            assert(pt2.node_frame(i) == ptm.node_frame(i));
            assert(pt2.node_frame(j) == ptm.node_frame(j));
        }
    }
    assert forall|i: int, k: int| #[trigger] pt2.dentry_at(i, k) implies pt2.link_ok(i, k) by {
        assert(pt2.node_level(gn) == 2);
        assert(i != gn);
        if i == gj1 && k == gi1 {
            assert(pt2.node_ppn(gn) == spec_pte_ppn(pt2.entry(gj1, gi1).bits));
            assert(pt2.node_level(gn) == pt2.node_level(gj1) + 1);
        } else {
            assert(pt2.entry(i, k) == ptm.entry(i, k));
            assert(ptm.dentry_at(i, k));
            assert(ptm.link_ok(i, k));
            let jw = choose|jw: int|
                0 <= jw < ptm.node_count() && (#[trigger] ptm.node_ppn(jw)) == spec_pte_ppn(
                    ptm.entry(i, k).bits,
                ) && ptm.node_level(jw) == ptm.node_level(i) + 1;
            assert(pt2.node_frame(jw) == ptm.node_frame(jw));
            assert(pt2.node_ppn(jw) == spec_pte_ppn(pt2.entry(i, k).bits));
            assert(pt2.node_level(jw) == pt2.node_level(i) + 1);
        }
    }
    assert forall|x1: int, k1: int, x2: int, k2: int|
        #[trigger] pt2.dentry_at(x1, k1) && #[trigger] pt2.dentry_at(x2, k2) && spec_pte_ppn(
            pt2.entry(x1, k1).bits,
        ) == spec_pte_ppn(pt2.entry(x2, k2).bits) implies x1 == x2 && k1 == k2 by {
        assert(pt2.node_level(gn) == 2);
        assert(x1 != gn && x2 != gn);
        if x1 == gj1 && k1 == gi1 {
            if !(x2 == gj1 && k2 == gi1) {
                assert(pt2.entry(x2, k2) == ptm.entry(x2, k2));
                assert(ptm.dentry_at(x2, k2));
                assert(ptm.link_ok(x2, k2));
                let jw = choose|jw: int|
                    0 <= jw < ptm.node_count() && (#[trigger] ptm.node_ppn(jw)) == spec_pte_ppn(
                        ptm.entry(x2, k2).bits,
                    ) && ptm.node_level(jw) == ptm.node_level(x2) + 1;
                assert(pt2.node_frame(jw) == ptm.node_frame(jw));
                assert(pt2.node_ppn(jw) == ptm.node_ppn(jw));
                assert(false);
            }
        } else if x2 == gj1 && k2 == gi1 {
            assert(pt2.entry(x1, k1) == ptm.entry(x1, k1));
            assert(ptm.dentry_at(x1, k1));
            assert(ptm.link_ok(x1, k1));
            let jw = choose|jw: int|
                0 <= jw < ptm.node_count() && (#[trigger] ptm.node_ppn(jw)) == spec_pte_ppn(
                    ptm.entry(x1, k1).bits,
                ) && ptm.node_level(jw) == ptm.node_level(x1) + 1;
            assert(pt2.node_frame(jw) == ptm.node_frame(jw));
            assert(pt2.node_ppn(jw) == ptm.node_ppn(jw));
            assert(false);
        } else {
            assert(pt2.entry(x1, k1) == ptm.entry(x1, k1));
            assert(pt2.entry(x2, k2) == ptm.entry(x2, k2));
            assert(ptm.dentry_at(x1, k1));
            assert(ptm.dentry_at(x2, k2));
        }
    }
    assert(pt2.node_frame(0) == ptm.node_frame(0));
    assert(pt2.node_level(0) == ptm.node_level(0));
    assert(pt2.node_ppn(0) == pt2.root_ppn.0);
    assert(pt2.node_frame(gj1) == ptm.node_frame(gj1));
    assert(pt2.wf());
    pt2.lemma_node_idx_of(gn);
    pt2.lemma_node_idx_of(gj1);
    assert(ptm.walk(vpn) == WalkResult::Absent);
    assert(pt2.entry(0, gi0) == ptm.entry(0, gi0));
    assert(pt2.node_ppn(gj1) == spec_pte_ppn(pt2.entry(0, gi0).bits));
    assert(pt2.walk(vpn) == WalkResult::Leaf(pte));
    assert forall|v2: VirtualPageNumber| !same_slots(v2, vpn) implies (#[trigger] pt2.walk(v2))
        == ptm.walk(v2) by {
        lemma_vpn_slots(v2.0);
        let b0 = v2.level0_index() as int;
        let b1 = v2.level1_index() as int;
        let b2s = v2.level2_index() as int;
        if b0 != gi0 {
            assert(pt2.entry(0, b0) == ptm.entry(0, b0));
            let g0 = ptm.entry(0, b0);
            if g0.spec_valid() && !g0.spec_has_rwx() {
                let q1 = spec_pte_ppn(g0.bits);
                assert(ptm.dentry_at(0, b0));
                assert(ptm.link_ok(0, b0));
                assert(ptm.has_node(q1));
                lemma_node_idx_props(ptm, q1);
                let c1 = ptm.node_idx(q1);
                assert(pt2.node_frame(c1) == ptm.node_frame(c1));
                assert(pt2.node_ppn(c1) == q1);
                pt2.lemma_node_idx_of(c1);
                lemma_link_target_level(ptm, 0, b0, c1);
                if c1 == gj1 {
                    assert(spec_pte_ppn(ptm.entry(0, b0).bits) == spec_pte_ppn(
                        ptm.entry(0, gi0).bits,
                    ));
                    assert(false);
                }
                assert(pt2.entry(c1, b1) == ptm.entry(c1, b1));
                let g1 = ptm.entry(c1, b1);
                if g1.spec_valid() && !g1.spec_has_rwx() {
                    let q2 = spec_pte_ppn(g1.bits);
                    assert(ptm.dentry_at(c1, b1));
                    assert(ptm.link_ok(c1, b1));
                    assert(ptm.has_node(q2));
                    lemma_node_idx_props(ptm, q2);
                    let c2 = ptm.node_idx(q2);
                    assert(pt2.node_frame(c2) == ptm.node_frame(c2));
                    assert(pt2.node_ppn(c2) == q2);
                    pt2.lemma_node_idx_of(c2);
                    lemma_link_target_level(ptm, c1, b1, c2);
                    assert(pt2.entry(c2, b2s) == ptm.entry(c2, b2s));
                }
            }
        } else if b1 != gi1 {
            assert(pt2.entry(0, gi0) == ptm.entry(0, gi0));
            assert(pt2.entry(gj1, b1) == ptm.entry(gj1, b1));
            let g1 = ptm.entry(gj1, b1);
            if g1.spec_valid() && !g1.spec_has_rwx() {
                let q2 = spec_pte_ppn(g1.bits);
                assert(ptm.dentry_at(gj1, b1));
                assert(ptm.link_ok(gj1, b1));
                assert(ptm.has_node(q2));
                lemma_node_idx_props(ptm, q2);
                let c2 = ptm.node_idx(q2);
                assert(pt2.node_frame(c2) == ptm.node_frame(c2));
                assert(pt2.node_ppn(c2) == q2);
                pt2.lemma_node_idx_of(c2);
                lemma_link_target_level(ptm, gj1, b1, c2);
                assert(pt2.entry(c2, b2s) == ptm.entry(c2, b2s));
            }
        } else {
            assert(b2s != gi2);
            assert(ptm.walk(v2) == WalkResult::Absent);
            assert(pt2.entry(gn, b2s).bits == 0);
            assert(pt2.walk(v2) == WalkResult::Absent);
        }
    }
}

impl PageTable {
    /// Install the leaf mapping `vpn -> (ppn, flags | Valid)`, taking
    /// missing directory frames from `a`. Flags must carry at least one
    /// of Read/Write/Execute (else nothing can be a leaf encoding and
    /// the invalid-flags error comes back); a vpn whose leaf entry is
    /// already valid comes back as "already mapped" with the table and
    /// allocator untouched; a wrong kind of entry met on the way reports
    /// the table as malformed, untouched. When the allocator runs out
    /// mid-way, directories installed so far stay in place, but every
    /// walk of the table is as before.
    pub fn map(
        &mut self,
        a: &mut FrameAllocator,
        vpn: VirtualPageNumber,
        ppn: PhysicalPageNumber,
        flags: PTEFlags,
    ) -> (r: Result<(), PageTableError>)
        requires
            old(self).wf(),
            old(a).wf(),
            old(self).owned_by(old(a)),
            ppn.0 <= PPN_MASK,
        ensures
            final(self).wf(),
            final(a).wf(),
            final(self).owned_by(final(a)),
            final(a).start_ppn() == old(a).start_ppn(),
            final(a).size_pages() == old(a).size_pages(),
            final(a).id() == old(a).id(),
            forall|o: int|
                #[trigger] old(a).allocs().dom().contains(o)
                    ==> final(a).allocs().dom().contains(o)
                    && final(a).allocs()[o] == old(a).allocs()[o],
            match r {
                Ok(u) => {
                    &&& flags.bits & 14 != 0
                    &&& old(self).walk(vpn) == WalkResult::Absent
                    &&& final(self).walk(vpn) == WalkResult::Leaf(
                        (PageTableEntry { bits: spec_pte_bits(ppn.0, flags.bits | 1) }),
                    )
                    &&& forall|v2: VirtualPageNumber|
                        !same_slots(v2, vpn) ==> (#[trigger] final(self).walk(v2)) == old(
                            self,
                        ).walk(v2)
                    &&& final(self).node_count() == old(self).node_count() + old(
                        self,
                    ).dirs_missing(vpn)
                    &&& final(a).capacity() == old(a).capacity() - old(self).dirs_missing(vpn)
                    &&& forall|g: int|
                        #[trigger] free_run_from(old(a).allocs(), g) ==> free_run_from(
                            final(a).allocs(),
                            g + old(self).dirs_missing(vpn),
                        )
                },
                Err(e) => match e {
                    PageTableError::AlreadyMapped(v) => {
                        &&& v == vpn
                        &&& flags.bits & 14 != 0
                        &&& *final(self) == *old(self)
                        &&& *final(a) == *old(a)
                        &&& old(self).walk(vpn) is Leaf
                    },
                    PageTableError::InvalidFlags => {
                        &&& flags.bits & 14 == 0
                        &&& *final(self) == *old(self)
                        &&& *final(a) == *old(a)
                    },
                    PageTableError::MalformedTable => {
                        &&& flags.bits & 14 != 0
                        &&& old(self).walk(vpn) == WalkResult::Malformed
                        &&& *final(self) == *old(self)
                        &&& *final(a) == *old(a)
                    },
                    PageTableError::OutOfFrames => {
                        &&& flags.bits & 14 != 0
                        &&& forall|v2: VirtualPageNumber|
                            (#[trigger] final(self).walk(v2)) == old(self).walk(v2)
                        &&& old(self).walk(vpn) == WalkResult::Absent
                        &&& 1 <= old(self).dirs_missing(vpn)
                        &&& old(a).capacity() < old(self).dirs_missing(vpn)
                        &&& final(self).node_count() <= old(self).node_count() + 1
                        &&& old(a).capacity() - 1 <= final(a).capacity() <= old(a).capacity()
                    },
                    PageTableError::NotMapped(v) => false,
                },
            },
    {
        if flags.bits & 14 == 0 {
            return Err(PageTableError::InvalidFlags);
        }
        let idx = vpn.indexes();
        let ghost pt0 = *self;
        let ghost a0 = *a;
        let ghost gi0 = idx[0] as int;
        let ghost gi1 = idx[1] as int;
        let ghost gi2 = idx[2] as int;
        proof {
            assert(self.node_ok(0));
        }
        let e0 = self.nodes[0].entries[idx[0]];
        let j1: usize;
        let ghost installed: bool;
        if e0.is_valid() {
            if !e0.is_dentry() {
                return Err(PageTableError::MalformedTable);
            }
            let p1 = e0.ppn();
            j1 = match self.find_node(p1.0) {
                Some(j) => j,
                None => {
                    proof {
                        assert(self.dentry_at(0, gi0));
                        assert(self.link_ok(0, gi0));
                    }
                    unreached()
                },
            };
            proof {
                installed = false;
                self.lemma_node_idx_of(j1 as int);
                assert(self.dentry_at(0, gi0));
                lemma_link_target_level(*self, 0, gi0, j1 as int);
            }
        } else {
            let f1 = match frame_alloc(a) {
                None => {
                    proof {
                        lemma_capacity_nonneg(a);
                        assert(pt0.dirs_missing(vpn) == 2);
                    }
                    return Err(PageTableError::OutOfFrames);
                },
                Some(f) => f,
            };
            let ent1 = empty_entries();
            proof {
                lemma_flag_bits(flags.bits);
                assert(f1.ppn.0 <= PPN_MASK);
            }
            let d1 = PageTableEntry::new(f1.ppn, PTEFlags { bits: 1 });
            let newidx = self.nodes.len();
            let ghost f1frame = f1;
            let ghost gent1 = ent1@;
            self.nodes.push(PtNode { frame: f1, entries: ent1, level: Ghost(1) });
            self.nodes[0].entries[idx[0]] = d1;
            j1 = newidx;
            proof {
                installed = true;
                let pt2 = *self;
                let gn = pt0.node_count();
                assert forall|i: int| 0 <= i < gn implies (#[trigger] pt2.node_frame(i))
                    == pt0.node_frame(i) by {
                    if i != 0 {
                        assert(pt2.nodes@[i] == pt0.nodes@[i]);
                    } else {
                        assert(pt2.nodes@[0].frame == pt0.nodes@[0].frame);
                    }
                }
                assert forall|i: int| 0 <= i < gn implies (#[trigger] pt2.node_level(i))
                    == pt0.node_level(i) by {
                    if i != 0 {
                        assert(pt2.nodes@[i] == pt0.nodes@[i]);
                    }
                }
                assert forall|i: int, k: int|
                    0 <= i < gn && 0 <= k < 512 && !(i == 0 && k == gi0) implies (
                #[trigger] pt2.entry(i, k)) == pt0.entry(i, k) by {
                    if i != 0 {
                        assert(pt2.nodes@[i] == pt0.nodes@[i]);
                    } else {
                        assert(pt2.nodes@[0].entries@ == pt0.nodes@[0].entries@.update(gi0, d1));
                    }
                }
                assert(pt2.entry(0, gi0) == d1);
                assert(pt2.nodes@[gn].entries@ == gent1);
                assert forall|k: int| 0 <= k < 512 implies (#[trigger] pt2.entry(gn, k)).bits
                    == 0 by {
                    assert(gent1[k].bits == 0);
                }
                assert(pt2.node_frame(gn) == f1frame);
                assert(pt2.node_level(gn) == 1);
                assert forall|i: int| 0 <= i < pt2.node_count() implies #[trigger] pt2.node_ok(
                    i,
                ) by {
                    if i < gn {
                        assert(pt0.node_ok(i));
                        if i == 0 {
                            assert(pt2.nodes@[0].entries@.len() == 512);
                        } else {
                            assert(pt2.nodes@[i] == pt0.nodes@[i]);
                        }
                    } else {
                        assert(pt2.nodes@[gn].entries@.len() == 512);
                        assert(f1frame.ppn.0 <= PPN_MASK);
                    }
                }
                lemma_dir_install(pt0, pt2, a0, gi0, f1frame, d1, vpn);
                assert(a.wf());
                assert forall|i: int| 0 <= i < pt2.node_count() implies (
                #[trigger] pt2.node_frame(i)).live_in(a) by {
                    if i < gn {
                        assert(pt0.node_frame(i).live_in(&a0));
                        assert(a0.allocs().dom().contains(pt0.node_frame(i).offset()));
                        assert(pt2.node_frame(i) == pt0.node_frame(i));
                    } else {
                        assert(pt2.node_frame(i) == f1frame);
                    }
                }
                assert(pt2.owned_by(a));
            }
        }
        proof {
            assert(self.node_ok(j1 as int));
        }
        let e1 = self.nodes[j1].entries[idx[1]];
        if e1.is_valid() {
            proof {
                if installed {
                    lemma_zero_entry();
                    assert(self.entry(j1 as int, gi1).bits == 0);
                    assert(false);
                }
            }
            if !e1.is_dentry() {
                return Err(PageTableError::MalformedTable);
            }
            let p2 = e1.ppn();
            let j2 = match self.find_node(p2.0) {
                Some(j) => j,
                None => {
                    proof {
                        assert(self.dentry_at(j1 as int, gi1));
                        assert(self.link_ok(j1 as int, gi1));
                    }
                    unreached()
                },
            };
            proof {
                self.lemma_node_idx_of(j2 as int);
                assert(self.node_ok(j2 as int));
                assert(self.dentry_at(j1 as int, gi1));
                lemma_link_target_level(*self, j1 as int, gi1, j2 as int);
            }
            let e2 = self.nodes[j2].entries[idx[2]];
            if e2.is_valid() {
                if e2.is_dentry() {
                    return Err(PageTableError::MalformedTable);
                }
                return Err(PageTableError::AlreadyMapped(vpn));
            }
            // all levels present: install the leaf in place
            proof {
                lemma_flag_bits(flags.bits);
            }
            let pte = PageTableEntry::new(ppn, PTEFlags { bits: flags.bits | 1 });
            let ghost pt1 = *self;
            let ghost gj1 = j1 as int;
            let ghost gj2 = j2 as int;
            proof {
                assert(pt1.walk(vpn) == WalkResult::Absent);
            }
            self.nodes[j2].entries[idx[2]] = pte;
            proof {
                let pt2 = *self;
                assert forall|i: int| 0 <= i < pt1.node_count() implies (
                #[trigger] pt1.node_frame(i)) == pt2.node_frame(i) by {
                    if i != gj2 {
                        assert(pt2.nodes@[i] == pt1.nodes@[i]);
                    } else {
                        assert(pt2.nodes@[gj2].frame == pt1.nodes@[gj2].frame);
                    }
                }
                assert forall|i: int| 0 <= i < pt1.node_count() implies (
                #[trigger] pt1.node_level(i)) == pt2.node_level(i) by {
                    if i != gj2 {
                        assert(pt2.nodes@[i] == pt1.nodes@[i]);
                    }
                }
                assert(similar_nodes(pt1, pt2));
                assert forall|i: int, k: int|
                    0 <= i < pt1.node_count() && 0 <= k < 512 && !(i == gj2 && k == gi2) implies (
                #[trigger] pt2.entry(i, k)) == pt1.entry(i, k) by {
                    if i != gj2 {
                        assert(pt2.nodes@[i] == pt1.nodes@[i]);
                    } else {
                        assert(pt2.nodes@[gj2].entries@ == pt1.nodes@[gj2].entries@.update(
                            gi2,
                            pte,
                        ));
                    }
                }
                assert forall|i: int| 0 <= i < pt2.node_count() implies #[trigger] pt2.node_ok(
                    i,
                ) by {
                    assert(pt1.node_ok(i));
                    if i == gj2 {
                        assert(pt2.nodes@[i].entries@.len() == 512);
                    }
                }
                lemma_leaf_write(pt1, pt2, gj1, gj2, gi0, gi1, gi2, pte, vpn);
                assert(pt2.walk(vpn) == WalkResult::Leaf(pte));
                assert(pt0.dirs_missing(vpn) == 0);
                assert forall|g: int| #[trigger] free_run_from(a0.allocs(), g) implies
                    free_run_from(a.allocs(), g + pt0.dirs_missing(vpn)) by {
                    assert(a.allocs() == a0.allocs());
                }
                assert(pt1.owned_by(a));
                assert forall|i: int| 0 <= i < pt2.node_count() implies (
                #[trigger] pt2.node_frame(i)).live_in(a) by {
                    assert(pt1.node_frame(i).live_in(a));
                    assert(pt1.node_frame(i) == pt2.node_frame(i));
                }
                assert(pt2.owned_by(a));
            }
            Ok(())
        } else {
            // the leaf table is absent: materialize it and install the
            // leaf inside it
            let ghost ptm = *self;
            let ghost am = *a;
            let f2 = match frame_alloc(a) {
                None => {
                    proof {
                        lemma_capacity_nonneg(a);
                        if installed {
                            assert(pt0.dirs_missing(vpn) == 2);
                        } else {
                            assert(pt0.dirs_missing(vpn) == 1);
                        }
                    }
                    return Err(PageTableError::OutOfFrames);
                },
                Some(f) => f,
            };
            let mut ent2 = empty_entries();
            proof {
                lemma_flag_bits(flags.bits);
                assert(f2.ppn.0 <= PPN_MASK);
            }
            let pte = PageTableEntry::new(ppn, PTEFlags { bits: flags.bits | 1 });
            ent2[idx[2]] = pte;
            let d2 = PageTableEntry::new(f2.ppn, PTEFlags { bits: 1 });
            let newidx2 = self.nodes.len();
            let ghost f2frame = f2;
            let ghost gent2 = ent2@;
            self.nodes.push(PtNode { frame: f2, entries: ent2, level: Ghost(2) });
            self.nodes[j1].entries[idx[1]] = d2;
            proof {
                let pt2 = *self;
                let gj1 = j1 as int;
                let gn = ptm.node_count();
                assert forall|i: int| 0 <= i < gn implies (#[trigger] pt2.node_frame(i))
                    == ptm.node_frame(i) by {
                    if i != gj1 {
                        assert(pt2.nodes@[i] == ptm.nodes@[i]);
                    } else {
                        assert(pt2.nodes@[gj1].frame == ptm.nodes@[gj1].frame);
                    }
                }
                assert forall|i: int| 0 <= i < gn implies (#[trigger] pt2.node_level(i))
                    == ptm.node_level(i) by {
                    if i != gj1 {
                        assert(pt2.nodes@[i] == ptm.nodes@[i]);
                    }
                }
                assert forall|i: int, k: int|
                    0 <= i < gn && 0 <= k < 512 && !(i == gj1 && k == gi1) implies (
                #[trigger] pt2.entry(i, k)) == ptm.entry(i, k) by {
                    if i != gj1 {
                        assert(pt2.nodes@[i] == ptm.nodes@[i]);
                    } else {
                        assert(pt2.nodes@[gj1].entries@ == ptm.nodes@[gj1].entries@.update(
                            gi1,
                            d2,
                        ));
                    }
                }
                assert(pt2.entry(gj1, gi1) == d2);
                assert(pt2.node_frame(gn) == f2frame);
                assert(pt2.node_level(gn) == 2);
                assert(pt2.nodes@[gn].entries@ == gent2);
                assert forall|k: int| 0 <= k < 512 && k != gi2 implies (#[trigger] pt2.entry(
                    gn,
                    k,
                )).bits == 0 by {
                    assert(gent2[k].bits == 0);
                }
                assert(pt2.entry(gn, gi2) == pte);
                assert forall|i: int| 0 <= i < pt2.node_count() implies #[trigger] pt2.node_ok(
                    i,
                ) by {
                    if i < gn {
                        assert(ptm.node_ok(i));
                        if i == gj1 {
                            assert(pt2.nodes@[i].entries@.len() == 512);
                        }
                    }
                }
                lemma_leaf_table_install(
                    ptm,
                    pt2,
                    am,
                    gj1,
                    gi0,
                    gi1,
                    gi2,
                    f2frame,
                    pte,
                    d2,
                    vpn,
                );
                assert(pt2.walk(vpn) == WalkResult::Leaf(pte));
                assert forall|i: int| 0 <= i < pt2.node_count() implies (
                #[trigger] pt2.node_frame(i)).live_in(a) by {
                    if i < gn {
                        assert(ptm.node_frame(i).live_in(&am));
                        assert(am.allocs().dom().contains(ptm.node_frame(i).offset()));
                        assert(pt2.node_frame(i) == ptm.node_frame(i));
                    } else {
                        assert(pt2.node_frame(i) == f2frame);
                    }
                }
                assert(pt2.owned_by(a));
                // relate the final state to the one before any directory
                // was installed
                assert forall|v2: VirtualPageNumber| !same_slots(v2, vpn) implies (
                #[trigger] pt2.walk(v2)) == pt0.walk(v2) by {
                    assert(pt2.walk(v2) == ptm.walk(v2));
                    if installed {
                        assert(ptm.walk(v2) == pt0.walk(v2));
                    }
                }
                if installed {
                    assert(pt0.walk(vpn) == WalkResult::Absent);
                    assert(pt0.dirs_missing(vpn) == 2);
                } else {
                    assert(pt0.dirs_missing(vpn) == 1);
                }
                assert forall|g: int| #[trigger] free_run_from(a0.allocs(), g) implies
                    free_run_from(a.allocs(), g + pt0.dirs_missing(vpn)) by {
                    if installed {
                        assert(free_run_from(am.allocs(), g + 1));
                        assert(free_run_from(a.allocs(), g + 2));
                    } else {
                        assert(am.allocs() == a0.allocs());
                        assert(free_run_from(a.allocs(), g + 1));
                    }
                }
            }
            Ok(())
        }
    }
}

/// Why a page-table operation failed.
#[derive(Clone, Copy, PartialEq, Eq, Structural, Debug)]
pub enum PageTableError {
    /// `map` on a virtual page whose leaf entry is already valid; the
    /// offending virtual page number is carried.
    AlreadyMapped(VirtualPageNumber),
    /// `unmap` on a virtual page with no valid leaf entry; the offending
    /// virtual page number is carried.
    NotMapped(VirtualPageNumber),
    /// `map` with flags holding none of Read/Write/Execute, which cannot
    /// encode a leaf.
    InvalidFlags,
    /// A walk met a leaf entry where a directory entry was expected, or
    /// the reverse: the table is corrupt.
    MalformedTable,
    /// The frame allocator could not supply a directory frame.
    OutOfFrames,
}

/// Decoding the leaf entry that `map` installs for `(ppn, flags)` gives
/// back exactly that page number and exactly `flags` with Valid set.
pub proof fn lemma_leaf_entry_decodes(ppn: u64, flags: u8)
    requires
        ppn <= PPN_MASK,
    ensures
        spec_pte_ppn(spec_pte_bits(ppn, flags | 1)) == ppn,
        spec_pte_flags(spec_pte_bits(ppn, flags | 1)) == flags | 1,
        spec_pte_bits(ppn, flags | 1) & 1 != 0,
{
    lemma_pte_encode(ppn, flags | 1);
    assert((flags | 1) & 1 != 0) by (bit_vector);
    assert(((ppn << 10) | ((flags | 1) as u64)) & 1 != 0 <==> (flags | 1) & 1 != 0) by (bit_vector)
        requires
            ppn <= 0xFFF_FFFF_FFFFu64,
    ;
}

/// A table holding only its root directory — as `new` returns one —
/// misses both directory levels for any virtual page it does not map:
/// `map` would have to allocate exactly two frames.
pub proof fn lemma_fresh_table_missing_dirs(pt: PageTable, vpn: VirtualPageNumber)
    requires
        pt.wf(),
        pt.node_count() == 1,
        pt.walk(vpn) == WalkResult::Absent,
    ensures
        pt.dirs_missing(vpn) == 2,
{
    lemma_vpn_slots(vpn.0);
    let i0 = vpn.level0_index() as int;
    let e0 = pt.entry(0, i0);
    if e0.spec_valid() {
        if e0.spec_has_rwx() {
            assert(pt.walk(vpn) == WalkResult::Malformed);
        } else {
            assert(pt.dentry_at(0, i0));
            assert(pt.link_ok(0, i0));
            let jw = choose|jw: int|
                0 <= jw < pt.node_count() && (#[trigger] pt.node_ppn(jw)) == spec_pte_ppn(
                    pt.entry(0, i0).bits,
                ) && pt.node_level(jw) == pt.node_level(0) + 1;
            assert(jw == 0);
        }
        assert(false);
    }
}

/// A virtual page that shares both directory levels with a mapped one
/// misses no directory level: mapping it would allocate no frame.
pub proof fn lemma_sibling_missing_no_dirs(
    pt: PageTable,
    mapped: VirtualPageNumber,
    vpn: VirtualPageNumber,
)
    requires
        pt.wf(),
        pt.walk(mapped) is Leaf,
        vpn.level0_index() == mapped.level0_index(),
        vpn.level1_index() == mapped.level1_index(),
    ensures
        pt.dirs_missing(vpn) == 0,
{
    lemma_vpn_slots(mapped.0);
    let i0 = mapped.level0_index() as int;
    let i1 = mapped.level1_index() as int;
    let e0 = pt.entry(0, i0);
    if !e0.spec_valid() {
        assert(pt.walk(mapped) == WalkResult::Absent);
        assert(false);
    }
    if e0.spec_has_rwx() {
        assert(pt.walk(mapped) == WalkResult::Malformed);
        assert(false);
    }
    let p1 = spec_pte_ppn(e0.bits);
    if !pt.has_node(p1) {
        assert(pt.walk(mapped) == WalkResult::Absent);
        assert(false);
    }
    let e1 = pt.node_entry(p1, i1);
    if !e1.spec_valid() {
        assert(pt.walk(mapped) == WalkResult::Absent);
        assert(false);
    }
    assert(pt.dirs_missing(vpn) == 0);
}

} // verus!
