//! Value types for physical and virtual addresses and page numbers.
//!
//! Addresses are masked to the architecture's width on construction
//! (56 bits for physical addresses under Sv39); page numbers are the
//! address with the 12 page-offset bits removed. All quantities are
//! held as `u64`, the word size of the target architecture.

use vstd::prelude::*;

verus! {

/// Width of a physical address in bits.
pub const PA_WIDTH_SV39: u64 = 56;

/// Number of bits of the in-page offset (4 KiB pages).
pub const PAGE_SIZE_BITS: u64 = 12;

/// Size of one page in bytes.
pub const PAGE_SIZE: u64 = 4096;

/// Width of a physical page number in bits.
pub const PPN_WIDTH_SV39: u64 = PA_WIDTH_SV39 - PAGE_SIZE_BITS;

/// Mask selecting the valid bits of a physical address (56 one bits).
pub const PA_MASK: u64 = 0xFF_FFFF_FFFF_FFFF;

/// Mask selecting the valid bits of a page number (44 one bits).
pub const PPN_MASK: u64 = 0xFFF_FFFF_FFFF;

#[derive(Copy, Clone, Ord, PartialOrd, Eq, PartialEq, Structural, Debug, Hash)]
pub struct PhysicalAddress(pub u64);

#[derive(Copy, Clone, Ord, PartialOrd, Eq, PartialEq, Structural, Debug, Hash)]
pub struct VirtualAddress(pub u64);

#[derive(Copy, Clone, Ord, PartialOrd, Eq, PartialEq, Structural, Debug, Hash)]
pub struct PhysicalPageNumber(pub u64);

#[derive(Copy, Clone, Ord, PartialOrd, Eq, PartialEq, Structural, Debug, Hash)]
pub struct VirtualPageNumber(pub u64);

impl PhysicalAddress {
    /// Construct a physical address, masking to the valid width.
    pub fn from(n: u64) -> (r: Self)
        ensures
            r.0 == n & PA_MASK,
            r.0 <= PA_MASK,
    {
        proof {
            lemma_mask_bounds_pa(n);
        }
        Self(n & PA_MASK)
    }

    /// Page number of the page containing this address.
    pub fn floor(&self) -> (r: PhysicalPageNumber)
        ensures
            r.0 == self.0 / PAGE_SIZE,
    {
        PhysicalPageNumber(self.0 / PAGE_SIZE)
    }

    /// Page number of the first page boundary at or above this address.
    pub fn ceil(&self) -> (r: PhysicalPageNumber)
        ensures
            self.0 % PAGE_SIZE == 0 ==> r.0 == self.0 / PAGE_SIZE,
            self.0 % PAGE_SIZE != 0 ==> r.0 == self.0 / PAGE_SIZE + 1,
    {
        let d = self.0 / PAGE_SIZE;
        if self.0 % PAGE_SIZE == 0 {
            PhysicalPageNumber(d)
        } else {
            PhysicalPageNumber(d + 1)
        }
    }

    /// The page number of a page-aligned address: the exact inverse of
    /// the page-size shift. A misaligned address has no single page
    /// number; alignment is the caller's obligation.
    pub fn page_number(&self) -> (r: PhysicalPageNumber)
        requires
            self.0 % PAGE_SIZE == 0,
        ensures
            r.0 == self.0 / PAGE_SIZE,
            r.0 * PAGE_SIZE == self.0,
    {
        PhysicalPageNumber(self.0 / PAGE_SIZE)
    }

    /// The low page-offset bits of this address.
    pub fn page_offset(&self) -> (r: u64)
        ensures
            r == self.0 % PAGE_SIZE,
    {
        proof {
            lemma_page_offset_is_mod(self.0);
        }
        self.0 & (PAGE_SIZE - 1)
    }
}

impl VirtualAddress {
    /// Construct a virtual address, masking to the valid width.
    pub fn from(n: u64) -> (r: Self)
        ensures
            r.0 == n & PA_MASK,
            r.0 <= PA_MASK,
    {
        proof {
            lemma_mask_bounds_pa(n);
        }
        Self(n & PA_MASK)
    }
}

impl PhysicalPageNumber {
    /// Construct a physical page number, masking to the valid width.
    pub fn from(n: u64) -> (r: Self)
        ensures
            r.0 == n & PPN_MASK,
            r.0 <= PPN_MASK,
    {
        proof {
            lemma_mask_bounds_ppn(n);
        }
        Self(n & PPN_MASK)
    }
}

impl VirtualPageNumber {
    /// Construct a virtual page number, masking to the valid width.
    pub fn from(n: u64) -> (r: Self)
        ensures
            r.0 == n & PPN_MASK,
            r.0 <= PPN_MASK,
    {
        proof {
            lemma_mask_bounds_ppn(n);
        }
        Self(n & PPN_MASK)
    }

    /// The 9-bit index this page number selects at translation level 0
    /// (the most significant of the three).
    pub open spec fn level0_index(self) -> u64 {
        (self.0 >> 18) & 511
    }

    /// The 9-bit index this page number selects at translation level 1.
    pub open spec fn level1_index(self) -> u64 {
        (self.0 >> 9) & 511
    }

    /// The 9-bit index this page number selects at translation level 2
    /// (the least significant, used at the leaf level).
    pub open spec fn level2_index(self) -> u64 {
        self.0 & 511
    }

    /// The three 9-bit page-table indices, most significant first: the
    /// order in which the three translation levels are walked.
    pub fn indexes(&self) -> (r: [usize; 3])
        ensures
            r[0] == self.level0_index(),
            r[1] == self.level1_index(),
            r[2] == self.level2_index(),
            r[0] < 512 && r[1] < 512 && r[2] < 512,
    {
        proof {
            lemma_index_bounds(self.0);
        }
        [((self.0 >> 18) & 511) as usize, ((self.0 >> 9) & 511) as usize, (self.0 & 511) as usize]
    }
}

impl From<PhysicalPageNumber> for PhysicalAddress {
    fn from(v: PhysicalPageNumber) -> (r: Self) {
        Self(v.0 << PAGE_SIZE_BITS)
    }
}

impl vstd::std_specs::convert::FromSpecImpl<PhysicalPageNumber> for PhysicalAddress {
    open spec fn obeys_from_spec() -> bool {
        true
    }

    open spec fn from_spec(v: PhysicalPageNumber) -> Self {
        PhysicalAddress(v.0 << PAGE_SIZE_BITS)
    }
}

proof fn lemma_mask_bounds_pa(n: u64)
    by (bit_vector)
    ensures
        n & 0xFF_FFFF_FFFF_FFFF <= 0xFF_FFFF_FFFF_FFFFu64,
{
}

proof fn lemma_mask_bounds_ppn(n: u64)
    by (bit_vector)
    ensures
        n & 0xFFF_FFFF_FFFF <= 0xFFF_FFFF_FFFFu64,
{
}

proof fn lemma_page_offset_is_mod(n: u64)
    by (bit_vector)
    ensures
        n & 4095 == n % 4096,
{
}

proof fn lemma_index_bounds(n: u64)
    by (bit_vector)
    ensures
        (n >> 18) & 511 < 512,
        (n >> 9) & 511 < 512,
        n & 511 < 512,
{
}

} // verus!
