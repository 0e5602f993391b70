//! The physical page-frame allocator.
//!
//! The allocator owns the page range `[start, start + size)` and answers
//! requests for single pages and contiguous multi-page runs. Free space
//! lives in a TLSF pool of page-sized units (see `tlsf`); this module
//! proves, over that pool's model, that reservations never overlap, stay
//! inside the owned range, and account exactly for the pool's capacity.
//!
//! Placement policy: the pool hands out the lowest-address fit within the
//! first suitable TLSF size class. In particular, while the free space is
//! a single run — the reservations tiling everything below it, written
//! `free_run_from` — every allocation is granted and carved from the
//! run's low end, and a single page is granted whenever any page is
//! free; the allocation functions state both in their contracts. Which
//! page comes back under general fragmentation depends on the pool's
//! internal size-class order and is deliberately left unstated.

use vstd::prelude::*;

use crate::addresses::PhysicalPageNumber;
use crate::tlsf::{
    free_run_from, pool_alloc, pool_allocs, pool_dealloc, pool_id, pool_new, pool_size,
    region_pool, region_span, total_units, TlsfPool,
};

verus! {

/// Every reservation of `m` lies inside `[0, size)`, holds at least one
/// page, and no two reservations overlap.
pub open spec fn allocs_wf(m: Map<int, int>, size: int) -> bool {
    &&& m.dom().finite()
    &&& forall|o: int| #[trigger] m.dom().contains(o) ==> 1 <= m[o] && 0 <= o && o + m[o] <= size
    &&& forall|o1: int, o2: int|
        m.dom().contains(o1) && m.dom().contains(o2) && o1 != o2 ==> o1 + m[o1] <= o2 || o2
            + m[o2] <= o1
}

proof fn lemma_total_remove(m: Map<int, int>, k: int)
    requires
        m.dom().finite(),
        m.dom().contains(k),
    ensures
        total_units(m) == m[k] + total_units(m.remove(k)),
    decreases m.dom().len(),
{
    broadcast use vstd::set::group_set_axioms;

    let o = m.dom().choose();
    assert(m.dom().len() > 0);
    if o == k {
        assert(total_units(m) == m[k] + total_units(m.remove(k)));
    } else {
        lemma_total_remove(m.remove(o), k);
        lemma_total_remove(m.remove(k), o);
        assert(m.remove(o).remove(k) =~= m.remove(k).remove(o));
        assert(total_units(m) == m[o] + total_units(m.remove(o)));
    }
}

proof fn lemma_total_insert(m: Map<int, int>, k: int, v: int)
    requires
        m.dom().finite(),
        !m.dom().contains(k),
    ensures
        total_units(m.insert(k, v)) == total_units(m) + v,
{
    broadcast use vstd::set::group_set_axioms;

    lemma_total_remove(m.insert(k, v), k);
    assert(m.insert(k, v).remove(k) =~= m);
}

proof fn lemma_max_key(m: Map<int, int>) -> (k: int)
    requires
        m.dom().finite(),
        m.dom().len() > 0,
    ensures
        m.dom().contains(k),
        forall|o: int| #[trigger] m.dom().contains(o) ==> o <= k,
    decreases m.dom().len(),
{
    broadcast use vstd::set::group_set_axioms;

    let o = m.dom().choose();
    let rest = m.remove(o);
    if rest.dom().len() == 0 {
        assert forall|o2: int| #[trigger] m.dom().contains(o2) implies o2 <= o by {
            if o2 != o {
                assert(rest.dom().contains(o2));
                assert(rest.dom().len() > 0);
            }
        }
        o
    } else {
        let k2 = lemma_max_key(rest);
        let k = if o <= k2 {
            k2
        } else {
            o
        };
        assert forall|o2: int| #[trigger] m.dom().contains(o2) implies o2 <= k by {
            if o2 != o {
                assert(rest.dom().contains(o2));
            }
        }
        k
    }
}

/// Reservations that fit disjointly in `[0, size)` hold at most `size`
/// pages in total.
proof fn lemma_total_le_size(m: Map<int, int>, size: int)
    requires
        allocs_wf(m, size),
        0 <= size,
    ensures
        0 <= total_units(m) <= size,
    decreases m.dom().len(),
{
    broadcast use vstd::set::group_set_axioms;

    if m.dom().len() > 0 {
        let k = lemma_max_key(m);
        let rest = m.remove(k);
        assert forall|o: int| #[trigger] rest.dom().contains(o) implies 1 <= rest[o] && 0 <= o && o
            + rest[o] <= k by {
            assert(m.dom().contains(o));
            assert(o != k);
            assert(o <= k);
            assert(o + m[o] <= k || k + m[k] <= o);
        }
        assert(allocs_wf(rest, k));
        lemma_total_le_size(rest, k);
        lemma_total_remove(m, k);
        assert(k + m[k] <= size);
    }
}

/// A well-formed allocator never has negative capacity: its
/// reservations total at most the owned range.
pub proof fn lemma_capacity_nonneg(a: &FrameAllocator)
    requires
        a.wf(),
    ensures
        0 <= a.capacity(),
{
    lemma_total_le_size(a.allocs(), a.size_pages());
}

/// Owns the allocatable page range `[start, start + size)`; free space is
/// kept in a TLSF pool over page offsets relative to `start`.
pub struct FrameAllocator {
    start: PhysicalPageNumber,
    size: u64,
    pool: TlsfPool,
}

/// Exclusive ownership of exactly one physical page, together with the
/// handle of its reservation in the allocator's pool.
pub struct Frame {
    pub ppn: PhysicalPageNumber,
    /// The reservation handle; it moves with the frame and is consumed
    /// exactly once on release.
    pub r: xalloc::SysTlsfRegion,
}

/// Exclusive ownership of a contiguous run of `size >= 1` physical pages
/// as a single reservation; `ppn` is the first page of the run.
pub struct FrameRegion {
    pub ppn: PhysicalPageNumber,
    /// The reservation handle; it moves with the region and is consumed
    /// exactly once on release.
    pub r: xalloc::SysTlsfRegion,
    pub size: u64,
}

impl FrameAllocator {
    /// First page number of the owned range.
    pub closed spec fn start_ppn(&self) -> int {
        self.start.0 as int
    }

    /// Number of pages in the owned range.
    pub closed spec fn size_pages(&self) -> int {
        self.size as int
    }

    /// The live reservations: a map from page offset (relative to
    /// `start`) to run length in pages.
    pub closed spec fn allocs(&self) -> Map<int, int> {
        pool_allocs(self.pool)
    }

    /// The pool's size matches the owned range.
    pub closed spec fn pool_inv(&self) -> bool {
        pool_size(self.pool) == self.size as int
    }

    /// Identity of the underlying pool: reservations work only with the
    /// allocator that issued them.
    pub closed spec fn id(&self) -> int {
        pool_id(self.pool)
    }

    /// Number of pages not currently reserved.
    pub open spec fn capacity(&self) -> int {
        self.size_pages() - total_units(self.allocs())
    }

    pub open spec fn wf(&self) -> bool {
        &&& self.pool_inv()
        &&& allocs_wf(self.allocs(), self.size_pages())
        &&& 1 <= self.size_pages()
        &&& self.start_ppn() + self.size_pages() <= 0x1000_0000_0000
    }

    /// Construction of the allocator covering pages
    /// `[start, start + size)`, all of them free.
    pub fn new(start: PhysicalPageNumber, size: u64) -> (r: Self)
        requires
            1 <= size,
            start.0 + size <= 0x1000_0000_0000,
        ensures
            r.wf(),
            r.start_ppn() == start.0,
            r.size_pages() == size,
            r.capacity() == size,
            forall|o: int| !r.allocs().dom().contains(o),
            free_run_from(r.allocs(), 0),
    {
        let pool = pool_new(size);
        let r = Self { start, size, pool };
        proof {
            broadcast use vstd::set::group_set_axioms;

            assert(r.allocs().dom() =~= Set::empty());
            assert(free_run_from(r.allocs(), 0));
        }
        r
    }

    /// Reserve a contiguous run of `size` pages; hand back the pool handle
    /// and the absolute page number of the run's first page.
    fn reserve(&mut self, size: u64) -> (r: Option<(xalloc::SysTlsfRegion, PhysicalPageNumber)>)
        requires
            old(self).wf(),
            1 <= size,
        ensures
            final(self).wf(),
            final(self).start_ppn() == old(self).start_ppn(),
            final(self).size_pages() == old(self).size_pages(),
            final(self).id() == old(self).id(),
            size == 1 && old(self).capacity() > 0 ==> r is Some,
            forall|g: int|
                #[trigger] free_run_from(old(self).allocs(), g) && g + size <= old(
                    self,
                ).size_pages() ==> r is Some,
            match r {
                None => *final(self) == *old(self),
                Some((reg, ppn)) => {
                    &&& region_span(reg).1 == size
                    &&& region_pool(reg) == old(self).id()
                    &&& forall|g: int|
                        #[trigger] free_run_from(old(self).allocs(), g) ==> region_span(reg).0
                            == g && free_run_from(final(self).allocs(), g + size)
                    &&& 0 <= region_span(reg).0
                    &&& region_span(reg).0 + size <= old(self).size_pages()
                    &&& ppn.0 == old(self).start_ppn() + region_span(reg).0
                    &&& !old(self).allocs().dom().contains(region_span(reg).0)
                    &&& forall|o: int|
                        #[trigger] old(self).allocs().dom().contains(o) ==> o + old(
                            self,
                        ).allocs()[o] <= region_span(reg).0 || region_span(reg).0 + size <= o
                    &&& final(self).allocs() == old(self).allocs().insert(
                        region_span(reg).0,
                        size as int,
                    )
                    &&& size <= old(self).capacity()
                    &&& final(self).capacity() == old(self).capacity() - size
                },
            },
    {
        let r = pool_alloc(&mut self.pool, size);
        match r {
            None => None,
            Some((reg, off)) => {
                proof {
                    broadcast use vstd::set::group_set_axioms;

                    let m = old(self).allocs();
                    let sz = old(self).size_pages();
                    let n = size as int;
                    let off_i = off as int;
                    if m.dom().contains(off_i) {
                        assert(1 <= m[off_i]);
                        assert(off_i + m[off_i] <= off_i || off_i + n <= off_i);
                    }
                    assert(!m.dom().contains(off_i));
                    let m2 = m.insert(off_i, n);
                    assert forall|o: int| #[trigger] m2.dom().contains(o) implies 1 <= m2[o] && 0
                        <= o && o + m2[o] <= sz by {
                        if o != off_i {
                            assert(m.dom().contains(o));
                        }
                    }
                    assert forall|o1: int, o2: int|
                        m2.dom().contains(o1) && m2.dom().contains(o2) && o1 != o2 implies o1
                        + m2[o1] <= o2 || o2 + m2[o2] <= o1 by {
                        if o1 == off_i {
                            assert(m.dom().contains(o2));
                        } else if o2 == off_i {
                            assert(m.dom().contains(o1));
                        } else {
                            assert(m.dom().contains(o1));
                            assert(m.dom().contains(o2));
                        }
                    }
                    assert(allocs_wf(m2, sz));
                    lemma_total_insert(m, off_i, n);
                    lemma_total_le_size(m2, sz);
                    assert(off_i <= sz);
                    assert(old(self).start_ppn() + sz <= 0x1000_0000_0000);
                    assert forall|g: int| #[trigger] free_run_from(m, g) implies free_run_from(
                        m2,
                        g + n,
                    ) by {
                        assert(off_i == g);
                        assert forall|o: int| #[trigger] m2.dom().contains(o) implies 0 <= o && 1
                            <= m2[o] && o + m2[o] <= g + n by {
                            if o != off_i {
                                assert(m.dom().contains(o));
                            }
                        }
                    }
                }
                let ppn = PhysicalPageNumber(self.start.0 + off);
                Some((reg, ppn))
            },
        }
    }

    /// Return a reservation to the free space.
    fn release(&mut self, r: xalloc::SysTlsfRegion)
        requires
            old(self).wf(),
            region_pool(r) == old(self).id(),
            old(self).allocs().dom().contains(region_span(r).0),
            old(self).allocs()[region_span(r).0] == region_span(r).1,
        ensures
            final(self).wf(),
            final(self).start_ppn() == old(self).start_ppn(),
            final(self).size_pages() == old(self).size_pages(),
            final(self).id() == old(self).id(),
            final(self).allocs() == old(self).allocs().remove(region_span(r).0),
            final(self).capacity() == old(self).capacity() + region_span(r).1,
            forall|g: int|
                #[trigger] free_run_from(old(self).allocs(), g) && region_span(r).0 + region_span(
                    r,
                ).1 == g ==> free_run_from(final(self).allocs(), region_span(r).0),
    {
        let ghost m = self.allocs();
        let ghost sz = self.size_pages();
        let ghost off_i = region_span(r).0;
        let ghost len_i = region_span(r).1;
        let _ = pool_dealloc(&mut self.pool, r);
        proof {
            broadcast use vstd::set::group_set_axioms;

            let m2 = m.remove(off_i);
            assert forall|o: int| #[trigger] m2.dom().contains(o) implies 1 <= m2[o] && 0 <= o
                && o + m2[o] <= sz by {
                assert(m.dom().contains(o));
            }
            assert(allocs_wf(m2, sz));
            lemma_total_remove(m, off_i);
            assert forall|g: int|
                #[trigger] free_run_from(m, g) && off_i + len_i == g implies free_run_from(
                m2,
                off_i,
            ) by {
                assert(m[off_i] == len_i);
                assert forall|o: int| #[trigger] m2.dom().contains(o) implies 0 <= o && 1 <= m2[o]
                    && o + m2[o] <= off_i by {
                    assert(m.dom().contains(o));
                    assert(o != off_i);
                    assert(o + m[o] <= off_i || off_i + m[off_i] <= o);
                    if off_i + len_i <= o {
                        assert(o + m[o] <= g);
                        assert(1 <= m[o]);
                        assert(false);
                    }
                }
            }
        }
    }
}

impl Frame {
    /// Offset of this frame's page relative to the allocator's start.
    pub closed spec fn offset(&self) -> int {
        region_span(self.r).0
    }

    /// Length, in pages, of the reservation behind this frame.
    pub closed spec fn span_len(&self) -> int {
        region_span(self.r).1
    }

    /// This frame's reservation is outstanding in `a` and covers exactly
    /// the page it reports.
    pub open spec fn live_in(&self, a: &FrameAllocator) -> bool {
        &&& a.allocs().dom().contains(self.offset())
        &&& a.allocs()[self.offset()] == 1
        &&& self.span_len() == 1
        &&& self.ppn.0 == a.start_ppn() + self.offset()
        &&& self.issued_by() == a.id()
    }

    /// Identity of the pool this frame's reservation came from.
    pub closed spec fn issued_by(&self) -> int {
        region_pool(self.r)
    }

    /// The one-page region holding this frame's page (ownership moves,
    /// and the reservation stays live wherever it was).
    pub fn into_region(self) -> (r: FrameRegion)
        ensures
            r == spec_region_of(self),
            r.ppn == self.ppn,
            r.size == 1,
            r.offset() == self.offset(),
            r.span_len() == self.span_len(),
            r.issued_by() == self.issued_by(),
            forall|a: FrameAllocator| #[trigger] self.live_in(&a) ==> r.live_in(&a),
    {
        let Frame { ppn, r } = self;
        FrameRegion { ppn, r, size: 1 }
    }
}

impl FrameRegion {
    /// Offset of this run's first page relative to the allocator's start.
    pub closed spec fn offset(&self) -> int {
        region_span(self.r).0
    }

    /// Length, in pages, of the reservation behind this run.
    pub closed spec fn span_len(&self) -> int {
        region_span(self.r).1
    }

    /// This run's reservation is outstanding in `a` and covers exactly
    /// the pages it reports.
    pub open spec fn live_in(&self, a: &FrameAllocator) -> bool {
        &&& a.allocs().dom().contains(self.offset())
        &&& a.allocs()[self.offset()] == self.size as int
        &&& self.span_len() == self.size as int
        &&& self.ppn.0 == a.start_ppn() + self.offset()
        &&& self.issued_by() == a.id()
    }

    /// Identity of the pool this run's reservation came from.
    pub closed spec fn issued_by(&self) -> int {
        region_pool(self.r)
    }

    /// The frame of a one-page region (ownership moves, and the
    /// reservation stays live wherever it was).
    pub fn into_frame(self) -> (f: Frame)
        requires
            self.size == 1,
        ensures
            f == spec_frame_of(self),
            f.ppn == self.ppn,
            f.offset() == self.offset(),
            f.span_len() == self.span_len(),
            f.issued_by() == self.issued_by(),
            forall|a: FrameAllocator| #[trigger] self.live_in(&a) ==> f.live_in(&a),
    {
        let FrameRegion { ppn, r, size } = self;
        Frame { ppn, r }
    }
}

/// The frame a one-page region converts to.
pub closed spec fn spec_frame_of(fr: FrameRegion) -> Frame {
    Frame { ppn: fr.ppn, r: fr.r }
}

/// The one-page region a frame converts to.
pub closed spec fn spec_region_of(f: Frame) -> FrameRegion {
    FrameRegion { ppn: f.ppn, r: f.r, size: 1 }
}

/// A one-page region converted to a frame and back is unchanged, and
/// both report the page number of the original region; likewise a frame
/// converted to a region and back.
pub proof fn lemma_region_frame_round_trip(fr: FrameRegion, f: Frame)
    requires
        fr.size == 1,
    ensures
        spec_region_of(spec_frame_of(fr)) == fr,
        spec_frame_of(fr).ppn == fr.ppn,
        spec_frame_of(spec_region_of(f)) == f,
        spec_region_of(f).ppn == f.ppn,
{
}

/// One-time construction of the frame allocator covering the page range
/// `[start, start + size)`; every page starts out free, so the capacity
/// equals `size`.
pub fn init_allocator(start: PhysicalPageNumber, size: u64) -> (r: FrameAllocator)
    requires
        1 <= size,
        start.0 + size <= 0x1000_0000_0000,
    ensures
        r.wf(),
        r.start_ppn() == start.0,
        r.size_pages() == size,
        r.capacity() == size,
        forall|o: int| !r.allocs().dom().contains(o),
        free_run_from(r.allocs(), 0),
{
    FrameAllocator::new(start, size)
}

/// Request a contiguous run of `size` pages. `None` is the expected
/// "no space" outcome and leaves the allocator untouched; in particular
/// a request larger than the remaining capacity always returns `None`.
/// While the free space is a single run (reservations tiling the `g`
/// pages below it), any request that fits is granted and carved at the
/// run's start — the deterministic placement the scenarios below rely
/// on.
pub fn frame_alloc_multiple(a: &mut FrameAllocator, size: u64) -> (r: Option<FrameRegion>)
    requires
        old(a).wf(),
        1 <= size,
    ensures
        final(a).wf(),
        final(a).start_ppn() == old(a).start_ppn(),
        final(a).size_pages() == old(a).size_pages(),
        final(a).id() == old(a).id(),
        size == 1 && old(a).capacity() > 0 ==> r is Some,
        forall|g: int|
            #[trigger] free_run_from(old(a).allocs(), g) && g + size <= old(a).size_pages()
                ==> r is Some,
        match r {
            None => *final(a) == *old(a),
            Some(fr) => {
                &&& forall|g: int|
                    #[trigger] free_run_from(old(a).allocs(), g) ==> fr.offset() == g && fr.ppn.0
                        == old(a).start_ppn() + g && free_run_from(final(a).allocs(), g + size)
                &&& fr.size == size
                &&& fr.live_in(final(a))
                &&& !old(a).allocs().dom().contains(fr.offset())
                &&& forall|o: int|
                    #[trigger] old(a).allocs().dom().contains(o) ==> o + old(a).allocs()[o]
                        <= fr.offset() || fr.offset() + size <= o
                &&& final(a).allocs() == old(a).allocs().insert(fr.offset(), size as int)
                &&& size <= old(a).capacity()
                &&& final(a).capacity() == old(a).capacity() - size
                &&& old(a).start_ppn() <= fr.ppn.0
                &&& fr.ppn.0 + size <= old(a).start_ppn() + old(a).size_pages()
            },
        },
{
    match a.reserve(size) {
        None => None,
        Some((reg, ppn)) => Some(FrameRegion { ppn, r: reg, size }),
    }
}

/// Request a single page frame. `None` leaves the allocator untouched
/// and happens only when no page is free: one free page suffices for a
/// grant. While the free space is a single run, the page granted is the
/// run's first.
pub fn frame_alloc(a: &mut FrameAllocator) -> (r: Option<Frame>)
    requires
        old(a).wf(),
    ensures
        final(a).wf(),
        final(a).start_ppn() == old(a).start_ppn(),
        final(a).size_pages() == old(a).size_pages(),
        final(a).id() == old(a).id(),
        old(a).capacity() > 0 ==> r is Some,
        forall|g: int|
            #[trigger] free_run_from(old(a).allocs(), g) && g + 1 <= old(a).size_pages()
                ==> r is Some,
        match r {
            None => *final(a) == *old(a),
            Some(f) => {
                &&& forall|g: int|
                    #[trigger] free_run_from(old(a).allocs(), g) ==> f.offset() == g && f.ppn.0
                        == old(a).start_ppn() + g && free_run_from(final(a).allocs(), g + 1)
                &&& f.live_in(final(a))
                &&& !old(a).allocs().dom().contains(f.offset())
                &&& forall|o: int|
                    #[trigger] old(a).allocs().dom().contains(o) ==> o + old(a).allocs()[o]
                        <= f.offset() || f.offset() + 1 <= o
                &&& final(a).allocs() == old(a).allocs().insert(f.offset(), 1)
                &&& 1 <= old(a).capacity()
                &&& final(a).capacity() == old(a).capacity() - 1
                &&& old(a).start_ppn() <= f.ppn.0
                &&& f.ppn.0 + 1 <= old(a).start_ppn() + old(a).size_pages()
            },
        },
{
    match a.reserve(1) {
        None => None,
        Some((reg, ppn)) => Some(Frame { ppn, r: reg }),
    }
}

/// Return a previously allocated run to the free list: the reservation
/// is consumed, and the freed pages raise the capacity by exactly the
/// run's size. Adjacent free runs are coalesced by the pool.
pub fn frame_dealloc(a: &mut FrameAllocator, region: FrameRegion)
    requires
        old(a).wf(),
        region.live_in(old(a)),
    ensures
        final(a).wf(),
        final(a).start_ppn() == old(a).start_ppn(),
        final(a).size_pages() == old(a).size_pages(),
        final(a).id() == old(a).id(),
        final(a).allocs() == old(a).allocs().remove(region.offset()),
        final(a).capacity() == old(a).capacity() + region.size,
        forall|g: int|
            #[trigger] free_run_from(old(a).allocs(), g) && region.offset() + region.size == g
                ==> free_run_from(final(a).allocs(), region.offset()),
{
    let FrameRegion { ppn, r, size } = region;
    a.release(r);
}

/// Allocating a run and then releasing that same run restores the
/// allocator's capacity and its reservations to their values before the
/// allocation. The two requires on `allocs` are what `frame_alloc_multiple`
/// and `frame_dealloc` ensure of the allocation and the release.
pub proof fn lemma_alloc_dealloc_restores_capacity(
    a0: FrameAllocator,
    a1: FrameAllocator,
    a2: FrameAllocator,
    off: int,
    n: int,
)
    requires
        a0.wf(),
        !a0.allocs().dom().contains(off),
        a1.allocs() == a0.allocs().insert(off, n),
        a2.allocs() == a1.allocs().remove(off),
        a0.size_pages() == a1.size_pages(),
        a1.size_pages() == a2.size_pages(),
    ensures
        a2.capacity() == a0.capacity(),
        a2.allocs() == a0.allocs(),
{
    broadcast use vstd::set::group_set_axioms;

    assert(a2.allocs() =~= a0.allocs());
}

/// Two frames whose reservations are simultaneously outstanding in the
/// same allocator never report the same page number. (`frame_alloc`
/// ensures that a freshly returned frame's reservation is distinct from
/// every reservation outstanding before the call, so frames from separate
/// calls satisfy the requires while both are live.)
pub proof fn lemma_live_frames_distinct(a: &FrameAllocator, f1: &Frame, f2: &Frame)
    requires
        a.wf(),
        f1.live_in(a),
        f2.live_in(a),
        f1.offset() != f2.offset(),
    ensures
        f1.ppn.0 != f2.ppn.0,
{
}

} // verus!
