//! Trusted boundary to the TLSF suballocator of the `xalloc` crate.
//!
//! The frame allocator keeps its free space in an `xalloc::SysTlsf` pool
//! of abstract allocation units (here: pages). Verus cannot read that
//! structure, so this module models it: `pool_allocs` names the map from
//! the offset of each live reservation to its length, `pool_size` names
//! the pool size the structure was created with, `region_span` names the
//! offset and length behind a reservation handle, and `pool_id` with
//! `region_pool` tie each handle to the pool that issued it. The wrappers
//! below state, over those names, what the `xalloc` source shows of each
//! call.

use vstd::prelude::*;

verus! {

#[verifier::external_type_specification]
#[verifier::external_body]
pub struct ExSysPtr(xalloc::arena::sys::Ptr);

#[verifier::external_type_specification]
#[verifier::external_body]
#[verifier::reject_recursive_types(P)]
pub struct ExTlsfRegion<P>(xalloc::TlsfRegion<P>);

/// A TLSF pool of abstract allocation units.
///
/// `xalloc::SysTlsf`'s own declaration is refused by Verus (its bounds
/// name `xalloc`'s arena traits), so the structure is held opaquely in
/// a private field and is reached only through the wrappers below.
#[verifier::external_body]
pub struct TlsfPool {
    inner: xalloc::SysTlsf<u64>,
}

/// Total number of units held by the reservations of `m`.
pub open spec fn total_units(m: Map<int, int>) -> int
    decreases m.dom().len(),
    when m.dom().finite()
{
    if m.dom().len() > 0 {
        let o = m.dom().choose();
        m[o] + total_units(m.remove(o))
    } else {
        0
    }
}

/// The pool's free space is the single run `[g, size)`: every
/// reservation lies inside `[0, g)` and the reservations total `g`
/// units, so (reservations of a pool never overlapping) they tile
/// `[0, g)` exactly.
pub open spec fn free_run_from(m: Map<int, int>, g: int) -> bool {
    &&& m.dom().finite()
    &&& 0 <= g
    &&& forall|o: int| #[trigger] m.dom().contains(o) ==> 0 <= o && 1 <= m[o] && o + m[o] <= g
    &&& total_units(m) == g
}

/// The number of allocation units the pool was created with.
pub uninterp spec fn pool_size(p: TlsfPool) -> int;

/// The live reservations of the pool: a map from the offset of each
/// reservation to its length in units.
pub uninterp spec fn pool_allocs(p: TlsfPool) -> Map<int, int>;

/// The offset and length of the reservation behind a handle.
pub uninterp spec fn region_span(r: xalloc::SysTlsfRegion) -> (int, int);

/// The identity of a pool: handles only ever work with the pool that
/// issued them, and `xalloc`'s membership check for `SysTlsf` is a
/// best-effort one (it accepts any pointer), so the contracts below
/// demand the match instead of detecting a mismatch.
pub uninterp spec fn pool_id(p: TlsfPool) -> int;

/// The identity of the pool that issued a reservation handle.
pub uninterp spec fn region_pool(r: xalloc::SysTlsfRegion) -> int;

/// Relies on `xalloc::SysTlsf::new`: a fresh pool of `size` units with no
/// reservations. (`xalloc`'s `TlsfL1::new` panics on a zero size, hence
/// the requires.)
#[verifier::external_body]
pub fn pool_new(size: u64) -> (p: TlsfPool)
    requires
        1 <= size,
    ensures
        pool_size(p) == size,
        forall|o: int| !pool_allocs(p).dom().contains(o),
{
    TlsfPool { inner: xalloc::SysTlsf::new(size) }
}

/// Relies on `xalloc::Tlsf::alloc`: the pool's blocks partition
/// `[0, size)`, and a successful allocation carves a block of exactly the
/// requested length out of a free block, so it lies inside the pool and is
/// disjoint from every live reservation; on failure nothing is touched
/// (the search only reads). Two success clauses rest on the same
/// partition, with adjacent free blocks always coalesced: a single-unit
/// request succeeds whenever the reservations total less than the pool
/// (some block is then free, and any free block fits one unit); and when
/// the reservations tile `[0, g)`, the free space is the one block
/// `[g, size)`, so any request that fits is carved at `g` — the search
/// always reaches the only free block, whose size class is at or above
/// the request's. `alloc` panics on a zero size, hence the requires.
#[verifier::external_body]
pub fn pool_alloc(p: &mut TlsfPool, n: u64) -> (r: Option<(xalloc::SysTlsfRegion, u64)>)
    requires
        1 <= n,
    ensures
        pool_size(*final(p)) == pool_size(*old(p)),
        pool_id(*final(p)) == pool_id(*old(p)),
        n == 1 && total_units(pool_allocs(*old(p))) < pool_size(*old(p)) ==> r is Some,
        forall|g: int|
            #[trigger] free_run_from(pool_allocs(*old(p)), g) && g + n <= pool_size(*old(p))
                ==> r is Some,
        match r {
            None => {
                &&& *final(p) == *old(p)
                &&& pool_allocs(*final(p)) == pool_allocs(*old(p))
            },
            Some((reg, off)) => {
                &&& region_span(reg) == (off as int, n as int)
                &&& region_pool(reg) == pool_id(*old(p))
                &&& off + n <= pool_size(*old(p))
                &&& forall|o: int| pool_allocs(*old(p)).dom().contains(o)
                    ==> o + pool_allocs(*old(p))[o] <= off || off + n <= o
                &&& pool_allocs(*final(p)) == pool_allocs(*old(p)).insert(off as int, n as int)
                &&& forall|g: int| #[trigger] free_run_from(pool_allocs(*old(p)), g) ==> off == g
            },
        },
{
    p.inner.alloc(n)
}

/// Relies on `xalloc::Tlsf::dealloc`: a live handle of this pool (the
/// requires demand both) points at a `Used` block of the pool's own
/// arena, so the membership check passes, the block is merged back into
/// the free space, and `Ok` comes back. Handles are not `Clone`, move
/// into this call, and are issued only by `pool_alloc`; the pool-identity
/// requires keeps handles of any other pool out, which `SysTlsf` itself
/// would not detect.
#[verifier::external_body]
pub fn pool_dealloc(p: &mut TlsfPool, r: xalloc::SysTlsfRegion) -> (res: Result<
    (),
    xalloc::SysTlsfRegion,
>)
    requires
        region_pool(r) == pool_id(*old(p)),
        pool_allocs(*old(p)).dom().contains(region_span(r).0),
        pool_allocs(*old(p))[region_span(r).0] == region_span(r).1,
    ensures
        pool_size(*final(p)) == pool_size(*old(p)),
        pool_id(*final(p)) == pool_id(*old(p)),
        res is Ok,
        pool_allocs(*final(p)) == pool_allocs(*old(p)).remove(region_span(r).0),
{
    p.inner.dealloc(r)
}

} // verus!
