use ros_mm::addresses::PhysicalPageNumber;
use ros_mm::frame_allocator::{
    frame_alloc, frame_alloc_multiple, frame_dealloc, init_allocator, Frame, FrameRegion,
};

#[test]
fn fresh_allocator_has_full_capacity() {
    // a 32-page pool hands out all 32 pages at once, and nothing more
    let mut a = init_allocator(PhysicalPageNumber(0), 32);
    let all = frame_alloc_multiple(&mut a, 32);
    assert!(all.is_some());
    assert!(frame_alloc(&mut a).is_none());
}

#[test]
fn dealloc_restores_capacity() {
    let mut a = init_allocator(PhysicalPageNumber(0), 32);
    let run = frame_alloc_multiple(&mut a, 5).unwrap();
    assert!(frame_alloc_multiple(&mut a, 32).is_none());
    frame_dealloc(&mut a, run);
    // the full pool is allocatable again
    assert!(frame_alloc_multiple(&mut a, 32).is_some());
}

#[test]
fn oversized_request_returns_none_and_leaves_state() {
    let mut a = init_allocator(PhysicalPageNumber(0), 8);
    assert!(frame_alloc_multiple(&mut a, 16).is_none());
    assert!(frame_alloc_multiple(&mut a, 9).is_none());
    // had anything been granted, this exact-fit request would fail
    let whole = frame_alloc_multiple(&mut a, 8);
    assert!(whole.is_some());
    assert_eq!(whole.unwrap().ppn, PhysicalPageNumber(0));
}

#[test]
fn live_frames_have_distinct_pages() {
    let mut a = init_allocator(PhysicalPageNumber(100), 16);
    let f1 = frame_alloc(&mut a).unwrap();
    let f2 = frame_alloc(&mut a).unwrap();
    let f3 = frame_alloc(&mut a).unwrap();
    assert_ne!(f1.ppn, f2.ppn);
    assert_ne!(f1.ppn, f3.ppn);
    assert_ne!(f2.ppn, f3.ppn);
    assert!(f1.ppn.0 >= 100 && f1.ppn.0 < 116);
    assert!(f2.ppn.0 >= 100 && f2.ppn.0 < 116);
    assert!(f3.ppn.0 >= 100 && f3.ppn.0 < 116);
}

#[test]
fn region_frame_round_trip_keeps_page_number() {
    let mut a = init_allocator(PhysicalPageNumber(0), 4);
    let run = frame_alloc_multiple(&mut a, 1).unwrap();
    let ppn = run.ppn;
    let frame: Frame = run.into_frame();
    assert_eq!(frame.ppn, ppn);
    let back: FrameRegion = frame.into_region();
    assert_eq!(back.ppn, ppn);
    assert_eq!(back.size, 1);
}

#[test]
fn full_reuse_after_release() {
    // 32-page pool at 0: a 16-page run starts at page 0; after its
    // release a single frame reuses page 0
    let mut a = init_allocator(PhysicalPageNumber(0), 32);
    let run = frame_alloc_multiple(&mut a, 16).unwrap();
    assert_eq!(run.ppn, PhysicalPageNumber(0));
    assert_eq!(run.size, 16);
    frame_dealloc(&mut a, run);
    let f = frame_alloc(&mut a).unwrap();
    assert_eq!(f.ppn, PhysicalPageNumber(0));
}

#[test]
fn placement_is_low_end_first() {
    // 32-page pool at 0: requests are carved from the low end of the
    // free run, so 1, 16 and 4 pages land at 0, 1 and 17
    let mut a = init_allocator(PhysicalPageNumber(0), 32);
    let f = frame_alloc(&mut a).unwrap();
    assert_eq!(f.ppn, PhysicalPageNumber(0));
    let run16 = frame_alloc_multiple(&mut a, 16).unwrap();
    assert_eq!(run16.ppn, PhysicalPageNumber(1));
    let run4 = frame_alloc_multiple(&mut a, 4).unwrap();
    assert_eq!(run4.ppn, PhysicalPageNumber(17));
}

#[test]
fn placement_with_offset_start() {
    let mut a = init_allocator(PhysicalPageNumber(0x80201), 32);
    let f = frame_alloc(&mut a).unwrap();
    assert_eq!(f.ppn, PhysicalPageNumber(0x80201));
    let run = frame_alloc_multiple(&mut a, 16).unwrap();
    assert_eq!(run.ppn, PhysicalPageNumber(0x80202));
}

#[test]
fn freed_hole_is_reused() {
    // three 4-page runs fill 0..12; freeing the middle one leaves a
    // 4-page hole at 4, which an exact-fit request takes again
    let mut a = init_allocator(PhysicalPageNumber(0), 16);
    let first = frame_alloc_multiple(&mut a, 4).unwrap();
    let middle = frame_alloc_multiple(&mut a, 4).unwrap();
    let third = frame_alloc_multiple(&mut a, 4).unwrap();
    assert_eq!(first.ppn, PhysicalPageNumber(0));
    assert_eq!(middle.ppn, PhysicalPageNumber(4));
    assert_eq!(third.ppn, PhysicalPageNumber(8));
    frame_dealloc(&mut a, middle);
    let again = frame_alloc_multiple(&mut a, 4).unwrap();
    assert_eq!(again.ppn, PhysicalPageNumber(4));
}
