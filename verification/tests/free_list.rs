use pagealloc::free_list::{AllocationResult, FreeList};

// A fresh tracker hands out the whole capacity from offset 0, reports
// the largest free range on failure, and reuses a freed span that
// coalesces with the remaining free range.
#[test]
fn scenario_carve_report_and_reuse() {
    let mut fl = FreeList::new(4096);
    assert_eq!(fl.allocate(100), AllocationResult::Allocated(0));
    assert_eq!(fl.allocate(4000), AllocationResult::NotFound(3996));
    assert_eq!(fl.free(0, 100), Ok(()));
    assert_eq!(fl.allocate(4000), AllocationResult::Allocated(0));
}

// Freeing two intersecting spans on an otherwise-full tracker: the
// second call reports the overlap and leaves the tracker unchanged.
#[test]
fn scenario_overlapping_free() {
    let mut fl = FreeList::new(4096);
    assert_eq!(fl.allocate(4096), AllocationResult::Allocated(0));
    assert_eq!(fl.free(1000, 50), Ok(()));
    assert_eq!(
        fl.free(1040, 50),
        Err("new range overlaps with existing range")
    );
}

// Concurrently live allocations never overlap.
#[test]
fn live_allocations_are_disjoint() {
    let mut fl = FreeList::new(4096);
    let mut live: Vec<(usize, usize)> = Vec::new();
    for size in [100, 200, 52, 400, 8] {
        match fl.allocate(size) {
            AllocationResult::Allocated(offset) => {
                let padded = (size + 3) / 4 * 4;
                for (o, s) in &live {
                    assert!(offset + padded <= *o || o + s <= offset);
                }
                live.push((offset, padded));
            }
            AllocationResult::NotFound(_) => panic!("expected the allocation to fit"),
        }
    }
}

// Sizes are rounded up to the alignment granule.
#[test]
fn sizes_are_padded() {
    let mut fl = FreeList::new(8);
    assert_eq!(fl.allocate(1), AllocationResult::Allocated(0));
    assert_eq!(fl.allocate(1), AllocationResult::Allocated(4));
    assert_eq!(fl.allocate(1), AllocationResult::NotFound(0));
}

// Exact-fit allocations consume their range; later allocations fall
// back to a first-fit scan in address order.
#[test]
fn exact_fits_and_first_fit_scan() {
    let mut fl = FreeList::new(4096);
    assert_eq!(fl.allocate(4096), AllocationResult::Allocated(0));
    assert_eq!(fl.allocate(4), AllocationResult::NotFound(0));
    assert_eq!(fl.free(0, 64), Ok(()));
    assert_eq!(fl.free(128, 64), Ok(()));
    assert_eq!(fl.allocate(64), AllocationResult::Allocated(0));
    assert_eq!(fl.allocate(64), AllocationResult::Allocated(128));
    assert_eq!(fl.allocate(4), AllocationResult::NotFound(0));
}

// Freeing the span between two free ranges merges all three into one.
#[test]
fn adjacent_ranges_coalesce() {
    let mut fl = FreeList::new(4096);
    assert_eq!(fl.allocate(4096), AllocationResult::Allocated(0));
    assert_eq!(fl.free(0, 64), Ok(()));
    assert_eq!(fl.free(128, 64), Ok(()));
    assert_eq!(fl.allocate(192), AllocationResult::NotFound(64));
    assert_eq!(fl.free(64, 64), Ok(()));
    assert_eq!(fl.allocate(192), AllocationResult::Allocated(0));
    assert_eq!(fl.allocate(4), AllocationResult::NotFound(0));
}

// A freed span that does not touch any free range becomes a range of
// its own, kept in ascending offset order.
#[test]
fn free_keeps_address_order() {
    let mut fl = FreeList::new(4096);
    assert_eq!(fl.allocate(4096), AllocationResult::Allocated(0));
    assert_eq!(fl.free(512, 128), Ok(()));
    assert_eq!(fl.free(0, 64), Ok(()));
    assert_eq!(fl.free(1024, 256), Ok(()));
    // First fit in address order: the request of 128 bytes skips the
    // 64-byte range at 0 and carves from the range at 512.
    assert_eq!(fl.allocate(128), AllocationResult::Allocated(512));
    assert_eq!(fl.allocate(64), AllocationResult::Allocated(0));
    assert_eq!(fl.allocate(256), AllocationResult::Allocated(1024));
    assert_eq!(fl.allocate(4), AllocationResult::NotFound(0));
}

// The most recently allocated-from range is tried first, even when an
// earlier range would also fit.
#[test]
fn last_used_range_is_tried_first() {
    let mut fl = FreeList::new(4096);
    assert_eq!(fl.allocate(1024), AllocationResult::Allocated(0));
    assert_eq!(fl.free(0, 512), Ok(()));
    // The cache still points at the tail range carved by the first
    // allocation, so the next allocation comes from it although the
    // freed range at offset 0 would fit too.
    assert_eq!(fl.allocate(256), AllocationResult::Allocated(1024));
}
