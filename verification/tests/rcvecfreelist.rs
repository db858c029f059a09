use rustor::freelist::rcvecfreelist::RCVecFreeList;
use rustor::freelist::FreeList;
use rustor::freelist::FreeListNode;
use rustor::object::ManifestLocation;
use rustor::StoreError;

#[test]
fn test_new_single_extent() {
    let list = RCVecFreeList::new(1000);
    assert_eq!(list.by_addr, vec![FreeListNode { blkdevid: None, span: 1000, address: 0 }]);
    assert_eq!(list.by_size, vec![FreeListNode { blkdevid: None, span: 1000, address: 0 }]);
}

// Allocation carves from the front of the chosen extent; the request is in
// bytes, rounded up to blocks.
#[test]
fn test_allocate_carves_front() {
    let mut list = RCVecFreeList::new(1000);

    let m = list.allocate(10 * 4096).unwrap();
    assert_eq!(m.shards, vec![ManifestLocation { blkdevid: None, lba: 0, span: 10 }]);
    assert_eq!(list.by_addr, vec![FreeListNode { blkdevid: None, span: 990, address: 10 }]);

    // a partial final block still costs one whole block
    let m = list.allocate(4097).unwrap();
    assert_eq!(m.shards, vec![ManifestLocation { blkdevid: None, lba: 10, span: 2 }]);
    assert_eq!(list.by_addr, vec![FreeListNode { blkdevid: None, span: 988, address: 12 }]);
}

// Best fit: the smallest extent that is large enough wins, even when a
// larger one sits at a lower address; an exact fit removes the extent.
#[test]
fn test_best_fit_exact() {
    let mut list = RCVecFreeList::new(0);
    FreeList::free(&mut list, 10, 0).unwrap();
    FreeList::free(&mut list, 5, 100).unwrap();

    let m = list.allocate(5 * 4096).unwrap();
    assert_eq!(m.shards, vec![ManifestLocation { blkdevid: None, lba: 100, span: 5 }]);
    assert_eq!(list.by_addr, vec![FreeListNode { blkdevid: None, span: 10, address: 0 }]);
    assert_eq!(list.by_size, vec![FreeListNode { blkdevid: None, span: 10, address: 0 }]);
}

// No single extent is large enough, even though the total would be: the
// indexed allocator never splits a request across extents.
#[test]
fn test_allocate_never_splits() {
    let mut list = RCVecFreeList::new(0);
    FreeList::free(&mut list, 10, 0).unwrap();
    FreeList::free(&mut list, 10, 100).unwrap();
    let r = list.allocate(11 * 4096);
    assert_eq!(r.unwrap_err(), StoreError::NoSpace);
    assert_eq!(list.by_addr.len(), 2);
}

// Allocate then release on a fresh device: one free extent of the released
// span reappears at the original address; no merging happens.
#[test]
fn test_alloc_release_round_trip() {
    let mut list = RCVecFreeList::new(1000);
    let m = list.allocate(10 * 4096).unwrap();
    list.release(&m).unwrap();
    assert_eq!(
        list.by_addr,
        vec![
            FreeListNode { blkdevid: None, span: 10, address: 0 },
            FreeListNode { blkdevid: None, span: 990, address: 10 },
        ]
    );
}

// Take then free of the same region restores the same free blocks, split
// at the taken boundary (adjacent extents are never merged).
#[test]
fn test_take_free_round_trip() {
    let mut list = RCVecFreeList::new(1000);
    list.take(10, 0).unwrap();
    assert_eq!(list.by_addr, vec![FreeListNode { blkdevid: None, span: 990, address: 10 }]);
    FreeList::free(&mut list, 10, 0).unwrap();
    assert_eq!(
        list.by_addr,
        vec![
            FreeListNode { blkdevid: None, span: 10, address: 0 },
            FreeListNode { blkdevid: None, span: 990, address: 10 },
        ]
    );
    let total: u64 = list.by_addr.iter().map(|n| n.span).sum();
    assert_eq!(total, 1000);
}

// Taking from the middle of an extent splits it.
#[test]
fn test_take_splits() {
    let mut list = RCVecFreeList::new(100);
    list.take(3, 10).unwrap();
    assert_eq!(
        list.by_addr,
        vec![
            FreeListNode { blkdevid: None, span: 10, address: 0 },
            FreeListNode { blkdevid: None, span: 87, address: 13 },
        ]
    );
}

// Taking a region no single free extent covers is rejected.
#[test]
fn test_take_region_not_free() {
    let mut list = RCVecFreeList::new(100);
    list.take(10, 0).unwrap();
    assert_eq!(list.take(5, 5).unwrap_err(), StoreError::RegionNotFree);
    // spanning two separate free extents is also rejected
    let mut split = RCVecFreeList::new(0);
    FreeList::free(&mut split, 10, 0).unwrap();
    FreeList::free(&mut split, 10, 10).unwrap();
    assert_eq!(split.take(20, 0).unwrap_err(), StoreError::RegionNotFree);
}

// Freeing a region that overlaps a free extent is a double free.
#[test]
fn test_free_overlap_rejected() {
    let mut list = RCVecFreeList::new(100);
    assert_eq!(FreeList::free(&mut list, 5, 50).unwrap_err(), StoreError::OverlapOrDoubleFree);
    list.take(10, 20).unwrap();
    // partially overlapping the surrounding free space is still rejected
    assert_eq!(FreeList::free(&mut list, 20, 15).unwrap_err(), StoreError::OverlapOrDoubleFree);
    // the exact region is fine
    FreeList::free(&mut list, 10, 20).unwrap();
}

// Extent predicates: half-open ranges, so touching extents are adjacent,
// not overlapping.
#[test]
fn test_overlaps_adjacent() {
    let a = FreeListNode { blkdevid: None, span: 10, address: 0 };
    let b = FreeListNode { blkdevid: None, span: 10, address: 10 };
    let c = FreeListNode { blkdevid: None, span: 10, address: 5 };
    assert!(!a.overlaps(&b));
    assert!(a.adjacent(&b));
    assert!(a.overlaps(&c));
    assert!(!a.adjacent(&c));
    assert!(c.overlaps(&b));
}
