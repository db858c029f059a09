use rustor::freelist::bitmap::BitOps;
use rustor::freelist::bitmapfreelist::BitmapFreelist;
use rustor::freelist::FreeList;
use rustor::object::Manifest;
use rustor::object::ManifestLocation;
use rustor::StoreError;

#[test]
fn test_allocate() {
    let size = 1024;
    let mut list = BitmapFreelist::new(size);

    assert_eq!(list.allocate(10).is_ok(), true);
    assert_eq!(list.free(), size - 10);

    let mut zeros = 0;
    let mut it = list.bitmap().zeros();
    while let Some(i) = it.next() {
        if list.bitmap().get(i) == false {
            zeros += 1;
        }
        assert!(i < 10);
    }
    assert_eq!(zeros, 10);
}

#[test]
fn test_release() {
    let size = 1024;
    let mut list = BitmapFreelist::new(size);

    let alloc_size = 10;

    list.take(alloc_size as u64, 0).unwrap();

    let mut zero_count = 0;
    let mut it = list.bitmap().zeros();
    while let Some(_i) = it.next() {
        zero_count += 1;
    }
    assert_eq!(alloc_size, zero_count);
    assert_eq!(list.free(), size - alloc_size);

    let mut manifest = Manifest::new();
    manifest.shards.push(ManifestLocation { blkdevid: None, lba: 0, span: alloc_size as u64 / 2 });

    assert_eq!(list.release(&manifest).is_ok(), true);

    let mut checkvec = vec![true; alloc_size / 2];
    checkvec.append(&mut vec![false; alloc_size / 2]);
    checkvec.append(&mut vec![true; size - alloc_size]);

    let mut bitmapvec = Vec::new();
    let mut bits = list.bitmap().iter();
    while let Some(b) = bits.next() {
        bitmapvec.push(b);
    }

    assert_eq!(checkvec.len(), bitmapvec.len());
    assert_eq!(checkvec, bitmapvec);
}

#[test]
fn test_realloc() {
    let size = 1024;
    let mut list = BitmapFreelist::new(size);

    let alloc_size = 10;

    list.take(alloc_size as u64, alloc_size as u64).unwrap();

    let manifest = list.allocate(alloc_size as u64).unwrap();

    assert_eq!(
        manifest.shards[0],
        ManifestLocation { blkdevid: None, lba: 0, span: alloc_size as u64 }
    );

    assert_eq!(list.free(), size - 2 * alloc_size);
}

// A fragmented bitmap: with blocks {0,1,2} and {5,6,7,8} free on a 16-block
// device, allocating 5 blocks returns a two-shard manifest covering exactly
// the first run and two blocks of the second, and marks all 5 bits used.
#[test]
fn test_fragmented_allocation() {
    let mut list = BitmapFreelist::new(16);
    // leave only {0,1,2} and {5,6,7,8} free
    list.take(2, 3).unwrap();
    list.take(7, 9).unwrap();
    assert_eq!(list.free(), 7);

    let m = list.allocate(5).unwrap();
    assert_eq!(m.shards.len(), 2);
    assert_eq!(m.shards[0], ManifestLocation { blkdevid: None, lba: 0, span: 3 });
    assert_eq!(m.shards[1], ManifestLocation { blkdevid: None, lba: 5, span: 2 });
    assert_eq!(list.free(), 2);
    for i in 0..3 {
        assert!(!list.bitmap().get(i));
    }
    assert!(!list.bitmap().get(5));
    assert!(!list.bitmap().get(6));
    // the rest of the second run is untouched
    assert!(list.bitmap().get(7));
    assert!(list.bitmap().get(8));
}

// A failed scan changes nothing.
#[test]
fn test_allocate_no_space() {
    let mut list = BitmapFreelist::new(8);
    list.take(4, 0).unwrap();
    let r = list.allocate(5);
    assert_eq!(r.unwrap_err(), StoreError::NoSpace);
    assert_eq!(list.free(), 4);
    for i in 4..8 {
        assert!(list.bitmap().get(i));
    }
}

// Out-of-range regions are rejected before anything is marked.
#[test]
fn test_out_of_bounds() {
    let mut list = BitmapFreelist::new(100);
    assert_eq!(list.take(10, 95).unwrap_err(), StoreError::OutOfBounds);
    assert_eq!(FreeList::free(&mut list, 10, 95).unwrap_err(), StoreError::OutOfBounds);
    assert_eq!(list.free(), 100);
}

// Conservation: free + allocated stays equal to the capacity across
// allocate and release.
#[test]
fn test_conservation() {
    let size = 64;
    let mut list = BitmapFreelist::new(size);
    let mut allocated = 0usize;

    let m1 = list.allocate(20).unwrap();
    allocated += 20;
    assert_eq!(list.free() + allocated, size);

    let m2 = list.allocate(30).unwrap();
    allocated += 30;
    assert_eq!(list.free() + allocated, size);

    list.release(&m1).unwrap();
    allocated -= 20;
    assert_eq!(list.free() + allocated, size);

    list.release(&m2).unwrap();
    allocated -= 30;
    assert_eq!(list.free() + allocated, size);
    assert_eq!(list.free(), size);
}

// Take then free of the same region restores the fresh state exactly.
#[test]
fn test_bitmap_take_free_round_trip() {
    let mut list = BitmapFreelist::new(1000);
    list.take(10, 0).unwrap();
    assert_eq!(list.free(), 990);
    FreeList::free(&mut list, 10, 0).unwrap();
    assert_eq!(list.free(), 1000);
    let mut bits = list.bitmap().iter();
    while let Some(b) = bits.next() {
        assert!(b);
    }
}
