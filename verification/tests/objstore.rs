use rustor::blockstore::blockdevice::MemBlockDevice;
use rustor::blockstore::blockstore::SingleDeviceBlockStore;
use rustor::freelist::rcvecfreelist::RCVecFreeList;
use rustor::freelist::FreeListNode;
use rustor::keygen::KeyGen;
use rustor::keystore::mem_keystore::MemKeyStore;
use rustor::object::Manifest;
use rustor::object::ManifestLocation;
use rustor::object::ObjKey;
use rustor::object::ObjectId;
use rustor::objstore::objstore::from_keys;
use rustor::objstore::objstore::BasicObjectStore;
use rustor::objstore::objstore::ObjectStore;
use rustor::StoreError;

fn small_store(
    device_blocks: usize,
    freelist_blocks: u64,
) -> BasicObjectStore<SingleDeviceBlockStore<MemBlockDevice>, RCVecFreeList, MemKeyStore> {
    let device = MemBlockDevice::new(device_blocks);
    let blockstore = SingleDeviceBlockStore::new(device);
    let freelist = RCVecFreeList::new(freelist_blocks);
    let keystore = MemKeyStore::new();
    BasicObjectStore::new(blockstore, freelist, KeyGen {}, keystore)
}

// End to end on a one-block device: put, get back unchanged, delete, gone;
// the freed space can be reused by a following put.
#[test]
fn test_put_get_delete() {
    let mut store = small_store(1, 1);

    let id = store.put(b"hello").unwrap();
    let data = store.get(id).unwrap();
    assert_eq!(data.unwrap(), b"hello".to_vec());

    let deleted = store.delete(id).unwrap();
    assert_eq!(deleted, Some(id));
    assert_eq!(store.get(id).unwrap(), None);
    assert_eq!(store.delete(id).unwrap(), None);

    // the freed block is usable again
    let one_block = vec![7u8; 4096];
    let id2 = store.put(one_block.as_slice()).unwrap();
    assert_eq!(store.get(id2).unwrap().unwrap(), one_block);
}

// Identical content yields an identical id, and the id is the version-5
// UUID of the bytes in the OID namespace.
#[test]
fn test_content_derived_ids() {
    let mut store = small_store(4, 4);
    let id1 = store.put(b"same bytes").unwrap();
    store.delete(id1).unwrap();
    let id2 = store.put(b"same bytes").unwrap();
    assert_eq!(id1, id2);

    let expected = uuid::Uuid::new_v5(&uuid::Uuid::NAMESPACE_OID, b"same bytes").as_u128();
    assert_eq!(id1.value, expected);
}

// A store whose freelist is larger than its device: the write fails with
// an I/O error and the metadata is never touched.
#[test]
fn test_put_io_error() {
    let mut store = small_store(1, 2);
    let data = vec![1u8; 2 * 4096];
    let r = store.put(data.as_slice());
    assert_eq!(r.unwrap_err(), StoreError::IoError);
    assert_eq!(store.get(ObjectId { value: 0 }).unwrap(), None);
}

// A full freelist rejects a put with NoSpace.
#[test]
fn test_put_no_space() {
    let mut store = small_store(1, 1);
    store.put(b"first").unwrap();
    let r = store.put(b"second, but the device is full");
    assert_eq!(r.unwrap_err(), StoreError::NoSpace);
}

// An object spanning several blocks survives the round trip, including a
// partial final block.
#[test]
fn test_multiblock_round_trip() {
    let mut store = small_store(8, 8);
    let mut data = Vec::new();
    for i in 0..(2 * 4096 + 123) {
        data.push((i % 251) as u8);
    }
    let id = store.put(data.as_slice()).unwrap();
    assert_eq!(store.get(id).unwrap().unwrap(), data);
}

// Startup reconciliation: two persisted keys with disjoint extents {0,5}
// and {10,3} on a 100-block device leave exactly the free extents {5,5}
// and {13,87}.
#[test]
fn test_reconciliation() {
    let k1 = ObjKey {
        uuid: ObjectId { value: 1 },
        hash: 0,
        size: 5 * 4096,
        manifest: Manifest { shards: vec![ManifestLocation { blkdevid: None, lba: 0, span: 5 }] },
    };
    let k2 = ObjKey {
        uuid: ObjectId { value: 2 },
        hash: 0,
        size: 3 * 4096,
        manifest: Manifest { shards: vec![ManifestLocation { blkdevid: None, lba: 10, span: 3 }] },
    };
    let keys = vec![k1, k2];

    let mut freelist = RCVecFreeList::new(100);
    from_keys(&mut freelist, &keys).unwrap();

    assert_eq!(
        freelist.by_addr,
        vec![
            FreeListNode { blkdevid: None, span: 5, address: 5 },
            FreeListNode { blkdevid: None, span: 87, address: 13 },
        ]
    );
}

// Reconciliation of a key that names space outside any free extent fails.
#[test]
fn test_reconciliation_rejects_overlap() {
    let k1 = ObjKey {
        uuid: ObjectId { value: 1 },
        hash: 0,
        size: 4096,
        manifest: Manifest { shards: vec![ManifestLocation { blkdevid: None, lba: 0, span: 1 }] },
    };
    let k2 = ObjKey {
        uuid: ObjectId { value: 2 },
        hash: 0,
        size: 4096,
        manifest: Manifest { shards: vec![ManifestLocation { blkdevid: None, lba: 0, span: 1 }] },
    };
    let keys = vec![k1, k2];
    let mut freelist = RCVecFreeList::new(100);
    let r = from_keys(&mut freelist, &keys);
    assert_eq!(r.unwrap_err(), StoreError::RegionNotFree);
}
