use rustor::blockstore::blockdevice::BlockDevice;
use rustor::blockstore::blockdevice::MemBlockDevice;
use rustor::blockstore::blockstore::BlockStore;
use rustor::blockstore::blockstore::SingleDeviceBlockStore;
use rustor::blockstore::blockstore::BS4K;
use rustor::object::Manifest;
use rustor::object::ManifestLocation;
use rustor::object::ObjKey;
use rustor::object::ObjectId;
use rustor::StoreError;

#[test]
fn test_device_read_write() {
    let mut dev = MemBlockDevice::new(2);
    let blk = vec![9u8; BS4K];
    dev.write_block(1, blk.as_slice()).unwrap();
    assert_eq!(dev.read_block(1).unwrap(), blk);
    assert_eq!(dev.read_block(0).unwrap(), vec![0u8; BS4K]);
    assert_eq!(dev.read_block(2).unwrap_err(), StoreError::IoError);
    assert_eq!(dev.write_block(2, blk.as_slice()).unwrap_err(), StoreError::IoError);
}

// Bytes are sliced across the shards in order, zero-padded to the final
// block on write, and truncated back to the object's size on read.
#[test]
fn test_write_read_across_shards() {
    let dev = MemBlockDevice::new(10);
    let mut store = SingleDeviceBlockStore::new(dev);

    let mut data = Vec::new();
    for i in 0..(BS4K + 100) {
        data.push((i % 199) as u8);
    }
    let key = ObjKey {
        uuid: ObjectId { value: 5 },
        hash: 0,
        size: data.len() as u64,
        manifest: Manifest {
            shards: vec![
                ManifestLocation { blkdevid: None, lba: 7, span: 1 },
                ManifestLocation { blkdevid: None, lba: 2, span: 1 },
            ],
        },
    };
    store.write(data.as_slice(), &key).unwrap();

    // the first shard holds the first block of bytes, the second the padded tail
    let first = store.device.read_block(7).unwrap();
    assert_eq!(&first[..], &data[..BS4K]);
    let second = store.device.read_block(2).unwrap();
    assert_eq!(&second[..100], &data[BS4K..]);
    assert!(second[100..].iter().all(|b| *b == 0));

    let mut out = Vec::new();
    store.read(&mut out, &key).unwrap();
    assert_eq!(out, data);
}

// A manifest naming blocks beyond the device propagates the device error.
#[test]
fn test_write_out_of_range() {
    let dev = MemBlockDevice::new(1);
    let mut store = SingleDeviceBlockStore::new(dev);
    let key = ObjKey {
        uuid: ObjectId { value: 1 },
        hash: 0,
        size: 4096,
        manifest: Manifest { shards: vec![ManifestLocation { blkdevid: None, lba: 5, span: 1 }] },
    };
    let data = vec![1u8; 4096];
    assert_eq!(store.write(data.as_slice(), &key).unwrap_err(), StoreError::IoError);
    let mut out = Vec::new();
    assert_eq!(store.read(&mut out, &key).unwrap_err(), StoreError::IoError);
}
