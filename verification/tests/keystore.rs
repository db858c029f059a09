use rustor::keystore::keystore::KeyStore;
use rustor::keystore::mem_keystore::MemKeyStore;
use rustor::object::Manifest;
use rustor::object::ManifestLocation;
use rustor::object::ObjKey;
use rustor::object::ObjectId;

fn key(id: u128, lba: u64, span: u64) -> ObjKey {
    ObjKey {
        uuid: ObjectId { value: id },
        hash: id as u64,
        size: span * 4096,
        manifest: Manifest { shards: vec![ManifestLocation { blkdevid: None, lba, span }] },
    }
}

#[test]
fn test_set_get_delete() {
    let mut ks = MemKeyStore::new();
    let id = ObjectId { value: 42 };

    assert!(ks.get(&id).unwrap().is_none());

    let prev = ks.set(id, key(42, 0, 2)).unwrap();
    assert!(prev.is_none());

    let got = ks.get(&id).unwrap().unwrap();
    assert_eq!(got.uuid, id);
    assert_eq!(got.size, 2 * 4096);

    // storing the same id again returns the previous key
    let prev = ks.set(id, key(42, 7, 2)).unwrap().unwrap();
    assert_eq!(prev.manifest.shards[0].lba, 0);
    assert_eq!(ks.get(&id).unwrap().unwrap().manifest.shards[0].lba, 7);

    let removed = ks.delete(&id).unwrap().unwrap();
    assert_eq!(removed.uuid, id);
    assert!(ks.get(&id).unwrap().is_none());
    assert!(ks.delete(&id).unwrap().is_none());
}

#[test]
fn test_get_objects() {
    let mut ks = MemKeyStore::new();
    ks.set(ObjectId { value: 1 }, key(1, 0, 1)).unwrap();
    ks.set(ObjectId { value: 2 }, key(2, 1, 1)).unwrap();
    ks.set(ObjectId { value: 3 }, key(3, 2, 1)).unwrap();
    ks.delete(&ObjectId { value: 2 }).unwrap();

    let all = ks.get_objects().unwrap();
    let mut ids: Vec<u128> = all.iter().map(|k| k.uuid.value).collect();
    ids.sort();
    assert_eq!(ids, vec![1, 3]);
}
