use rustor::keygen::digest64;
use rustor::keygen::GeneratesKeys;
use rustor::keygen::KeyGen;
use rustor::object::IsObject;
use rustor::object::Object;
use rustor::GeneralError;
use rustor::StoreError;

// FNV-1a 64-bit reference values.
#[test]
fn test_digest64_reference_values() {
    assert_eq!(digest64(b""), 0xcbf29ce484222325);
    assert_eq!(digest64(b"a"), 0xaf63dc4c8601ec8c);
    assert_eq!(digest64(b"foobar"), 0x85944171f73967e8);
}

// The derived id is the version-5 UUID of the bytes in the OID namespace,
// so it depends on the bytes alone.
#[test]
fn test_make_key() {
    let kg = KeyGen {};
    let key = kg.make_key(b"payload").unwrap();
    assert_eq!(key.size, 7);
    assert_eq!(key.hash, digest64(b"payload"));
    assert!(key.manifest.shards.is_empty());
    let expected = uuid::Uuid::new_v5(&uuid::Uuid::NAMESPACE_OID, b"payload").as_u128();
    assert_eq!(key.uuid.value, expected);

    let again = kg.make_key(b"payload").unwrap();
    assert_eq!(again.uuid, key.uuid);
    let other = kg.make_key(b"other payload").unwrap();
    assert_ne!(other.uuid, key.uuid);
}

#[test]
fn test_object_accessors() {
    let kg = KeyGen {};
    let key = kg.make_key(b"abc").unwrap();
    let obj = Object { key, data: Some(b"abc".to_vec()) };
    assert_eq!(obj.get_size(), 3);
    assert_eq!(obj.get_hash(), digest64(b"abc"));
    assert_eq!(obj.calculate_hash(), digest64(b"abc"));
    assert_eq!(obj.get_data().as_ref().unwrap(), &b"abc".to_vec());
    assert_eq!(obj.get_uuid().value, uuid::Uuid::new_v5(&uuid::Uuid::NAMESPACE_OID, b"abc").as_u128());

    let empty = Object { key: kg.make_key(b"").unwrap(), data: None };
    assert_eq!(empty.calculate_hash(), digest64(b""));
}

#[test]
fn test_general_error() {
    let e = GeneralError::new("something went sideways").unwrap_err();
    assert_eq!(e.text(), "something went sideways");
    let e = GeneralError::from(StoreError::NoSpace).unwrap_err();
    assert_eq!(e.text(), StoreError::NoSpace.message());
    assert_eq!(StoreError::NotFound.message(), "no such object");
}
