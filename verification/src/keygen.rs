//! Key generation: derives an `ObjKey` deterministically from an object's
//! bytes, so that identical content yields an identical id.

use vstd::prelude::*;

use crate::object::{Manifest, ObjKey, ObjectId};
use crate::RResult;

verus! {

/// FNV-1a 64-bit offset basis.
pub const FNV64_OFFSET: u64 = 0xcbf29ce484222325;

/// FNV-1a 64-bit prime.
pub const FNV64_PRIME: u64 = 0x100000001b3;

/// One FNV-1a step: fold one byte into the running digest.
pub open spec fn digest64_step(h: u64, b: u8) -> u64 {
    ((((h ^ (b as u64)) as int) * (FNV64_PRIME as int)) % 0x10000000000000000) as u64
}

/// The running FNV-1a digest after folding `bytes` into `h`.
pub open spec fn digest64_from(h: u64, bytes: Seq<u8>) -> u64
    decreases bytes.len(),
{
    if bytes.len() == 0 {
        h
    } else {
        digest64_from(digest64_step(h, bytes[0]), bytes.drop_first())
    }
}

/// The 64-bit FNV-1a digest of a byte string: the content hash stored in
/// every object key. The algorithm is fixed by this crate so that the
/// stored hash is fully specified and verifiable; it is never used for
/// lookup, only kept alongside the key.
pub open spec fn digest64_spec(bytes: Seq<u8>) -> u64 {
    digest64_from(FNV64_OFFSET, bytes)
}

proof fn lemma_digest64_from_push(h: u64, s: Seq<u8>, b: u8)
    ensures
        digest64_from(h, s.push(b)) == digest64_step(digest64_from(h, s), b),
    decreases s.len(),
{
    let t = s.push(b);
    assert(t[0] == if s.len() == 0 { b } else { s[0] });
    assert(digest64_from(h, t) == digest64_from(digest64_step(h, t[0]), t.drop_first()));
    if s.len() == 0 {
        assert(t.drop_first() =~= Seq::<u8>::empty());
        assert(digest64_from(digest64_step(h, b), t.drop_first()) == digest64_step(h, b));
        assert(digest64_from(h, s) == h);
    } else {
        assert(t.drop_first() =~= s.drop_first().push(b));
        lemma_digest64_from_push(digest64_step(h, s[0]), s.drop_first(), b);
        assert(digest64_from(h, s) == digest64_from(digest64_step(h, s[0]), s.drop_first()));
    }
}

/// Computes the 64-bit FNV-1a digest of `data`.
pub fn digest64(data: &[u8]) -> (r: u64)
    ensures
        r == digest64_spec(data@),
{
    let mut h: u64 = FNV64_OFFSET;
    let mut i: usize = 0;
    while i < data.len()
        invariant
            i <= data@.len(),
            h == digest64_from(FNV64_OFFSET, data@.take(i as int)),
        decreases data@.len() - i,
    {
        let b = data[i];
        proof {
            assert(data@.take(i + 1) =~= data@.take(i as int).push(data@[i as int]));
            lemma_digest64_from_push(FNV64_OFFSET, data@.take(i as int), data@[i as int]);
        }
        h = (h ^ (b as u64)).wrapping_mul(FNV64_PRIME);
        i = i + 1;
    }
    proof {
        assert(data@.take(data@.len() as int) =~= data@);
    }
    h
}

/// The version-5 UUID of a byte string in the OID namespace, as a 128-bit
/// value. Determined by the bytes alone.
pub uninterp spec fn uuid_v5_of(bytes: Seq<u8>) -> u128;

/// Relies on uuid::Uuid::new_v5: the SHA-1-derived version-5 UUID in the
/// OID namespace is a function of the input bytes alone.
#[verifier::external_body]
fn uuid_v5(data: &[u8]) -> (r: u128)
    ensures
        r == uuid_v5_of(data@),
{
    uuid::Uuid::new_v5(&uuid::Uuid::NAMESPACE_OID, data).as_u128()
}

/// A key generator: derives the persisted name of an object from its bytes.
pub trait GeneratesKeys {
    /// The id this generator derives from the given bytes.
    spec fn key_id(&self, bytes: Seq<u8>) -> u128;

    fn make_key(&self, data: &[u8]) -> (r: RResult<ObjKey>)
        ensures
            r matches Ok(k) ==> {
                &&& k.uuid.value == self.key_id(data@)
                &&& k.size == data@.len()
                &&& k.manifest.shards@.len() == 0
            },
    ;
}

/// The default key generator: content-derived ids via version-5 UUIDs, and
/// an FNV-1a content digest.
pub struct KeyGen {}

impl GeneratesKeys for KeyGen {
    open spec fn key_id(&self, bytes: Seq<u8>) -> u128 {
        uuid_v5_of(bytes)
    }

    /// Never fails; the key's manifest starts empty and is filled in by the
    /// allocator on put.
    fn make_key(&self, data: &[u8]) -> (r: RResult<ObjKey>)
        ensures
            r matches Ok(k) ==> {
                &&& k.uuid.value == uuid_v5_of(data@)
                &&& k.hash == digest64_spec(data@)
                &&& k.size == data@.len()
                &&& k.manifest.shards@.len() == 0
            },
            r is Ok,
    {
        let hash = digest64(data);
        Ok(ObjKey {
            manifest: Manifest::default(),
            uuid: ObjectId { value: uuid_v5(data) },
            hash,
            size: data.len() as u64,
        })
    }
}

} // verus!
