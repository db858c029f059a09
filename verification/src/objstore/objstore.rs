//! put/get/delete over a freelist, a block store and a metadata store, and
//! the startup reconciliation that rebuilds the freelist from the persisted
//! keys alone.

use vstd::prelude::*;

use crate::blockstore::blockstore::block_at;
use crate::blockstore::blockstore::chunk;
use crate::blockstore::blockstore::manifest_bytes;
use crate::blockstore::blockstore::BlockStore;
use crate::freelist::FreeList;
use crate::keygen::digest64_spec;
use crate::keygen::uuid_v5_of;
use crate::keygen::GeneratesKeys;
use crate::keygen::KeyGen;
use crate::keystore::keystore::KeyStore;
use crate::object::block_range;
use crate::object::shard_blocks;
use crate::object::span_total;
use crate::object::ManifestLocation;
use crate::object::ObjKey;
use crate::object::ObjKeyV;
use crate::object::ObjectId;
use crate::RResult;
use crate::StoreError;

verus! {

pub type ObjectID = ObjectId;

/// The top-level interface to put, get, or delete stored data.
pub trait ObjectStore {
    /// The structural invariant of the whole store.
    spec fn inv(&self) -> bool;

    fn put(&mut self, data: &[u8]) -> (r: RResult<ObjectID>)
        requires
            old(self).inv(),
        ensures
            final(self).inv(),
    ;

    fn get(&mut self, uuid: ObjectID) -> (r: RResult<Option<Vec<u8>>>)
        requires
            old(self).inv(),
        ensures
            final(self).inv(),
    ;

    fn delete(&mut self, uuid: ObjectID) -> (r: RResult<Option<ObjectID>>)
        requires
            old(self).inv(),
        ensures
            final(self).inv(),
    ;
}

/// The store: a freelist reserving space, a block store carrying bytes, a
/// key generator naming objects, and a metadata store persisting the names.
pub struct BasicObjectStore<B: BlockStore, F: FreeList, K: KeyStore> {
    pub blockstore: B,
    pub freelist: F,
    pub keygen: KeyGen,
    pub keystore: K,
}

impl<B: BlockStore, F: FreeList, K: KeyStore> BasicObjectStore<B, F, K> {
    pub fn new(blockstore: B, freelist: F, keygen: KeyGen, keystore: K) -> (s: Self)
        ensures
            s.blockstore == blockstore,
            s.freelist == freelist,
            s.keystore == keystore,
    {
        Self { blockstore, freelist, keygen, keystore }
    }
}

impl<B: BlockStore, F: FreeList, K: KeyStore> ObjectStore for BasicObjectStore<B, F, K> {
    open spec fn inv(&self) -> bool {
        &&& self.blockstore.inv()
        &&& self.freelist.inv()
        &&& self.keystore.inv()
    }

    /// Derives the key from the bytes, reserves space, writes the bytes to
    /// the reserved blocks, then persists the key. The steps are not
    /// transactional: a failure after allocation leaves blocks reserved; a
    /// failure after the write leaves written-but-unindexed blocks.
    fn put(&mut self, data: &[u8]) -> (r: RResult<ObjectID>)
        ensures
            r matches Ok(id) ==> {
                &&& id.value == uuid_v5_of(data@)
                &&& exists|shards: Seq<ManifestLocation>|
                    {
                        let stored = ObjKeyV {
                            uuid: id,
                            hash: digest64_spec(data@),
                            size: data@.len() as u64,
                            shards,
                        };
                        &&& stored.wf()
                        &&& #[trigger] span_total(shards) == F::request_span(data@.len() as u64)
                        &&& shard_blocks(shards).subset_of(old(self).freelist.free_set())
                        &&& final(self).keystore.kmap() == old(self).keystore.kmap().insert(
                            id,
                            stored,
                        )
                        &&& final(self).freelist.free_set() == old(
                            self,
                        ).freelist.free_set().difference(shard_blocks(shards))
                        &&& forall|g: int|
                            0 <= g < span_total(shards) ==> final(self).blockstore.store_contents()[#[trigger] block_at(shards, g)] == chunk(
                                data@,
                                g,
                            )
                        &&& forall|b: int|
                            0 <= b < old(self).blockstore.store_block_count() && !shard_blocks(
                                shards,
                            ).contains(b) ==> #[trigger] final(self).blockstore.store_contents()[b]
                                == old(self).blockstore.store_contents()[b]
                    }
            },
            r is Err ==> final(self).keystore.kmap() == old(self).keystore.kmap(),
            r is Err ==> final(self).freelist.free_set().subset_of(old(self).freelist.free_set()),
            r matches Err(e) ==> (e == StoreError::NoSpace || e == StoreError::IoError),
            // the store's own refusal: exactly when the allocator cannot
            // satisfy the request, and then nothing has changed
            r == Err::<ObjectID, StoreError>(StoreError::NoSpace) <==> !old(
                self,
            ).freelist.can_allocate(data@.len() as u64),
            r == Err::<ObjectID, StoreError>(StoreError::NoSpace) ==> {
                &&& final(self).freelist.free_set() == old(self).freelist.free_set()
                &&& final(self).blockstore.store_contents() == old(self).blockstore.store_contents()
            },
    {
        let key0 = self.keygen.make_key(data)?;
        let size = key0.size;
        let manifest = self.freelist.allocate(size)?;
        proof {
            F::request_span_adequate(size);
        }
        let key = ObjKey { uuid: key0.uuid, hash: key0.hash, size: key0.size, manifest };
        let uuid = key.uuid;
        let ghost shards = key.manifest.shards@;
        self.blockstore.write(data, &key)?;
        proof {
            assert(key@.wf());
        }
        let prev = self.keystore.set(uuid, key)?;
        let _ = prev;
        proof {
            assert(span_total(shards) == F::request_span(data@.len() as u64));
        }
        Ok(uuid)
    }

    /// Looks the key up; absent ids return `None`. The stored bytes are
    /// reassembled from the manifest's blocks and truncated to the object's
    /// size. No component's state changes.
    fn get(&mut self, uuid: ObjectID) -> (r: RResult<Option<Vec<u8>>>)
        ensures
            final(self).keystore.kmap() == old(self).keystore.kmap(),
            final(self).freelist.free_set() == old(self).freelist.free_set(),
            final(self).blockstore.store_contents() == old(self).blockstore.store_contents(),
            r matches Ok(o) ==> match o {
                Some(bytes) => {
                    &&& old(self).keystore.kmap().dom().contains(uuid)
                    &&& bytes@ == manifest_bytes(
                        old(self).blockstore.store_contents(),
                        old(self).keystore.kmap()[uuid].shards,
                    ).take(old(self).keystore.kmap()[uuid].size as int)
                },
                None => !old(self).keystore.kmap().dom().contains(uuid),
            },
            r matches Err(e) ==> e == StoreError::IoError,
    {
        let found = self.keystore.get(&uuid)?;
        if let Some(key) = found {
            proof {
                assert(key.manifest.wf());
            }
            let mut data: Vec<u8> = Vec::new();
            self.blockstore.read(&mut data, key)?;
            Ok(Some(data))
        } else {
            Ok(None)
        }
    }

    /// Looks the key up; absent ids return `None`. Present ids have their
    /// blocks released back to the freelist first, and only then is the key
    /// removed from the metadata store: this order can leave the metadata
    /// pointing at reusable blocks if interrupted between the two steps,
    /// but it never corrupts other objects' data.
    fn delete(&mut self, uuid: ObjectID) -> (r: RResult<Option<ObjectID>>)
        ensures
            final(self).blockstore.store_contents() == old(self).blockstore.store_contents(),
            r matches Ok(o) ==> match o {
                Some(rid) => {
                    &&& rid == uuid
                    &&& old(self).keystore.kmap().dom().contains(uuid)
                    &&& final(self).keystore.kmap() == old(self).keystore.kmap().remove(uuid)
                    &&& final(self).freelist.free_set() == old(self).freelist.free_set().union(
                        shard_blocks(old(self).keystore.kmap()[uuid].shards),
                    )
                },
                None => {
                    &&& !old(self).keystore.kmap().dom().contains(uuid)
                    &&& final(self).keystore.kmap() == old(self).keystore.kmap()
                    &&& final(self).freelist.free_set() == old(self).freelist.free_set()
                },
            },
            r is Err ==> final(self).keystore.kmap() == old(self).keystore.kmap(),
            r matches Err(e) ==> (e == StoreError::IoError || e == StoreError::OutOfBounds || e
                == StoreError::OverlapOrDoubleFree),
            // the store's own refusal: a non-I/O error means the id is bound
            // and its stored shards cannot be returned to the free space
            r matches Err(e) && e != StoreError::IoError ==> {
                &&& old(self).keystore.kmap().dom().contains(uuid)
                &&& !old(self).freelist.can_release(old(self).keystore.kmap()[uuid].shards)
            },
            // on any failure the free space holds at least what it held, and
            // at most that plus the bound id's stored blocks
            r is Err ==> old(self).freelist.free_set().subset_of(final(self).freelist.free_set()),
            r is Err ==> final(self).freelist.free_set().subset_of(
                old(self).freelist.free_set().union(
                    if old(self).keystore.kmap().dom().contains(uuid) {
                        shard_blocks(old(self).keystore.kmap()[uuid].shards)
                    } else {
                        Set::empty()
                    },
                ),
            ),
    {
        let found = self.keystore.get(&uuid)?;
        if let Some(key) = found {
            proof {
                assert(key.manifest.wf());
            }
            self.freelist.release(&key.manifest)?;
            let removed = self.keystore.delete(&uuid)?;
            let _ = removed;
            Ok(Some(uuid))
        } else {
            Ok(None)
        }
    }
}

/// Stored objects are recoverable: when every block of a stored key's
/// manifest holds its slice of the object's bytes (what `put` leaves
/// behind), reading the manifest's blocks back and truncating to the key's
/// size (what `get` returns) yields the original bytes exactly.
pub proof fn lemma_put_then_get(contents: Seq<Seq<u8>>, key: ObjKeyV, data: Seq<u8>)
    requires
        key.size == data.len(),
        key.wf(),
        forall|g: int|
            0 <= g < span_total(key.shards) ==> #[trigger] contents[block_at(key.shards, g)]
                == chunk(data, g),
    ensures
        manifest_bytes(contents, key.shards).take(key.size as int) == data,
{
    crate::blockstore::blockstore::lemma_write_read_round_trip(contents, key.shards, data);
}

/// The union of the blocks of all the keys' manifests.
pub open spec fn keys_blocks(keys: Seq<ObjKey>) -> Set<int>
    decreases keys.len(),
{
    if keys.len() == 0 {
        Set::empty()
    } else {
        keys[0]@.blocks().union(keys_blocks(keys.drop_first()))
    }
}

/// Appending a key extends the covered blocks by its manifest's blocks.
pub proof fn lemma_keys_blocks_push(keys: Seq<ObjKey>, k: ObjKey)
    ensures
        keys_blocks(keys.push(k)) =~= keys_blocks(keys).union(k@.blocks()),
    decreases keys.len(),
{
    let t = keys.push(k);
    assert(t[0] == if keys.len() == 0 {
        k
    } else {
        keys[0]
    });
    assert(keys_blocks(t) =~= t[0]@.blocks().union(keys_blocks(t.drop_first())));
    if keys.len() == 0 {
        assert(t.drop_first() =~= Seq::<ObjKey>::empty());
        assert(keys_blocks(keys) =~= Set::<int>::empty());
    } else {
        assert(t.drop_first() =~= keys.drop_first().push(k));
        lemma_keys_blocks_push(keys.drop_first(), k);
        assert(keys_blocks(keys) =~= keys[0]@.blocks().union(keys_blocks(keys.drop_first())));
    }
}

/// Every shard of every key covers at least one block.
pub open spec fn keys_shards_positive(keys: Seq<ObjKey>) -> bool {
    forall|i: int, j: int|
        0 <= i < keys.len() && 0 <= j < keys[i]@.shards.len() ==> 1 <= (
        #[trigger] keys[i]@.shards[j]).span
}

/// No block belongs to two different keys' manifests.
pub open spec fn keys_disjoint(keys: Seq<ObjKey>) -> bool {
    forall|i: int, j: int|
        #![trigger keys[i]@.blocks(), keys[j]@.blocks()]
        0 <= i < j < keys.len() ==> keys[i]@.blocks().disjoint(keys[j]@.blocks())
}

/// The replay of these keys into this freelist is guaranteed to succeed:
/// the freelist tracks every maximal free run as one piece, every shard is
/// nonempty, no two keys share a block, and all the keys' blocks are free.
pub open spec fn replay_ready<F: FreeList>(freelist: F, keys: Seq<ObjKey>) -> bool {
    &&& freelist.unfragmented()
    &&& keys_shards_positive(keys)
    &&& keys_disjoint(keys)
    &&& keys_blocks(keys).subset_of(freelist.free_set())
}

/// A block is covered by a key sequence exactly when some key's manifest
/// covers it.
pub proof fn lemma_keys_blocks_iff(keys: Seq<ObjKey>)
    ensures
        forall|b: int|
            keys_blocks(keys).contains(b) <==> exists|i: int|
                0 <= i < keys.len() && (#[trigger] keys[i]@.blocks()).contains(b),
    decreases keys.len(),
{
    if keys.len() != 0 {
        lemma_keys_blocks_iff(keys.drop_first());
        assert forall|b: int| keys_blocks(keys).contains(b) implies exists|i: int|
            0 <= i < keys.len() && (#[trigger] keys[i]@.blocks()).contains(b) by {
            if keys[0]@.blocks().contains(b) {
                assert(keys[0]@.blocks().contains(b));
            } else {
                assert(keys_blocks(keys.drop_first()).contains(b));
                let i0 = choose|i0: int|
                    0 <= i0 < keys.drop_first().len() && (
                    #[trigger] keys.drop_first()[i0]@.blocks()).contains(b);
                assert(keys[i0 + 1]@.blocks().contains(b));
            }
        }
        assert forall|b: int, i: int|
            0 <= i < keys.len() && #[trigger] keys[i]@.blocks().contains(b) implies keys_blocks(
            keys,
        ).contains(b) by {
            assert(keys_blocks(keys) == keys[0]@.blocks().union(keys_blocks(keys.drop_first())));
            if i > 0 {
                assert(keys.drop_first()[i - 1]@.blocks().contains(b));
                assert(keys_blocks(keys.drop_first()).contains(b));
            } else {
                assert(keys[0]@.blocks().contains(b));
            }
        }
    }
}

/// A prefix of a key sequence covers a subset of its blocks.
pub proof fn lemma_keys_blocks_take_subset(keys: Seq<ObjKey>, k: int)
    requires
        0 <= k <= keys.len(),
    ensures
        keys_blocks(keys.take(k)).subset_of(keys_blocks(keys)),
    decreases keys.len() - k,
{
    if k == keys.len() {
        assert(keys.take(k) =~= keys);
    } else {
        assert(keys.take(k + 1) =~= keys.take(k).push(keys[k]));
        lemma_keys_blocks_push(keys.take(k), keys[k]);
        lemma_keys_blocks_take_subset(keys, k + 1);
    }
}

/// Startup reconciliation: replays every shard of every persisted key as a
/// forced removal from a freelist. The freelist then depends on the
/// persisted keys alone; order does not matter because well-formed
/// manifests never overlap. On failure, the shards already replayed stay
/// removed.
pub fn from_keys<F: FreeList>(freelist: &mut F, keys: &Vec<ObjKey>) -> (r: RResult<()>)
    requires
        old(freelist).inv(),
        forall|i: int| 0 <= i < keys@.len() ==> (#[trigger] keys@[i])@.wf(),
    ensures
        final(freelist).inv(),
        r is Ok ==> final(freelist).free_set() == old(freelist).free_set().difference(
            keys_blocks(keys@),
        ),
        // replay is owed success on a fresh, unfragmented freelist holding
        // every key's blocks, with nonempty, mutually disjoint manifests
        replay_ready(*old(freelist), keys@) ==> r is Ok,
        // on failure, the shards already replayed stay removed: the free
        // space shrinks, and by no more than the keys' blocks
        r is Err ==> final(freelist).free_set().subset_of(old(freelist).free_set()),
        r is Err ==> old(freelist).free_set().difference(keys_blocks(keys@)).subset_of(
            final(freelist).free_set(),
        ),
        r matches Err(e) ==> (e == StoreError::OutOfBounds || e == StoreError::RegionNotFree),
{
    let nkeys = keys.len();
    let mut ki: usize = 0;
    proof {
        assert(keys_blocks(keys@.take(0)) =~= Set::<int>::empty());
        assert(freelist.free_set() =~= old(freelist).free_set().difference(
            keys_blocks(keys@.take(0)),
        ));
    }
    while ki < nkeys
        invariant
            freelist.inv(),
            ki <= nkeys,
            nkeys == keys@.len(),
            forall|i: int| 0 <= i < keys@.len() ==> (#[trigger] keys@[i])@.wf(),
            freelist.free_set() =~= old(freelist).free_set().difference(
                keys_blocks(keys@.take(ki as int)),
            ),
            replay_ready(*old(freelist), keys@) ==> freelist.unfragmented(),
        decreases nkeys - ki,
    {
        let nshards = keys[ki].manifest.shards.len();
        let ghost shards = keys@[ki as int].manifest.shards@;
        let mut si: usize = 0;
        proof {
            assert(shard_blocks(shards.take(0)) =~= Set::<int>::empty());
            assert(freelist.free_set() =~= old(freelist).free_set().difference(
                keys_blocks(keys@.take(ki as int)).union(shard_blocks(shards.take(0))),
            ));
        }
        while si < nshards
            invariant
                freelist.inv(),
                ki < keys@.len(),
                si <= nshards,
                forall|i: int| 0 <= i < keys@.len() ==> (#[trigger] keys@[i])@.wf(),
                shards == keys@[ki as int].manifest.shards@,
                nshards == shards.len(),
                freelist.free_set() =~= old(freelist).free_set().difference(
                    keys_blocks(keys@.take(ki as int)).union(shard_blocks(shards.take(si as int))),
                ),
                replay_ready(*old(freelist), keys@) ==> freelist.unfragmented(),
            decreases nshards - si,
        {
            let loc = keys[ki].manifest.shards[si];
            proof {
                assert(keys@[ki as int]@.wf());
                assert(shards[si as int].addressable());
                if replay_ready(*old(freelist), keys@) {
                    // the shard's region is still free, so this take succeeds
                    lemma_keys_blocks_iff(keys@);
                    crate::object::lemma_shard_blocks_iff(shards);
                    assert(1 <= loc.span);
                    assert forall|b: int|
                        block_range(loc.lba, loc.span).contains(b) implies freelist.free_set().contains(
                        b,
                    ) by {
                        assert(shards[si as int].block_set().contains(b));
                        assert(shard_blocks(shards).contains(b));
                        assert(keys@[ki as int]@.blocks().contains(b));
                        assert(keys_blocks(keys@).contains(b));
                        assert(old(freelist).free_set().contains(b));
                        assert(!keys_blocks(keys@.take(ki as int)).contains(b)) by {
                            if keys_blocks(keys@.take(ki as int)).contains(b) {
                                lemma_keys_blocks_iff(keys@.take(ki as int));
                                let i0 = choose|i0: int|
                                    0 <= i0 < keys@.take(ki as int).len() && (#[trigger] keys@.take(
                                        ki as int,
                                    )[i0]@.blocks()).contains(b);
                                assert(keys@[i0]@.blocks().disjoint(keys@[ki as int]@.blocks()));
                                assert(false);
                            }
                        }
                        assert(!shard_blocks(shards.take(si as int)).contains(b)) by {
                            if shard_blocks(shards.take(si as int)).contains(b) {
                                crate::object::lemma_shard_blocks_iff(shards.take(si as int));
                                let j0 = choose|j0: int|
                                    0 <= j0 < shards.take(si as int).len() && (
                                    #[trigger] shards.take(si as int)[j0]).block_set().contains(b);
                                assert(shards[j0].block_set().disjoint(
                                    shards[si as int].block_set(),
                                ));
                                assert(false);
                            }
                        }
                    }
                    freelist.take_ready(loc.span, loc.lba);
                }
            }
            let res = freelist.take(loc.span, loc.lba);
            if let Err(e) = res {
                proof {
                    lemma_keys_blocks_take_subset(keys@, ki as int);
                    crate::object::lemma_shard_blocks_take_subset(shards, si as int);
                    crate::object::lemma_shard_blocks_iff(shards);
                    lemma_keys_blocks_iff(keys@);
                    assert forall|b: int|
                        keys_blocks(keys@.take(ki as int)).union(
                            shard_blocks(shards.take(si as int)),
                        ).contains(b) implies keys_blocks(keys@).contains(b) by {
                        if shard_blocks(shards.take(si as int)).contains(b) {
                            assert(shard_blocks(shards).contains(b));
                            assert(keys@[ki as int]@.blocks().contains(b));
                        }
                    }
                }
                return Err(e);
            }
            proof {
                assert(shards.take(si + 1) =~= shards.take(si as int).push(shards[si as int]));
                crate::object::lemma_shard_blocks_push(shards.take(si as int), shards[si as int]);
                assert(freelist.free_set() =~= old(freelist).free_set().difference(
                    keys_blocks(keys@.take(ki as int)).union(shard_blocks(shards.take(si + 1))),
                ));
            }
            si = si + 1;
        }
        proof {
            assert(shards.take(nshards as int) =~= shards);
            assert(keys@.take(ki + 1) =~= keys@.take(ki as int).push(keys@[ki as int]));
            lemma_keys_blocks_push(keys@.take(ki as int), keys@[ki as int]);
            assert(freelist.free_set() =~= old(freelist).free_set().difference(
                keys_blocks(keys@.take(ki + 1)),
            ));
        }
        ki = ki + 1;
    }
    proof {
        assert(keys@.take(nkeys as int) =~= keys@);
    }
    Ok(())
}

} // verus!
