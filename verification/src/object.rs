//! The extent-oriented data model shared by the allocators and the storage
//! path: where an object's bytes live (`ManifestLocation`, `Manifest`) and
//! how the object is named (`ObjKey`).

use vstd::prelude::*;
use vstd::set_lib::set_int_range;

verus! {

/// The half-open range of block addresses `[lba, lba + span)`.
pub open spec fn block_range(lba: u64, span: u64) -> Set<int> {
    set_int_range(lba as int, lba + span)
}

/// A content-derived object identifier: identical bytes yield an identical
/// id, so two objects with equal content collapse onto one entry.
#[derive(Clone, Copy, Debug, PartialEq, Eq, Hash, Structural)]
pub struct ObjectId {
    pub value: u128,
}

pub type ObjectID = ObjectId;

/// A block-device identifier.
pub type BlkDevID = u128;

/// One shard of a manifest: a contiguous run of `span` blocks starting at
/// block address `lba`, optionally pinned to one device. The occupied
/// addresses are the half-open range `[lba, lba + span)`.
#[derive(Clone, Copy, Debug, PartialEq, Eq)]
pub struct ManifestLocation {
    pub blkdevid: Option<BlkDevID>,
    /// starting LBA
    pub lba: u64,
    /// number of LBAs
    pub span: u64,
}

impl ManifestLocation {
    /// The first address past the run.
    pub open spec fn end(self) -> int {
        self.lba + self.span
    }

    /// The set of block addresses the run occupies.
    pub open spec fn block_set(self) -> Set<int> {
        block_range(self.lba, self.span)
    }

    /// The run stays within the `u64` address space.
    pub open spec fn addressable(self) -> bool {
        self.end() <= u64::MAX
    }
}

/// An ordered sequence of extents describing where one object's bytes live.
/// More than one shard appears when the allocator could not satisfy a
/// request with a single contiguous run.
#[derive(Debug)]
pub struct Manifest {
    pub shards: Vec<ManifestLocation>,
}

/// The total number of blocks the shards cover.
pub open spec fn span_total(shards: Seq<ManifestLocation>) -> int
    decreases shards.len(),
{
    if shards.len() == 0 {
        0
    } else {
        shards[0].span + span_total(shards.drop_first())
    }
}

/// The set of block addresses the shards cover.
pub open spec fn shard_blocks(shards: Seq<ManifestLocation>) -> Set<int>
    decreases shards.len(),
{
    if shards.len() == 0 {
        Set::empty()
    } else {
        shards[0].block_set().union(shard_blocks(shards.drop_first()))
    }
}

/// Appending a shard extends the covered span by the shard's span.
pub proof fn lemma_span_total_push(s: Seq<ManifestLocation>, x: ManifestLocation)
    ensures
        span_total(s.push(x)) == span_total(s) + x.span,
    decreases s.len(),
{
    let t = s.push(x);
    assert(t[0] == if s.len() == 0 {
        x
    } else {
        s[0]
    });
    assert(span_total(t) == t[0].span + span_total(t.drop_first()));
    if s.len() == 0 {
        assert(t.drop_first() =~= Seq::<ManifestLocation>::empty());
        assert(span_total(s) == 0);
    } else {
        assert(t.drop_first() =~= s.drop_first().push(x));
        lemma_span_total_push(s.drop_first(), x);
        assert(span_total(s) == s[0].span + span_total(s.drop_first()));
    }
}

/// Appending a shard extends the covered blocks by the shard's blocks.
pub proof fn lemma_shard_blocks_push(s: Seq<ManifestLocation>, x: ManifestLocation)
    ensures
        shard_blocks(s.push(x)) =~= shard_blocks(s).union(x.block_set()),
    decreases s.len(),
{
    let t = s.push(x);
    assert(t[0] == if s.len() == 0 {
        x
    } else {
        s[0]
    });
    assert(shard_blocks(t) =~= t[0].block_set().union(shard_blocks(t.drop_first())));
    if s.len() == 0 {
        assert(t.drop_first() =~= Seq::<ManifestLocation>::empty());
        assert(shard_blocks(s) =~= Set::<int>::empty());
    } else {
        assert(t.drop_first() =~= s.drop_first().push(x));
        lemma_shard_blocks_push(s.drop_first(), x);
        assert(shard_blocks(s) =~= s[0].block_set().union(shard_blocks(s.drop_first())));
    }
}

/// A prefix of a shard sequence covers a subset of its blocks.
pub proof fn lemma_shard_blocks_take_subset(s: Seq<ManifestLocation>, k: int)
    requires
        0 <= k <= s.len(),
    ensures
        shard_blocks(s.take(k)).subset_of(shard_blocks(s)),
    decreases s.len() - k,
{
    if k == s.len() {
        assert(s.take(k) =~= s);
    } else {
        assert(s.take(k + 1) =~= s.take(k).push(s[k]));
        lemma_shard_blocks_push(s.take(k), s[k]);
        lemma_shard_blocks_take_subset(s, k + 1);
    }
}

/// A block is covered by a shard sequence exactly when some shard covers
/// it.
pub proof fn lemma_shard_blocks_iff(s: Seq<ManifestLocation>)
    ensures
        forall|b: int|
            shard_blocks(s).contains(b) <==> exists|a: int|
                0 <= a < s.len() && (#[trigger] s[a]).block_set().contains(b),
    decreases s.len(),
{
    if s.len() != 0 {
        lemma_shard_blocks_iff(s.drop_first());
        assert forall|b: int| shard_blocks(s).contains(b) implies exists|a: int|
            0 <= a < s.len() && (#[trigger] s[a]).block_set().contains(b) by {
            if s[0].block_set().contains(b) {
                assert(s[0].block_set().contains(b));
            } else {
                assert(shard_blocks(s.drop_first()).contains(b));
                let a0 = choose|a0: int|
                    0 <= a0 < s.drop_first().len() && (#[trigger] s.drop_first()[a0]).block_set().contains(
                        b,
                    );
                assert(s[a0 + 1].block_set().contains(b));
            }
        }
        assert forall|b: int, a: int|
            0 <= a < s.len() && #[trigger] s[a].block_set().contains(b) implies shard_blocks(
            s,
        ).contains(b) by {
            assert(shard_blocks(s) == s[0].block_set().union(shard_blocks(s.drop_first())));
            if a > 0 {
                assert(s.drop_first()[a - 1].block_set().contains(b));
                assert(shard_blocks(s.drop_first()).contains(b));
            } else {
                assert(s[0].block_set().contains(b));
            }
        }
    }
}

impl Manifest {
    /// Every shard is addressable and no two shards overlap: each block
    /// belongs to at most one shard.
    pub open spec fn wf(self) -> bool {
        &&& forall|i: int| 0 <= i < self.shards@.len() ==> (#[trigger] self.shards@[i]).addressable()
        &&& forall|i: int, j: int|
            0 <= i < j < self.shards@.len() ==> (#[trigger] self.shards@[i]).block_set().disjoint(
                (#[trigger] self.shards@[j]).block_set(),
            )
    }

    /// The total number of blocks the manifest covers.
    pub open spec fn total_span(self) -> int {
        span_total(self.shards@)
    }

    /// The set of block addresses the manifest covers.
    pub open spec fn blocks(self) -> Set<int> {
        shard_blocks(self.shards@)
    }

    /// An empty manifest, covering no blocks.
    pub fn new() -> (m: Manifest)
        ensures
            m.shards@ == Seq::<ManifestLocation>::empty(),
    {
        Manifest { shards: Vec::new() }
    }
}

impl Clone for Manifest {
    fn clone(&self) -> (res: Self)
        ensures
            res.shards@ == self.shards@,
    {
        let mut shards: Vec<ManifestLocation> = Vec::new();
        let mut i: usize = 0;
        while i < self.shards.len()
            invariant
                i <= self.shards.len(),
                shards@ == self.shards@.take(i as int),
            decreases self.shards.len() - i,
        {
            shards.push(self.shards[i]);
            i = i + 1;
        }
        proof {
            assert(shards@ =~= self.shards@);
        }
        Manifest { shards }
    }
}

impl Default for Manifest {
    /// The default manifest is the empty one.
    fn default() -> (m: Manifest)
        ensures
            m.shards@ == Seq::<ManifestLocation>::empty(),
    {
        Manifest::new()
    }
}

/// The persisted name of one stored object: a content-derived id, a 64-bit
/// content digest, the byte size, and the manifest placing those bytes.
#[derive(Debug)]
pub struct ObjKey {
    pub uuid: ObjectId,
    pub hash: u64,
    pub size: u64,
    pub manifest: Manifest,
}

/// The mathematical value of an object key.
pub struct ObjKeyV {
    pub uuid: ObjectId,
    pub hash: u64,
    pub size: u64,
    pub shards: Seq<ManifestLocation>,
}

impl ObjKeyV {
    /// The shards are addressable and mutually disjoint, and together they
    /// hold at least the object's bytes.
    pub open spec fn wf(self) -> bool {
        &&& forall|i: int| 0 <= i < self.shards.len() ==> (#[trigger] self.shards[i]).addressable()
        &&& forall|i: int, j: int|
            0 <= i < j < self.shards.len() ==> (#[trigger] self.shards[i]).block_set().disjoint(
                (#[trigger] self.shards[j]).block_set(),
            )
        &&& self.size <= span_total(self.shards) * 4096
    }

    /// The set of block addresses the key's manifest covers.
    pub open spec fn blocks(self) -> Set<int> {
        shard_blocks(self.shards)
    }
}

impl View for ObjKey {
    type V = ObjKeyV;

    open spec fn view(&self) -> ObjKeyV {
        ObjKeyV {
            uuid: self.uuid,
            hash: self.hash,
            size: self.size,
            shards: self.manifest.shards@,
        }
    }
}

impl Clone for ObjKey {
    fn clone(&self) -> (res: Self)
        ensures
            res@ == self@,
    {
        ObjKey {
            uuid: self.uuid,
            hash: self.hash,
            size: self.size,
            manifest: self.manifest.clone(),
        }
    }
}

/// An object: its key and, when loaded, its bytes.
#[derive(Debug)]
pub struct Object {
    pub key: ObjKey,
    pub data: Option<Vec<u8>>,
}

impl Object {
    /// The bytes the digest is computed over: the loaded data, or none.
    pub open spec fn content(self) -> Seq<u8> {
        match self.data {
            Some(d) => d@,
            None => Seq::empty(),
        }
    }

    /// The 64-bit content digest of the object's bytes.
    pub fn calculate_hash(&self) -> (r: u64)
        ensures
            r == crate::keygen::digest64_spec(self.content()),
    {
        match &self.data {
            Some(d) => crate::keygen::digest64(d.as_slice()),
            None => {
                let empty: Vec<u8> = Vec::new();
                crate::keygen::digest64(empty.as_slice())
            },
        }
    }
}

/// Read-only access to an object's identity and payload.
pub trait IsObject {
    fn get_uuid(&self) -> ObjectID;

    fn get_hash(&self) -> u64;

    fn get_size(&self) -> u64;

    fn get_data(&self) -> &Option<Vec<u8>>;
}

impl IsObject for Object {
    fn get_uuid(&self) -> (r: ObjectID)
        ensures
            r == self.key.uuid,
    {
        self.key.uuid
    }

    fn get_hash(&self) -> (r: u64)
        ensures
            r == self.key.hash,
    {
        self.key.hash
    }

    fn get_size(&self) -> (r: u64)
        ensures
            r == self.key.size,
    {
        self.key.size
    }

    fn get_data(&self) -> (r: &Option<Vec<u8>>)
        ensures
            r == &self.data,
    {
        &self.data
    }
}

} // verus!
