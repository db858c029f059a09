//! Free-space tracking: the free-extent record, the contract every
//! allocator implements, and the laws that hold of any allocator meeting
//! that contract.

pub mod bitmap;
pub mod bitmapfreelist;
pub mod freetree;
pub mod rcvecfreelist;

use vstd::prelude::*;
use vstd::set_lib::lemma_int_range;
use vstd::set_lib::lemma_len_subset;
use vstd::set_lib::lemma_set_disjoint_lens;

use crate::object::block_range;
use crate::object::Manifest;
use crate::object::ManifestLocation;
use crate::RResult;
use crate::StoreError;

verus! {

/// A `block_range` is finite and has exactly `span` elements.
pub proof fn lemma_block_range(lba: u64, span: u64)
    ensures
        block_range(lba, span).finite(),
        block_range(lba, span).len() == span,
{
    lemma_int_range(lba as int, lba + span);
}

/// One free extent: a contiguous run of `span` blocks starting at block
/// address `address`, optionally pinned to one device. Its occupied
/// addresses are the half-open range `[address, address + span)`.
#[derive(Clone, Copy, Debug, PartialEq, Eq, Hash)]
pub struct FreeListNode {
    pub blkdevid: Option<crate::object::BlkDevID>,
    pub span: u64,
    pub address: u64,
}

impl FreeListNode {
    /// The first address past the extent.
    pub open spec fn end(self) -> int {
        self.address + self.span
    }

    /// The extent stays within the `u64` address space.
    pub open spec fn addressable(self) -> bool {
        self.end() <= u64::MAX
    }

    /// The set of block addresses the extent occupies.
    pub open spec fn block_set(self) -> Set<int> {
        block_range(self.address, self.span)
    }

    /// The half-open address ranges of the two extents intersect.
    pub open spec fn overlaps_spec(self, other: FreeListNode) -> bool {
        self.address < other.end() && other.address < self.end()
    }

    /// One extent's end is the other's start.
    pub open spec fn adjacent_spec(self, other: FreeListNode) -> bool {
        self.end() == other.address || other.end() == self.address
    }

    /// True if the two extents' address ranges intersect.
    pub fn overlaps(&self, other: &Self) -> (r: bool)
        requires
            self.addressable(),
            other.addressable(),
        ensures
            r == self.overlaps_spec(*other),
    {
        self.address < other.address + other.span && other.address < self.address + self.span
    }

    /// True if one extent ends exactly where the other starts.
    pub fn adjacent(&self, other: &Self) -> (r: bool)
        requires
            self.addressable(),
            other.addressable(),
        ensures
            r == self.adjacent_spec(*other),
    {
        self.address + self.span == other.address || other.address + other.span == self.address
    }
}

/// Two extents overlap exactly when their block sets intersect, provided
/// neither is empty.
pub proof fn lemma_overlap_iff_blocks_intersect(a: FreeListNode, b: FreeListNode)
    requires
        a.span > 0,
        b.span > 0,
    ensures
        a.overlaps_spec(b) <==> !a.block_set().disjoint(b.block_set()),
{
    if a.overlaps_spec(b) {
        let w = if a.address >= b.address {
            a.address
        } else {
            b.address
        };
        assert(a.block_set().contains(w as int));
        assert(b.block_set().contains(w as int));
    }
}

/// The contract every free-space allocator implements. The state is
/// abstracted as the set of free block addresses; each implementation also
/// says exactly when each operation succeeds.
pub trait FreeList {
    /// The structural invariant of the allocator's state.
    spec fn inv(&self) -> bool;

    /// The set of block addresses currently free.
    spec fn free_set(&self) -> Set<int>;

    /// How many blocks an `allocate` request argument asks for.
    spec fn request_span(request: u64) -> int;

    /// Whether `allocate` succeeds on this state.
    spec fn can_allocate(&self, request: u64) -> bool;

    /// Whether `release` accepts these shards on this state.
    spec fn can_release(&self, shards: Seq<ManifestLocation>) -> bool;

    /// Whether `take` accepts this region on this state.
    spec fn can_take(&self, span: u64, lba: u64) -> bool;

    /// Whether `free` accepts this region on this state.
    spec fn can_free(&self, span: u64, lba: u64) -> bool;

    /// No free extent ends exactly where another begins: every maximal
    /// contiguous run of free blocks is tracked as one piece. A fresh
    /// freelist is unfragmented, and forced removals keep it so; only
    /// `free` and `release`, which never merge, can break it.
    spec fn unfragmented(&self) -> bool;

    /// On an unfragmented state, a forced removal succeeds whenever the
    /// whole region is free.
    proof fn take_ready(&self, span: u64, lba: u64)
        requires
            self.inv(),
            self.unfragmented(),
            1 <= span,
            lba + span <= u64::MAX,
            block_range(lba, span).subset_of(self.free_set()),
        ensures
            self.can_take(span, lba),
    ;

    /// The free set is always finite.
    proof fn free_set_finite(&self)
        requires
            self.inv(),
        ensures
            self.free_set().finite(),
    ;

    /// A request never asks for fewer blocks than fit its bytes: `request`
    /// bytes always fit in `request_span(request)` blocks of `BS4K` bytes.
    proof fn request_span_adequate(request: u64)
        ensures
            0 <= Self::request_span(request),
            request <= Self::request_span(request) * (crate::blockstore::blockstore::BS4K as int),
    ;

    /// Reserves blocks for a request and describes them as a manifest. On
    /// failure the state is untouched.
    fn allocate(&mut self, request: u64) -> (r: RResult<Manifest>)
        requires
            old(self).inv(),
        ensures
            final(self).inv(),
            r is Ok <==> old(self).can_allocate(request),
            r matches Ok(m) ==> {
                &&& m.wf()
                &&& m.total_span() == Self::request_span(request)
                &&& m.blocks().subset_of(old(self).free_set())
                &&& final(self).free_set() == old(self).free_set().difference(m.blocks())
            },
            r matches Err(e) ==> {
                &&& e == StoreError::NoSpace
                &&& final(self).free_set() == old(self).free_set()
            },
    ;

    /// Returns every block of the manifest to the free space, shard by
    /// shard. On failure, the shards before the offending one stay freed.
    fn release(&mut self, manifest: &Manifest) -> (r: RResult<()>)
        requires
            old(self).inv(),
            manifest.wf(),
        ensures
            final(self).inv(),
            r is Ok <==> old(self).can_release(manifest.shards@),
            r is Ok ==> final(self).free_set() == old(self).free_set().union(manifest.blocks()),
            r is Err ==> {
                &&& old(self).free_set().subset_of(final(self).free_set())
                &&& final(self).free_set().subset_of(
                    old(self).free_set().union(manifest.blocks()),
                )
            },
            r matches Err(e) ==> (e == StoreError::OutOfBounds || e
                == StoreError::OverlapOrDoubleFree),
    ;

    /// Forcibly removes `[lba, lba + span)` from the free space. Used only
    /// during startup reconciliation. On failure the state is untouched.
    fn take(&mut self, span: u64, lba: u64) -> (r: RResult<()>)
        requires
            old(self).inv(),
            lba + span <= u64::MAX,
        ensures
            final(self).inv(),
            r is Ok <==> old(self).can_take(span, lba),
            r is Ok ==> final(self).free_set() == old(self).free_set().difference(
                block_range(lba, span),
            ),
            r is Ok && old(self).unfragmented() ==> final(self).unfragmented(),
            r is Err ==> final(self).free_set() == old(self).free_set(),
            r matches Err(e) ==> (e == StoreError::OutOfBounds || e == StoreError::RegionNotFree),
    ;

    /// Forcibly marks `[lba, lba + span)` free. On failure the state is
    /// untouched.
    fn free(&mut self, span: u64, lba: u64) -> (r: RResult<()>)
        requires
            old(self).inv(),
            lba + span <= u64::MAX,
        ensures
            final(self).inv(),
            r is Ok <==> old(self).can_free(span, lba),
            r is Ok ==> final(self).free_set() == old(self).free_set().union(
                block_range(lba, span),
            ),
            r is Err ==> final(self).free_set() == old(self).free_set(),
            r matches Err(e) ==> (e == StoreError::OutOfBounds || e
                == StoreError::OverlapOrDoubleFree),
    ;
}

/// Conservation under allocation: an `allocate` that hands out the block
/// set `allocated` moves exactly those blocks out of the free set, so
/// free + allocated stays constant: the new free count plus the size of the
/// allocation equals the old free count.
pub proof fn lemma_allocate_conserves(free_before: Set<int>, allocated: Set<int>)
    requires
        free_before.finite(),
        allocated.subset_of(free_before),
    ensures
        free_before.difference(allocated).finite(),
        allocated.finite(),
        free_before.difference(allocated).len() + allocated.len() == free_before.len(),
{
    lemma_len_subset(allocated, free_before);
    let remaining = free_before.difference(allocated);
    lemma_len_subset(remaining, free_before);
    lemma_set_disjoint_lens(remaining, allocated);
    assert(remaining + allocated =~= free_before);
}

/// Conservation under release: a `release` that returns the disjoint block
/// set `released` grows the free set by exactly that many blocks.
pub proof fn lemma_release_conserves(free_before: Set<int>, released: Set<int>)
    requires
        free_before.finite(),
        released.finite(),
        released.disjoint(free_before),
    ensures
        free_before.union(released).finite(),
        free_before.union(released).len() == free_before.len() + released.len(),
{
    lemma_set_disjoint_lens(free_before, released);
    assert(free_before + released =~= free_before.union(released));
}

/// No double allocation: blocks handed out by one allocation are never
/// handed out again before they are released. If a first call allocates
/// `first` from the free set and a second call allocates `second` from what
/// remains, the two allocations share no block.
pub proof fn lemma_allocations_disjoint(
    free_initial: Set<int>,
    first: Set<int>,
    second: Set<int>,
)
    requires
        first.subset_of(free_initial),
        second.subset_of(free_initial.difference(first)),
    ensures
        first.disjoint(second),
{
}

/// Round trip: removing a region from the free space and then returning it
/// (an allocate followed by a release of the same blocks, or a `take`
/// followed by a `free` of the same region) restores the free set exactly.
pub proof fn lemma_remove_return_round_trip(free: Set<int>, region: Set<int>)
    requires
        region.subset_of(free),
    ensures
        free.difference(region).union(region) == free,
{
    assert(free.difference(region).union(region) =~= free);
}

} // verus!
