//! The bitmap allocator: one bit per block (`true` = free), a cached free
//! count, and a linear scan that can satisfy a request with several
//! fragments.

use vstd::prelude::*;
use vstd::set_lib::lemma_int_range;
use vstd::set_lib::lemma_len_subset;
use vstd::set_lib::set_int_range;

use crate::freelist::bitmap::BitOps;
use crate::freelist::bitmap::Bitmap;
use crate::object::lemma_shard_blocks_push;
use crate::object::lemma_shard_blocks_take_subset;
use crate::object::lemma_span_total_push;
use crate::freelist::FreeList;
use crate::object::block_range;
use crate::object::shard_blocks;
use crate::object::span_total;
use crate::object::Manifest;
use crate::object::ManifestLocation;
use crate::RResult;
use crate::StoreError;

verus! {

/// The set of positions of the free (true) bits.
pub open spec fn free_set_of(bits: Seq<bool>) -> Set<int> {
    Set::new(|b: int| 0 <= b < bits.len() && bits[b])
}

/// The free set of a bitmap is finite and no larger than the bitmap.
pub proof fn lemma_free_set_bounds(bits: Seq<bool>)
    ensures
        free_set_of(bits).finite(),
        free_set_of(bits).len() <= bits.len(),
{
    lemma_int_range(0, bits.len() as int);
    assert(free_set_of(bits).subset_of(set_int_range(0, bits.len() as int)));
    lemma_len_subset(free_set_of(bits), set_int_range(0, bits.len() as int));
}

/// The bitmap allocator's state: the bitmap and the cached free count.
#[derive(Debug)]
pub struct BitmapFreelist {
    bitmap: Bitmap,
    free: usize,
}

impl BitmapFreelist {
    /// The device capacity in blocks.
    pub closed spec fn cap(&self) -> int {
        self.bitmap@.len() as int
    }

    /// The bits of the bitmap: `true` means free.
    pub closed spec fn bits(&self) -> Seq<bool> {
        self.bitmap@
    }

    /// A fresh allocator of `size` blocks, entirely free.
    pub fn new(size: usize) -> (b: BitmapFreelist)
        ensures
            b.inv(),
            b.unfragmented(),
            b.cap() == size,
            b.free_set() == set_int_range(0, size as int),
            forall|i: int| 0 <= i < size ==> b.bits()[i],
    {
        let mut bitmap = Bitmap::new(size);
        bitmap.set_all();
        let b = BitmapFreelist { bitmap, free: size };
        proof {
            assert(b.free_set() =~= set_int_range(0, size as int));
            lemma_int_range(0, size as int);
        }
        b
    }

    /// The device capacity in blocks.
    pub fn capacity(&self) -> (r: usize)
        ensures
            r == self.cap(),
    {
        self.bitmap.capacity()
    }

    /// The cached number of free blocks, always equal to the number of free
    /// bits.
    pub fn free(&self) -> (r: usize)
        requires
            self.inv(),
        ensures
            r == self.free_set().len(),
    {
        self.free
    }

    /// The underlying bitmap, for inspection.
    pub fn bitmap(&self) -> (r: &Bitmap)
        ensures
            r@ == self.bits(),
            self.inv() ==> r.inv(),
    {
        &self.bitmap
    }

    /// Sets every bit in `[lba, lba + span)` to `val`, keeping the cached
    /// free count exact.
    fn mark_range(&mut self, lba: u64, span: u64, val: bool)
        requires
            old(self).inv(),
            lba + span <= old(self).cap(),
        ensures
            final(self).inv(),
            final(self).cap() == old(self).cap(),
            forall|j: int|
                0 <= j < old(self).cap() ==> final(self).bits()[j] == (if lba <= j < lba + span {
                    val
                } else {
                    old(self).bits()[j]
                }),
            final(self).free_set() == (if val {
                old(self).free_set().union(block_range(lba, span))
            } else {
                old(self).free_set().difference(block_range(lba, span))
            }),
    {
        let cap_exec = self.bitmap.capacity();
        let end = lba + span;
        let mut i = lba;
        while i < end
            invariant
                self.inv(),
                self.cap() == old(self).cap(),
                cap_exec == self.cap(),
                lba <= i <= end,
                end <= self.cap(),
                forall|j: int|
                    0 <= j < self.cap() ==> self.bits()[j] == (if lba <= j < i {
                        val
                    } else {
                        old(self).bits()[j]
                    }),
            decreases end - i,
        {
            proof {
                assert(i < cap_exec);
            }
            let idx = i as usize;
            let ghost prev = *self;
            let b = self.bitmap.get(idx);
            if val && !b {
                self.bitmap.set(idx);
                proof {
                    assert forall|c: int| 0 <= c < prev.bits().len() implies self.bits()[c] == (c
                        == i as int || prev.bits()[c]) by {
                        assert(self.bitmap.bit_at(c) == (c == idx || prev.bitmap.bit_at(c)));
                    }
                    assert(!prev.free_set().contains(i as int));
                    assert(self.free_set() =~= prev.free_set().insert(i as int));
                    lemma_free_set_bounds(prev.bits());
                    lemma_free_set_bounds(self.bits());
                }
                self.free = self.free + 1;
            } else if !val && b {
                self.bitmap.clear(idx);
                proof {
                    assert forall|c: int| 0 <= c < prev.bits().len() implies self.bits()[c] == (c
                        != i as int && prev.bits()[c]) by {
                        assert(self.bitmap.bit_at(c) == (c != idx && prev.bitmap.bit_at(c)));
                    }
                    assert(self.free_set() =~= prev.free_set().remove(i as int));
                    lemma_free_set_bounds(prev.bits());
                    assert(prev.free_set().contains(i as int));
                }
                self.free = self.free - 1;
            } else {
                proof {
                    assert(self.bits() =~= prev.bits());
                }
            }
            proof {
                assert forall|j: int|
                    0 <= j < self.cap() implies self.bits()[j] == (if lba <= j < i + 1 {
                        val
                    } else {
                        old(self).bits()[j]
                    }) by {
                    if j != i {
                        assert(self.bits()[j] == prev.bits()[j]);
                    } else {
                        assert(self.bits()[i as int] == val);
                    }
                }
            }
            i = i + 1;
        }
        proof {
            if val {
                assert(self.free_set() =~= old(self).free_set().union(block_range(lba, span)));
            } else {
                assert(self.free_set() =~= old(self).free_set().difference(
                    block_range(lba, span),
                ));
            }
        }
    }
}

impl FreeList for BitmapFreelist {
    /// The bitmap invariant holds and the cached count matches the bits.
    closed spec fn inv(&self) -> bool {
        &&& self.bitmap.inv()
        &&& self.free == free_set_of(self.bitmap@).len()
    }

    open spec fn free_set(&self) -> Set<int> {
        free_set_of(self.bits())
    }

    /// A request names a block count directly.
    open spec fn request_span(request: u64) -> int {
        request as int
    }

    /// The scan succeeds exactly when enough free blocks exist in total,
    /// contiguous or not.
    open spec fn can_allocate(&self, request: u64) -> bool {
        self.free_set().len() >= request
    }

    /// Every shard must lie within the device.
    open spec fn can_release(&self, shards: Seq<ManifestLocation>) -> bool {
        forall|i: int| 0 <= i < shards.len() ==> (#[trigger] shards[i]).end() <= self.cap()
    }

    /// The region must lie within the device; its bits need not be free.
    open spec fn can_take(&self, span: u64, lba: u64) -> bool {
        lba + span <= self.cap()
    }

    /// The region must lie within the device; bits already free are
    /// silently overwritten.
    open spec fn can_free(&self, span: u64, lba: u64) -> bool {
        lba + span <= self.cap()
    }

    /// The bitmap needs no extent records, so nothing can fragment.
    open spec fn unfragmented(&self) -> bool {
        true
    }

    proof fn take_ready(&self, span: u64, lba: u64) {
        assert(block_range(lba, span).contains(lba + span - 1));
        assert(self.free_set().contains(lba + span - 1));
    }

    proof fn free_set_finite(&self) {
        lemma_free_set_bounds(self.bitmap@);
    }

    proof fn request_span_adequate(request: u64) {
        assert(request * 4096 >= request * 1) by (nonlinear_arith)
            requires
                request >= 0,
        ;
    }

    /// Scans the bits in increasing address order, accumulating contiguous
    /// runs of free blocks until the request is met; only then are the
    /// chosen bits marked used, so a failed scan changes nothing. The
    /// manifest holds one shard per contiguous run, and always the
    /// lowest-addressed free blocks.
    fn allocate(&mut self, span: u64) -> (r: RResult<Manifest>)
        ensures
            final(self).cap() == old(self).cap(),
            r matches Ok(m) ==> forall|x: int, y: int|
                m.blocks().contains(x) && old(self).free_set().contains(y) && y < x
                    ==> m.blocks().contains(y),
            // one shard per contiguous run, in ascending address order with a
            // gap between runs, every shard nonempty and within the device
            r matches Ok(m) ==> forall|a: int|
                0 <= a < m.shards@.len() ==> 1 <= (#[trigger] m.shards@[a]).span && m.shards@[a].end()
                    <= old(self).cap() && m.shards@[a].blkdevid is None,
            r matches Ok(m) ==> forall|a: int, b: int|
                #![trigger m.shards@[a], m.shards@[b]]
                0 <= a < b < m.shards@.len() ==> m.shards@[a].end() < m.shards@[b].lba,
            r is Err ==> final(self).bits() == old(self).bits(),
    {
        let cap = self.bitmap.capacity();
        let mut shards: Vec<ManifestLocation> = Vec::new();
        let mut collected: u64 = 0;
        let mut i: usize = 0;
        proof {
            assert(shard_blocks(shards@) =~= self.free_set().intersect(set_int_range(0, 0)));
            lemma_free_set_bounds(self.bits());
        }
        while i < cap && collected < span
            invariant
                self.inv(),
                cap == self.cap(),
                i <= cap,
                collected <= span,
                span_total(shards@) == collected,
                shard_blocks(shards@) =~= self.free_set().intersect(set_int_range(0, i as int)),
                collected == shard_blocks(shards@).len(),
                forall|a: int|
                    0 <= a < shards@.len() ==> 0 < (#[trigger] shards@[a]).span && shards@[a].end()
                        <= i && shards@[a].blkdevid is None,
                forall|a: int, b: int|
                    0 <= a < b < shards@.len() ==> (#[trigger] shards@[a]).end() < (
                    #[trigger] shards@[b]).lba,
            decreases cap - i,
        {
            if self.bitmap.get(i) {
                let ghost pre_shards = shards@;
                let n = shards.len();
                let mut extended = false;
                if n > 0 {
                    let last = shards[n - 1];
                    if last.lba + last.span == i as u64 {
                        shards[n - 1] = ManifestLocation {
                            blkdevid: None,
                            lba: last.lba,
                            span: last.span + 1,
                        };
                        extended = true;
                        proof {
                            let ext = shards@[n - 1];
                            assert(pre_shards =~= pre_shards.drop_last().push(pre_shards.last()));
                            lemma_shard_blocks_push(pre_shards.drop_last(), pre_shards.last());
                            lemma_span_total_push(pre_shards.drop_last(), pre_shards.last());
                            assert(shards@ =~= pre_shards.drop_last().push(ext));
                            lemma_shard_blocks_push(pre_shards.drop_last(), ext);
                            lemma_span_total_push(pre_shards.drop_last(), ext);
                            assert(ext.block_set() =~= pre_shards.last().block_set().insert(
                                i as int,
                            ));
                        }
                    }
                }
                if !extended {
                    let fresh = ManifestLocation { blkdevid: None, lba: i as u64, span: 1 };
                    proof {
                        lemma_shard_blocks_push(pre_shards, fresh);
                        lemma_span_total_push(pre_shards, fresh);
                        assert(fresh.block_set() =~= Set::empty().insert(i as int));
                    }
                    shards.push(fresh);
                }
                collected = collected + 1;
                proof {
                    assert(shard_blocks(shards@) =~= shard_blocks(pre_shards).insert(i as int));
                    assert(!shard_blocks(pre_shards).contains(i as int));
                    lemma_free_set_bounds(self.bits());
                    assert(shard_blocks(pre_shards).subset_of(self.free_set()));
                    lemma_len_subset(shard_blocks(pre_shards), self.free_set());
                    assert(shard_blocks(shards@) =~= self.free_set().intersect(
                        set_int_range(0, i + 1),
                    ));
                }
            } else {
                proof {
                    assert(shard_blocks(shards@) =~= self.free_set().intersect(
                        set_int_range(0, i + 1),
                    ));
                }
            }
            i = i + 1;
        }
        if collected < span {
            proof {
                assert(self.free_set().intersect(set_int_range(0, cap as int)) =~= self.free_set());
            }
            return Err(StoreError::NoSpace);
        }
        // The request is met: mark every chosen bit used.
        let ghost chosen = shard_blocks(shards@);
        proof {
            lemma_len_subset(chosen, self.free_set());
            assert(shard_blocks(shards@.take(0)) =~= Set::<int>::empty());
            assert(self.free_set() =~= old(self).free_set().difference(shard_blocks(shards@.take(0))));
        }
        let n = shards.len();
        let mut s: usize = 0;
        while s < n
            invariant
                self.inv(),
                cap == self.cap(),
                s <= n,
                n == shards@.len(),
                forall|a: int|
                    0 <= a < shards@.len() ==> 0 < (#[trigger] shards@[a]).span && shards@[a].end()
                        <= cap && shards@[a].blkdevid is None,
                forall|a: int, b: int|
                    0 <= a < b < shards@.len() ==> (#[trigger] shards@[a]).end() < (
                    #[trigger] shards@[b]).lba,
                self.free_set() =~= old(self).free_set().difference(
                    shard_blocks(shards@.take(s as int)),
                ),
            decreases n - s,
        {
            let loc = shards[s];
            self.mark_range(loc.lba, loc.span, false);
            proof {
                assert(shards@.take(s + 1) =~= shards@.take(s as int).push(shards@[s as int]));
                lemma_shard_blocks_push(shards@.take(s as int), shards@[s as int]);
                assert(self.free_set() =~= old(self).free_set().difference(
                    shard_blocks(shards@.take(s + 1)),
                ));
            }
            s = s + 1;
        }
        proof {
            assert(shards@.take(n as int) =~= shards@);
        }
        let m = Manifest { shards };
        proof {
            assert forall|a: int, b: int|
                0 <= a < b < m.shards@.len() implies (#[trigger] m.shards@[a]).block_set().disjoint(
                (#[trigger] m.shards@[b]).block_set()) by {
                assert forall|x: int| !(m.shards@[a].block_set().contains(x)
                    && m.shards@[b].block_set().contains(x)) by {}
            }
        }
        Ok(m)
    }

    /// Marks every shard's bits free again, shard by shard; on an
    /// out-of-bounds shard the earlier shards stay freed.
    fn release(&mut self, manifest: &Manifest) -> (r: RResult<()>)
        ensures
            final(self).cap() == old(self).cap(),
            r matches Err(e) ==> e == StoreError::OutOfBounds,
    {
        let n = manifest.shards.len();
        let mut s: usize = 0;
        proof {
            assert(shard_blocks(manifest.shards@.take(0)) =~= Set::<int>::empty());
            assert(self.free_set() =~= old(self).free_set().union(
                shard_blocks(manifest.shards@.take(0)),
            ));
        }
        while s < n
            invariant
                self.inv(),
                self.cap() == old(self).cap(),
                s <= n,
                n == manifest.shards@.len(),
                manifest.wf(),
                self.free_set() =~= old(self).free_set().union(
                    shard_blocks(manifest.shards@.take(s as int)),
                ),
                forall|a: int| 0 <= a < s ==> (#[trigger] manifest.shards@[a]).end() <= self.cap(),
            decreases n - s,
        {
            let loc = manifest.shards[s];
            proof {
                assert(manifest.shards@[s as int].addressable());
            }
            let res = FreeList::free(self, loc.span, loc.lba);
            match res {
                Ok(_) => {
                    proof {
                        assert(manifest.shards@.take(s + 1) =~= manifest.shards@.take(
                            s as int,
                        ).push(manifest.shards@[s as int]));
                        lemma_shard_blocks_push(
                            manifest.shards@.take(s as int),
                            manifest.shards@[s as int],
                        );
                        assert(self.free_set() =~= old(self).free_set().union(
                            shard_blocks(manifest.shards@.take(s + 1)),
                        ));
                    }
                },
                Err(e) => {
                    proof {
                        lemma_shard_blocks_take_subset(manifest.shards@, s as int);
                        assert(old(self).free_set().subset_of(self.free_set()));
                        assert(self.free_set().subset_of(
                            old(self).free_set().union(manifest.blocks()),
                        ));
                    }
                    return Err(e);
                },
            }
            s = s + 1;
        }
        proof {
            assert(manifest.shards@.take(n as int) =~= manifest.shards@);
        }
        Ok(())
    }

    /// Forcibly marks the region used.
    fn take(&mut self, span: u64, lba: u64) -> (r: RResult<()>)
        ensures
            final(self).cap() == old(self).cap(),
            r matches Err(e) ==> e == StoreError::OutOfBounds,
            r is Ok ==> forall|j: int|
                0 <= j < old(self).cap() ==> final(self).bits()[j] == (!(lba <= j < lba + span)
                    && old(self).bits()[j]),
            r is Err ==> final(self).bits() == old(self).bits(),
    {
        if lba + span > self.bitmap.capacity() as u64 {
            return Err(StoreError::OutOfBounds);
        }
        self.mark_range(lba, span, false);
        Ok(())
    }

    /// Forcibly marks the region free; already-free bits are silently
    /// overwritten.
    fn free(&mut self, span: u64, lba: u64) -> (r: RResult<()>)
        ensures
            final(self).cap() == old(self).cap(),
            r matches Err(e) ==> e == StoreError::OutOfBounds,
            r is Ok ==> forall|j: int|
                0 <= j < old(self).cap() ==> final(self).bits()[j] == (lba <= j < lba + span || old(
                    self,
                ).bits()[j]),
            r is Err ==> final(self).bits() == old(self).bits(),
    {
        if lba + span > self.bitmap.capacity() as u64 {
            return Err(StoreError::OutOfBounds);
        }
        self.mark_range(lba, span, true);
        Ok(())
    }
}

/// Take/free round trip: forcibly removing a region whose bits were all
/// free and then forcibly freeing the same region restores the bitmap
/// exactly, bit for bit. The hypotheses are what `take` and then `free`
/// ensure.
pub proof fn lemma_take_free_round_trip(
    bits0: Seq<bool>,
    bits1: Seq<bool>,
    bits2: Seq<bool>,
    lba: u64,
    span: u64,
)
    requires
        bits0.len() == bits1.len() == bits2.len(),
        forall|j: int| lba <= j < lba + span ==> 0 <= j < bits0.len() && #[trigger] bits0[j],
        forall|j: int|
            0 <= j < bits0.len() ==> #[trigger] bits1[j] == (!(lba <= j < lba + span) && bits0[j]),
        forall|j: int|
            0 <= j < bits1.len() ==> #[trigger] bits2[j] == (lba <= j < lba + span || bits1[j]),
    ensures
        bits2 =~= bits0,
{
}

} // verus!
