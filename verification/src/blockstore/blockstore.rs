//! The block store: slices an object's bytes across the blocks its
//! manifest names (zero-padding the final partial block), and reassembles
//! exactly the object's bytes on read.

use vstd::prelude::*;

use crate::blockstore::blockdevice::BlockDevice;
use crate::object::span_total;
use crate::object::ManifestLocation;
use crate::object::ObjKey;
use crate::RResult;
use crate::StoreError;

verus! {

/// The fixed block size in bytes.
pub const BS4K: usize = 4096;

/// The `k`-th block-sized slice of a byte string, zero-padded past its end.
pub open spec fn chunk(data: Seq<u8>, k: int) -> Seq<u8> {
    Seq::new(
        BS4K as nat,
        |j: int|
            if k * (BS4K as int) + j < data.len() {
                data[k * (BS4K as int) + j]
            } else {
                0u8
            },
    )
}

/// The device address of the `g`-th block of a manifest, counting through
/// the shards in order.
pub open spec fn block_at(shards: Seq<ManifestLocation>, g: int) -> int
    decreases shards.len(),
{
    if shards.len() == 0 {
        0
    } else if g < shards[0].span {
        shards[0].lba + g
    } else {
        block_at(shards.drop_first(), g - shards[0].span)
    }
}

/// The bytes of `span` consecutive blocks starting at `lba`.
pub open spec fn extent_bytes(contents: Seq<Seq<u8>>, lba: int, span: int) -> Seq<u8>
    decreases span,
{
    if span <= 0 {
        Seq::empty()
    } else {
        contents[lba] + extent_bytes(contents, lba + 1, span - 1)
    }
}

/// The bytes of every block a manifest names, in shard order.
pub open spec fn manifest_bytes(contents: Seq<Seq<u8>>, shards: Seq<ManifestLocation>) -> Seq<u8>
    decreases shards.len(),
{
    if shards.len() == 0 {
        Seq::empty()
    } else {
        extent_bytes(contents, shards[0].lba as int, shards[0].span as int) + manifest_bytes(
            contents,
            shards.drop_first(),
        )
    }
}

/// The concatenation of chunks `a` to `b` of a byte string.
pub open spec fn chunks_range(data: Seq<u8>, a: int, b: int) -> Seq<u8>
    decreases b - a,
{
    if a >= b {
        Seq::empty()
    } else {
        chunk(data, a) + chunks_range(data, a + 1, b)
    }
}

/// A span total is never negative.
pub proof fn lemma_span_total_nonneg(shards: Seq<ManifestLocation>)
    ensures
        span_total(shards) >= 0,
    decreases shards.len(),
{
    if shards.len() > 0 {
        lemma_span_total_nonneg(shards.drop_first());
    }
}

/// The `g`-th manifest block, with `g` inside shard `s`, is that shard's
/// block at the right offset.
pub proof fn lemma_block_at_locate(shards: Seq<ManifestLocation>, s: int, n: int)
    requires
        0 <= s < shards.len(),
        0 <= n < shards[s].span,
    ensures
        block_at(shards, span_total(shards.take(s)) + n) == shards[s].lba + n,
        span_total(shards.take(s)) >= 0,
    decreases s,
{
    lemma_span_total_nonneg(shards.take(s));
    if s == 0 {
        assert(shards.take(0) =~= Seq::<ManifestLocation>::empty());
    } else {
        let rest = shards.drop_first();
        lemma_block_at_locate(rest, s - 1, n);
        assert(shards.take(s).drop_first() =~= rest.take(s - 1));
        assert(span_total(shards.take(s)) == shards[0].span + span_total(rest.take(s - 1)));
        assert(rest[s - 1] == shards[s]);
    }
}

/// The bytes of the blocks range `[a, b)` of a byte string, each block
/// holding its chunk, concatenate to the chunks of that range.
pub proof fn lemma_extent_reads_chunks(
    contents: Seq<Seq<u8>>,
    lba: int,
    span: int,
    data: Seq<u8>,
    g0: int,
)
    requires
        span >= 0,
        forall|n: int|
            0 <= n < span ==> #[trigger] contents[lba + n] == chunk(data, g0 + n),
    ensures
        extent_bytes(contents, lba, span) == chunks_range(data, g0, g0 + span),
    decreases span,
{
    if span > 0 {
        assert(contents[lba + 0] == chunk(data, g0 + 0));
        assert forall|n: int| 0 <= n < span - 1 implies #[trigger] contents[(lba + 1) + n] == chunk(
            data,
            (g0 + 1) + n,
        ) by {
            assert(contents[lba + (n + 1)] == chunk(data, g0 + (n + 1)));
        }
        lemma_extent_reads_chunks(contents, lba + 1, span - 1, data, g0 + 1);
    }
}

/// When every manifest block holds its chunk of a byte string, the
/// manifest's bytes are the chunks of the whole range.
pub proof fn lemma_manifest_reads_chunks(
    contents: Seq<Seq<u8>>,
    shards: Seq<ManifestLocation>,
    data: Seq<u8>,
    g0: int,
)
    requires
        forall|g: int|
            0 <= g < span_total(shards) ==> #[trigger] contents[block_at(shards, g)] == chunk(
                data,
                g0 + g,
            ),
    ensures
        manifest_bytes(contents, shards) == chunks_range(data, g0, g0 + span_total(shards)),
    decreases shards.len(),
{
    lemma_span_total_nonneg(shards);
    if shards.len() == 0 {
    } else {
        let head = shards[0];
        let rest = shards.drop_first();
        lemma_span_total_nonneg(rest);
        assert forall|n: int| 0 <= n < head.span implies #[trigger] contents[head.lba + n] == chunk(
            data,
            g0 + n,
        ) by {
            assert(block_at(shards, n) == head.lba + n);
            assert(contents[block_at(shards, n)] == chunk(data, g0 + n));
        }
        lemma_extent_reads_chunks(contents, head.lba as int, head.span as int, data, g0);
        assert forall|g: int|
            0 <= g < span_total(rest) implies #[trigger] contents[block_at(rest, g)] == chunk(
            data,
            (g0 + head.span) + g,
        ) by {
            assert(block_at(shards, head.span + g) == block_at(rest, g));
            assert(contents[block_at(shards, head.span + g)] == chunk(data, g0 + (head.span + g)));
        }
        lemma_manifest_reads_chunks(contents, rest, data, g0 + head.span);
        assert(chunks_range(data, g0, g0 + span_total(shards)) =~= chunks_range(
            data,
            g0,
            g0 + head.span,
        ) + chunks_range(data, g0 + head.span, g0 + span_total(shards))) by {
            lemma_chunks_range_cat(data, g0, g0 + head.span as int, g0 + span_total(shards));
        }
    }
}

/// Chunk ranges concatenate.
pub proof fn lemma_chunks_range_cat(data: Seq<u8>, a: int, m: int, b: int)
    requires
        a <= m <= b,
    ensures
        chunks_range(data, a, b) == chunks_range(data, a, m) + chunks_range(data, m, b),
    decreases m - a,
{
    if a == m {
        assert(chunks_range(data, a, b) =~= chunks_range(data, a, m) + chunks_range(data, m, b));
    } else {
        lemma_chunks_range_cat(data, a + 1, m, b);
        assert(chunks_range(data, a, b) =~= chunks_range(data, a, m) + chunks_range(data, m, b));
    }
}

/// The length and bytes of a chunk range: chunk `a + k` holds the bytes
/// from `(a + k) * BS4K`, zero-padded past the data's end.
pub proof fn lemma_chunks_range_index(data: Seq<u8>, a: int, b: int)
    requires
        a <= b,
    ensures
        chunks_range(data, a, b).len() == (b - a) * (BS4K as int),
        forall|m: int|
            0 <= m < (b - a) * (BS4K as int) ==> #[trigger] chunks_range(data, a, b)[m] == (if a * (
            BS4K as int) + m < data.len() {
                data[a * (BS4K as int) + m]
            } else {
                0u8
            }),
    decreases b - a,
{
    if a < b {
        lemma_chunks_range_index(data, a + 1, b);
        assert((b - a) * (BS4K as int) == (BS4K as int) + (b - (a + 1)) * (BS4K as int))
            by (nonlinear_arith);
        assert forall|m: int|
            0 <= m < (b - a) * (BS4K as int) implies #[trigger] chunks_range(data, a, b)[m] == (if a
            * (BS4K as int) + m < data.len() {
            data[a * (BS4K as int) + m]
        } else {
            0u8
        }) by {
            if m < BS4K {
                assert(chunks_range(data, a, b)[m] == chunk(data, a)[m]);
            } else {
                assert(chunks_range(data, a, b)[m] == chunks_range(data, a + 1, b)[m
                    - (BS4K as int)]);
                assert((a + 1) * (BS4K as int) + (m - (BS4K as int)) == a * (BS4K as int) + m)
                    by (nonlinear_arith);
            }
        }
    }
}

/// Round trip through the block layer: when every block a manifest names
/// holds its chunk of the written bytes, reading the manifest's blocks back
/// and truncating to the original length recovers the bytes exactly.
pub proof fn lemma_write_read_round_trip(
    contents: Seq<Seq<u8>>,
    shards: Seq<ManifestLocation>,
    data: Seq<u8>,
)
    requires
        data.len() <= span_total(shards) * (BS4K as int),
        forall|g: int|
            0 <= g < span_total(shards) ==> #[trigger] contents[block_at(shards, g)] == chunk(
                data,
                g,
            ),
    ensures
        manifest_bytes(contents, shards).take(data.len() as int) == data,
{
    lemma_span_total_nonneg(shards);
    lemma_manifest_reads_chunks(contents, shards, data, 0);
    lemma_chunks_range_index(data, 0, span_total(shards));
    assert(manifest_bytes(contents, shards).take(data.len() as int) =~= data);
}

/// Whole-object access over a block device: writes an object's bytes to
/// the blocks its manifest names, and reads them back.
pub trait BlockStore {
    /// The structural invariant of the store's state.
    spec fn inv(&self) -> bool;

    /// How many blocks the underlying device holds.
    spec fn store_block_count(&self) -> int;

    /// The bytes of every block of the underlying device.
    spec fn store_contents(&self) -> Seq<Seq<u8>>;

    /// Writes `data` across the blocks of `key.manifest`, in shard order,
    /// slicing sequentially and zero-padding the final partial block. On
    /// failure, some prefix of the manifest's blocks has been written and
    /// every block outside the manifest is untouched.
    fn write(&mut self, data: &[u8], key: &ObjKey) -> (r: RResult<()>)
        requires
            old(self).inv(),
            key.manifest.wf(),
            data@.len() <= key.manifest.total_span() * (BS4K as int),
        ensures
            final(self).inv(),
            final(self).store_block_count() == old(self).store_block_count(),
            r is Ok ==> forall|g: int|
                0 <= g < key.manifest.total_span() ==> 0 <= #[trigger] block_at(
                    key.manifest.shards@,
                    g,
                ) < old(self).store_block_count(),
            r is Ok ==> forall|g: int|
                0 <= g < key.manifest.total_span() ==> final(self).store_contents()[#[trigger] block_at(
                    key.manifest.shards@,
                    g,
                )] == chunk(data@, g),
            forall|b: int|
                0 <= b < old(self).store_block_count() && !key.manifest.blocks().contains(b)
                    ==> #[trigger] final(self).store_contents()[b] == old(
                    self,
                ).store_contents()[b],
            r matches Err(e) ==> e == StoreError::IoError,
    ;

    /// Reads the manifest's blocks in shard order into `data`, truncated to
    /// exactly `key.size` bytes.
    fn read(&mut self, data: &mut Vec<u8>, key: &ObjKey) -> (r: RResult<()>)
        requires
            old(self).inv(),
            key.manifest.wf(),
            old(data)@.len() == 0,
            key.size <= key.manifest.total_span() * (BS4K as int),
        ensures
            final(self).inv(),
            final(self).store_block_count() == old(self).store_block_count(),
            final(self).store_contents() == old(self).store_contents(),
            r is Ok ==> final(data)@ == manifest_bytes(
                old(self).store_contents(),
                key.manifest.shards@,
            ).take(key.size as int),
            r matches Err(e) ==> e == StoreError::IoError,
    ;
}

/// A block store over a single device.
#[derive(Debug)]
pub struct SingleDeviceBlockStore<D: BlockDevice> {
    pub device: D,
}

impl<D: BlockDevice> SingleDeviceBlockStore<D> {
    /// Wraps one device as a block store.
    pub fn new(device: D) -> (s: Self)
        ensures
            s.device == device,
    {
        SingleDeviceBlockStore { device }
    }
}

impl<D: BlockDevice> BlockStore for SingleDeviceBlockStore<D> {
    open spec fn inv(&self) -> bool {
        self.device.inv()
    }

    open spec fn store_block_count(&self) -> int {
        self.device.block_count()
    }

    open spec fn store_contents(&self) -> Seq<Seq<u8>> {
        self.device.contents()
    }

    fn write(&mut self, data: &[u8], key: &ObjKey) -> (r: RResult<()>) {
        let nshards = key.manifest.shards.len();
        let mut s: usize = 0;
        let mut consumed: usize = 0;
        let ghost shards = key.manifest.shards@;
        let ghost mut g: int = 0;
        proof {
            assert(shards.take(0) =~= Seq::<ManifestLocation>::empty());
        }
        while s < nshards
            invariant
                self.inv(),
                self.store_block_count() == old(self).store_block_count(),
                key.manifest.wf(),
                data@.len() <= key.manifest.total_span() * (BS4K as int),
                shards == key.manifest.shards@,
                s <= nshards,
                nshards == shards.len(),
                g == span_total(shards.take(s as int)),
                g >= 0,
                consumed == (if g * (BS4K as int) <= data@.len() {
                    g * (BS4K as int)
                } else {
                    data@.len() as int
                }),
                forall|gp: int|
                    0 <= gp < g ==> 0 <= #[trigger] block_at(shards, gp) < old(
                        self,
                    ).store_block_count(),
                forall|gp: int|
                    0 <= gp < g ==> self.store_contents()[#[trigger] block_at(shards, gp)] == chunk(
                        data@,
                        gp,
                    ),
                forall|b: int|
                    0 <= b < old(self).store_block_count() && !key.manifest.blocks().contains(b)
                        ==> #[trigger] self.store_contents()[b] == old(self).store_contents()[b],
            decreases nshards - s,
        {
            let loc = key.manifest.shards[s];
            let span = loc.span;
            let mut n: u64 = 0;
            proof {
                assert(shards.take(s + 1) =~= shards.take(s as int).push(shards[s as int]));
                crate::object::lemma_span_total_push(shards.take(s as int), shards[s as int]);
                lemma_span_total_nonneg(shards);
                assert(span_total(shards.take(s + 1)) <= span_total(shards)) by {
                    lemma_span_total_take_le(shards, s + 1);
                }
            }
            while n < span
                invariant
                    self.inv(),
                    self.store_block_count() == old(self).store_block_count(),
                    key.manifest.wf(),
                    data@.len() <= key.manifest.total_span() * (BS4K as int),
                    shards == key.manifest.shards@,
                    s < shards.len(),
                    loc == shards[s as int],
                    span == loc.span,
                    n <= span,
                    g == span_total(shards.take(s as int)) + n,
                    g >= 0,
                    g + (span - n) <= span_total(shards),
                    consumed == (if g * (BS4K as int) <= data@.len() {
                        g * (BS4K as int)
                    } else {
                        data@.len() as int
                    }),
                    forall|gp: int|
                        0 <= gp < g ==> 0 <= #[trigger] block_at(shards, gp) < old(
                            self,
                        ).store_block_count(),
                    forall|gp: int|
                        0 <= gp < g ==> self.store_contents()[#[trigger] block_at(shards, gp)]
                            == chunk(data@, gp),
                    forall|b: int|
                        0 <= b < old(self).store_block_count() && !key.manifest.blocks().contains(
                            b,
                        ) ==> #[trigger] self.store_contents()[b] == old(self).store_contents()[b],
                decreases span - n,
            {
                // assemble the block: the next BS4K data bytes, zero-padded
                let mut buf: Vec<u8> = Vec::new();
                let mut j: usize = 0;
                let ghost consumed0 = consumed as int;
                while j < BS4K
                    invariant
                        j <= BS4K,
                        buf@.len() == j,
                        consumed0 == (if g * (BS4K as int) <= data@.len() {
                            g * (BS4K as int)
                        } else {
                            data@.len() as int
                        }),
                        g >= 0,
                        consumed == (if consumed0 + j <= data@.len() {
                            consumed0 + j
                        } else {
                            data@.len() as int
                        }),
                        consumed <= data@.len(),
                        forall|jj: int|
                            0 <= jj < j ==> #[trigger] buf@[jj] == (if g * (BS4K as int) + jj
                                < data@.len() {
                                data@[g * (BS4K as int) + jj]
                            } else {
                                0u8
                            }),
                    decreases BS4K - j,
                {
                    proof {
                        assert(g * (BS4K as int) >= 0) by (nonlinear_arith)
                            requires
                                g >= 0,
                        ;
                    }
                    if consumed < data.len() {
                        buf.push(data[consumed]);
                        consumed = consumed + 1;
                    } else {
                        buf.push(0u8);
                    }
                    j = j + 1;
                }
                proof {
                    assert(buf@ =~= chunk(data@, g));
                    lemma_block_at_locate(shards, s as int, n as int);
                }
                let lba = loc.lba + n;
                let ghost pre_contents = self.store_contents();
                let res = self.device.write_block(lba, buf.as_slice());
                if let Err(e) = res {
                    return Err(e);
                }
                proof {
                    // the block just written is the g-th manifest block
                    crate::object::lemma_shard_blocks_iff(shards);
                    assert(shards[s as int].block_set().contains(lba as int));
                    assert(key.manifest.blocks().contains(lba as int));
                    assert(block_at(shards, g) == lba);
                    assert forall|gp: int| 0 <= gp < g + 1 implies 0 <= #[trigger] block_at(
                        shards,
                        gp,
                    ) < old(self).store_block_count() by {
                        if gp == g {
                            assert(block_at(shards, g) == lba);
                        }
                    }
                    assert(pre_contents.len() == old(self).store_block_count());
                    assert(lba < old(self).store_block_count());
                    assert(self.store_contents() == pre_contents.update(lba as int, buf@));
                    assert forall|gp: int|
                        0 <= gp < g + 1 implies self.store_contents()[#[trigger] block_at(
                        shards,
                        gp,
                    )] == chunk(data@, gp) by {
                        if gp < g {
                            lemma_distinct_blocks(shards, gp, g);
                            assert(block_at(shards, gp) != lba);
                            assert(self.store_contents()[block_at(shards, gp)]
                                == pre_contents[block_at(shards, gp)]);
                        } else {
                            assert(block_at(shards, g) == lba);
                            assert(self.store_contents()[lba as int] == buf@);
                        }
                    }
                    assert forall|b: int|
                        0 <= b < old(self).store_block_count()
                            && !key.manifest.blocks().contains(b) implies #[trigger] self.store_contents()[b]
                        == old(self).store_contents()[b] by {
                        assert(b != lba);
                        assert(self.store_contents()[b] == pre_contents[b]);
                    }
                    // the consumed counter stays in step
                    assert((g + 1) * (BS4K as int) == g * (BS4K as int) + (BS4K as int))
                        by (nonlinear_arith);
                    g = g + 1;
                }
                n = n + 1;
            }
            proof {
                assert(shards.take(s + 1) =~= shards.take(s as int).push(shards[s as int]));
                crate::object::lemma_span_total_push(shards.take(s as int), shards[s as int]);
            }
            s = s + 1;
        }
        proof {
            assert(shards.take(nshards as int) =~= shards);
        }
        Ok(())
    }

    fn read(&mut self, data: &mut Vec<u8>, key: &ObjKey) -> (r: RResult<()>) {
        let nshards = key.manifest.shards.len();
        let mut s: usize = 0;
        let ghost shards = key.manifest.shards@;
        let ghost contents = self.store_contents();
        proof {
            assert(shards.take(0) =~= Seq::<ManifestLocation>::empty());
            assert(data@ =~= manifest_bytes(contents, shards.take(0)));
        }
        while s < nshards
            invariant
                self.inv(),
                self.store_block_count() == old(self).store_block_count(),
                self.store_contents() == old(self).store_contents(),
                contents == old(self).store_contents(),
                key.manifest.wf(),
                shards == key.manifest.shards@,
                s <= nshards,
                nshards == shards.len(),
                data@ == manifest_bytes(contents, shards.take(s as int)),
                data@.len() == span_total(shards.take(s as int)) * (BS4K as int),
                span_total(shards.take(s as int)) >= 0,
            decreases nshards - s,
        {
            let loc = key.manifest.shards[s];
            let span = loc.span;
            let mut n: u64 = 0;
            while n < span
                invariant
                    self.inv(),
                    self.store_block_count() == old(self).store_block_count(),
                    self.store_contents() == old(self).store_contents(),
                    contents == old(self).store_contents(),
                    key.manifest.wf(),
                    shards == key.manifest.shards@,
                    s < shards.len(),
                    loc == shards[s as int],
                    span == loc.span,
                    n <= span,
                    data@ == manifest_bytes(contents, shards.take(s as int)) + extent_bytes(
                        contents,
                        loc.lba as int,
                        n as int,
                    ),
                    data@.len() == (span_total(shards.take(s as int)) + n) * (BS4K as int),
                    span_total(shards.take(s as int)) >= 0,
                decreases span - n,
            {
                let lba = loc.lba + n;
                let blk = match self.device.read_block(lba) {
                    Ok(blk) => blk,
                    Err(e) => {
                        return Err(e);
                    },
                };
                let ghost data0 = data@;
                let mut j: usize = 0;
                let blen = blk.len();
                while j < blen
                    invariant
                        j <= blen,
                        blen == blk@.len(),
                        data@ == data0 + blk@.take(j as int),
                    decreases blen - j,
                {
                    let b = blk[j];
                    data.push(b);
                    proof {
                        assert(data@ =~= data0 + blk@.take(j + 1));
                    }
                    j = j + 1;
                }
                proof {
                    assert(blk@.take(blk@.len() as int) =~= blk@);
                    assert(blk@.len() == BS4K);
                    lemma_extent_bytes_snoc(contents, loc.lba as int, n as int);
                    assert(data@ =~= manifest_bytes(contents, shards.take(s as int)) + extent_bytes(
                        contents,
                        loc.lba as int,
                        n + 1,
                    ));
                    assert((span_total(shards.take(s as int)) + (n + 1)) * (BS4K as int)
                        == (span_total(shards.take(s as int)) + n) * (BS4K as int) + (BS4K as int))
                        by (nonlinear_arith);
                }
                n = n + 1;
            }
            proof {
                assert(shards.take(s + 1) =~= shards.take(s as int).push(shards[s as int]));
                lemma_manifest_bytes_push(contents, shards.take(s as int), shards[s as int]);
                crate::object::lemma_span_total_push(shards.take(s as int), shards[s as int]);
            }
            s = s + 1;
        }
        proof {
            assert(shards.take(nshards as int) =~= shards);
            assert(key.size <= data@.len());
        }
        let size = key.size as usize;
        data.truncate(size);
        proof {
            assert(data@ =~= manifest_bytes(contents, shards).take(key.size as int));
        }
        Ok(())
    }
}

/// A prefix's span total never exceeds the whole sequence's.
pub proof fn lemma_span_total_take_le(shards: Seq<ManifestLocation>, k: int)
    requires
        0 <= k <= shards.len(),
    ensures
        span_total(shards.take(k)) <= span_total(shards),
    decreases shards.len() - k,
{
    if k == shards.len() {
        assert(shards.take(k) =~= shards);
    } else {
        assert(shards.take(k + 1) =~= shards.take(k).push(shards[k]));
        crate::object::lemma_span_total_push(shards.take(k), shards[k]);
        lemma_span_total_take_le(shards, k + 1);
    }
}

/// Distinct manifest positions name distinct device blocks, when the
/// shards are mutually disjoint.
proof fn lemma_distinct_blocks(shards: Seq<ManifestLocation>, g1: int, g2: int)
    requires
        forall|i: int, j: int|
            0 <= i < j < shards.len() ==> (#[trigger] shards[i]).block_set().disjoint(
                (#[trigger] shards[j]).block_set(),
            ),
        0 <= g1 < span_total(shards),
        0 <= g2 < span_total(shards),
        g1 != g2,
    ensures
        block_at(shards, g1) != block_at(shards, g2),
    decreases shards.len(),
{
    lemma_span_total_nonneg(shards.drop_first());
    let head = shards[0];
    let rest = shards.drop_first();
    if g1 < head.span && g2 < head.span {
    } else if g1 >= head.span && g2 >= head.span {
        assert forall|i: int, j: int|
            0 <= i < j < rest.len() implies (#[trigger] rest[i]).block_set().disjoint(
            (#[trigger] rest[j]).block_set(),
        ) by {
            assert(shards[i + 1].block_set().disjoint(shards[j + 1].block_set()));
        }
        lemma_distinct_blocks(rest, g1 - head.span, g2 - head.span);
    } else {
        let (ga, gb) = if g1 < head.span {
            (g1, g2)
        } else {
            (g2, g1)
        };
        assert(block_at(shards, ga) == head.lba + ga);
        assert(head.block_set().contains(head.lba + ga));
        lemma_block_in_rest(rest, gb - head.span);
        let k = lemma_block_in_rest_idx(rest, gb - head.span);
        assert(shards[k + 1].block_set().contains(block_at(rest, gb - head.span)));
        assert(head.block_set().disjoint(shards[k + 1].block_set()));
    }
}

/// The `g`-th block of a shard sequence lies in some shard's block set.
proof fn lemma_block_in_rest(shards: Seq<ManifestLocation>, g: int)
    requires
        0 <= g < span_total(shards),
    ensures
        exists|k: int|
            0 <= k < shards.len() && (#[trigger] shards[k]).block_set().contains(
                block_at(shards, g),
            ),
    decreases shards.len(),
{
    lemma_span_total_nonneg(shards.drop_first());
    if shards.len() > 0 {
        if g < shards[0].span {
            assert(shards[0].block_set().contains(block_at(shards, g)));
        } else {
            lemma_block_in_rest(shards.drop_first(), g - shards[0].span);
            let k = choose|k: int|
                0 <= k < shards.drop_first().len() && (
                #[trigger] shards.drop_first()[k]).block_set().contains(
                    block_at(shards.drop_first(), g - shards[0].span),
                );
            assert(shards[k + 1].block_set().contains(block_at(shards, g)));
        }
    }
}

/// The index of a shard whose block set holds the `g`-th block.
proof fn lemma_block_in_rest_idx(shards: Seq<ManifestLocation>, g: int) -> (k: int)
    requires
        0 <= g < span_total(shards),
    ensures
        0 <= k < shards.len(),
        shards[k].block_set().contains(block_at(shards, g)),
{
    lemma_block_in_rest(shards, g);
    choose|k: int|
        0 <= k < shards.len() && (#[trigger] shards[k]).block_set().contains(block_at(shards, g))
}

/// Reading one more block extends an extent's bytes by that block.
pub proof fn lemma_extent_bytes_snoc(contents: Seq<Seq<u8>>, lba: int, n: int)
    requires
        n >= 0,
    ensures
        extent_bytes(contents, lba, n + 1) == extent_bytes(contents, lba, n) + contents[lba + n],
    decreases n,
{
    assert(extent_bytes(contents, lba, n + 1) == contents[lba] + extent_bytes(
        contents,
        lba + 1,
        n,
    ));
    if n == 0 {
        assert(extent_bytes(contents, lba + 1, 0) =~= Seq::<u8>::empty());
        assert(extent_bytes(contents, lba, 0) =~= Seq::<u8>::empty());
        assert(extent_bytes(contents, lba, 1) =~= extent_bytes(contents, lba, 0) + contents[lba]);
    } else {
        lemma_extent_bytes_snoc(contents, lba + 1, n - 1);
        assert(extent_bytes(contents, lba, n) == contents[lba] + extent_bytes(
            contents,
            lba + 1,
            n - 1,
        ));
        assert(extent_bytes(contents, lba, n + 1) =~= extent_bytes(contents, lba, n)
            + contents[lba + n]);
    }
}

/// Appending a shard extends the manifest's bytes by the shard's bytes.
pub proof fn lemma_manifest_bytes_push(
    contents: Seq<Seq<u8>>,
    shards: Seq<ManifestLocation>,
    x: ManifestLocation,
)
    ensures
        manifest_bytes(contents, shards.push(x)) == manifest_bytes(contents, shards)
            + extent_bytes(contents, x.lba as int, x.span as int),
    decreases shards.len(),
{
    let t = shards.push(x);
    assert(t[0] == if shards.len() == 0 {
        x
    } else {
        shards[0]
    });
    assert(manifest_bytes(contents, t) == extent_bytes(contents, t[0].lba as int, t[0].span as int)
        + manifest_bytes(contents, t.drop_first()));
    if shards.len() == 0 {
        assert(t.drop_first() =~= Seq::<ManifestLocation>::empty());
        assert(manifest_bytes(contents, t.drop_first()) == Seq::<u8>::empty());
        assert(manifest_bytes(contents, shards) == Seq::<u8>::empty());
        assert(manifest_bytes(contents, t) =~= manifest_bytes(contents, shards) + extent_bytes(
            contents,
            x.lba as int,
            x.span as int,
        ));
    } else {
        assert(t.drop_first() =~= shards.drop_first().push(x));
        lemma_manifest_bytes_push(contents, shards.drop_first(), x);
        assert(manifest_bytes(contents, shards) == extent_bytes(
            contents,
            shards[0].lba as int,
            shards[0].span as int,
        ) + manifest_bytes(contents, shards.drop_first()));
        assert(manifest_bytes(contents, t) =~= manifest_bytes(contents, shards) + extent_bytes(
            contents,
            x.lba as int,
            x.span as int,
        ));
    }
}

} // verus!
