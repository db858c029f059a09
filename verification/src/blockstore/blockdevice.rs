//! The single-block device interface: a random-access medium read and
//! written one whole block at a time, and an in-memory implementation.

use vstd::prelude::*;

use crate::blockstore::blockstore::BS4K;
use crate::RResult;
use crate::StoreError;

verus! {

/// A fixed-block random-access device: `read_block` and `write_block`
/// operate on exactly `BS4K` bytes at block address `lba`, atomically. An
/// out-of-range address is an `IoError`; an in-range operation may still
/// fail, and a failed operation changes nothing.
pub trait BlockDevice {
    /// The structural invariant of the device state. The default, for
    /// outside devices no proof reaches into, models an empty device.
    open spec fn inv(&self) -> bool {
        true
    }

    /// How many blocks the device holds.
    open spec fn block_count(&self) -> int {
        0
    }

    /// The bytes of every block.
    open spec fn contents(&self) -> Seq<Seq<u8>> {
        Seq::empty()
    }

    /// Writes one whole block.
    fn write_block(&mut self, lba: u64, data: &[u8]) -> (r: RResult<()>)
        requires
            old(self).inv(),
            data@.len() == BS4K,
        ensures
            final(self).inv(),
            final(self).block_count() == old(self).block_count(),
            old(self).contents().len() == old(self).block_count(),
            final(self).contents().len() == final(self).block_count(),
            r is Ok ==> lba < old(self).block_count() && final(self).contents() == old(
                self,
            ).contents().update(lba as int, data@),
            r is Err ==> final(self).contents() == old(self).contents(),
            r matches Err(e) ==> e == StoreError::IoError,
            lba >= old(self).block_count() ==> r is Err,
    ;

    /// Reads one whole block.
    fn read_block(&mut self, lba: u64) -> (r: RResult<Vec<u8>>)
        requires
            old(self).inv(),
        ensures
            final(self).inv(),
            final(self).block_count() == old(self).block_count(),
            final(self).contents() == old(self).contents(),
            old(self).contents().len() == old(self).block_count(),
            r matches Ok(data) ==> lba < old(self).block_count() && data@ == old(
                self,
            ).contents()[lba as int] && data@.len() == BS4K,
            r matches Err(e) ==> e == StoreError::IoError,
            lba >= old(self).block_count() ==> r is Err,
    ;
}

/// An in-memory block device: one buffer per block. An operation succeeds
/// exactly when its address is in range.
#[derive(Debug)]
pub struct MemBlockDevice {
    blocks: Vec<Vec<u8>>,
}

impl MemBlockDevice {
    /// A fresh device of `block_count` blocks, all zero.
    pub fn new(block_count: usize) -> (d: MemBlockDevice)
        ensures
            d.inv(),
            d.block_count() == block_count,
            forall|i: int, j: int|
                0 <= i < block_count && 0 <= j < BS4K ==> #[trigger] d.contents()[i][j] == 0u8,
    {
        let mut blocks: Vec<Vec<u8>> = Vec::new();
        let mut i: usize = 0;
        while i < block_count
            invariant
                i <= block_count,
                blocks@.len() == i,
                forall|k: int| 0 <= k < i ==> (#[trigger] blocks@[k])@.len() == BS4K,
                forall|k: int, j: int|
                    0 <= k < i && 0 <= j < BS4K ==> #[trigger] blocks@[k]@[j] == 0u8,
            decreases block_count - i,
        {
            let blk: Vec<u8> = vec![0u8; BS4K];
            blocks.push(blk);
            i = i + 1;
        }
        MemBlockDevice { blocks }
    }
}

impl BlockDevice for MemBlockDevice {
    /// Every block buffer holds exactly one block.
    closed spec fn inv(&self) -> bool {
        forall|i: int| 0 <= i < self.blocks@.len() ==> (#[trigger] self.blocks@[i])@.len() == BS4K
    }

    closed spec fn block_count(&self) -> int {
        self.blocks@.len() as int
    }

    closed spec fn contents(&self) -> Seq<Seq<u8>> {
        self.blocks@.map_values(|b: Vec<u8>| b@)
    }

    fn write_block(&mut self, lba: u64, data: &[u8]) -> (r: RResult<()>)
        ensures
            r is Ok <==> lba < old(self).block_count(),
    {
        if lba >= self.blocks.len() as u64 {
            return Err(StoreError::IoError);
        }
        let idx = lba as usize;
        let mut blk: Vec<u8> = Vec::new();
        let mut j: usize = 0;
        while j < data.len()
            invariant
                j <= data@.len(),
                blk@ == data@.take(j as int),
            decreases data@.len() - j,
        {
            blk.push(data[j]);
            proof {
                assert(blk@ =~= data@.take(j + 1));
            }
            j = j + 1;
        }
        proof {
            assert(blk@ =~= data@);
        }
        self.blocks[idx] = blk;
        proof {
            assert(self.contents() =~= old(self).contents().update(lba as int, data@));
        }
        Ok(())
    }

    fn read_block(&mut self, lba: u64) -> (r: RResult<Vec<u8>>)
        ensures
            r is Ok <==> lba < old(self).block_count(),
    {
        if lba >= self.blocks.len() as u64 {
            return Err(StoreError::IoError);
        }
        let idx = lba as usize;
        let mut out: Vec<u8> = Vec::new();
        let n = self.blocks[idx].len();
        let mut j: usize = 0;
        while j < n
            invariant
                idx < self.blocks@.len(),
                n == self.blocks@[idx as int]@.len(),
                j <= n,
                out@ == self.blocks@[idx as int]@.take(j as int),
                *self == *old(self),
            decreases n - j,
        {
            let b = self.blocks[idx][j];
            out.push(b);
            proof {
                assert(out@ =~= self.blocks@[idx as int]@.take(j + 1));
            }
            j = j + 1;
        }
        proof {
            assert(out@ =~= self.blocks@[idx as int]@);
            assert(self.contents()[lba as int] == self.blocks@[idx as int]@);
        }
        Ok(out)
    }
}

} // verus!
