//! The block layer: the single-block device interface and the block store
//! that maps an object's manifest onto block reads and writes.

pub mod blockdevice;
pub mod blockstore;
