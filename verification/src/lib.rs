//! A content-addressed object store over a fixed-block device.
//!
//! Objects are variable-length byte strings placed onto extents of a block
//! address space. A free-space allocator tracks which extents are unused
//! (two strategies: a bitmap scanner and an address/size-indexed extent
//! list), a block mapper translates an object's manifest into single-block
//! reads and writes, and an object store composes allocation, block I/O and
//! metadata persistence into put/get/delete with startup reconciliation.

pub mod blockstore;
pub mod freelist;
pub mod keygen;
pub mod keystore;
pub mod object;
pub mod objstore;

use vstd::prelude::*;

verus! {

/// The closed set of failures that any component reports to its caller.
/// Every component-level failure maps onto exactly one kind; nothing is
/// swallowed or retried.
#[derive(Clone, Copy, Debug, PartialEq, Eq, Structural)]
pub enum StoreError {
    /// The allocator cannot satisfy a request.
    NoSpace,
    /// A forced removal targets a region not fully covered by one free extent.
    RegionNotFree,
    /// A forced release targets a region that is already (partially) free.
    OverlapOrDoubleFree,
    /// An address/span pair exceeds the device capacity.
    OutOfBounds,
    /// An unknown object id on get or delete.
    NotFound,
    /// An underlying block-device failure, propagated without retry.
    IoError,
}

/// Result alias used across all components.
pub type RResult<T> = Result<T, StoreError>;

impl StoreError {
    /// The fixed description of each error kind.
    pub open spec fn message_spec(self) -> Seq<char> {
        match self {
            StoreError::NoSpace => "could not allocate"@,
            StoreError::RegionNotFree => "region is not covered by one free extent"@,
            StoreError::OverlapOrDoubleFree => "region is already free"@,
            StoreError::OutOfBounds => "address is out of bounds"@,
            StoreError::NotFound => "no such object"@,
            StoreError::IoError => "block device failure"@,
        }
    }

    /// A human-readable description of the error kind.
    pub fn message(&self) -> (r: &'static str)
        ensures
            r@ == self.message_spec(),
    {
        match self {
            StoreError::NoSpace => "could not allocate",
            StoreError::RegionNotFree => "region is not covered by one free extent",
            StoreError::OverlapOrDoubleFree => "region is already free",
            StoreError::OutOfBounds => "address is out of bounds",
            StoreError::NotFound => "no such object",
            StoreError::IoError => "block device failure",
        }
    }
}

/// An error that carries a free-form message, for callers that only report.
pub struct GeneralError {
    msg: String,
}

impl GeneralError {
    /// The carried message, as a mathematical value.
    pub closed spec fn msg_spec(&self) -> Seq<char> {
        self.msg@
    }

    /// Wraps a message as an `Err`, the shape every caller wants it in.
    pub fn new(msg: &str) -> (r: Result<(), GeneralError>)
        ensures
            r matches Err(e) && e.msg_spec() == msg@,
    {
        Err(GeneralError { msg: msg.to_owned() })
    }

    /// Wraps an error kind's description as an `Err`.
    pub fn from(err: StoreError) -> (r: Result<(), GeneralError>)
        ensures
            r matches Err(e) && e.msg_spec() == err.message_spec(),
    {
        GeneralError::new(err.message())
    }

    /// The carried message.
    pub fn text(&self) -> (r: &String)
        ensures
            r@ == self.msg_spec(),
    {
        &self.msg
    }
}

} // verus!
