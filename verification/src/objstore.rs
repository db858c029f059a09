//! The orchestrator: composes a freelist, a block store, a key generator
//! and a metadata store into put/get/delete and startup reconciliation.

pub mod objstore;
