//! Metadata persistence: the key store interface and an in-memory
//! implementation.

pub mod keystore;
pub mod mem_keystore;
