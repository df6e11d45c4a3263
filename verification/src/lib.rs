//! A small transaction-ledger library: a sharded key-value store backed by an
//! embedded storage engine, an entity codec that turns typed records into byte
//! payloads and storage keys, and a ledger service that validates transaction
//! transitions and folds their effects into per-client positions.

pub mod account_service;
pub mod client;
pub mod codec;
pub mod laws;
pub mod storage;
pub mod transaction;
