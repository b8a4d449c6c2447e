//! A sharded key-value store with per-key embedding vectors: the verified core.
pub mod routing;
pub mod text;
pub mod value;
pub mod hnsw;
pub mod shard;
pub mod worker;
pub mod aof;
pub mod resp;
pub mod commands;
pub mod web;
pub mod laws;
pub mod rank;
pub mod replay;
