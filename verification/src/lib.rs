//! A replicated key-value store core: RESP wire codec, client command
//! parsing, the replicated command model with its stable byte encoding,
//! and the request/reply bookkeeping of the sync layer.

pub mod bytes;
pub mod cli;
pub mod connection;
pub mod cmd;
pub mod resp;
pub mod storage;
pub mod sync_layer;
