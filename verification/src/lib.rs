//! A sharded key-value store core: a consistent-hash ring that assigns keys
//! to owning and replica nodes, a write-ahead log with a checksummed,
//! replayable line format, and the decision logic of the replication
//! coordinator, the request handlers and the health tracker.

pub mod text;
pub mod ring;
pub mod hashring;
pub mod storage;
pub mod routes_resp;
pub mod wal_format;
pub mod wal;
pub mod replication;
pub mod routes;
pub mod config;
pub mod gprotocol;
pub mod auth;
