//! A fault-tolerant, sharded key-value store built on a replicated log.
//!
//! The crate holds the verified core of the system: the replication engine's
//! state machine (`raft`), the byte codec for its durable state (`persist`),
//! the request-id deduplication queue (`dedup`), the replicated state
//! machines for the plain key-value service (`kv`), the shard controller
//! (`ctrler`) and the sharded store (`shardkv`), the decision rules of the
//! service and client retry loops (`service`), and an offline
//! linearizability checker (`porcupine`).
//!
//! Networking, timers and file I/O live outside this crate; every function
//! here is a total computation on plain values, verified against its
//! contract.

pub mod ctrler;
pub mod dedup;
pub mod kv;
pub mod persist;
pub mod porcupine;
pub mod raft;
pub mod service;
pub mod shardkv;
pub mod strmap;
