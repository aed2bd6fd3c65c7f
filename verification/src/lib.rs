//! A Byzantine fault tolerant consensus engine with a log-structured key-value
//! store, verified with Verus.
//!
//! Bytes: `octets`, `order`, `text`. Messages: `types`, `codec`, `encode`,
//! `decode`, `roundtrip`, `layout`, `hash`. Signatures: `crypto`. The store: `wal`,
//! `sorted`, `memtable`, `sstable`, `naming`, `storage`, and what it promises in
//! `durability`. Consensus: `votes`, `pacemaker`, `pending`, `protocol`,
//! `engine`, `cluster`, and what it promises in `safety`, `agreement`, `conduct`
//! and `replication`. The network and its clients: `network`, `client`.
pub mod octets;
pub mod order;
pub mod text;

pub mod types;
pub mod codec;
pub mod encode;
pub mod decode;
pub mod roundtrip;
pub mod layout;
pub mod hash;

pub mod crypto;

pub mod wal;
pub mod sorted;
pub mod memtable;
pub mod sstable;
pub mod naming;
pub mod storage;
pub mod durability;

pub mod votes;
pub mod pacemaker;
pub mod pending;
pub mod protocol;
pub mod engine;
pub mod cluster;
pub mod safety;
pub mod agreement;
pub mod conduct;
pub mod replication;

pub mod network;
pub mod client;
