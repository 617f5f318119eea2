//! State persistence and verifiable remote queries for deterministic
//! state-machine applications.
//!
//! The library is organised in layers. At the bottom, [`lex`] fixes the
//! byte-lexicographic order that every store sorts its keys by, and
//! [`codec`] gives keys and values canonical byte encodings whose byte
//! order is the keys' own order. [`store`] is the storage interface —
//! ordered read, successor queries, and mutation as separate capabilities —
//! with a verified in-memory implementation, and [`backing`] closes the
//! concrete implementations into one variant type, including the read-only
//! store rebuilt from a verified proof. On top of the raw bytes, [`kv`] and
//! [`entry_map`] give typed, ordered collections with range iteration, and
//! [`machine`] runs state-machine steps atomically through a buffered
//! overlay. [`client`] is the verified side of the remote-query protocol:
//! it turns an untrusted query response and the proof-verification
//! oracle's outcome into a trusted, typed application snapshot, and
//! [`plugin`] routes queries, calls and raw key reads against such a
//! snapshot.
//!
//! Every function in this crate is verified; the network transport and the
//! Merkle-proof verification oracle stay outside it and hand in plain
//! values.

pub mod error;
pub mod lex;
pub mod codec;
pub mod store;
pub mod backing;
pub mod kv;
pub mod entry_map;
pub mod machine;
pub mod state;
pub mod plugin;
pub mod client;
pub mod params;
pub mod records;
