//! A verified store of named filesystem paths.
//!
//! The store keeps an ordered sequence of `(name, path)` entries, persisted
//! as UTF-8 text with one `name::path` line per entry. This crate holds the
//! parsing, serialization, lookup and mutation logic together with proofs of
//! its contracts; reading and writing the backing file is left to the caller.
//!
//! Known limitation: the store takes no lock on its backing file. If two
//! processes load, mutate and rewrite concurrently, the last rewrite wins
//! and the other's change is silently lost.
#![verifier::loop_isolation(false)]

pub mod codec;
pub mod entry;
pub mod errors;
pub mod store;
