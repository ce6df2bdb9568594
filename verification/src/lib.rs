//! A revisioned in-memory document store for wiki-style content items,
//! with conditional reads, canonical JSON snapshots, and a
//! last-writer-wins synchronization protocol against a remote snapshot
//! store.
//!
//! Every item carries its own revision counter, and the store carries a
//! global revision ordinal that moves up by exactly one on every
//! mutation. The global ordinal drives both collection-level cache
//! validation and the conflict rule: a whole store replaces another
//! exactly when its ordinal is strictly newer.

pub mod codec;
pub mod cond;
pub mod json;
pub mod redirect;
pub mod request;
pub mod store;
pub mod strutil;
pub mod sync;
