//! An in-memory key-value cache: a binary command codec, a store engine with
//! TTL expiration and LRU-bounded eviction, and a facade that counts commands.
//!
//! The store engine is single-threaded by design; callers serialize access to
//! it (the facade takes `&mut self`, so exclusiveness is enforced by the
//! borrow rules; a server wraps it in a lock of its choosing).

pub mod commands;
pub mod numbers;
pub mod glob;
pub mod datastore;
pub mod cache;
