//! A recycle-bin core: moving files into a holding directory is reversed
//! through an append-only relocation log. This crate holds the verified
//! logic — path canonicalization, the timestamp-suffixed entry naming
//! scheme, the log and its tie-breaking queries, and the engine's
//! decisions — over plain values; the filesystem itself is driven by an
//! unverified shell that feeds events in and carries actions out.

pub mod digits;
pub mod errors;
pub mod resolve;
pub mod binstore;
pub mod reloclog;
pub mod logfmt;
pub mod engine;
pub mod laws;
