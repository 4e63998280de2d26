//! Synchronizes a game client's typed settings between a platform key-value
//! store and a portable structured text file.
//!
//! The heart of the crate is a bidirectional codec: raw `(name, bytes)` pairs
//! from the store are decoded into a closed set of typed values whose kind is
//! embedded in the raw name, and staged updates are encoded back.  Around it
//! sit filter predicates that select subsets of settings for export, and a
//! text codec that renders a store snapshot to a sorted, diff-friendly
//! document and parses such a document back into store updates.
//!
//! Floating-point settings are carried everywhere as their IEEE 754 bit
//! patterns (`u64`); only the conversion between a bit pattern and its
//! decimal text happens outside this crate, at the file boundary.

pub mod battlebit;
pub mod filters;
pub mod strutil;
pub mod toml;
