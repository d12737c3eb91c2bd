//! Keeps a linear commit chain and a timestamp-keyed patch archive in
//! agreement.
//!
//! The library holds the synchronization protocol itself: validating the
//! shape of an archive listing, validating the linearity of a commit chain,
//! and planning, position by position, how the shorter side is extended once
//! the overlapping prefix has been verified.  All interaction with the
//! underlying object store and the filesystem is left to the caller, which
//! hands in plain values and carries out the planned writes.

pub mod archive;
pub mod chain;
pub mod engine;
pub mod errors;
pub mod laws;
