//! The failure taxonomy of the synchronization protocol.
//!
//! Every violation is fatal to a run: the caller is expected to stop at the
//! first error and write nothing further.

use vstd::prelude::*;

verus! {

/// A fatal violation found while validating or synchronizing the two
/// representations of the history.
#[derive(Clone, Copy, Debug, PartialEq, Eq, Structural)]
pub enum SyncError {
    /// A commit at this position of the chain breaks linearity: the first
    /// commit has a parent, a later commit does not have exactly one parent,
    /// or its parent is not the immediately preceding commit.
    Topology { position: usize },
    /// The directory entry at this position of the listing is not a regular
    /// file whose name has the shape `<integer>.patch`.
    MalformedArchiveEntry { position: usize },
    /// Two archive entries share this timestamp, or a new export would
    /// collide with an entry already present under it.
    DuplicateTimestamp { timestamp: i64 },
    /// In the lockstep walk of the overlapping prefix, the two sides
    /// disagree on the key at this position.
    TimeOrderingMismatch { position: usize, chain_timestamp: i64, archive_timestamp: i64 },
    /// The bytes stored under this timestamp differ from the bytes
    /// recomputed from the chain at the same position.
    ContentDrift { timestamp: i64 },
    /// The archive holds entries beyond the end of the chain being exported.
    ArchiveAheadOfChain { chain_len: usize, archive_len: usize },
    /// The chain holds commits beyond the end of the archive being imported.
    ChainAheadOfArchive { chain_len: usize, archive_len: usize },
}

} // verus!
