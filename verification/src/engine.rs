//! The synchronization engine: lockstep verification of the overlapping
//! prefix of the two representations, followed by a plan that extends the
//! shorter side.
//!
//! Both directions are planned over plain values.  The caller reads the
//! chain and the archive, hands them in as sequences of timestamped entries,
//! and receives either the exact list of writes (export) or of patch
//! applications (import) to perform, or the first violation found.  Nothing
//! is written while a violation is possible: a plan is all-or-nothing.

use vstd::prelude::*;

use crate::errors::SyncError;

verus! {

/// One position of either representation: a patch keyed by its timestamp.
///
/// On the chain side the bytes are the patch recomputed from the commit's
/// tree against its parent's; on the archive side they are the bytes stored
/// under `<timestamp>.patch`.
#[derive(Debug, PartialEq, Eq)]
pub struct PatchEntry {
    pub timestamp: i64,
    pub bytes: Vec<u8>,
}

/// Two entries agree: same key and byte-for-byte equal content.
pub open spec fn entries_match(a: PatchEntry, b: PatchEntry) -> bool {
    a.timestamp == b.timestamp && a.bytes@ == b.bytes@
}

/// Some entry of `archive` carries the timestamp `t`.
pub open spec fn timestamp_in_archive(archive: Seq<PatchEntry>, t: i64) -> bool {
    exists|j: int| 0 <= j < archive.len() && archive[j].timestamp == t
}

/// Some position of `chain` in `[lo, hi)` carries the timestamp `t`.
pub open spec fn timestamp_in_chain_range(chain: Seq<PatchEntry>, lo: int, hi: int, t: i64) -> bool {
    exists|j: int| lo <= j < hi && chain[j].timestamp == t
}

/// The verdict of the export walk from position `k` on: the first violation
/// found at or after `k`, or success.
///
/// Positions still covered by the archive must agree on timestamp and on
/// content; positions past the archive become new writes, each of which
/// must not collide with a timestamp already accounted for; an archive
/// longer than the chain is itself a violation.
pub open spec fn export_verdict_from(
    chain: Seq<PatchEntry>,
    archive: Seq<PatchEntry>,
    k: int,
) -> Result<(), SyncError>
    decreases chain.len() - k,
{
    if k < chain.len() {
        if k < archive.len() {
            if chain[k].timestamp != archive[k].timestamp {
                Err(SyncError::TimeOrderingMismatch {
                    position: k as usize,
                    chain_timestamp: chain[k].timestamp,
                    archive_timestamp: archive[k].timestamp,
                })
            } else if chain[k].bytes@ != archive[k].bytes@ {
                Err(SyncError::ContentDrift { timestamp: chain[k].timestamp })
            } else {
                export_verdict_from(chain, archive, k + 1)
            }
        } else {
            if timestamp_in_archive(archive, chain[k].timestamp)
                || timestamp_in_chain_range(chain, archive.len() as int, k, chain[k].timestamp) {
                Err(SyncError::DuplicateTimestamp { timestamp: chain[k].timestamp })
            } else {
                export_verdict_from(chain, archive, k + 1)
            }
        }
    } else {
        if k < archive.len() {
            Err(SyncError::ArchiveAheadOfChain {
                chain_len: chain.len() as usize,
                archive_len: archive.len() as usize,
            })
        } else {
            Ok(())
        }
    }
}

/// The verdict of a whole export run: chain against archive, oldest first.
pub open spec fn export_verdict(chain: Seq<PatchEntry>, archive: Seq<PatchEntry>) -> Result<
    (),
    SyncError,
> {
    export_verdict_from(chain, archive, 0)
}

/// The verdict of the import walk from position `k` on.
///
/// A pre-existing target commit must carry the timestamp recorded at the
/// same position of the archive; the content stored under a matching key is
/// trusted without being re-applied, so drift is only caught on the export
/// side.  A target chain longer than the archive is a violation; archive
/// entries past the end of the chain become new commits.
pub open spec fn import_verdict_from(
    archive: Seq<PatchEntry>,
    chain_timestamps: Seq<i64>,
    k: int,
) -> Result<(), SyncError>
    decreases chain_timestamps.len() - k,
{
    if k < chain_timestamps.len() {
        if k < archive.len() {
            if chain_timestamps[k] != archive[k].timestamp {
                Err(SyncError::TimeOrderingMismatch {
                    position: k as usize,
                    chain_timestamp: chain_timestamps[k],
                    archive_timestamp: archive[k].timestamp,
                })
            } else {
                import_verdict_from(archive, chain_timestamps, k + 1)
            }
        } else {
            Err(SyncError::ChainAheadOfArchive {
                chain_len: chain_timestamps.len() as usize,
                archive_len: archive.len() as usize,
            })
        }
    } else {
        Ok(())
    }
}

/// The verdict of a whole import run: archive against the target chain's
/// timestamps, oldest first.
pub open spec fn import_verdict(archive: Seq<PatchEntry>, chain_timestamps: Seq<i64>) -> Result<
    (),
    SyncError,
> {
    import_verdict_from(archive, chain_timestamps, 0)
}

/// The verdict of the strict check walk from position `k` on: both sides
/// are taken as supposedly synchronized already, so any divergence is a
/// violation, extra entries on either side included.
pub open spec fn check_verdict_from(
    chain: Seq<PatchEntry>,
    archive: Seq<PatchEntry>,
    k: int,
) -> Result<(), SyncError>
    decreases chain.len() - k,
{
    if k < chain.len() && k < archive.len() {
        if chain[k].timestamp != archive[k].timestamp {
            Err(SyncError::TimeOrderingMismatch {
                position: k as usize,
                chain_timestamp: chain[k].timestamp,
                archive_timestamp: archive[k].timestamp,
            })
        } else if chain[k].bytes@ != archive[k].bytes@ {
            Err(SyncError::ContentDrift { timestamp: chain[k].timestamp })
        } else {
            check_verdict_from(chain, archive, k + 1)
        }
    } else if k < archive.len() {
        Err(SyncError::ArchiveAheadOfChain {
            chain_len: chain.len() as usize,
            archive_len: archive.len() as usize,
        })
    } else if k < chain.len() {
        Err(SyncError::ChainAheadOfArchive {
            chain_len: chain.len() as usize,
            archive_len: archive.len() as usize,
        })
    } else {
        Ok(())
    }
}

/// The verdict of a whole strict check run.
pub open spec fn check_verdict(chain: Seq<PatchEntry>, archive: Seq<PatchEntry>) -> Result<
    (),
    SyncError,
> {
    check_verdict_from(chain, archive, 0)
}

/// Runs the strict check mode: both sides are held to be synchronized in
/// full, and the first divergence of any kind — a differing key, differing
/// bytes, or an extra entry on either side — is reported.  Nothing is ever
/// written.
pub fn check_sync(chain: &Vec<PatchEntry>, archive: &Vec<PatchEntry>) -> (r: Result<
    (),
    SyncError,
>)
    ensures
        r == check_verdict(chain@, archive@),
{
    let clen = chain.len();
    let alen = archive.len();
    let mut k: usize = 0;
    while k < clen && k < alen
        invariant
            0 <= k <= clen,
            k <= alen,
            clen == chain@.len(),
            alen == archive@.len(),
            check_verdict(chain@, archive@) == check_verdict_from(chain@, archive@, k as int),
        decreases clen - k,
    {
        if chain[k].timestamp != archive[k].timestamp {
            return Err(SyncError::TimeOrderingMismatch {
                position: k,
                chain_timestamp: chain[k].timestamp,
                archive_timestamp: archive[k].timestamp,
            });
        }
        if !(chain[k].bytes == archive[k].bytes) {
            proof {
                assert(chain@[k as int].bytes@ != archive@[k as int].bytes@);
            }
            return Err(SyncError::ContentDrift { timestamp: chain[k].timestamp });
        }
        proof {
            assert(chain@[k as int].bytes@ =~= archive@[k as int].bytes@);
        }
        k = k + 1;
    }
    if k < alen {
        return Err(SyncError::ArchiveAheadOfChain { chain_len: clen, archive_len: alen });
    }
    if k < clen {
        return Err(SyncError::ChainAheadOfArchive { chain_len: clen, archive_len: alen });
    }
    Ok(())
}

/// The outcome of a successful export plan: how many archive entries were
/// verified against the chain, and which new entries to write, in order.
#[derive(Debug, PartialEq, Eq)]
pub struct ExportOutcome {
    pub verified_count: usize,
    pub writes: Vec<PatchEntry>,
}

/// The outcome of a successful import plan: how many archive entries the
/// target chain already covers, which stored patches to apply, in order,
/// and whether the branch label must be repointed afterwards.
#[derive(Debug, PartialEq, Eq)]
pub struct ImportOutcome {
    pub skipped: usize,
    pub applies: Vec<PatchEntry>,
    pub update_branch: bool,
}

/// Copies a byte vector.
fn copy_bytes(src: &Vec<u8>) -> (r: Vec<u8>)
    ensures
        r@ == src@,
{
    let mut r: Vec<u8> = Vec::new();
    let mut i: usize = 0;
    while i < src.len()
        invariant
            i <= src.len(),
            r@ == src@.take(i as int),
        decreases src.len() - i,
    {
        r.push(src[i]);
        proof {
            assert(src@.take(i as int + 1) =~= src@.take(i as int).push(src@[i as int]));
        }
        i = i + 1;
    }
    proof {
        assert(src@.take(src@.len() as int) =~= src@);
    }
    r
}

/// Plans one export run.
///
/// `chain` is the full commit chain, oldest first, each position carrying
/// the patch bytes recomputed at that position; `archive` is the full
/// archive, ordered by ascending timestamp.  On success the caller writes
/// exactly the returned entries, in order; on failure it writes nothing.
pub fn plan_export(chain: &Vec<PatchEntry>, archive: &Vec<PatchEntry>) -> (r: Result<
    ExportOutcome,
    SyncError,
>)
    ensures
        match r {
            Ok(o) => {
                &&& export_verdict(chain@, archive@) == Ok::<(), SyncError>(())
                &&& archive@.len() <= chain@.len()
                &&& o.verified_count == archive@.len()
                &&& o.writes@.len() == chain@.len() - archive@.len()
                &&& forall|i: int|
                    0 <= i < o.writes@.len() ==> entries_match(
                        #[trigger] o.writes@[i],
                        chain@[archive@.len() + i],
                    )
            },
            Err(e) => export_verdict(chain@, archive@) == Err::<(), SyncError>(e),
        },
{
    let clen = chain.len();
    let alen = archive.len();
    let mut k: usize = 0;
    while k < clen && k < alen
        invariant
            0 <= k <= clen,
            k <= alen,
            clen == chain@.len(),
            alen == archive@.len(),
            export_verdict(chain@, archive@) == export_verdict_from(chain@, archive@, k as int),
        decreases clen - k,
    {
        if chain[k].timestamp != archive[k].timestamp {
            return Err(SyncError::TimeOrderingMismatch {
                position: k,
                chain_timestamp: chain[k].timestamp,
                archive_timestamp: archive[k].timestamp,
            });
        }
        if !(chain[k].bytes == archive[k].bytes) {
            proof {
                assert(chain@[k as int].bytes@ != archive@[k as int].bytes@);
            }
            return Err(SyncError::ContentDrift { timestamp: chain[k].timestamp });
        }
        proof {
            assert(chain@[k as int].bytes@ =~= archive@[k as int].bytes@);
        }
        k = k + 1;
    }
    if k < alen {
        return Err(SyncError::ArchiveAheadOfChain { chain_len: clen, archive_len: alen });
    }
    let mut writes: Vec<PatchEntry> = Vec::new();
    while k < clen
        invariant
            alen <= k <= clen,
            clen == chain@.len(),
            alen == archive@.len(),
            export_verdict(chain@, archive@) == export_verdict_from(chain@, archive@, k as int),
            writes@.len() == k - alen,
            forall|i: int|
                0 <= i < writes@.len() ==> entries_match(
                    #[trigger] writes@[i],
                    chain@[alen + i],
                ),
        decreases clen - k,
    {
        let t = chain[k].timestamp;
        let mut j: usize = 0;
        while j < alen
            invariant
                0 <= j <= alen,
                alen == archive@.len(),
                t == chain@[k as int].timestamp,
                alen <= k < chain@.len(),
                export_verdict(chain@, archive@) == export_verdict_from(
                    chain@,
                    archive@,
                    k as int,
                ),
                forall|jj: int| 0 <= jj < j ==> #[trigger] archive@[jj].timestamp != t,
            decreases alen - j,
        {
            if archive[j].timestamp == t {
                proof {
                    assert(archive@[j as int].timestamp == t);
                    assert(timestamp_in_archive(archive@, t));
                }
                return Err(SyncError::DuplicateTimestamp { timestamp: t });
            }
            j = j + 1;
        }
        let mut j2: usize = alen;
        while j2 < k
            invariant
                alen <= j2 <= k,
                k < chain@.len(),
                alen == archive@.len(),
                t == chain@[k as int].timestamp,
                export_verdict(chain@, archive@) == export_verdict_from(
                    chain@,
                    archive@,
                    k as int,
                ),
                forall|jj: int| alen <= jj < j2 ==> #[trigger] chain@[jj].timestamp != t,
            decreases k - j2,
        {
            if chain[j2].timestamp == t {
                proof {
                    assert(chain@[j2 as int].timestamp == t);
                    assert(timestamp_in_chain_range(chain@, alen as int, k as int, t));
                }
                return Err(SyncError::DuplicateTimestamp { timestamp: t });
            }
            j2 = j2 + 1;
        }
        proof {
            assert(!timestamp_in_archive(archive@, t));
            assert(!timestamp_in_chain_range(chain@, alen as int, k as int, t));
        }
        let bytes = copy_bytes(&chain[k].bytes);
        writes.push(PatchEntry { timestamp: t, bytes });
        k = k + 1;
    }
    Ok(ExportOutcome { verified_count: alen, writes })
}

/// Plans one import run.
///
/// `archive` is the full archive, ordered by ascending timestamp, with the
/// stored bytes of every entry; `chain_timestamps` are the timestamps of
/// the commits already present in the target chain, oldest first.  A
/// matching prefix is skipped without content verification: the stored
/// bytes are trusted under a matching key, so two archives that share keys
/// but differ in content are only told apart on the export side.  On
/// success the caller applies exactly the returned entries, in order, and
/// repoints the branch label if and only if `update_branch` is set.
pub fn plan_import(archive: &Vec<PatchEntry>, chain_timestamps: &Vec<i64>) -> (r: Result<
    ImportOutcome,
    SyncError,
>)
    ensures
        match r {
            Ok(o) => {
                &&& import_verdict(archive@, chain_timestamps@) == Ok::<(), SyncError>(())
                &&& chain_timestamps@.len() <= archive@.len()
                &&& o.skipped == chain_timestamps@.len()
                &&& o.applies@.len() == archive@.len() - chain_timestamps@.len()
                &&& forall|i: int|
                    0 <= i < o.applies@.len() ==> entries_match(
                        #[trigger] o.applies@[i],
                        archive@[chain_timestamps@.len() + i],
                    )
                &&& o.update_branch == (archive@.len() > chain_timestamps@.len())
            },
            Err(e) => import_verdict(archive@, chain_timestamps@) == Err::<(), SyncError>(e),
        },
{
    let alen = archive.len();
    let tlen = chain_timestamps.len();
    let mut k: usize = 0;
    while k < tlen
        invariant
            0 <= k <= tlen,
            tlen == chain_timestamps@.len(),
            alen == archive@.len(),
            k <= alen,
            import_verdict(archive@, chain_timestamps@) == import_verdict_from(
                archive@,
                chain_timestamps@,
                k as int,
            ),
        decreases tlen - k,
    {
        if k >= alen {
            return Err(SyncError::ChainAheadOfArchive { chain_len: tlen, archive_len: alen });
        }
        if chain_timestamps[k] != archive[k].timestamp {
            return Err(SyncError::TimeOrderingMismatch {
                position: k,
                chain_timestamp: chain_timestamps[k],
                archive_timestamp: archive[k].timestamp,
            });
        }
        k = k + 1;
    }
    let mut applies: Vec<PatchEntry> = Vec::new();
    let mut p: usize = tlen;
    while p < alen
        invariant
            tlen <= p <= alen,
            alen == archive@.len(),
            tlen == chain_timestamps@.len(),
            applies@.len() == p - tlen,
            forall|i: int|
                0 <= i < applies@.len() ==> entries_match(
                    #[trigger] applies@[i],
                    archive@[tlen + i],
                ),
        decreases alen - p,
    {
        let bytes = copy_bytes(&archive[p].bytes);
        applies.push(PatchEntry { timestamp: archive[p].timestamp, bytes });
        p = p + 1;
    }
    Ok(ImportOutcome { skipped: tlen, applies, update_branch: alen > tlen })
}

} // verus!
