//! The laws the synchronization protocol obeys, stated over the same spec
//! functions the planning contracts use and proved once and for all.

use vstd::prelude::*;

use crate::chain::{chain_linear, commit_ok_at, CommitMeta};
use crate::engine::{
    check_verdict, check_verdict_from, entries_match, export_verdict, export_verdict_from,
    import_verdict, import_verdict_from, timestamp_in_archive, timestamp_in_chain_range,
    PatchEntry,
};
use crate::errors::SyncError;

verus! {

/// The timestamps of a run of entries, in order.
pub open spec fn timestamps_of(entries: Seq<PatchEntry>) -> Seq<i64> {
    entries.map_values(|e: PatchEntry| e.timestamp)
}

/// Exporting into an empty archive passes every position, provided no two
/// commits share a timestamp.
proof fn lemma_export_empty_archive(chain: Seq<PatchEntry>, k: int)
    requires
        0 <= k <= chain.len(),
        forall|i: int, j: int|
            0 <= i < j < chain.len() ==> chain[i].timestamp != chain[j].timestamp,
    ensures
        export_verdict_from(chain, Seq::<PatchEntry>::empty(), k) == Ok::<(), SyncError>(()),
    decreases chain.len() - k,
{
    let empty = Seq::<PatchEntry>::empty();
    if k < chain.len() {
        assert(!timestamp_in_archive(empty, chain[k].timestamp));
        assert(!timestamp_in_chain_range(chain, 0, k, chain[k].timestamp)) by {
            if timestamp_in_chain_range(chain, 0, k, chain[k].timestamp) {
                let j = choose|j: int| 0 <= j < k && chain[j].timestamp == chain[k].timestamp;
                assert(chain[j].timestamp != chain[k].timestamp);
            }
        }
        lemma_export_empty_archive(chain, k + 1);
    }
}

/// Round trip: a chain whose commits carry pairwise distinct timestamps
/// exports into an empty archive without error, so the whole chain is
/// written; and the archive so produced imports into an empty chain without
/// error, so every entry is applied, in order, under its own timestamp.
pub proof fn lemma_round_trip(chain: Seq<PatchEntry>)
    requires
        forall|i: int, j: int|
            0 <= i < j < chain.len() ==> chain[i].timestamp != chain[j].timestamp,
    ensures
        export_verdict(chain, Seq::<PatchEntry>::empty()) == Ok::<(), SyncError>(()),
        import_verdict(chain, Seq::<i64>::empty()) == Ok::<(), SyncError>(()),
{
    lemma_export_empty_archive(chain, 0);
}

/// An export that succeeded leaves the two sides agreeing position by
/// position over the whole archive.
proof fn lemma_export_ok_prefix(chain: Seq<PatchEntry>, archive: Seq<PatchEntry>, k: int)
    requires
        0 <= k <= chain.len(),
        export_verdict_from(chain, archive, k) == Ok::<(), SyncError>(()),
    ensures
        archive.len() <= chain.len(),
        forall|i: int| k <= i < archive.len() ==> #[trigger] entries_match(chain[i], archive[i]),
    decreases chain.len() - k,
{
    if k < chain.len() {
        lemma_export_ok_prefix(chain, archive, k + 1);
    }
}

/// When the two sides have equal length and agree position by position, the
/// export walk finds nothing to do and nothing to refuse.
proof fn lemma_export_all_match(chain: Seq<PatchEntry>, archive: Seq<PatchEntry>, k: int)
    requires
        0 <= k <= chain.len(),
        chain.len() == archive.len(),
        forall|i: int| k <= i < chain.len() ==> #[trigger] entries_match(chain[i], archive[i]),
    ensures
        export_verdict_from(chain, archive, k) == Ok::<(), SyncError>(()),
    decreases chain.len() - k,
{
    if k < chain.len() {
        assert(entries_match(chain[k], archive[k]));
        lemma_export_all_match(chain, archive, k + 1);
    }
}

/// Export is idempotent: after an export that succeeded, the archive holds
/// the old entries followed by exactly the chain's remainder, and running
/// export again against that archive succeeds with nothing left to write:
/// the second run's write region is empty and every entry counts as
/// verified.
pub proof fn lemma_export_idempotent(chain: Seq<PatchEntry>, archive: Seq<PatchEntry>)
    requires
        export_verdict(chain, archive) == Ok::<(), SyncError>(()),
    ensures
        archive.len() <= chain.len(),
        (archive + chain.skip(archive.len() as int)).len() == chain.len(),
        export_verdict(chain, archive + chain.skip(archive.len() as int)) == Ok::<
            (),
            SyncError,
        >(()),
{
    lemma_export_ok_prefix(chain, archive, 0);
    let full = archive + chain.skip(archive.len() as int);
    assert forall|i: int| 0 <= i < chain.len() implies #[trigger] entries_match(
        chain[i],
        full[i],
    ) by {
        if i < archive.len() {
            assert(entries_match(chain[i], archive[i]));
        } else {
            assert(full[i] == chain.skip(archive.len() as int)[i - archive.len()]);
        }
    }
    lemma_export_all_match(chain, full, 0);
}

/// An import that succeeded leaves the target chain's timestamps agreeing
/// with the archive's position by position.
proof fn lemma_import_ok_prefix(archive: Seq<PatchEntry>, chain_ts: Seq<i64>, k: int)
    requires
        0 <= k <= chain_ts.len(),
        import_verdict_from(archive, chain_ts, k) == Ok::<(), SyncError>(()),
    ensures
        k < chain_ts.len() ==> chain_ts.len() <= archive.len(),
        forall|i: int| k <= i < chain_ts.len() ==> chain_ts[i] == #[trigger] archive[i].timestamp,
    decreases chain_ts.len() - k,
{
    if k < chain_ts.len() {
        lemma_import_ok_prefix(archive, chain_ts, k + 1);
    }
}

/// When the target chain carries exactly the archive's timestamps, the
/// import walk skips every position.
proof fn lemma_import_all_match(archive: Seq<PatchEntry>, chain_ts: Seq<i64>, k: int)
    requires
        0 <= k <= chain_ts.len(),
        chain_ts.len() <= archive.len(),
        forall|i: int| k <= i < chain_ts.len() ==> chain_ts[i] == #[trigger] archive[i].timestamp,
    ensures
        import_verdict_from(archive, chain_ts, k) == Ok::<(), SyncError>(()),
    decreases chain_ts.len() - k,
{
    if k < chain_ts.len() {
        lemma_import_all_match(archive, chain_ts, k + 1);
    }
}

/// Import is idempotent: after an import that succeeded, the target chain
/// carries the archive's timestamps in full, and running import again
/// against that chain succeeds with nothing left to apply: the second run's
/// apply region is empty, so it creates no commit and moves no branch.
pub proof fn lemma_import_idempotent(archive: Seq<PatchEntry>, chain_ts: Seq<i64>)
    requires
        import_verdict(archive, chain_ts) == Ok::<(), SyncError>(()),
    ensures
        chain_ts.len() <= archive.len(),
        (chain_ts + timestamps_of(archive).skip(chain_ts.len() as int)).len() == archive.len(),
        import_verdict(archive, chain_ts + timestamps_of(archive).skip(chain_ts.len() as int))
            == Ok::<(), SyncError>(()),
{
    lemma_import_ok_prefix(archive, chain_ts, 0);
    let full = chain_ts + timestamps_of(archive).skip(chain_ts.len() as int);
    assert forall|i: int| 0 <= i < archive.len() implies full[i] == #[trigger] archive[i].timestamp by {
        if i >= chain_ts.len() {
            assert(full[i] == timestamps_of(archive).skip(chain_ts.len() as int)[i
                - chain_ts.len()]);
            assert(timestamps_of(archive)[i] == archive[i].timestamp);
        }
    }
    lemma_import_all_match(archive, full, 0);
}

/// A strict check that succeeded saw two sides of equal length agreeing
/// position by position.
proof fn lemma_check_ok_prefix(chain: Seq<PatchEntry>, archive: Seq<PatchEntry>, k: int)
    requires
        0 <= k <= chain.len(),
        k <= archive.len(),
        check_verdict_from(chain, archive, k) == Ok::<(), SyncError>(()),
    ensures
        chain.len() == archive.len(),
        forall|i: int| k <= i < archive.len() ==> #[trigger] entries_match(chain[i], archive[i]),
    decreases chain.len() - k,
{
    if k < chain.len() && k < archive.len() {
        lemma_check_ok_prefix(chain, archive, k + 1);
    }
}

/// When the two sides have equal length and agree position by position, the
/// strict check finds nothing to refuse.
proof fn lemma_check_all_match(chain: Seq<PatchEntry>, archive: Seq<PatchEntry>, k: int)
    requires
        0 <= k <= chain.len(),
        chain.len() == archive.len(),
        forall|i: int| k <= i < chain.len() ==> #[trigger] entries_match(chain[i], archive[i]),
    ensures
        check_verdict_from(chain, archive, k) == Ok::<(), SyncError>(()),
    decreases chain.len() - k,
{
    if k < chain.len() {
        assert(entries_match(chain[k], archive[k]));
        lemma_check_all_match(chain, archive, k + 1);
    }
}

/// The strict check accepts exactly the states on which export would verify
/// every entry and write nothing: the two sides have equal length and agree
/// position by position.
pub proof fn lemma_check_is_settled_export(chain: Seq<PatchEntry>, archive: Seq<PatchEntry>)
    ensures
        (check_verdict(chain, archive) == Ok::<(), SyncError>(())) <==> (export_verdict(
            chain,
            archive,
        ) == Ok::<(), SyncError>(()) && chain.len() == archive.len()),
{
    if check_verdict(chain, archive) == Ok::<(), SyncError>(()) {
        lemma_check_ok_prefix(chain, archive, 0);
        lemma_export_all_match(chain, archive, 0);
    }
    if export_verdict(chain, archive) == Ok::<(), SyncError>(()) && chain.len() == archive.len() {
        lemma_export_ok_prefix(chain, archive, 0);
        lemma_check_all_match(chain, archive, 0);
    }
}

/// Merge rejection: a chain holding any commit with two or more parents is
/// not linear, so the validation pass that both directions run before
/// touching anything refuses it.
pub proof fn lemma_merge_rejected(commits: Seq<CommitMeta>, i: int)
    requires
        0 <= i < commits.len(),
        commits[i].parent_ids@.len() >= 2,
    ensures
        !chain_linear(commits),
{
    assert(!commit_ok_at(commits, i));
}

} // verus!
