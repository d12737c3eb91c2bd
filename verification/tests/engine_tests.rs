use gpat::engine::{check_sync, plan_export, plan_import, PatchEntry};
use gpat::errors::SyncError;

fn entry(timestamp: i64, bytes: &[u8]) -> PatchEntry {
    PatchEntry { timestamp, bytes: bytes.to_vec() }
}

#[test]
fn export_into_an_empty_archive_writes_the_whole_chain() {
    let chain = vec![entry(10, b"one"), entry(20, b"two"), entry(30, b"three")];
    let archive: Vec<PatchEntry> = Vec::new();
    let out = plan_export(&chain, &archive).unwrap();
    assert_eq!(out.verified_count, 0);
    assert_eq!(out.writes.len(), 3);
    for (w, c) in out.writes.iter().zip(chain.iter()) {
        assert_eq!(w.timestamp, c.timestamp);
        assert_eq!(w.bytes, c.bytes);
    }
}

#[test]
fn export_twice_writes_nothing_the_second_time() {
    let chain = vec![entry(10, b"one"), entry(20, b"two"), entry(30, b"three")];
    let first = plan_export(&chain, &Vec::new()).unwrap();
    let second = plan_export(&chain, &first.writes).unwrap();
    assert_eq!(second.verified_count, 3);
    assert_eq!(second.writes.len(), 0);
}

#[test]
fn export_detects_content_drift() {
    let chain = vec![entry(10, b"one"), entry(20, b"two")];
    // The stored bytes at the second position differ by a single byte.
    let archive = vec![entry(10, b"one"), entry(20, b"twp")];
    assert_eq!(plan_export(&chain, &archive), Err(SyncError::ContentDrift { timestamp: 20 }));
}

#[test]
fn export_extends_a_shorter_archive() {
    let chain = vec![entry(10, b"a"), entry(20, b"b"), entry(30, b"c")];
    let archive = vec![entry(10, b"a"), entry(20, b"b")];
    let out = plan_export(&chain, &archive).unwrap();
    assert_eq!(out.verified_count, 2);
    assert_eq!(out.writes.len(), 1);
    assert_eq!(out.writes[0].timestamp, 30);
    assert_eq!(out.writes[0].bytes, b"c".to_vec());
}

#[test]
fn export_fails_when_the_archive_is_ahead() {
    let chain = vec![entry(10, b"a"), entry(20, b"b")];
    let archive = vec![entry(10, b"a"), entry(20, b"b"), entry(30, b"c")];
    assert_eq!(
        plan_export(&chain, &archive),
        Err(SyncError::ArchiveAheadOfChain { chain_len: 2, archive_len: 3 })
    );
}

#[test]
fn export_fails_on_a_rewritten_prefix() {
    let chain = vec![entry(10, b"a"), entry(20, b"b"), entry(25, b"x")];
    let archive = vec![entry(10, b"a"), entry(20, b"b"), entry(30, b"c")];
    assert_eq!(
        plan_export(&chain, &archive),
        Err(SyncError::TimeOrderingMismatch {
            position: 2,
            chain_timestamp: 25,
            archive_timestamp: 30,
        })
    );
}

#[test]
fn export_fails_on_a_timestamp_collision_in_the_source() {
    let chain = vec![entry(10, b"a"), entry(10, b"b")];
    assert_eq!(
        plan_export(&chain, &Vec::new()),
        Err(SyncError::DuplicateTimestamp { timestamp: 10 })
    );
}

#[test]
fn export_fails_when_a_new_write_collides_with_the_archive() {
    let chain = vec![entry(10, b"a"), entry(10, b"b")];
    let archive = vec![entry(10, b"a")];
    assert_eq!(
        plan_export(&chain, &archive),
        Err(SyncError::DuplicateTimestamp { timestamp: 10 })
    );
}

#[test]
fn export_appends_the_newest_commit() {
    let chain = vec![entry(10, b"a"), entry(20, b"b"), entry(30, b"c"), entry(40, b"d")];
    let archive = vec![entry(10, b"a"), entry(20, b"b"), entry(30, b"c")];
    let out = plan_export(&chain, &archive).unwrap();
    assert_eq!(out.verified_count, 3);
    assert_eq!(out.writes.len(), 1);
    assert_eq!(out.writes[0].timestamp, 40);
}

#[test]
fn check_accepts_two_sides_in_agreement() {
    let both = vec![entry(10, b"a"), entry(20, b"b")];
    assert_eq!(check_sync(&both, &both), Ok(()));
}

#[test]
fn check_accepts_two_empty_sides() {
    assert_eq!(check_sync(&Vec::new(), &Vec::new()), Ok(()));
}

#[test]
fn check_fails_on_drift() {
    let chain = vec![entry(10, b"a"), entry(20, b"b")];
    let archive = vec![entry(10, b"a"), entry(20, b"x")];
    assert_eq!(check_sync(&chain, &archive), Err(SyncError::ContentDrift { timestamp: 20 }));
}

#[test]
fn check_fails_on_a_key_mismatch() {
    let chain = vec![entry(10, b"a"), entry(25, b"b")];
    let archive = vec![entry(10, b"a"), entry(30, b"b")];
    assert_eq!(
        check_sync(&chain, &archive),
        Err(SyncError::TimeOrderingMismatch {
            position: 1,
            chain_timestamp: 25,
            archive_timestamp: 30,
        })
    );
}

#[test]
fn check_fails_on_an_extra_entry_on_either_side() {
    let shorter = vec![entry(10, b"a")];
    let longer = vec![entry(10, b"a"), entry(20, b"b")];
    assert_eq!(
        check_sync(&shorter, &longer),
        Err(SyncError::ArchiveAheadOfChain { chain_len: 1, archive_len: 2 })
    );
    assert_eq!(
        check_sync(&longer, &shorter),
        Err(SyncError::ChainAheadOfArchive { chain_len: 2, archive_len: 1 })
    );
}

#[test]
fn import_into_an_empty_chain_applies_everything() {
    let archive = vec![entry(10, b"one"), entry(20, b"two"), entry(30, b"three")];
    let out = plan_import(&archive, &Vec::new()).unwrap();
    assert_eq!(out.skipped, 0);
    assert_eq!(out.applies.len(), 3);
    assert!(out.update_branch);
    for (a, e) in out.applies.iter().zip(archive.iter()) {
        assert_eq!(a.timestamp, e.timestamp);
        assert_eq!(a.bytes, e.bytes);
    }
}

#[test]
fn import_skips_the_already_applied_prefix() {
    let archive = vec![entry(10, b"one"), entry(20, b"two"), entry(30, b"three")];
    let chain_ts = vec![10, 20];
    let out = plan_import(&archive, &chain_ts).unwrap();
    assert_eq!(out.skipped, 2);
    assert_eq!(out.applies.len(), 1);
    assert_eq!(out.applies[0].timestamp, 30);
    assert!(out.update_branch);
}

#[test]
fn import_twice_applies_nothing_the_second_time() {
    let archive = vec![entry(10, b"one"), entry(20, b"two"), entry(30, b"three")];
    let chain_ts = vec![10, 20, 30];
    let out = plan_import(&archive, &chain_ts).unwrap();
    assert_eq!(out.skipped, 3);
    assert_eq!(out.applies.len(), 0);
    assert!(!out.update_branch);
}

#[test]
fn import_fails_when_the_chain_is_ahead() {
    let archive = vec![entry(10, b"one")];
    let chain_ts = vec![10, 20];
    assert_eq!(
        plan_import(&archive, &chain_ts),
        Err(SyncError::ChainAheadOfArchive { chain_len: 2, archive_len: 1 })
    );
}

#[test]
fn import_fails_on_a_rewritten_prefix() {
    let archive = vec![entry(10, b"a"), entry(20, b"b"), entry(30, b"c")];
    let chain_ts = vec![10, 20, 25];
    assert_eq!(
        plan_import(&archive, &chain_ts),
        Err(SyncError::TimeOrderingMismatch {
            position: 2,
            chain_timestamp: 25,
            archive_timestamp: 30,
        })
    );
}

#[test]
fn round_trip_reproduces_the_chain() {
    let chain = vec![entry(10, b"one"), entry(20, b"two"), entry(30, b"three")];
    let exported = plan_export(&chain, &Vec::new()).unwrap();
    let imported = plan_import(&exported.writes, &Vec::new()).unwrap();
    assert_eq!(imported.applies.len(), chain.len());
    for (a, c) in imported.applies.iter().zip(chain.iter()) {
        assert_eq!(a.timestamp, c.timestamp);
        assert_eq!(a.bytes, c.bytes);
    }
}
