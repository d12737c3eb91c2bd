use gpat::chain::{validate_linear, CommitMeta};
use gpat::errors::SyncError;

fn commit(id: &[u8], parents: &[&[u8]], timestamp: i64) -> CommitMeta {
    CommitMeta {
        id: id.to_vec(),
        parent_ids: parents.iter().map(|p| p.to_vec()).collect(),
        timestamp,
    }
}

#[test]
fn an_empty_chain_is_linear() {
    let commits: Vec<CommitMeta> = Vec::new();
    assert_eq!(validate_linear(&commits), Ok(()));
}

#[test]
fn a_single_root_commit_is_linear() {
    let commits = vec![commit(b"aa", &[], 10)];
    assert_eq!(validate_linear(&commits), Ok(()));
}

#[test]
fn a_straight_chain_is_linear() {
    let commits = vec![
        commit(b"aa", &[], 10),
        commit(b"bb", &[b"aa"], 20),
        commit(b"cc", &[b"bb"], 30),
    ];
    assert_eq!(validate_linear(&commits), Ok(()));
}

#[test]
fn a_root_with_a_parent_is_rejected() {
    let commits = vec![commit(b"aa", &[b"zz"], 10)];
    assert_eq!(validate_linear(&commits), Err(SyncError::Topology { position: 0 }));
}

#[test]
fn a_merge_commit_is_rejected() {
    let commits = vec![
        commit(b"aa", &[], 10),
        commit(b"bb", &[b"aa"], 20),
        commit(b"cc", &[b"bb", b"aa"], 30),
    ];
    assert_eq!(validate_linear(&commits), Err(SyncError::Topology { position: 2 }));
}

#[test]
fn a_parentless_later_commit_is_rejected() {
    let commits = vec![commit(b"aa", &[], 10), commit(b"bb", &[], 20)];
    assert_eq!(validate_linear(&commits), Err(SyncError::Topology { position: 1 }));
}

#[test]
fn a_broken_parent_link_is_rejected() {
    let commits = vec![
        commit(b"aa", &[], 10),
        commit(b"bb", &[b"aa"], 20),
        commit(b"cc", &[b"aa"], 30),
    ];
    assert_eq!(validate_linear(&commits), Err(SyncError::Topology { position: 2 }));
}
