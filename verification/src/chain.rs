//! The history reader's validation pass: a commit chain is usable only if
//! it is strictly linear.
//!
//! The caller walks every commit reachable from the head, oldest first, and
//! hands in each commit's identity, parent identities and timestamp.  The
//! whole reachable set is validated before anything else is done, so a
//! merge is rejected before any output is produced or any mutation
//! attempted.

use vstd::prelude::*;

use crate::errors::SyncError;

verus! {

/// One commit of the chain, oldest first: its opaque identity, the
/// identities of its parents in order, and its creation timestamp.
pub struct CommitMeta {
    pub id: Vec<u8>,
    pub parent_ids: Vec<Vec<u8>>,
    pub timestamp: i64,
}

/// The commit at position `j` respects linearity: the first commit has no
/// parent, and every later commit has exactly one, the immediately
/// preceding commit.
pub open spec fn commit_ok_at(commits: Seq<CommitMeta>, j: int) -> bool {
    if j == 0 {
        commits[j].parent_ids@.len() == 0
    } else {
        commits[j].parent_ids@.len() == 1 && commits[j].parent_ids@[0]@ == commits[j - 1].id@
    }
}

/// The whole chain is linear: every position respects linearity.
pub open spec fn chain_linear(commits: Seq<CommitMeta>) -> bool {
    forall|j: int| 0 <= j < commits.len() ==> commit_ok_at(commits, j)
}

/// Compares two identities byte for byte.
fn ids_equal(a: &Vec<u8>, b: &Vec<u8>) -> (r: bool)
    ensures
        r <==> a@ == b@,
{
    let r = a == b;
    proof {
        if r {
            assert(a@ =~= b@);
        }
    }
    r
}

/// Validates the linearity of a chain, oldest first.
///
/// Returns `Ok` exactly when the chain is linear; otherwise the error names
/// the first position that breaks linearity.  An empty chain is linear:
/// there is nothing to synchronize, which is not an error.
pub fn validate_linear(commits: &Vec<CommitMeta>) -> (r: Result<(), SyncError>)
    ensures
        match r {
            Ok(()) => chain_linear(commits@),
            Err(e) => {
                &&& !chain_linear(commits@)
                &&& e matches SyncError::Topology { position } && {
                    &&& 0 <= position < commits@.len()
                    &&& !commit_ok_at(commits@, position as int)
                    &&& forall|j: int| 0 <= j < position ==> commit_ok_at(commits@, j)
                }
            },
        },
{
    let n = commits.len();
    let mut i: usize = 0;
    while i < n
        invariant
            0 <= i <= n,
            n == commits@.len(),
            forall|j: int| 0 <= j < i ==> commit_ok_at(commits@, j),
        decreases n - i,
    {
        if i == 0 {
            if commits[i].parent_ids.len() != 0 {
                proof {
                    assert(!commit_ok_at(commits@, i as int));
                    assert(!chain_linear(commits@));
                }
                return Err(SyncError::Topology { position: i });
            }
        } else {
            if commits[i].parent_ids.len() != 1 {
                proof {
                    assert(!commit_ok_at(commits@, i as int));
                    assert(!chain_linear(commits@));
                }
                return Err(SyncError::Topology { position: i });
            }
            if !ids_equal(&commits[i].parent_ids[0], &commits[i - 1].id) {
                proof {
                    assert(!commit_ok_at(commits@, i as int));
                    assert(!chain_linear(commits@));
                }
                return Err(SyncError::Topology { position: i });
            }
        }
        i = i + 1;
    }
    Ok(())
}

} // verus!
