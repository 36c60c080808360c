//! Commits as they are read, and commits as the graph shows them.

use crate::oid::Oid;
use vstd::prelude::*;

verus! {

/// What the summary of a commit says of a merged branch: its name, where a merge pattern finds
/// one.
pub struct Summary {
    pub merged_branch: Option<String>,
}

/// A commit, as a repository hands it out. `summary` is `None` where the commit has no summary
/// that is valid UTF-8.
pub struct Commit {
    pub id: Oid,
    pub parents: Vec<Oid>,
    pub summary: Option<Summary>,
}

impl Commit {
    /// The number of parents.
    pub fn parent_count(&self) -> (count: usize)
        ensures
            count == self.parents@.len(),
    {
        self.parents.len()
    }

    /// The id of a parent, an error where there is no parent of that index.
    pub fn parent_id(&self, index: usize) -> (id: Result<Oid, String>)
        ensures
            index < self.parents@.len() ==> id == Ok::<Oid, String>(self.parents@[index as int]),
            index >= self.parents@.len() ==> (id matches Err(message) && message@
                == "parent index out of bounds"@),
    {
        if index < self.parents.len() {
            Ok(self.parents[index])
        } else {
            Err("parent index out of bounds".to_string())
        }
    }
}

/// Represents a commit.
pub struct CommitInfo {
    pub oid: Oid,
    pub is_merge: bool,
    pub parents: [Option<Oid>; 2],
    pub children: Vec<Oid>,
    pub branches: Vec<usize>,
    pub branch_trace: Option<usize>,
}

/// What a [`CommitInfo`] holds.
#[verifier::ext_equal]
pub struct CommitState {
    pub oid: Oid,
    pub is_merge: bool,
    pub parents: Seq<Option<Oid>>,
    pub children: Seq<Oid>,
    pub branches: Seq<usize>,
    pub branch_trace: Option<usize>,
}

impl View for CommitInfo {
    type V = CommitState;

    open spec fn view(&self) -> CommitState {
        CommitState {
            oid: self.oid,
            is_merge: self.is_merge,
            parents: self.parents@,
            children: self.children@,
            branches: self.branches@,
            branch_trace: self.branch_trace,
        }
    }
}

/// What the commits of a list hold, in order.
pub open spec fn commit_states(commits: Seq<CommitInfo>) -> Seq<CommitState> {
    commits.map_values(|commit: CommitInfo| commit@)
}

/// The element of a sequence at an index, if there is one.
pub open spec fn at<T>(s: Seq<T>, index: int) -> Option<T> {
    if 0 <= index < s.len() {
        Some(s[index])
    } else {
        None
    }
}

/// What is known of a commit before its neighbours and its branches are looked at.
pub open spec fn fresh_commit(commit: Commit) -> CommitState {
    CommitState {
        oid: commit.id,
        is_merge: commit.parents@.len() > 1,
        parents: seq![at(commit.parents@, 0), at(commit.parents@, 1)],
        children: Seq::empty(),
        branches: Seq::empty(),
        branch_trace: None,
    }
}

impl CommitInfo {
    /// The commit, with no children, branches or trace yet.
    pub fn new(commit: &Commit) -> (info: Self)
        ensures
            info@ == fresh_commit(*commit),
    {
        let first = match commit.parent_id(0) {
            Ok(id) => Some(id),
            Err(_) => None,
        };
        let second = match commit.parent_id(1) {
            Ok(id) => Some(id),
            Err(_) => None,
        };
        let info = CommitInfo {
            oid: commit.id,
            is_merge: commit.parent_count() > 1,
            parents: [first, second],
            children: Vec::new(),
            branches: Vec::new(),
            branch_trace: None,
        };
        assert(info@.parents =~= fresh_commit(*commit).parents);
        info
    }
}

} // verus!
