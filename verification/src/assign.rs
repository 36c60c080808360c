//! Assigning branches to commits.

use crate::branch::{branch_states, Branch, BranchInfo, BranchState};
use crate::commit::{commit_states, Commit, CommitInfo, CommitState};
use crate::extract::{extract_branches, extracted, try_extract_branches};
use crate::oid::{Oid, OidMap};
use crate::settings::Settings;
use crate::trace::{
    children_found, indexes, law_tracing_keeps_traces, trace_branch, traceable, traced,
    traced_range, traces_of, with_traces,
};
use vstd::prelude::*;

verus! {

/// The commits and the branches kept, while branches are assigned one after the other.
#[verifier::ext_equal]
pub struct Assignment {
    pub commits: Seq<CommitState>,
    pub branches: Seq<BranchState>,
}

impl Assignment {
    /// The commits, once the commit at `index` is marked as the tip of the next branch.
    pub open spec fn marked(self, index: int, deleted: bool) -> Seq<CommitState> {
        if deleted {
            self.commits
        } else {
            self.commits.update(
                index,
                CommitState {
                    branches: self.commits[index].branches.push(self.branches.len() as usize),
                    ..self.commits[index]
                },
            )
        }
    }

    /// Assigns one more branch: it is traced from its target, and kept if any commit was assigned
    /// to it or it still exists. A branch whose target is not among the commits, or which cannot be
    /// traced because a commit cannot be read, is left out.
    pub open spec fn assign(
        self,
        lookups: Seq<Result<Commit, String>>,
        indices: Map<Oid, usize>,
        branch: BranchState,
    ) -> Assignment {
        if !indices.contains_key(branch.target) {
            self
        } else {
            let index = indices[branch.target] as int;
            let number = self.branches.len() as usize;
            let marked = self.marked(index, branch.deleted);
            let oid = marked[index].oid;
            let tracing = traced(
                marked,
                lookups,
                indices,
                traces_of(marked),
                oid,
                None,
                number,
            );
            Assignment {
                commits: with_traces(marked, tracing.traces),
                branches: match tracing.end {
                    Ok(end) => if traceable(indices, traces_of(marked), oid) || !branch.deleted {
                        self.branches.push(branch.spanning(traced_range(branch.range, end)))
                    } else {
                        self.branches
                    },
                    Err(_) => self.branches,
                },
            }
        }
    }
}

/// The commits and the branches kept, once the first `count` of `branches` were assigned.
pub open spec fn assigned(
    commits: Seq<CommitState>,
    lookups: Seq<Result<Commit, String>>,
    indices: Map<Oid, usize>,
    branches: Seq<BranchState>,
    count: int,
) -> Assignment
    decreases count,
{
    if count <= 0 {
        Assignment { commits, branches: Seq::empty() }
    } else {
        assigned(commits, lookups, indices, branches, count - 1).assign(
            lookups,
            indices,
            branches[count - 1],
        )
    }
}

/// Whether the state of an assignment fits the commits it started from: only traces and branch
/// numbers differ.
pub open spec fn same_history(before: Seq<CommitState>, after: Seq<CommitState>) -> bool {
    &&& after.len() == before.len()
    &&& forall|i: int|
        #![trigger after[i]]
        0 <= i < before.len() ==> after[i] == (CommitState {
            branches: after[i].branches,
            branch_trace: after[i].branch_trace,
            ..before[i]
        })
}

/// What an assignment does not change keeps positions and children found.
pub proof fn lemma_same_history(
    before: Seq<CommitState>,
    after: Seq<CommitState>,
    indices: Map<Oid, usize>,
)
    requires
        same_history(before, after),
        indexes(indices, before),
        children_found(before, indices),
    ensures
        indexes(indices, after),
        children_found(after, indices),
{
    assert forall|oid: Oid| #[trigger] indices.contains_key(oid) implies indices[oid] < after.len()
        && after[indices[oid] as int].oid == oid by {
        assert(after[indices[oid] as int].oid == before[indices[oid] as int].oid);
    }
    assert forall|i: int, k: int|
        #![trigger after[i].children[k]]
        0 <= i < after.len() && 0 <= k < after[i].children.len() implies indices.contains_key(
        after[i].children[k],
    ) by {
        assert(after[i].children == before[i].children);
        assert(indices.contains_key(before[i].children[k]));
    }
}

/// Assigns extracted branches to commits, in order. `lookups` holds, for each of the commits, what
/// reading it gives. Returns the branches kept.
pub fn assign_extracted(
    extracted: Vec<BranchInfo>,
    lookups: &[Result<Commit, String>],
    commits: &mut [CommitInfo],
    indices: &OidMap,
) -> (kept: Vec<BranchInfo>)
    requires
        old(commits)@.len() <= i32::MAX,
        old(commits)@.len() <= lookups@.len(),
        indexes(indices@, commit_states(old(commits)@)),
        children_found(commit_states(old(commits)@), indices@),
    ensures
        (Assignment { commits: commit_states(final(commits)@), branches: branch_states(kept@) })
            == assigned(
            commit_states(old(commits)@),
            lookups@,
            indices@,
            branch_states(extracted@),
            extracted@.len() as int,
        ),
{
    let ghost before = commit_states(commits@);
    let ghost list = branch_states(extracted@);
    let len = commits.len();
    let count = extracted.len();
    let mut kept: Vec<BranchInfo> = Vec::new();
    assert(branch_states(kept@) =~= Seq::empty());
    for branch in iter: extracted
        invariant
            iter.seq() == extracted@,
            list == branch_states(extracted@),
            count == extracted@.len(),
            len == commits@.len() == before.len() <= i32::MAX,
            len <= lookups@.len(),
            indexes(indices@, before),
            children_found(before, indices@),
            same_history(before, commit_states(commits@)),
            kept@.len() <= iter.index(),
            (Assignment { commits: commit_states(commits@), branches: branch_states(kept@) })
                == assigned(before, lookups@, indices@, list, iter.index() as int),
    {
        let mut branch = branch;
        let ghost step = iter.index() as int;
        let ghost start = assigned(before, lookups@, indices@, list, step);
        let ghost state = branch@;
        assert(list[step] == state);
        if let Some(index) = indices.get(&branch.target) {
            let number = kept.len();
            assert(commit_states(commits@)[index as int] == commits@[index as int]@);
            if !branch.deleted {
                commits[index].branches.push(number);
            }
            let ghost marked = start.marked(index as int, state.deleted);
            proof {
                assert forall|j: int| 0 <= j < len implies #[trigger] commit_states(commits@)[j]
                    == marked[j] by {
                    if j == index {
                        assert(commits@[j]@ =~= marked[j]);
                    } else {
                        assert(commits@[j]@ == start.commits[j]);
                    }
                }
                assert(commit_states(commits@) =~= marked);
                assert(same_history(before, marked));
                lemma_same_history(before, marked, indices@);
            }
            assert(commits@[index as int]@ == marked[index as int]);
            let oid = commits[index].oid;
            match trace_branch(lookups, commits, indices, oid, &mut branch, number) {
                Ok(any_assigned) => {
                    if any_assigned || !branch.deleted {
                        let ghost all = branch_states(kept@);
                        let ghost traced_state = branch@;
                        kept.push(branch);
                        assert(branch_states(kept@) =~= all.push(traced_state));
                    }
                },
                Err(_) => {},
            }
            assert(same_history(before, commit_states(commits@)));
        }
    }
    kept
}

/// Extracts branches from repository and merge summaries, assigns branches and branch traces to
/// commits.
///
/// Algorithm:
/// * Find all actual branches (incl. target oid) and extract all branches from merge summaries
///   (incl. parent oid)
/// * Sort all branches by persistence
/// * Iterating over all branches in persistence order, trace back over commit parents until a trace
///   is already assigned
pub fn assign_branches(
    listing: &Result<Vec<Branch>, String>,
    lookups: &[Result<Commit, String>],
    commits: &mut [CommitInfo],
    indices: &OidMap,
    settings: &Settings,
) -> (result: Result<Vec<BranchInfo>, String>)
    requires
        old(commits)@.len() <= i32::MAX,
        old(commits)@.len() <= lookups@.len(),
        indexes(indices@, commit_states(old(commits)@)),
        children_found(commit_states(old(commits)@), indices@),
        extracted(
            *listing,
            commit_states(old(commits)@),
            lookups@,
            indices@,
            settings.branches,
        ) is Some,
    ensures
        match extracted(
            *listing,
            commit_states(old(commits)@),
            lookups@,
            indices@,
            settings.branches,
        ) {
            Some(Ok(branches)) => result matches Ok(kept) && (Assignment {
                commits: commit_states(final(commits)@),
                branches: branch_states(kept@),
            }) == assigned(
                commit_states(old(commits)@),
                lookups@,
                indices@,
                branches,
                branches.len() as int,
            ),
            Some(Err(message)) => {
                &&& result matches Err(error) && error@ == message
                &&& final(commits)@ == old(commits)@
            },
            None => false,
        },
{
    match extract_branches(listing, commits, lookups, indices, settings) {
        Ok(branches) => Ok(assign_extracted(branches, lookups, commits, indices)),
        Err(message) => Err(message),
    }
}

/// Extracts branches from repository and merge summaries, assigns branches and branch traces to
/// commits, as [`assign_branches`] does.
///
/// Returns `None` where a branch to be shown has no short name or no colour to choose from.
pub fn try_assign_branches(
    listing: &Result<Vec<Branch>, String>,
    lookups: &[Result<Commit, String>],
    commits: &mut [CommitInfo],
    indices: &OidMap,
    settings: &Settings,
) -> (result: Option<Result<Vec<BranchInfo>, String>>)
    requires
        old(commits)@.len() <= i32::MAX,
        old(commits)@.len() <= lookups@.len(),
        indexes(indices@, commit_states(old(commits)@)),
        children_found(commit_states(old(commits)@), indices@),
    ensures
        match extracted(
            *listing,
            commit_states(old(commits)@),
            lookups@,
            indices@,
            settings.branches,
        ) {
            Some(Ok(branches)) => result matches Some(Ok(kept)) && (Assignment {
                commits: commit_states(final(commits)@),
                branches: branch_states(kept@),
            }) == assigned(
                commit_states(old(commits)@),
                lookups@,
                indices@,
                branches,
                branches.len() as int,
            ),
            Some(Err(message)) => {
                &&& result matches Some(Err(error)) && error@ == message
                &&& final(commits)@ == old(commits)@
            },
            None => result is None && final(commits)@ == old(commits)@,
        },
{
    match try_extract_branches(listing, commits, lookups, indices, settings) {
        Some(Ok(branches)) => Some(Ok(assign_extracted(branches, lookups, commits, indices))),
        Some(Err(message)) => Some(Err(message)),
        None => None,
    }
}

proof fn lemma_assigned_shape(
    commits: Seq<CommitState>,
    lookups: Seq<Result<Commit, String>>,
    indices: Map<Oid, usize>,
    branches: Seq<BranchState>,
    count: int,
)
    requires
        indexes(indices, commits),
        0 <= count <= branches.len(),
    ensures
        same_history(commits, assigned(commits, lookups, indices, branches, count).commits),
    decreases count,
{
    if count > 0 {
        let before = assigned(commits, lookups, indices, branches, count - 1);
        let branch = branches[count - 1];
        let after = before.assign(lookups, indices, branch);
        lemma_assigned_shape(commits, lookups, indices, branches, count - 1);
        if indices.contains_key(branch.target) {
            let marked = before.marked(indices[branch.target] as int, branch.deleted);
            assert forall|i: int|
                #![trigger after.commits[i]]
                0 <= i < commits.len() implies after.commits[i] == (CommitState {
                branches: after.commits[i].branches,
                branch_trace: after.commits[i].branch_trace,
                ..commits[i]
            }) by {
                assert(before.commits[i].oid == commits[i].oid);
                assert(marked[i].oid == commits[i].oid);
            }
        }
    }
}

/// Branches come first by persistence: once a commit belongs to a branch, assigning further
/// branches does not take it away.
pub proof fn law_earlier_branches_keep_commits(
    commits: Seq<CommitState>,
    lookups: Seq<Result<Commit, String>>,
    indices: Map<Oid, usize>,
    branches: Seq<BranchState>,
    earlier: int,
    later: int,
    i: int,
)
    requires
        indexes(indices, commits),
        0 <= earlier <= later <= branches.len(),
        0 <= i < commits.len(),
        assigned(commits, lookups, indices, branches, earlier).commits[i].branch_trace is Some,
    ensures
        assigned(commits, lookups, indices, branches, later).commits[i].branch_trace == assigned(
            commits,
            lookups,
            indices,
            branches,
            earlier,
        ).commits[i].branch_trace,
    decreases later,
{
    if earlier < later {
        let before = assigned(commits, lookups, indices, branches, later - 1);
        let branch = branches[later - 1];
        law_earlier_branches_keep_commits(
            commits,
            lookups,
            indices,
            branches,
            earlier,
            later - 1,
            i,
        );
        lemma_assigned_shape(commits, lookups, indices, branches, later - 1);
        if indices.contains_key(branch.target) {
            let index = indices[branch.target] as int;
            let marked = before.marked(index, branch.deleted);
            let number = before.branches.len() as usize;
            law_tracing_keeps_traces(
                marked,
                lookups,
                indices,
                traces_of(marked),
                marked[index].oid,
                None,
                number,
            );
            assert(traces_of(marked)[i] == before.commits[i].branch_trace);
        }
    }
}

} // verus!
