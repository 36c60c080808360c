//! Leaving out the commits that belong to no branch.

use crate::branch::{branch_states, BranchInfo, BranchState};
use crate::commit::{commit_states, CommitInfo, CommitState};
use crate::oid::{Oid, OidMap};
use vstd::prelude::*;

verus! {

/// The positions of the first `count` commits by their ids, the last one of each id.
pub open spec fn positions(commits: Seq<CommitState>, count: int) -> Map<Oid, usize>
    decreases count,
{
    if count <= 0 {
        Map::empty()
    } else {
        positions(commits, count - 1).insert(commits[count - 1].oid, (count - 1) as usize)
    }
}

/// Those of the first `count` commits that belong to a branch.
pub open spec fn on_branches(commits: Seq<CommitState>, count: int) -> Seq<CommitState>
    decreases count,
{
    if count <= 0 {
        Seq::empty()
    } else {
        let before = on_branches(commits, count - 1);
        if commits[count - 1].branch_trace is Some {
            before.push(commits[count - 1])
        } else {
            before
        }
    }
}

/// The commits that belong to a branch.
pub open spec fn kept_commits(commits: Seq<CommitState>) -> Seq<CommitState> {
    on_branches(commits, commits.len() as int)
}

/// The positions of the commits that belong to a branch, once the others are left out.
pub open spec fn kept_positions(commits: Seq<CommitState>) -> Map<Oid, usize> {
    positions(kept_commits(commits), kept_commits(commits).len() as int)
}

/// What becomes of a position of a commit: its new position, if the commit is kept. There is no
/// saying for a commit that does not stand at the position that `indices` has for its id.
pub open spec fn moves(commits: Seq<CommitState>, indices: Map<Oid, usize>) -> Seq<
    Option<Option<usize>>,
> {
    Seq::new(
        commits.len(),
        |i: int|
            {
                let oid = commits[i].oid;
                if indices.contains_key(oid) && indices[oid] == i {
                    Some(
                        if kept_positions(commits).contains_key(oid) {
                            Some(kept_positions(commits)[oid])
                        } else {
                            None
                        },
                    )
                } else {
                    None
                }
            },
    )
}

/// The new position of the first commit from `position` on that is kept.
pub open spec fn first_kept(moves: Seq<Option<Option<usize>>>, position: int) -> Option<usize>
    decreases moves.len() - position,
{
    if 0 <= position < moves.len() {
        match moves[position] {
            Some(Some(kept)) => Some(kept),
            Some(None) => first_kept(moves, position + 1),
            None => None,
        }
    } else {
        None
    }
}

/// The new position of the last commit up to `position` that is kept.
pub open spec fn last_kept(moves: Seq<Option<Option<usize>>>, position: int) -> Option<usize>
    decreases position + 1,
{
    if 0 <= position < moves.len() {
        match moves[position] {
            Some(Some(kept)) => Some(kept),
            Some(None) => last_kept(moves, position - 1),
            None => None,
        }
    } else {
        None
    }
}

/// A range among the commits that are kept, if both its ends are found there.
pub open spec fn moved_range(
    moves: Seq<Option<Option<usize>>>,
    range: (Option<usize>, Option<usize>),
) -> Option<(Option<usize>, Option<usize>)> {
    let first = match range.0 {
        Some(position) => first_kept(moves, position as int),
        None => None,
    };
    let last = match range.1 {
        Some(position) => last_kept(moves, position as int),
        None => None,
    };
    if (range.0 is Some && first is None) || (range.1 is Some && last is None) {
        None
    } else {
        Some((first, last))
    }
}

/// The branches, with their ranges among the commits that are kept, if all of these are found.
pub open spec fn moved_branches(
    moves: Seq<Option<Option<usize>>>,
    branches: Seq<BranchState>,
) -> Option<Seq<BranchState>> {
    if forall|i: int|
        0 <= i < branches.len() ==> moved_range(moves, #[trigger] branches[i].range) is Some {
        Some(
            Seq::new(
                branches.len(),
                |i: int| branches[i].spanning(moved_range(moves, branches[i].range)->0),
            ),
        )
    } else {
        None
    }
}

/// The positions of commits by their ids.
pub(crate) fn index_commits(commits: &Vec<CommitInfo>) -> (indices: OidMap)
    ensures
        indices@ == positions(commit_states(commits@), commits@.len() as int),
{
    let mut indices = OidMap::new();
    for i in 0..commits.len()
        invariant
            indices@ == positions(commit_states(commits@), i as int),
    {
        assert(commit_states(commits@)[i as int] == commits@[i as int]@);
        indices.insert(commits[i].oid, i);
    }
    indices
}

/// The new position of the first commit from `position` on that is kept.
fn find_first_kept(moves: &Vec<Option<Option<usize>>>, position: usize) -> (kept: Option<usize>)
    ensures
        kept == first_kept(moves@, position as int),
{
    let mut i = position;
    while i < moves.len()
        invariant
            first_kept(moves@, position as int) == first_kept(moves@, i as int),
        decreases moves@.len() - i,
    {
        match moves[i] {
            Some(Some(kept)) => {
                return Some(kept);
            },
            Some(None) => {
                i = i + 1;
            },
            None => {
                return None;
            },
        }
    }
    None
}

/// The new position of the last commit up to `position` that is kept.
fn find_last_kept(moves: &Vec<Option<Option<usize>>>, position: usize) -> (kept: Option<usize>)
    ensures
        kept == last_kept(moves@, position as int),
{
    let mut i = position;
    while i < moves.len()
        invariant
            last_kept(moves@, position as int) == last_kept(moves@, i as int),
        decreases i,
    {
        match moves[i] {
            Some(Some(kept)) => {
                return Some(kept);
            },
            Some(None) => {
                if i == 0 {
                    assert(last_kept(moves@, -1) is None);
                    return None;
                }
                i = i - 1;
            },
            None => {
                return None;
            },
        }
    }
    None
}

/// Moves the ranges of branches to the commits that are kept. Returns whether all were found there;
/// otherwise some are not moved.
fn move_branches(moves: &Vec<Option<Option<usize>>>, branches: &mut Vec<BranchInfo>) -> (found: bool)
    ensures
        found <==> moved_branches(moves@, branch_states(old(branches)@)) is Some,
        found ==> moved_branches(moves@, branch_states(old(branches)@)) == Some(
            branch_states(final(branches)@),
        ),
{
    let ghost before = branch_states(branches@);
    let len = branches.len();
    for i in 0..len
        invariant
            len == branches@.len() == before.len(),
            before == branch_states(old(branches)@),
            forall|j: int|
                0 <= j < i ==> {
                    &&& moved_range(moves@, #[trigger] before[j].range) is Some
                    &&& branches@[j]@ == before[j].spanning(
                        moved_range(moves@, before[j].range)->0,
                    )
                },
            forall|j: int| i <= j < len ==> (#[trigger] branches@[j])@ == before[j],
    {
        assert(branches@[i as int]@ == before[i as int]);
        let range = branches[i].range;
        let first: Option<usize> = match range.0 {
            Some(position) => find_first_kept(moves, position),
            None => None,
        };
        let last: Option<usize> = match range.1 {
            Some(position) => find_last_kept(moves, position),
            None => None,
        };
        if (range.0.is_some() && first.is_none()) || (range.1.is_some() && last.is_none()) {
            assert(moved_range(moves@, before[i as int].range) is None);
            return false;
        }
        branches[i].range = (first, last);
        assert(branches@[i as int]@ =~= before[i as int].spanning(
            moved_range(moves@, before[i as int].range)->0,
        ));
    }
    assert(branch_states(branches@) =~= moved_branches(moves@, before)->0);
    true
}

/// Leaves out the commits that belong to no branch, and moves the ranges of the branches. Returns
/// the commits, their positions and the branches, `None` where the range of a branch is not found
/// among the commits.
pub fn filter_commits(
    commits: Vec<CommitInfo>,
    indices: &OidMap,
    branches: Vec<BranchInfo>,
) -> (filtered: Option<(Vec<CommitInfo>, OidMap, Vec<BranchInfo>)>)
    ensures
        match filtered {
            Some((kept, kept_indices, moved)) => {
                &&& commit_states(kept@) == kept_commits(commit_states(commits@))
                &&& kept_indices@ == kept_positions(commit_states(commits@))
                &&& moved_branches(
                    moves(commit_states(commits@), indices@),
                    branch_states(branches@),
                ) == Some(branch_states(moved@))
            },
            None => moved_branches(
                moves(commit_states(commits@), indices@),
                branch_states(branches@),
            ) is None,
        },
{
    let ghost states = commit_states(commits@);
    let len = commits.len();
    let mut oids: Vec<Oid> = Vec::new();
    for i in 0..len
        invariant
            len == commits@.len(),
            oids@.len() == i,
            forall|j: int| 0 <= j < i ==> #[trigger] oids@[j] == commits@[j].oid,
    {
        oids.push(commits[i].oid);
    }
    let mut kept: Vec<CommitInfo> = Vec::new();
    assert(commit_states(kept@) =~= Seq::empty());
    for info in iter: commits
        invariant
            iter.seq() == commits@,
            states == commit_states(commits@),
            commit_states(kept@) == on_branches(states, iter.index() as int),
    {
        assert(states[iter.index() as int] == info@);
        if info.branch_trace.is_some() {
            let ghost before = commit_states(kept@);
            let ghost state = info@;
            kept.push(info);
            assert(commit_states(kept@) =~= before.push(state));
        }
    }
    let kept_indices = index_commits(&kept);
    let mut moved_positions: Vec<Option<Option<usize>>> = Vec::new();
    for i in 0..len
        invariant
            len == commits@.len() == oids@.len(),
            states == commit_states(commits@),
            forall|j: int| 0 <= j < len ==> #[trigger] oids@[j] == commits@[j].oid,
            kept_indices@ == kept_positions(states),
            moved_positions@.len() == i,
            forall|j: int|
                0 <= j < i ==> #[trigger] moved_positions@[j] == moves(states, indices@)[j],
    {
        assert(states[i as int].oid == oids@[i as int]);
        let moved: Option<Option<usize>> = match indices.get(&oids[i]) {
            Some(position) => if position == i {
                Some(kept_indices.get(&oids[i]))
            } else {
                None
            },
            None => None,
        };
        moved_positions.push(moved);
    }
    assert(moved_positions@ =~= moves(states, indices@));
    let mut moved = branches;
    if move_branches(&moved_positions, &mut moved) {
        Some((kept, kept_indices, moved))
    } else {
        None
    }
}

} // verus!
