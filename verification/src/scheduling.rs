//! What giving branches their columns promises.

use crate::branch::BranchState;
use crate::columns::{has_range, overlap};
use crate::commit::CommitState;
use crate::oid::Oid;
use vstd::prelude::*;

verus! {

/// Whether a branch is shown at a position, among `commits` commits: not before its first position
/// and not after its last one, as far as these are known.
pub open spec fn covers(branch: BranchState, commits: nat, position: int) -> bool {
    &&& branch.range.0 is Some || branch.range.1 is Some
    &&& branch.range.0 matches Some(first) ==> first <= position
    &&& branch.range.1 matches Some(last) ==> position <= last
    &&& 0 <= position < commits
}

/// Whether the positions of branches are those of `commits` commits, first ones before last ones.
pub open spec fn fits(branches: Seq<BranchState>, commits: nat) -> bool {
    &&& commits <= i32::MAX
    &&& forall|i: int|
        #![trigger branches[i]]
        0 <= i < branches.len() ==> {
            &&& branches[i].range.0 matches Some(first) ==> first < commits
            &&& branches[i].range.1 matches Some(last) ==> last < commits
            &&& branches[i].range.0 is Some && branches[i].range.1 is Some
                ==> branches[i].range.0->0 <= branches[i].range.1->0
        }
}

/// The first position of a branch, that of the first commit where it is not known.
pub open spec fn start_of(branch: BranchState) -> int {
    match branch.range.0 {
        Some(first) => first as int,
        None => 0,
    }
}

/// The last position of a branch among `commits` commits, that of the last commit where it is not
/// known.
pub open spec fn end_of(branch: BranchState, commits: nat) -> int {
    match branch.range.1 {
        Some(last) => last as int,
        None => commits - 1,
    }
}

/// The position at which a branch is met when commits are gone through, from the first one or from
/// the last one.
pub open spec fn met_at(branch: BranchState, commits: nat, forward: bool) -> int {
    if forward {
        start_of(branch)
    } else {
        end_of(branch, commits)
    }
}

/// Whether branch `j` is met before branch `i`, the one of the smaller number first where both are
/// met at one position.
pub open spec fn is_met_before(
    branches: Seq<BranchState>,
    commits: nat,
    forward: bool,
    j: int,
    i: int,
) -> bool {
    let (own, other) = (
        met_at(branches[i], commits, forward),
        met_at(branches[j], commits, forward),
    );
    ||| other == own && j < i
    ||| if forward {
        other < own
    } else {
        other > own
    }
}

/// Whether two branches are shown at one position, among `commits` commits.
pub open spec fn meet(branch: BranchState, other: BranchState, commits: nat) -> bool {
    exists|position: int| #[trigger]
        covers(branch, commits, position) && covers(other, commits, position)
}

/// Whether branch `j` is put into a lane before branch `i`, if branches are taken by length: the
/// shorter or the longer one first, of equal length the one that starts nearer to the first commit
/// or to the last, and of equal start the one of the smaller number.
pub open spec fn is_taken_before(
    branches: Seq<BranchState>,
    commits: nat,
    shortest_first: bool,
    forward: bool,
    j: int,
    i: int,
) -> bool {
    let length = end_of(branches[i], commits) - start_of(branches[i]);
    let other_length = end_of(branches[j], commits) - start_of(branches[j]);
    let (start, other_start) = (start_of(branches[i]), start_of(branches[j]));
    if other_length != length {
        (other_length < length) == shortest_first
    } else if other_start != start {
        (other_start < start) == forward
    } else {
        j < i
    }
}

/// Whether branch `i` was merged into branch `j`: the commit that it was merged into belongs to
/// that branch.
pub open spec fn is_merged_into(
    branches: Seq<BranchState>,
    commits: Seq<CommitState>,
    indices: Map<Oid, usize>,
    i: int,
    j: int,
) -> bool {
    &&& branches[i].merge_target is Some
    &&& indices.contains_key(branches[i].merge_target->0)
    &&& indices[branches[i].merge_target->0] < commits.len()
    &&& commits[indices[branches[i].merge_target->0] as int].branch_trace == Some(j as usize)
    &&& 0 <= j <= usize::MAX
}

/// Branches that have a position in common are shown at one position, if they fit.
pub proof fn lemma_meet(branches: Seq<BranchState>, commits: nat, i: int, j: int)
    requires
        fits(branches, commits),
        0 <= i < branches.len(),
        0 <= j < branches.len(),
        has_range(branches[i]),
        has_range(branches[j]),
    ensures
        overlap(branches, commits, i, j) <==> meet(branches[i], branches[j], commits),
{
    let (a, b) = (start_of(branches[i]), start_of(branches[j]));
    if overlap(branches, commits, i, j) {
        let position = if a < b {
            b
        } else {
            a
        };
        assert(covers(branches[i], commits, position) && covers(branches[j], commits, position));
    }
}

/// Branches without a position in common are not shown at one position.
pub proof fn lemma_apart(
    branches: Seq<BranchState>,
    commits: nat,
    i: int,
    j: int,
    position: int,
)
    requires
        commits <= usize::MAX,
        !overlap(branches, commits, i, j),
    ensures
        !(covers(branches[i], commits, position) && covers(branches[j], commits, position)),
{
}

/// Whether branches stand in the columns that first-come first-served scheduling should give them:
/// those that are shown at a position have one, no two of one column are shown at one position, and
/// each stands in the first lane of its group that was free when it was met.
pub open spec fn is_served_in_turn(
    branches: Seq<BranchState>,
    commits: nat,
    forward: bool,
) -> bool {
    &&& forall|i: int|
        #![trigger branches[i]]
        0 <= i < branches.len() ==> (branches[i].visual.column is Some <==> exists|position: int|
            #[trigger] covers(branches[i], commits, position))
    &&& forall|i: int, j: int|
        #![trigger branches[i], branches[j]]
        0 <= i < branches.len() && 0 <= j < branches.len() && i != j
            && branches[i].visual.column is Some && branches[i].visual.column
            == branches[j].visual.column ==> !meet(branches[i], branches[j], commits)
    &&& forall|i: int, column: usize| #[trigger]
        is_left_of(branches, column, i) ==> exists|j: int|
            #![trigger branches[j]]
            0 <= j < branches.len() && branches[j].visual.column == Some(column) && {
                ||| branches[j].visual.order_group < branches[i].visual.order_group
                ||| {
                    &&& branches[j].visual.order_group == branches[i].visual.order_group
                    &&& is_met_before(branches, commits, forward, j, i)
                    &&& covers(branches[j], commits, met_at(branches[i], commits, forward))
                }
            }
}

/// Whether a column stands to the left of that of branch `i`.
pub open spec fn is_left_of(branches: Seq<BranchState>, column: usize, i: int) -> bool {
    &&& 0 <= i < branches.len()
    &&& branches[i].visual.column is Some
    &&& column < branches[i].visual.column->0
}

/// Whether branches stand in the columns that scheduling by length should give them: those that are
/// shown at a position have one, no two of one column are shown at one position, none stands in the
/// column of the branch that it was merged into, if that was taken before it, and each stands in
/// the first lane of its group that was for it.
pub open spec fn is_packed_by_length(
    branches: Seq<BranchState>,
    commits: Seq<CommitState>,
    indices: Map<Oid, usize>,
    shortest_first: bool,
    forward: bool,
) -> bool {
    &&& forall|i: int|
        #![trigger branches[i]]
        0 <= i < branches.len() ==> (branches[i].visual.column is Some <==> exists|position: int|
            #[trigger] covers(branches[i], commits.len(), position))
    &&& forall|i: int, j: int|
        #![trigger branches[i], branches[j]]
        0 <= i < branches.len() && 0 <= j < branches.len() && i != j
            && branches[i].visual.column is Some && branches[i].visual.column
            == branches[j].visual.column ==> {
            &&& !meet(branches[i], branches[j], commits.len())
            &&& !(is_merged_into(branches, commits, indices, i, j) && is_taken_before(
                branches,
                commits.len(),
                shortest_first,
                forward,
                j,
                i,
            ))
        }
    &&& forall|i: int, column: usize| #[trigger]
        is_left_of(branches, column, i) ==> exists|j: int|
            #![trigger branches[j]]
            0 <= j < branches.len() && branches[j].visual.column == Some(column) && {
                ||| branches[j].visual.order_group < branches[i].visual.order_group
                ||| {
                    &&& branches[j].visual.order_group == branches[i].visual.order_group
                    &&& is_taken_before(branches, commits.len(), shortest_first, forward, j, i)
                    &&& meet(branches[j], branches[i], commits.len()) || is_merged_into(
                        branches,
                        commits,
                        indices,
                        i,
                        j,
                    )
                }
            }
}

/// Whether branches are shown at one position depends on their ranges alone.
pub proof fn lemma_meet_alike(
    branch: BranchState,
    other: BranchState,
    branch_alike: BranchState,
    other_alike: BranchState,
    commits: nat,
)
    requires
        branch.range == branch_alike.range,
        other.range == other_alike.range,
    ensures
        meet(branch, other, commits) == meet(branch_alike, other_alike, commits),
{
    if meet(branch, other, commits) {
        let position = choose|position: int| #[trigger]
            covers(branch, commits, position) && covers(other, commits, position);
        assert(covers(branch_alike, commits, position));
    }
    if meet(branch_alike, other_alike, commits) {
        let position = choose|position: int| #[trigger]
            covers(branch_alike, commits, position) && covers(other_alike, commits, position);
        assert(covers(branch, commits, position));
    }
}

} // verus!
