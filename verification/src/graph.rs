//! The graph of a git history.

use crate::assign::{assigned, try_assign_branches, Assignment};
use crate::branch::{branch_states, Branch, BranchInfo, BranchState};
use crate::children::{assign_children, with_children};
use crate::columns::{first_position, has_range, in_columns, last_position};
use crate::commit::{commit_states, fresh_commit, Commit, CommitInfo, CommitState};
use crate::extract::extracted;
use crate::fcfs::{
    assign_branch_columns_fcfs, fcfs_columns, lemma_placeable, placeable, sortable, unplaced,
};
use crate::filter::{
    filter_commits, index_commits, kept_commits, kept_positions, moved_branches, moves, positions,
};
use crate::invariants::{assignment_sound, well_assigned};
use crate::invariants::{lemma_assigned, lemma_collected, lemma_extracted, lemma_linked};
use crate::length::{
    assign_branch_columns_branch_length, lemma_placeable_by_length, length_columns, merge_found,
    merges_found, packed_by_length, placeable_by_length, sortable_by_length,
};
use crate::oid::{Oid, OidMap};
use crate::settings::{BranchOrder, Settings};
use crate::trace::indexes;
use vstd::prelude::*;

verus! {

/// What a repository answers when it is read.
pub struct Snapshot {
    /// The commits of the history, children before their parents, or the errors met on the way.
    pub walk: Vec<Result<Commit, String>>,
    /// For each commit of the walk, what reading it again gives. Branches are found and traced in
    /// these.
    pub lookups: Vec<Result<Commit, String>>,
    /// The branches, of the type that [`Settings::branch_filter`] names.
    pub branches: Result<Vec<Branch>, String>,
}

/// Represents a git history graph.
pub struct GitGraph {
    pub commits: Vec<CommitInfo>,
    pub indices: OidMap,
    pub branches: Vec<BranchInfo>,
}

/// What a [`GitGraph`] holds.
#[verifier::ext_equal]
pub struct GraphState {
    pub commits: Seq<CommitState>,
    pub indices: Map<Oid, usize>,
    pub branches: Seq<BranchState>,
}

impl View for GitGraph {
    type V = GraphState;

    open spec fn view(&self) -> GraphState {
        GraphState {
            commits: commit_states(self.commits@),
            indices: self.indices@,
            branches: branch_states(self.branches@),
        }
    }
}

/// The number of commits of a walk that are looked at.
pub open spec fn walk_count(walk: Seq<Result<Commit, String>>, max_count: Option<usize>) -> int {
    match max_count {
        Some(max) => if max < walk.len() {
            max as int
        } else {
            walk.len() as int
        },
        None => walk.len() as int,
    }
}

/// The first `count` commits of a walk, or the first error among them.
pub open spec fn collected(walk: Seq<Result<Commit, String>>, count: int) -> Result<
    Seq<CommitState>,
    Seq<char>,
>
    decreases count,
{
    if count <= 0 {
        Ok(Seq::empty())
    } else {
        match (collected(walk, count - 1), walk[count - 1]) {
            (Err(message), _) => Err(message),
            (Ok(_), Err(message)) => Err(message@),
            (Ok(commits), Ok(commit)) => Ok(commits.push(fresh_commit(commit))),
        }
    }
}

/// The columns of branches, and those of the branches that were kept out of a free lane.
pub open spec fn laid_out(
    order: BranchOrder,
    groups: nat,
    commits: Seq<CommitState>,
    indices: Map<Oid, usize>,
    branches: Seq<BranchState>,
) -> (Seq<Option<usize>>, Seq<usize>) {
    match order {
        BranchOrder::FirstComeFirstServed(forward) => (
            fcfs_columns(branches, groups, commits.len(), forward),
            Seq::empty(),
        ),
        BranchOrder::ShortestFirst(forward) => (
            length_columns(branches, groups, commits, indices, true, forward),
            packed_by_length(branches, groups, commits, indices, true, forward).displaced,
        ),
        BranchOrder::LongestFirst(forward) => (
            length_columns(branches, groups, commits, indices, false, forward),
            packed_by_length(branches, groups, commits, indices, false, forward).displaced,
        ),
    }
}

/// The graph of commits that are linked to their children, once branches are assigned to them, and
/// the branches that were kept out of a free lane.
///
/// There is none where a branch is not found among the commits that are kept.
pub open spec fn drawn(
    settings: Settings,
    indices: Map<Oid, usize>,
    assignment: Assignment,
) -> Option<(GraphState, Seq<usize>)> {
    let groups = settings.branches.order@.len() + 1;
    let commits = assignment.commits;
    let (columns, displaced) = laid_out(
        settings.branch_order,
        groups,
        commits,
        indices,
        assignment.branches,
    );
    let placed = in_columns(assignment.branches, columns);
    if settings.include_remote {
        Some((GraphState { commits, indices, branches: placed }, displaced))
    } else {
        match moved_branches(moves(commits, indices), placed) {
            Some(branches) => Some(
                (
                    GraphState {
                        commits: kept_commits(commits),
                        indices: kept_positions(commits),
                        branches,
                    },
                    displaced,
                ),
            ),
            None => None,
        }
    }
}

/// The graph of a repository and the branches that were kept out of a free lane, or the message
/// that says why there is no graph.
///
/// There is neither where commits were not all read twice, where there are more commits than `i32`
/// can count or more order groups than `usize` can, where a branch to be shown has no short name or
/// no colour to choose from, or where a branch is not found among the commits that are kept.
pub open spec fn graph_of(
    snapshot: Snapshot,
    settings: Settings,
    max_count: Option<usize>,
) -> Option<Result<(GraphState, Seq<usize>), Seq<char>>> {
    let count = walk_count(snapshot.walk@, max_count);
    match collected(snapshot.walk@, count) {
        Err(message) => Some(Err(message)),
        Ok(commits) => if count > i32::MAX || count > snapshot.lookups@.len()
            || settings.branches.order@.len() >= usize::MAX {
            None
        } else {
            let indices = positions(commits, count);
            let linked = with_children(commits, indices);
            match extracted(
                snapshot.branches,
                linked,
                snapshot.lookups@,
                indices,
                settings.branches,
            ) {
                None => None,
                Some(Err(message)) => Some(Err(message)),
                Some(Ok(branches)) => match drawn(
                    settings,
                    indices,
                    assigned(
                        linked,
                        snapshot.lookups@,
                        indices,
                        branches,
                        branches.len() as int,
                    ),
                ) {
                    None => None,
                    Some(graph) => Some(Ok(graph)),
                },
            }
        },
    }
}

/// The commits of a walk.
fn collect_commits(walk: &Vec<Result<Commit, String>>, max_count: Option<usize>) -> (result: Result<
    Vec<CommitInfo>,
    String,
>)
    ensures
        match (result, collected(walk@, walk_count(walk@, max_count))) {
            (Ok(commits), Ok(expected)) => commit_states(commits@) == expected,
            (Err(message), Err(expected)) => message@ == expected,
            _ => false,
        },
{
    let mut count = walk.len();
    if let Some(max) = max_count {
        if max < count {
            count = max;
        }
    }
    let mut commits: Vec<CommitInfo> = Vec::new();
    assert(commit_states(commits@) =~= Seq::empty());
    for i in 0..count
        invariant
            count == walk_count(walk@, max_count),
            count <= walk@.len(),
            collected(walk@, i as int) == Ok::<Seq<CommitState>, Seq<char>>(
                commit_states(commits@),
            ),
    {
        match &walk[i] {
            Ok(commit) => {
                let ghost before = commit_states(commits@);
                let info = CommitInfo::new(commit);
                let ghost state = info@;
                commits.push(info);
                assert(commit_states(commits@) =~= before.push(state));
            },
            Err(message) => {
                let error = message.clone();
                proof {
                    lemma_collected_error(walk@, i as int, count as int, error@);
                }
                return Err(error);
            },
        }
    }
    Ok(commits)
}

/// An error on a walk stays the result, however much further the walk goes.
proof fn lemma_collected_error(
    walk: Seq<Result<Commit, String>>,
    i: int,
    count: int,
    message: Seq<char>,
)
    requires
        0 <= i < count,
        collected(walk, i + 1) == Err::<Seq<CommitState>, Seq<char>>(message),
    ensures
        collected(walk, count) == Err::<Seq<CommitState>, Seq<char>>(message),
    decreases count,
{
    if i + 1 < count {
        lemma_collected_error(walk, i, count - 1, message);
    }
}

/// What assigning branches leaves can be laid out.
proof fn lemma_layable(
    assignment: Assignment,
    commits: Seq<CommitState>,
    indices: Map<Oid, usize>,
    groups: nat,
)
    requires
        commits.len() <= i32::MAX,
        assignment.branches.len() <= usize::MAX,
        indexes(indices, commits),
        assignment_sound(assignment, commits, indices, groups),
    ensures
        forall|forward: bool| #[trigger] sortable(assignment.branches, commits.len(), forward),
        forall|forward: bool| #[trigger]
            placeable(assignment.branches, groups, commits.len(), forward),
        forall|shortest_first: bool, forward: bool| #[trigger]
            sortable_by_length(assignment.branches, commits.len(), shortest_first, forward),
        forall|shortest_first: bool, forward: bool| #[trigger]
            placeable_by_length(
                assignment.branches,
                groups,
                assignment.commits,
                indices,
                shortest_first,
                forward,
            ),
{
    let branches = assignment.branches;
    assert forall|i: int|
        #![trigger branches[i]]
        0 <= i < branches.len() implies branches[i].visual.column is None
        && branches[i].visual.order_group < groups by {
        assert(well_assigned(branches[i], assignment.commits, indices, groups));
    }
    assert(unplaced(branches, groups));
    assert forall|i: int|
        #![trigger branches[i]]
        0 <= i < branches.len() && has_range(branches[i]) implies first_position(branches[i])
        <= i32::MAX && last_position(branches[i], commits.len()) <= i32::MAX by {
        assert(well_assigned(branches[i], assignment.commits, indices, groups));
    }
    assert forall|i: int|
        #![trigger branches[i]]
        0 <= i < branches.len() && has_range(branches[i]) implies merge_found(
        branches,
        assignment.commits,
        indices,
        i,
    ) by {
        if let Some(target) = branches[i].merge_target {
            if indices.contains_key(target) {
                let position = indices[target] as int;
                assert(assignment.commits[position].branch_trace matches Some(number) ==> number
                    < branches.len());
            }
        }
    }
    assert(merges_found(branches, assignment.commits, indices));
    assert forall|forward: bool| #[trigger]
        placeable(branches, groups, commits.len(), forward) by {
        lemma_placeable(branches, groups, commits.len(), forward);
    }
    assert forall|shortest_first: bool, forward: bool| #[trigger]
        placeable_by_length(
            branches,
            groups,
            assignment.commits,
            indices,
            shortest_first,
            forward,
        ) by {
        lemma_placeable_by_length(
            branches,
            groups,
            assignment.commits,
            indices,
            shortest_first,
            forward,
        );
    }
}

impl GitGraph {
    /// The graph of a repository, with the branches that were kept out of a free lane for the sake
    /// of the branch they were merged into.
    ///
    /// Returns `None` where [`GitGraph::new`] cannot be called.
    pub fn try_new(snapshot: &Snapshot, settings: &Settings, max_count: Option<usize>) -> (result:
        Option<Result<(Self, Vec<usize>), String>>)
        ensures
            match (result, graph_of(*snapshot, *settings, max_count)) {
                (None, None) => true,
                (Some(Err(message)), Some(Err(expected))) => message@ == expected,
                (Some(Ok((graph, displaced))), Some(Ok(expected))) => graph@ == expected.0
                    && displaced@ == expected.1,
                _ => false,
            },
    {
        let mut commits = match collect_commits(&snapshot.walk, max_count) {
            Ok(commits) => commits,
            Err(message) => {
                return Some(Err(message));
            },
        };
        let ghost count = walk_count(snapshot.walk@, max_count);
        let ghost fresh = commit_states(commits@);
        proof {
            lemma_collected(snapshot.walk@, count);
        }
        if commits.len() > i32::MAX as usize || commits.len() > snapshot.lookups.len() {
            return None;
        }
        if settings.branches.order.len() == usize::MAX {
            return None;
        }
        let indices = index_commits(&commits);
        proof {
            lemma_linked(fresh);
        }
        assign_children(&mut commits, &indices);
        let ghost linked = commit_states(commits@);
        proof {
            lemma_extracted(
                snapshot.branches,
                linked,
                snapshot.lookups@,
                indices@,
                settings.branches,
            );
        }
        let assignment = try_assign_branches(
            &snapshot.branches,
            &snapshot.lookups,
            &mut commits,
            &indices,
            settings,
        );
        let mut branches = match assignment {
            None => {
                return None;
            },
            Some(Err(message)) => {
                return Some(Err(message));
            },
            Some(Ok(branches)) => branches,
        };
        let ghost assignment = Assignment {
            commits: commit_states(commits@),
            branches: branch_states(branches@),
        };
        proof {
            let listed = extracted(
                snapshot.branches,
                linked,
                snapshot.lookups@,
                indices@,
                settings.branches,
            )->0->Ok_0;
            lemma_assigned(
                linked,
                snapshot.lookups@,
                indices@,
                settings.branches.order@.len() + 1,
                listed,
                listed.len() as int,
            );
            lemma_layable(
                assignment,
                linked,
                indices@,
                settings.branches.order@.len() + 1,
            );
        }
        let displaced: Vec<usize> = match settings.branch_order {
            BranchOrder::FirstComeFirstServed(forward) => {
                assert(sortable(assignment.branches, linked.len(), forward));
                assign_branch_columns_fcfs(&commits, &mut branches, &settings.branches, forward);
                Vec::new()
            },
            BranchOrder::ShortestFirst(forward) => {
                assert(sortable_by_length(assignment.branches, linked.len(), true, forward));
                assign_branch_columns_branch_length(
                    &commits,
                    &indices,
                    &mut branches,
                    &settings.branches,
                    true,
                    forward,
                )
            },
            BranchOrder::LongestFirst(forward) => {
                assert(sortable_by_length(assignment.branches, linked.len(), false, forward));
                assign_branch_columns_branch_length(
                    &commits,
                    &indices,
                    &mut branches,
                    &settings.branches,
                    false,
                    forward,
                )
            },
        };
        if settings.include_remote {
            Some(Ok((GitGraph { commits, indices, branches }, displaced)))
        } else {
            match filter_commits(commits, &indices, branches) {
                Some((commits, indices, branches)) => Some(
                    Ok((GitGraph { commits, indices, branches }, displaced)),
                ),
                None => None,
            }
        }
    }

    /// The graph of a repository, with the branches that were kept out of a free lane for the sake
    /// of the branch they were merged into.
    pub fn new(snapshot: &Snapshot, settings: &Settings, max_count: Option<usize>) -> (result: Result<
        (Self, Vec<usize>),
        String,
    >)
        requires
            graph_of(*snapshot, *settings, max_count) is Some,
        ensures
            match (result, graph_of(*snapshot, *settings, max_count)->0) {
                (Err(message), Err(expected)) => message@ == expected,
                (Ok((graph, displaced)), Ok(expected)) => graph@ == expected.0 && displaced@
                    == expected.1,
                _ => false,
            },
    {
        Self::try_new(snapshot, settings, max_count).unwrap()
    }
}

} // verus!
