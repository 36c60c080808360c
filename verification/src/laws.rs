//! What holds of every graph.

use crate::assign::{assigned, Assignment};
use crate::branch::{BranchState, VisState};
use crate::chains::{
    closed_under_first_parents, follows_first_parents, is_first_parent,
    law_branches_follow_first_parents, reached,
};
use crate::children::with_children;
use crate::columns::{
    columns_of, fills, first_position, free_of_overlaps, groups_in_order, has_range, in_columns,
    last_position, overlap,
};
use crate::commit::{Commit, CommitState};
use crate::extract::{extracted, law_extracted_by_persistence, ranks_no_later};
use crate::fcfs::{
    end_position, fcfs_columns, law_fcfs_free_of_overlaps, law_fcfs_leaves_no_gaps,
    law_fcfs_places_every_branch, within,
};
use crate::filter::{
    first_kept, kept_commits, kept_positions, last_kept, moved_range, moves, on_branches,
    positions,
};
use crate::graph::{collected, drawn, graph_of, laid_out, walk_count, GraphState, Snapshot};
use crate::invariants::{
    ascending, assignment_ordered, assignment_sound, children_first, distinct, tips_listed,
    well_assigned, well_ordered,
};
use crate::invariants::{
    law_commits_list_their_branches, lemma_assigned, lemma_collected, lemma_extracted,
    lemma_linked, lemma_positions,
};
use crate::length::{law_length_free_of_overlaps, law_length_leaves_no_gaps, length_columns};
use crate::oid::Oid;
use crate::ranges::{is_bare, law_branches_span_their_commits, lies_in, spans_commits};
use crate::settings::{BranchOrder, Settings};
use crate::trace::{indexes, traces_of};
use vstd::prelude::*;

verus! {

/// The number of commits of the history that are looked at.
pub open spec fn history_len(snapshot: Snapshot, max_count: Option<usize>) -> int {
    walk_count(snapshot.walk@, max_count)
}

/// The commits of the history that are looked at.
pub open spec fn history(snapshot: Snapshot, max_count: Option<usize>) -> Seq<CommitState> {
    collected(snapshot.walk@, history_len(snapshot, max_count))->Ok_0
}

/// Their positions.
pub open spec fn history_positions(snapshot: Snapshot, max_count: Option<usize>) -> Map<
    Oid,
    usize,
> {
    positions(history(snapshot, max_count), history_len(snapshot, max_count))
}

/// The same commits, with their children.
pub open spec fn linked_history(snapshot: Snapshot, max_count: Option<usize>) -> Seq<CommitState> {
    with_children(history(snapshot, max_count), history_positions(snapshot, max_count))
}

/// The branches of the repository, by persistence, if they can be had.
pub open spec fn history_branches(
    snapshot: Snapshot,
    settings: Settings,
    max_count: Option<usize>,
) -> Option<Result<Seq<BranchState>, Seq<char>>> {
    extracted(
        snapshot.branches,
        linked_history(snapshot, max_count),
        snapshot.lookups@,
        history_positions(snapshot, max_count),
        settings.branches,
    )
}

/// The commits with their branches, before branches get their columns.
pub open spec fn history_assignment(
    snapshot: Snapshot,
    settings: Settings,
    max_count: Option<usize>,
) -> Assignment {
    let branches = history_branches(snapshot, settings, max_count)->0->Ok_0;
    assigned(
        linked_history(snapshot, max_count),
        snapshot.lookups@,
        history_positions(snapshot, max_count),
        branches,
        branches.len() as int,
    )
}

/// Whether the walk lists each commit once.
pub open spec fn walks_once(snapshot: Snapshot, max_count: Option<usize>) -> bool {
    distinct(history(snapshot, max_count))
}

/// Whether the walk lists commits before their parents.
pub open spec fn walks_children_first(snapshot: Snapshot, max_count: Option<usize>) -> bool {
    children_first(
        snapshot.lookups@,
        history_positions(snapshot, max_count),
        history_len(snapshot, max_count),
    )
}

/// Whether there is anything to draw: the history and the branches can be had, and commits and
/// order groups can be counted.
pub open spec fn drawable(snapshot: Snapshot, settings: Settings, max_count: Option<usize>) -> bool {
    &&& collected(snapshot.walk@, history_len(snapshot, max_count)) is Ok
    &&& history_len(snapshot, max_count) <= i32::MAX
    &&& history_len(snapshot, max_count) <= snapshot.lookups@.len()
    &&& settings.branches.order@.len() < usize::MAX
    &&& history_branches(snapshot, settings, max_count) matches Some(Ok(_))
}

/// What is drawable has commits with their branches, which are drawn.
pub proof fn lemma_history(snapshot: Snapshot, settings: Settings, max_count: Option<usize>)
    requires
        drawable(snapshot, settings, max_count),
    ensures
        ({
            let commits = history(snapshot, max_count);
            let indices = history_positions(snapshot, max_count);
            let assignment = history_assignment(snapshot, settings, max_count);
            let groups = settings.branches.order@.len() + 1;
            &&& commits.len() == history_len(snapshot, max_count)
            &&& assignment.branches.len() <= usize::MAX
            &&& assignment_sound(
                assignment,
                linked_history(snapshot, max_count),
                indices,
                groups,
            )
            &&& indexes(indices, assignment.commits)
            &&& forall|i: int|
                0 <= i < assignment.commits.len() ==> indices.contains_key(
                    (#[trigger] assignment.commits[i]).oid,
                ) && indices[assignment.commits[i].oid] >= i
            &&& walks_once(snapshot, max_count) ==> distinct(assignment.commits) && forall|i: int|
                0 <= i < assignment.commits.len() ==> indices[(
                #[trigger] assignment.commits[i]).oid] == i
            &&& walks_children_first(snapshot, max_count) ==> assignment_ordered(
                assignment,
                indices,
            )
            &&& graph_of(snapshot, settings, max_count) == match drawn(
                settings,
                indices,
                assignment,
            ) {
                Some(graph) => Some(Ok::<(GraphState, Seq<usize>), Seq<char>>(graph)),
                None => None,
            }
        }),
{
    let count = history_len(snapshot, max_count);
    let commits = history(snapshot, max_count);
    let indices = history_positions(snapshot, max_count);
    let linked = linked_history(snapshot, max_count);
    let assignment = history_assignment(snapshot, settings, max_count);
    let branches = history_branches(snapshot, settings, max_count)->0->Ok_0;
    lemma_collected(snapshot.walk@, count);
    lemma_linked(commits);
    lemma_positions(commits, count);
    lemma_extracted(
        snapshot.branches,
        linked,
        snapshot.lookups@,
        indices,
        settings.branches,
    );
    lemma_assigned(
        linked,
        snapshot.lookups@,
        indices,
        settings.branches.order@.len() + 1,
        branches,
        branches.len() as int,
    );
    assert forall|i: int| 0 <= i < count implies (#[trigger] assignment.commits[i]).oid
        == commits[i].oid by {
        assert(linked[i].oid == commits[i].oid);
    }
    assert forall|oid: Oid| #[trigger] indices.contains_key(oid) implies indices[oid]
        < assignment.commits.len() && assignment.commits[indices[oid] as int].oid == oid by {}
    if walks_once(snapshot, max_count) {
        assert forall|i: int, j: int|
            #![trigger assignment.commits[i].oid, assignment.commits[j].oid]
            0 <= i < count && 0 <= j < count && i != j implies assignment.commits[i].oid
            != assignment.commits[j].oid by {
            assert(commits[i].oid != commits[j].oid);
        }
        assert forall|i: int| 0 <= i < count implies indices[(
        #[trigger] assignment.commits[i]).oid] == i by {
            assert(indices[commits[i].oid] == i);
        }
    }
}

/// A graph comes only from what is drawable.
pub proof fn lemma_drawable(snapshot: Snapshot, settings: Settings, max_count: Option<usize>)
    requires
        graph_of(snapshot, settings, max_count) matches Some(Ok(_)),
    ensures
        drawable(snapshot, settings, max_count),
{
    lemma_collected(snapshot.walk@, history_len(snapshot, max_count));
}

/// The position of the commit at `i` among those that are kept.
spec fn rank(commits: Seq<CommitState>, i: int) -> nat {
    on_branches(commits, i).len()
}

proof fn lemma_rank_monotonic(commits: Seq<CommitState>, i: int, j: int)
    requires
        0 <= i <= j,
    ensures
        rank(commits, i) <= rank(commits, j) <= rank(commits, i) + (j - i),
        i < j && commits[i].branch_trace is Some ==> rank(commits, i) < rank(commits, j),
    decreases j - i,
{
    if i < j {
        lemma_rank_monotonic(commits, i, j - 1);
    }
}

/// Whether the commit at `i` is the one at `p` among those of the first `count` that are kept.
spec fn kept_from(commits: Seq<CommitState>, count: int, p: int, i: int) -> bool {
    &&& 0 <= i < count
    &&& commits[i].branch_trace is Some
    &&& rank(commits, i) == p
    &&& on_branches(commits, count)[p] == commits[i]
}

proof fn lemma_on_branches(commits: Seq<CommitState>, count: int)
    requires
        0 <= count <= commits.len(),
    ensures
        forall|i: int|
            0 <= i < count && (#[trigger] commits[i]).branch_trace is Some ==> rank(commits, i)
                < on_branches(commits, count).len() && on_branches(commits, count)[rank(
                commits,
                i,
            ) as int] == commits[i],
        forall|p: int|
            0 <= p < on_branches(commits, count).len() ==> (#[trigger] on_branches(
                commits,
                count,
            )[p]).branch_trace is Some && exists|i: int| kept_from(commits, count, p, i),
    decreases count,
{
    if count > 0 {
        let before = on_branches(commits, count - 1);
        let after = on_branches(commits, count);
        lemma_on_branches(commits, count - 1);
        assert forall|p: int| 0 <= p < after.len() implies (#[trigger] after[p]).branch_trace is Some
            && exists|i: int| kept_from(commits, count, p, i) by {
            if p < before.len() {
                assert(after[p] == before[p]);
                let shorter = count - 1;
                let i = choose|i: int| kept_from(commits, shorter, p, i);
                assert(kept_from(commits, count, p, i));
            } else {
                assert(kept_from(commits, count, p, count - 1));
            }
        }
    }
}

/// Where each commit stands at the position that is known for its id, positions move to ranks.
proof fn lemma_moves(commits: Seq<CommitState>, indices: Map<Oid, usize>)
    requires
        commits.len() <= usize::MAX,
        distinct(commits),
        forall|i: int|
            0 <= i < commits.len() ==> indices.contains_key((#[trigger] commits[i]).oid)
                && indices[commits[i].oid] == i,
    ensures
        distinct(kept_commits(commits)),
        kept_commits(commits).len() <= commits.len(),
        forall|i: int|
            0 <= i < commits.len() ==> #[trigger] moves(commits, indices)[i] == Some(
                if commits[i].branch_trace is Some {
                    Some(rank(commits, i) as usize)
                } else {
                    None
                },
            ),
{
    let kept = kept_commits(commits);
    lemma_on_branches(commits, commits.len() as int);
    lemma_rank_monotonic(commits, 0, commits.len() as int);
    assert forall|p: int, q: int|
        #![trigger kept[p].oid, kept[q].oid]
        0 <= p < kept.len() && 0 <= q < kept.len() && p != q implies kept[p].oid != kept[q].oid by {
        let i = choose|i: int| kept_from(commits, commits.len() as int, p, i);
        let j = choose|j: int| kept_from(commits, commits.len() as int, q, j);
        assert(commits[i].oid != commits[j].oid);
    }
    lemma_positions(kept, kept.len() as int);
    assert forall|i: int| 0 <= i < commits.len() implies #[trigger] moves(commits, indices)[i]
        == Some(
        if commits[i].branch_trace is Some {
            Some(rank(commits, i) as usize)
        } else {
            None
        },
    ) by {
        let oid = commits[i].oid;
        if commits[i].branch_trace is Some {
            assert(kept[rank(commits, i) as int].oid == oid);
        } else if kept_positions(commits).contains_key(oid) {
            let p = kept_positions(commits)[oid] as int;
            assert(kept[p].oid == oid);
            let j = choose|j: int| kept_from(commits, commits.len() as int, p, j);
            assert(commits[i].oid != commits[j].oid);
        }
    }
}

/// The first commit that is kept from a position on is not before that position.
proof fn lemma_first_kept(commits: Seq<CommitState>, indices: Map<Oid, usize>, position: int)
    requires
        commits.len() <= usize::MAX,
        forall|i: int|
            0 <= i < commits.len() ==> #[trigger] moves(commits, indices)[i] == Some(
                if commits[i].branch_trace is Some {
                    Some(rank(commits, i) as usize)
                } else {
                    None
                },
            ),
        0 <= position,
    ensures
        first_kept(moves(commits, indices), position) matches Some(kept) ==> exists|a: int|
            position <= a < commits.len() && (#[trigger] commits[a]).branch_trace is Some && kept
                == rank(commits, a) && forall|q: int|
                position <= q < commits.len() && (#[trigger] commits[q]).branch_trace is Some ==> a
                    <= q,
        (exists|q: int|
            position <= q < commits.len() && (#[trigger] commits[q]).branch_trace is Some)
            ==> first_kept(moves(commits, indices), position) is Some,
    decreases commits.len() - position,
{
    let moved = moves(commits, indices);
    lemma_rank_monotonic(commits, 0, position);
    if position < commits.len() {
        assert(moved[position] == Some(
            if commits[position].branch_trace is Some {
                Some(rank(commits, position) as usize)
            } else {
                None
            },
        ));
        if commits[position].branch_trace is None {
            lemma_first_kept(commits, indices, position + 1);
            if let Some(kept) = first_kept(moved, position) {
                let a = choose|a: int|
                    position + 1 <= a < commits.len() && (#[trigger] commits[a]).branch_trace is Some
                        && kept == rank(commits, a) && forall|q: int|
                        position + 1 <= q < commits.len() && (
                        #[trigger] commits[q]).branch_trace is Some ==> a <= q;
                assert(commits[a].branch_trace is Some);
            }
            if exists|q: int|
                position <= q < commits.len() && (#[trigger] commits[q]).branch_trace is Some {
                let q = choose|q: int|
                    position <= q < commits.len() && (#[trigger] commits[q]).branch_trace is Some;
                assert(position + 1 <= q);
                assert(commits[q].branch_trace is Some);
            }
        } else {
            assert(commits[position].branch_trace is Some);
        }
    }
}

/// The last commit that is kept up to a position is not after that position.
proof fn lemma_last_kept(commits: Seq<CommitState>, indices: Map<Oid, usize>, position: int)
    requires
        commits.len() <= usize::MAX,
        forall|i: int|
            0 <= i < commits.len() ==> #[trigger] moves(commits, indices)[i] == Some(
                if commits[i].branch_trace is Some {
                    Some(rank(commits, i) as usize)
                } else {
                    None
                },
            ),
        position < commits.len(),
    ensures
        last_kept(moves(commits, indices), position) matches Some(kept) ==> exists|b: int|
            0 <= b <= position && (#[trigger] commits[b]).branch_trace is Some && kept == rank(
                commits,
                b,
            ) && forall|q: int|
                0 <= q <= position && (#[trigger] commits[q]).branch_trace is Some ==> q <= b,
        (exists|q: int| 0 <= q <= position && (#[trigger] commits[q]).branch_trace is Some)
            ==> last_kept(moves(commits, indices), position) is Some,
    decreases position + 1,
{
    let moved = moves(commits, indices);
    if position >= 0 {
        lemma_rank_monotonic(commits, 0, position);
        assert(moved[position] == Some(
            if commits[position].branch_trace is Some {
                Some(rank(commits, position) as usize)
            } else {
                None
            },
        ));
        if commits[position].branch_trace is None {
            lemma_last_kept(commits, indices, position - 1);
            if let Some(kept) = last_kept(moved, position) {
                let b = choose|b: int|
                    0 <= b <= position - 1 && (#[trigger] commits[b]).branch_trace is Some && kept
                        == rank(commits, b) && forall|q: int|
                        0 <= q <= position - 1 && (#[trigger] commits[q]).branch_trace is Some ==> q
                            <= b;
                assert(commits[b].branch_trace is Some);
            }
            if exists|q: int|
                0 <= q <= position && (#[trigger] commits[q]).branch_trace is Some {
                let q = choose|q: int|
                    0 <= q <= position && (#[trigger] commits[q]).branch_trace is Some;
                assert(q <= position - 1);
                assert(commits[q].branch_trace is Some);
            }
        } else {
            assert(commits[position].branch_trace is Some);
        }
    }
}

/// A graph holds at most the commits that were asked for, in the order of the walk; with remote
/// branches it holds all of these.
pub proof fn law_graph_holds_commits_asked_for(
    snapshot: Snapshot,
    settings: Settings,
    max_count: Option<usize>,
    graph: GraphState,
    displaced: Seq<usize>,
)
    requires
        graph_of(snapshot, settings, max_count) == Some(
            Ok::<(GraphState, Seq<usize>), Seq<char>>((graph, displaced)),
        ),
    ensures
        graph.commits.len() <= history_len(snapshot, max_count),
        max_count matches Some(max) ==> graph.commits.len() <= max,
        settings.include_remote ==> graph.commits.len() == history_len(snapshot, max_count),
        settings.include_remote ==> forall|i: int|
            0 <= i < graph.commits.len() ==> snapshot.walk@[i] is Ok && (
            #[trigger] graph.commits[i]).oid == snapshot.walk@[i]->Ok_0.id,
{
    lemma_drawable(snapshot, settings, max_count);
    lemma_history(snapshot, settings, max_count);
    lemma_collected(snapshot.walk@, history_len(snapshot, max_count));
    let commits = history_assignment(snapshot, settings, max_count).commits;
    lemma_rank_monotonic(commits, 0, commits.len() as int);
    if settings.include_remote {
        assert forall|i: int| 0 <= i < graph.commits.len() implies snapshot.walk@[i] is Ok && (
        #[trigger] graph.commits[i]).oid == snapshot.walk@[i]->Ok_0.id by {
            assert(snapshot.walk@[i] is Ok);
            assert(linked_history(snapshot, max_count)[i].oid == history(
                snapshot,
                max_count,
            )[i].oid);
        }
    }
}

/// The positions of a graph are those of its commits, by their ids, of the last one where several
/// have one id.
pub proof fn law_graph_is_indexed(
    snapshot: Snapshot,
    settings: Settings,
    max_count: Option<usize>,
    graph: GraphState,
    displaced: Seq<usize>,
)
    requires
        graph_of(snapshot, settings, max_count) == Some(
            Ok::<(GraphState, Seq<usize>), Seq<char>>((graph, displaced)),
        ),
    ensures
        indexes(graph.indices, graph.commits),
        forall|i: int|
            0 <= i < graph.commits.len() ==> graph.indices.contains_key(
                (#[trigger] graph.commits[i]).oid,
            ) && graph.indices[graph.commits[i].oid] >= i,
        walks_once(snapshot, max_count) ==> forall|i: int|
            0 <= i < graph.commits.len() ==> graph.indices[(#[trigger] graph.commits[i]).oid] == i,
{
    lemma_drawable(snapshot, settings, max_count);
    lemma_history(snapshot, settings, max_count);
    let assignment = history_assignment(snapshot, settings, max_count);
    let commits = assignment.commits;
    let kept = kept_commits(commits);
    lemma_rank_monotonic(commits, 0, commits.len() as int);
    if !settings.include_remote {
        lemma_positions(kept, kept.len() as int);
        if walks_once(snapshot, max_count) {
            lemma_moves(commits, history_positions(snapshot, max_count));
        }
    }
}

/// The branches that commits of a graph belong to are branches of the graph, and the commit that a
/// branch points at is in the graph and belongs to a branch. Without remote branches every commit
/// of the graph belongs to a branch.
pub proof fn law_graph_commits_belong_to_branches(
    snapshot: Snapshot,
    settings: Settings,
    max_count: Option<usize>,
    graph: GraphState,
    displaced: Seq<usize>,
)
    requires
        graph_of(snapshot, settings, max_count) == Some(
            Ok::<(GraphState, Seq<usize>), Seq<char>>((graph, displaced)),
        ),
    ensures
        forall|i: int|
            0 <= i < graph.commits.len() ==> ((#[trigger] graph.commits[i]).branch_trace matches Some(
                number,
            ) ==> number < graph.branches.len()),
        !settings.include_remote ==> forall|i: int|
            0 <= i < graph.commits.len() ==> (#[trigger] graph.commits[i]).branch_trace is Some,
        forall|b: int|
            0 <= b < graph.branches.len() ==> graph.indices.contains_key(
                (#[trigger] graph.branches[b]).target,
            ) && graph.commits[graph.indices[graph.branches[b].target] as int].branch_trace is Some,
{
    lemma_drawable(snapshot, settings, max_count);
    lemma_history(snapshot, settings, max_count);
    law_graph_is_indexed(snapshot, settings, max_count, graph, displaced);
    let assignment = history_assignment(snapshot, settings, max_count);
    let commits = assignment.commits;
    let indices = history_positions(snapshot, max_count);
    let groups = settings.branches.order@.len() + 1;
    lemma_on_branches(commits, commits.len() as int);
    if !settings.include_remote {
        assert forall|p: int| 0 <= p < graph.commits.len() implies {
            &&& (#[trigger] graph.commits[p]).branch_trace is Some
            &&& graph.commits[p].branch_trace->0 < graph.branches.len()
        } by {
            let i = choose|i: int| kept_from(commits, commits.len() as int, p, i);
            assert(assignment.commits[i].branch_trace is Some);
        }
    }
    assert forall|b: int| 0 <= b < graph.branches.len() implies graph.indices.contains_key(
        (#[trigger] graph.branches[b]).target,
    ) && graph.commits[graph.indices[graph.branches[b].target] as int].branch_trace is Some by {
        assert(well_assigned(assignment.branches[b], commits, indices, groups));
        if !settings.include_remote {
            let i = indices[graph.branches[b].target] as int;
            assert(commits[i].branch_trace is Some);
            assert(graph.commits[rank(commits, i) as int] == commits[i]);
        }
    }
}

/// The columns that branches get before commits are left out.
proof fn lemma_laid_out(snapshot: Snapshot, settings: Settings, max_count: Option<usize>)
    requires
        drawable(snapshot, settings, max_count),
    ensures
        ({
            let assignment = history_assignment(snapshot, settings, max_count);
            let columns = laid_out(
                settings.branch_order,
                settings.branches.order@.len() + 1,
                assignment.commits,
                history_positions(snapshot, max_count),
                assignment.branches,
            ).0;
            &&& free_of_overlaps(assignment.branches, assignment.commits.len(), columns)
            &&& groups_in_order(assignment.branches, columns)
            &&& forall|b: int|
                0 <= b < assignment.branches.len() && (#[trigger] columns[b]) is Some ==> has_range(
                    assignment.branches[b],
                )
            &&& forall|b: int|
                0 <= b < assignment.branches.len() && has_range(#[trigger] assignment.branches[b])
                    && (settings.branch_order != BranchOrder::FirstComeFirstServed(true) || first_position(
                    assignment.branches[b],
                ) < assignment.commits.len()) ==> columns[b] is Some
            &&& columns.len() == assignment.branches.len()
            &&& exists|n: nat| #[trigger] fills(columns, n)
        }),
{
    lemma_history(snapshot, settings, max_count);
    let assignment = history_assignment(snapshot, settings, max_count);
    let commits = assignment.commits;
    let branches = assignment.branches;
    let indices = history_positions(snapshot, max_count);
    let groups = settings.branches.order@.len() + 1;
    assert forall|b: int|
        #![trigger branches[b]]
        0 <= b < branches.len() implies branches[b].visual.column is None
        && branches[b].visual.order_group < groups by {
        assert(well_assigned(branches[b], commits, indices, groups));
    }
    match settings.branch_order {
        BranchOrder::FirstComeFirstServed(forward) => {
            law_fcfs_free_of_overlaps(branches, groups, commits.len(), forward);
            law_fcfs_leaves_no_gaps(branches, groups, commits.len(), forward);
            assert forall|b: int|
                #![trigger branches[b]]
                0 <= b < branches.len() && has_range(branches[b]) implies {
                let opens = end_position(branches[b], commits.len(), !forward);
                &&& opens <= i32::MAX
                &&& !forward ==> opens < commits.len()
            } by {
                assert(well_assigned(branches[b], commits, indices, groups));
                assert(indices.contains_key(branches[b].target));
            }
            assert(within(branches, commits.len(), forward));
            assert forall|b: int|
                0 <= b < branches.len() && has_range(#[trigger] branches[b]) && (!forward
                    || first_position(branches[b]) < commits.len()) implies fcfs_columns(
                branches,
                groups,
                commits.len(),
                forward,
            )[b] is Some by {
                law_fcfs_places_every_branch(branches, groups, commits.len(), forward, b);
            }
        },
        BranchOrder::ShortestFirst(forward) => {
            law_length_free_of_overlaps(branches, groups, commits, indices, true, forward);
            law_length_leaves_no_gaps(branches, groups, commits, indices, true, forward);
            assert forall|b: int|
                0 <= b < branches.len() && has_range(#[trigger] branches[b]) implies length_columns(
                branches,
                groups,
                commits,
                indices,
                true,
                forward,
            )[b] is Some by {}
        },
        BranchOrder::LongestFirst(forward) => {
            law_length_free_of_overlaps(branches, groups, commits, indices, false, forward);
            law_length_leaves_no_gaps(branches, groups, commits, indices, false, forward);
            assert forall|b: int|
                0 <= b < branches.len() && has_range(#[trigger] branches[b]) implies length_columns(
                branches,
                groups,
                commits,
                indices,
                false,
                forward,
            )[b] is Some by {}
        },
    }
}

/// What the branches of a graph have from those that commits were assigned to: each is the same but
/// for its column and, where commits are left out, its range.
pub proof fn lemma_drawn_branches(
    snapshot: Snapshot,
    settings: Settings,
    max_count: Option<usize>,
    graph: GraphState,
    displaced: Seq<usize>,
)
    requires
        graph_of(snapshot, settings, max_count) == Some(
            Ok::<(GraphState, Seq<usize>), Seq<char>>((graph, displaced)),
        ),
    ensures
        ({
            let assignment = history_assignment(snapshot, settings, max_count);
            let indices = history_positions(snapshot, max_count);
            let columns = laid_out(
                settings.branch_order,
                settings.branches.order@.len() + 1,
                assignment.commits,
                indices,
                assignment.branches,
            ).0;
            &&& graph.branches.len() == assignment.branches.len()
            &&& forall|b: int|
                0 <= b < graph.branches.len() ==> {
                    let branch = assignment.branches[b];
                    &&& (#[trigger] graph.branches[b]).visual.column == columns[b]
                    &&& graph.branches[b].visual.order_group == branch.visual.order_group
                    &&& graph.branches[b].target == branch.target
                    &&& graph.branches[b].deleted == branch.deleted
                    &&& graph.branches[b].persistence == branch.persistence
                    &&& graph.branches[b].is_merged == branch.is_merged
                    &&& graph.branches[b] == (BranchState {
                        visual: VisState { column: columns[b], ..branch.visual },
                        range: graph.branches[b].range,
                        ..branch
                    })
                    &&& settings.include_remote ==> graph.branches[b].range == branch.range
                    &&& !settings.include_remote ==> moved_range(
                        moves(assignment.commits, indices),
                        branch.range,
                    ) == Some(graph.branches[b].range)
                }
        }),
{
    lemma_drawable(snapshot, settings, max_count);
    lemma_history(snapshot, settings, max_count);
    let assignment = history_assignment(snapshot, settings, max_count);
    let indices = history_positions(snapshot, max_count);
    let columns = laid_out(
        settings.branch_order,
        settings.branches.order@.len() + 1,
        assignment.commits,
        indices,
        assignment.branches,
    ).0;
    let placed = in_columns(assignment.branches, columns);
    assert forall|b: int| 0 <= b < graph.branches.len() implies {
        let branch = assignment.branches[b];
        &&& (#[trigger] graph.branches[b]).visual.column == columns[b]
        &&& graph.branches[b].visual.order_group == branch.visual.order_group
        &&& graph.branches[b].target == branch.target
        &&& graph.branches[b].deleted == branch.deleted
        &&& graph.branches[b].persistence == branch.persistence
        &&& graph.branches[b].is_merged == branch.is_merged
        &&& graph.branches[b] == (BranchState {
            visual: VisState { column: columns[b], ..branch.visual },
            range: graph.branches[b].range,
            ..branch
        })
        &&& settings.include_remote ==> graph.branches[b].range == branch.range
        &&& !settings.include_remote ==> moved_range(
            moves(assignment.commits, indices),
            branch.range,
        ) == Some(graph.branches[b].range)
    } by {
        assert(placed[b].range == assignment.branches[b].range);
    }
}

/// The branches of a group stand to the right of those of the groups before it in a graph, and no
/// column between the first and the last is empty. Only branches with positions have a column, and
/// all of them that start at a commit of the graph have one. That is all branches with positions
/// where commits stand before their parents or commits are left out. Other branches, too, have one
/// unless they are laid out by first-come first-served scheduling from the first commit on.
pub proof fn law_graph_columns(
    snapshot: Snapshot,
    settings: Settings,
    max_count: Option<usize>,
    graph: GraphState,
    displaced: Seq<usize>,
)
    requires
        graph_of(snapshot, settings, max_count) == Some(
            Ok::<(GraphState, Seq<usize>), Seq<char>>((graph, displaced)),
        ),
    ensures
        groups_in_order(graph.branches, columns_of(graph.branches)),
        exists|n: nat| #[trigger] fills(columns_of(graph.branches), n),
        forall|b: int|
            0 <= b < graph.branches.len() && (#[trigger] graph.branches[b]).visual.column is Some
                ==> has_range(graph.branches[b]),
        forall|b: int|
            0 <= b < graph.branches.len() && has_range(#[trigger] graph.branches[b])
                && first_position(graph.branches[b]) < graph.commits.len()
                ==> graph.branches[b].visual.column is Some,
        settings.branch_order != BranchOrder::FirstComeFirstServed(true) || !settings.include_remote
            || walks_children_first(snapshot, max_count) ==> forall|b: int|
            0 <= b < graph.branches.len() && has_range(#[trigger] graph.branches[b])
                ==> graph.branches[b].visual.column is Some,
{
    lemma_drawable(snapshot, settings, max_count);
    lemma_history(snapshot, settings, max_count);
    lemma_laid_out(snapshot, settings, max_count);
    lemma_drawn_branches(snapshot, settings, max_count, graph, displaced);
    let assignment = history_assignment(snapshot, settings, max_count);
    let branches = assignment.branches;
    let commits = assignment.commits;
    let indices = history_positions(snapshot, max_count);
    let groups = settings.branches.order@.len() + 1;
    let columns = laid_out(settings.branch_order, groups, commits, indices, branches).0;
    let shown = columns_of(graph.branches);
    assert forall|i: int, j: int|
        #![trigger shown[i], shown[j]]
        0 <= i < graph.branches.len() && 0 <= j < graph.branches.len() && shown[i] is Some
            && shown[j] is Some && graph.branches[i].visual.order_group
            < graph.branches[j].visual.order_group implies shown[i]->0 < shown[j]->0 by {
        assert(graph.branches[i].visual.column == columns[i]);
        assert(graph.branches[j].visual.column == columns[j]);
    }
    assert(shown =~= columns);
    assert forall|b: int|
        0 <= b < graph.branches.len() && has_range(#[trigger] graph.branches[b]) && (
        settings.branch_order != BranchOrder::FirstComeFirstServed(true) || !settings.include_remote
            || walks_children_first(snapshot, max_count) || first_position(graph.branches[b])
            < graph.commits.len()) implies graph.branches[b].visual.column is Some by {
        assert(has_range(branches[b]));
        assert(well_assigned(branches[b], commits, indices, groups));
        if walks_children_first(snapshot, max_count) {
            assert(well_ordered(branches[b], commits, indices));
        }
    }
}

/// Two ranges apart from each other stay apart when commits are left out.
proof fn lemma_moved_apart(
    commits: Seq<CommitState>,
    indices: Map<Oid, usize>,
    last: usize,
    first: usize,
)
    requires
        commits.len() <= usize::MAX,
        distinct(commits),
        forall|i: int|
            0 <= i < commits.len() ==> indices.contains_key((#[trigger] commits[i]).oid)
                && indices[commits[i].oid] == i,
        last < first,
        last < commits.len(),
    ensures
        ({
            let moved = moves(commits, indices);
            match (last_kept(moved, last as int), first_kept(moved, first as int)) {
                (Some(before), Some(after)) => before < after,
                _ => true,
            }
        }),
{
    let moved = moves(commits, indices);
    lemma_moves(commits, indices);
    lemma_last_kept(commits, indices, last as int);
    lemma_first_kept(commits, indices, first as int);
    if let (Some(before), Some(after)) = (
        last_kept(moved, last as int),
        first_kept(moved, first as int),
    ) {
        let b = choose|b: int|
            0 <= b <= last && (#[trigger] commits[b]).branch_trace is Some && before == rank(
                commits,
                b,
            ) && forall|q: int|
                0 <= q <= last && (#[trigger] commits[q]).branch_trace is Some ==> q <= b;
        let a = choose|a: int|
            first <= a < commits.len() && (#[trigger] commits[a]).branch_trace is Some && after
                == rank(commits, a) && forall|q: int|
                first <= q < commits.len() && (#[trigger] commits[q]).branch_trace is Some ==> a
                    <= q;
        lemma_rank_monotonic(commits, b, a);
    }
}

/// No two branches of a graph share a column and a position.
pub proof fn law_graph_free_of_overlaps(
    snapshot: Snapshot,
    settings: Settings,
    max_count: Option<usize>,
    graph: GraphState,
    displaced: Seq<usize>,
)
    requires
        settings.include_remote || walks_once(snapshot, max_count),
        graph_of(snapshot, settings, max_count) == Some(
            Ok::<(GraphState, Seq<usize>), Seq<char>>((graph, displaced)),
        ),
    ensures
        free_of_overlaps(graph.branches, graph.commits.len(), columns_of(graph.branches)),
{
    lemma_drawable(snapshot, settings, max_count);
    lemma_history(snapshot, settings, max_count);
    lemma_laid_out(snapshot, settings, max_count);
    lemma_drawn_branches(snapshot, settings, max_count, graph, displaced);
    let assignment = history_assignment(snapshot, settings, max_count);
    let branches = assignment.branches;
    let commits = assignment.commits;
    let indices = history_positions(snapshot, max_count);
    let groups = settings.branches.order@.len() + 1;
    let columns = laid_out(settings.branch_order, groups, commits, indices, branches).0;
    let shown = columns_of(graph.branches);
    assert forall|i: int, j: int|
        #![trigger shown[i], shown[j]]
        0 <= i < graph.branches.len() && 0 <= j < graph.branches.len() && i != j && shown[i] is Some
            && shown[i] == shown[j] implies !overlap(
        graph.branches,
        graph.commits.len(),
        i,
        j,
    ) by {
        assert(graph.branches[i].visual.column == columns[i]);
        assert(graph.branches[j].visual.column == columns[j]);
        assert(!overlap(branches, commits.len(), i, j));
        if !settings.include_remote {
            assert(has_range(branches[i]) && has_range(branches[j]));
            assert(well_assigned(branches[i], commits, indices, groups));
            assert(well_assigned(branches[j], commits, indices, groups));
            let moved = moves(commits, indices);
            assert(moved_range(moved, branches[i].range) == Some(graph.branches[i].range));
            assert(moved_range(moved, branches[j].range) == Some(graph.branches[j].range));
            let first_i = first_position(branches[i]);
            let first_j = first_position(branches[j]);
            let last_i = last_position(branches[i], commits.len());
            let last_j = last_position(branches[j], commits.len());
            assert(first_i < commits.len() && first_j < commits.len());
            if last_i < first_j {
                lemma_moved_apart(commits, indices, last_i, first_j);
            } else {
                lemma_moved_apart(commits, indices, last_j, first_i);
            }
        }
    }
}

/// What becomes of the range of a branch when commits are left out, where commits stand before
/// their parents.
proof fn lemma_moved_range(
    commits: Seq<CommitState>,
    indices: Map<Oid, usize>,
    groups: nat,
    branch: BranchState,
)
    requires
        commits.len() <= usize::MAX,
        distinct(commits),
        indexes(indices, commits),
        forall|i: int|
            0 <= i < commits.len() ==> indices.contains_key((#[trigger] commits[i]).oid)
                && indices[commits[i].oid] == i,
        well_assigned(branch, commits, indices, groups),
        well_ordered(branch, commits, indices),
    ensures
        match moved_range(moves(commits, indices), branch.range) {
            Some((Some(first), Some(last))) => first <= last < kept_commits(commits).len(),
            Some((Some(first), None)) => first < kept_commits(commits).len(),
            Some((None, last)) => last is None,
            None => false,
        },
{
    let target = indices[branch.target] as int;
    let moved = moves(commits, indices);
    lemma_moves(commits, indices);
    lemma_on_branches(commits, commits.len() as int);
    if let Some(first) = branch.range.0 {
        lemma_first_kept(commits, indices, first as int);
        assert(commits[target].branch_trace is Some);
        let kept = first_kept(moved, first as int)->0;
        let a = choose|a: int|
            first <= a < commits.len() && (#[trigger] commits[a]).branch_trace is Some && kept
                == rank(commits, a) && forall|q: int|
                first <= q < commits.len() && (#[trigger] commits[q]).branch_trace is Some ==> a
                    <= q;
        assert(commits[a].branch_trace is Some);
        if let Some(last) = branch.range.1 {
            let q = choose|q: int|
                target <= q <= last && q < commits.len() && (
                #[trigger] commits[q]).branch_trace is Some;
            lemma_last_kept(commits, indices, last as int);
            assert(commits[q].branch_trace is Some);
            let kept_last = last_kept(moved, last as int)->0;
            let b = choose|b: int|
                0 <= b <= last && (#[trigger] commits[b]).branch_trace is Some && kept_last == rank(
                    commits,
                    b,
                ) && forall|q: int|
                    0 <= q <= last && (#[trigger] commits[q]).branch_trace is Some ==> q <= b;
            assert(commits[b].branch_trace is Some);
            lemma_rank_monotonic(commits, a, b);
        }
    }
}

/// The branches of a graph lie among its commits: a branch with positions has a first one, which
/// is no later than its last one, if that is known.
pub proof fn law_graph_ranges_lie_among_commits(
    snapshot: Snapshot,
    settings: Settings,
    max_count: Option<usize>,
    graph: GraphState,
    displaced: Seq<usize>,
    b: int,
)
    requires
        settings.include_remote || walks_once(snapshot, max_count),
        walks_children_first(snapshot, max_count),
        graph_of(snapshot, settings, max_count) == Some(
            Ok::<(GraphState, Seq<usize>), Seq<char>>((graph, displaced)),
        ),
        0 <= b < graph.branches.len(),
    ensures
        match graph.branches[b].range {
            (Some(first), Some(last)) => first <= last < graph.commits.len(),
            (Some(first), None) => first < graph.commits.len(),
            (None, last) => last is None,
        },
{
    lemma_drawable(snapshot, settings, max_count);
    lemma_history(snapshot, settings, max_count);
    lemma_drawn_branches(snapshot, settings, max_count, graph, displaced);
    let assignment = history_assignment(snapshot, settings, max_count);
    let indices = history_positions(snapshot, max_count);
    let groups = settings.branches.order@.len() + 1;
    let branch = assignment.branches[b];
    assert(graph.branches[b].target == branch.target);
    assert(well_assigned(branch, assignment.commits, indices, groups));
    assert(well_ordered(branch, assignment.commits, indices));
    if !settings.include_remote {
        lemma_moved_range(assignment.commits, indices, groups, branch);
    }
}

/// Whatever is drawable has a graph, if the walk lists each commit once and before its parents.
pub proof fn law_drawable_has_graph(
    snapshot: Snapshot,
    settings: Settings,
    max_count: Option<usize>,
)
    requires
        drawable(snapshot, settings, max_count),
        walks_once(snapshot, max_count),
        walks_children_first(snapshot, max_count),
    ensures
        graph_of(snapshot, settings, max_count) matches Some(Ok(_)),
{
    lemma_history(snapshot, settings, max_count);
    let assignment = history_assignment(snapshot, settings, max_count);
    let indices = history_positions(snapshot, max_count);
    let groups = settings.branches.order@.len() + 1;
    let columns = laid_out(
        settings.branch_order,
        groups,
        assignment.commits,
        indices,
        assignment.branches,
    ).0;
    let placed = in_columns(assignment.branches, columns);
    assert forall|b: int| 0 <= b < placed.len() implies moved_range(
        moves(assignment.commits, indices),
        #[trigger] placed[b].range,
    ) is Some by {
        let branch = assignment.branches[b];
        assert(well_assigned(branch, assignment.commits, indices, groups));
        assert(well_ordered(branch, assignment.commits, indices));
        lemma_moved_range(assignment.commits, indices, groups, branch);
    }
}

/// Each commit of a graph lists the branches that still exist and point at it, each once and in
/// order.
pub proof fn law_graph_commits_list_their_branches(
    snapshot: Snapshot,
    settings: Settings,
    max_count: Option<usize>,
    graph: GraphState,
    displaced: Seq<usize>,
    i: int,
    number: usize,
)
    requires
        walks_once(snapshot, max_count),
        graph_of(snapshot, settings, max_count) == Some(
            Ok::<(GraphState, Seq<usize>), Seq<char>>((graph, displaced)),
        ),
        0 <= i < graph.commits.len(),
    ensures
        graph.commits[i].branches.contains(number) <==> {
            &&& number < graph.branches.len()
            &&& !graph.branches[number as int].deleted
            &&& graph.branches[number as int].target == graph.commits[i].oid
        },
        ascending(graph.commits[i].branches),
{
    lemma_drawable(snapshot, settings, max_count);
    lemma_history(snapshot, settings, max_count);
    lemma_drawn_branches(snapshot, settings, max_count, graph, displaced);
    let assignment = history_assignment(snapshot, settings, max_count);
    let commits = assignment.commits;
    let indices = history_positions(snapshot, max_count);
    let groups = settings.branches.order@.len() + 1;
    lemma_tips(snapshot, settings, max_count);
    lemma_on_branches(commits, commits.len() as int);
    let at = if settings.include_remote {
        i
    } else {
        choose|k: int| kept_from(commits, commits.len() as int, i, k)
    };
    if !settings.include_remote {
        assert(graph.commits[i].branch_trace is Some);
    }
    assert(graph.commits[i] == commits[at]);
    assert(indices[commits[at].oid] == at);
    assert(commits[at].branches.contains(number) <==> {
        &&& number < assignment.branches.len()
        &&& !assignment.branches[number as int].deleted
        &&& indices[assignment.branches[number as int].target] == at
    });
    if number < graph.branches.len() {
        let branch = assignment.branches[number as int];
        assert(well_assigned(branch, commits, indices, groups));
        assert(graph.branches[number as int].target == branch.target);
    }
}

proof fn lemma_tips(snapshot: Snapshot, settings: Settings, max_count: Option<usize>)
    requires
        drawable(snapshot, settings, max_count),
    ensures
        tips_listed(
            history_assignment(snapshot, settings, max_count),
            history_positions(snapshot, max_count),
        ),
{
    let count = history_len(snapshot, max_count);
    let commits = history(snapshot, max_count);
    let indices = history_positions(snapshot, max_count);
    let linked = linked_history(snapshot, max_count);
    let branches = history_branches(snapshot, settings, max_count)->0->Ok_0;
    lemma_collected(snapshot.walk@, count);
    lemma_linked(commits);
    lemma_extracted(snapshot.branches, linked, snapshot.lookups@, indices, settings.branches);
    law_commits_list_their_branches(
        linked,
        snapshot.lookups@,
        indices,
        settings.branches.order@.len() + 1,
        branches,
        branches.len() as int,
    );
}

/// Whether reading a commit again gives the commit of the walk.
pub open spec fn reads_alike(snapshot: Snapshot, max_count: Option<usize>) -> bool {
    forall|i: int|
        0 <= i < history_len(snapshot, max_count) ==> ((#[trigger] snapshot.lookups@[i]) matches Ok(
            commit,
        ) ==> snapshot.walk@[i] is Ok && commit.parents@ == snapshot.walk@[i]->Ok_0.parents@)
}

/// Where a commit of a graph stands in the history.
proof fn lemma_source(
    snapshot: Snapshot,
    settings: Settings,
    max_count: Option<usize>,
    graph: GraphState,
    displaced: Seq<usize>,
    i: int,
) -> (at: int)
    requires
        graph_of(snapshot, settings, max_count) == Some(
            Ok::<(GraphState, Seq<usize>), Seq<char>>((graph, displaced)),
        ),
        0 <= i < graph.commits.len(),
    ensures
        0 <= at < history_assignment(snapshot, settings, max_count).commits.len(),
        graph.commits[i] == history_assignment(snapshot, settings, max_count).commits[at],
        i == if settings.include_remote {
            at
        } else {
            rank(history_assignment(snapshot, settings, max_count).commits, at) as int
        },
{
    lemma_drawable(snapshot, settings, max_count);
    lemma_history(snapshot, settings, max_count);
    let commits = history_assignment(snapshot, settings, max_count).commits;
    if settings.include_remote {
        i
    } else {
        lemma_on_branches(commits, commits.len() as int);
        assert(graph.commits[i].branch_trace is Some);
        choose|k: int| kept_from(commits, commits.len() as int, i, k)
    }
}

/// Where a commit of the history that belongs to a branch stands in a graph.
proof fn lemma_image(
    snapshot: Snapshot,
    settings: Settings,
    max_count: Option<usize>,
    graph: GraphState,
    displaced: Seq<usize>,
    at: int,
) -> (i: int)
    requires
        graph_of(snapshot, settings, max_count) == Some(
            Ok::<(GraphState, Seq<usize>), Seq<char>>((graph, displaced)),
        ),
        0 <= at < history_assignment(snapshot, settings, max_count).commits.len(),
        history_assignment(snapshot, settings, max_count).commits[at].branch_trace is Some,
    ensures
        0 <= i < graph.commits.len(),
        graph.commits[i] == history_assignment(snapshot, settings, max_count).commits[at],
{
    lemma_drawable(snapshot, settings, max_count);
    lemma_history(snapshot, settings, max_count);
    let commits = history_assignment(snapshot, settings, max_count).commits;
    if settings.include_remote {
        at
    } else {
        lemma_on_branches(commits, commits.len() as int);
        assert(commits[at].branch_trace is Some);
        rank(commits, at) as int
    }
}

/// First parents are the same whether they are read on the walk or again.
proof fn lemma_first_parents(
    snapshot: Snapshot,
    settings: Settings,
    max_count: Option<usize>,
    child: int,
    parent: int,
)
    requires
        drawable(snapshot, settings, max_count),
        reads_alike(snapshot, max_count),
        0 <= child < history_len(snapshot, max_count),
    ensures
        ({
            let indices = history_positions(snapshot, max_count);
            let commits = history_assignment(snapshot, settings, max_count).commits;
            is_first_parent(snapshot.lookups@, indices, child, parent) <==> (
            commits[child].parents[0] matches Some(oid) && indices.contains_key(oid) && indices[oid]
                == parent)
        }),
{
    lemma_history(snapshot, settings, max_count);
    lemma_chains(snapshot, settings, max_count);
    lemma_collected(snapshot.walk@, history_len(snapshot, max_count));
    let commits = history_assignment(snapshot, settings, max_count).commits;
    assert(snapshot.lookups@[child] is Ok);
    assert(linked_history(snapshot, max_count)[child].parents == history(
        snapshot,
        max_count,
    )[child].parents);
    assert(commits[child].parents == linked_history(snapshot, max_count)[child].parents);
}

/// The commits of each branch of a graph follow one another by first parents, from the one that
/// the branch points at: each is that one, or the first parent of another commit of the branch.
pub proof fn law_graph_follows_first_parents(
    snapshot: Snapshot,
    settings: Settings,
    max_count: Option<usize>,
    graph: GraphState,
    displaced: Seq<usize>,
    i: int,
)
    requires
        walks_once(snapshot, max_count),
        reads_alike(snapshot, max_count),
        graph_of(snapshot, settings, max_count) == Some(
            Ok::<(GraphState, Seq<usize>), Seq<char>>((graph, displaced)),
        ),
        0 <= i < graph.commits.len(),
    ensures
        graph.commits[i].branch_trace matches Some(number) ==> {
            ||| graph.branches[number as int].target == graph.commits[i].oid
            ||| exists|k: int|
                0 <= k < graph.commits.len() && (#[trigger] graph.commits[k]).branch_trace == Some(
                    number,
                ) && graph.commits[k].parents[0] == Some(graph.commits[i].oid)
        },
{
    lemma_drawable(snapshot, settings, max_count);
    let assignment = history_assignment(snapshot, settings, max_count);
    let commits = assignment.commits;
    let indices = history_positions(snapshot, max_count);
    let groups = settings.branches.order@.len() + 1;
    let traces = traces_of(commits);
    if let Some(number) = graph.commits[i].branch_trace {
        let at = lemma_source(snapshot, settings, max_count, graph, displaced, i);
        let branch = assignment.branches[number as int];
        let tip = indices[branch.target] as int;
        assert(number < assignment.branches.len() && reached(
            snapshot.lookups@,
            indices,
            traces,
            tip,
            at,
        )) by {
            lemma_chains(snapshot, settings, max_count);
        }
        assert(graph.branches[number as int].target == branch.target) by {
            lemma_drawn_branches(snapshot, settings, max_count, graph, displaced);
        }
        if at == tip {
            assert(commits[at].oid == branch.target) by {
                lemma_history(snapshot, settings, max_count);
                assert(well_assigned(branch, commits, indices, groups));
            }
        } else {
            let child = choose|child: int|
                0 <= child < traces.len() && traces[child] == traces[at]
                    && #[trigger] is_first_parent(snapshot.lookups@, indices, child, at);
            assert(commits.len() == history_len(snapshot, max_count) && commits[child].parents[0]
                == Some(commits[at].oid)) by {
                lemma_history(snapshot, settings, max_count);
                lemma_first_parents(snapshot, settings, max_count, child, at);
            }
            assert(traces[child] == commits[child].branch_trace);
            assert(traces[at] == commits[at].branch_trace);
            let k = lemma_image(snapshot, settings, max_count, graph, displaced, child);
            assert(graph.commits[k].branch_trace == Some(number));
        }
    }
}

/// A commit of a graph that belongs to a branch has its first parent in the graph, and on a branch,
/// if that is among the commits that were asked for.
pub proof fn law_graph_keeps_first_parents(
    snapshot: Snapshot,
    settings: Settings,
    max_count: Option<usize>,
    graph: GraphState,
    displaced: Seq<usize>,
    i: int,
)
    requires
        walks_once(snapshot, max_count),
        reads_alike(snapshot, max_count),
        graph_of(snapshot, settings, max_count) == Some(
            Ok::<(GraphState, Seq<usize>), Seq<char>>((graph, displaced)),
        ),
        0 <= i < graph.commits.len(),
        graph.commits[i].branch_trace is Some,
    ensures
        graph.commits[i].parents[0] matches Some(parent) ==> history_positions(
            snapshot,
            max_count,
        ).contains_key(parent) ==> graph.indices.contains_key(parent)
            && graph.commits[graph.indices[parent] as int].branch_trace is Some,
{
    lemma_drawable(snapshot, settings, max_count);
    let commits = history_assignment(snapshot, settings, max_count).commits;
    let indices = history_positions(snapshot, max_count);
    let traces = traces_of(commits);
    let at = lemma_source(snapshot, settings, max_count, graph, displaced, i);
    if let Some(parent) = graph.commits[i].parents[0] {
        if indices.contains_key(parent) {
            let position = indices[parent] as int;
            assert(position < commits.len() == history_len(snapshot, max_count)
                && commits[position].oid == parent) by {
                lemma_history(snapshot, settings, max_count);
            }
            lemma_first_parents(snapshot, settings, max_count, at, position);
            assert(traces[at] == commits[at].branch_trace);
            assert(traces[position] is Some) by {
                lemma_chains(snapshot, settings, max_count);
            }
            assert(traces[position] == commits[position].branch_trace);
            let k = lemma_image(snapshot, settings, max_count, graph, displaced, position);
            law_graph_is_indexed(snapshot, settings, max_count, graph, displaced);
            assert(graph.commits[k].oid == parent);
            assert(graph.indices[parent] == k);
        }
    }
}

proof fn lemma_chains(snapshot: Snapshot, settings: Settings, max_count: Option<usize>)
    requires
        drawable(snapshot, settings, max_count),
    ensures
        ({
            let assignment = history_assignment(snapshot, settings, max_count);
            let indices = history_positions(snapshot, max_count);
            &&& follows_first_parents(assignment, snapshot.lookups@, indices)
            &&& closed_under_first_parents(
                snapshot.lookups@,
                indices,
                traces_of(assignment.commits),
            )
            &&& forall|i: int|
                0 <= i < history_len(snapshot, max_count) ==> (
                #[trigger] snapshot.lookups@[i]) is Ok
        }),
{
    let count = history_len(snapshot, max_count);
    let commits = history(snapshot, max_count);
    let indices = history_positions(snapshot, max_count);
    let linked = linked_history(snapshot, max_count);
    let branches = history_branches(snapshot, settings, max_count)->0->Ok_0;
    lemma_collected(snapshot.walk@, count);
    lemma_linked(commits);
    lemma_extracted(snapshot.branches, linked, snapshot.lookups@, indices, settings.branches);
    law_branches_follow_first_parents(
        linked,
        snapshot.lookups@,
        indices,
        settings.branches.order@.len() + 1,
        branches,
        branches.len() as int,
    );
}

/// Whether two branches have the same rank.
spec fn ranks_alike(branch: BranchState, other: BranchState) -> bool {
    branch.persistence == other.persistence && branch.is_merged == other.is_merged
}

/// Whether one of the first `count` of `branches` has the same rank as a branch.
spec fn ranked_among(branch: BranchState, branches: Seq<BranchState>, count: int) -> bool {
    exists|k: int| 0 <= k < count && #[trigger] ranks_alike(branch, branches[k])
}

/// Assigning branches keeps them in order.
proof fn lemma_kept_in_order(
    commits: Seq<CommitState>,
    lookups: Seq<Result<Commit, String>>,
    indices: Map<Oid, usize>,
    branches: Seq<BranchState>,
    count: int,
)
    requires
        0 <= count <= branches.len(),
        forall|i: int, j: int|
            #![trigger branches[i], branches[j]]
            0 <= i < j < branches.len() ==> ranks_no_later(branches[i], branches[j]),
    ensures
        ({
            let kept = assigned(commits, lookups, indices, branches, count).branches;
            &&& forall|i: int, j: int|
                #![trigger kept[i], kept[j]]
                0 <= i < j < kept.len() ==> ranks_no_later(kept[i], kept[j])
            &&& forall|i: int|
                0 <= i < kept.len() ==> ranked_among(#[trigger] kept[i], branches, count)
        }),
    decreases count,
{
    if count > 0 {
        let before = assigned(commits, lookups, indices, branches, count - 1).branches;
        let kept = assigned(commits, lookups, indices, branches, count).branches;
        lemma_kept_in_order(commits, lookups, indices, branches, count - 1);
        assert forall|i: int| 0 <= i < kept.len() implies ranked_among(
            #[trigger] kept[i],
            branches,
            count,
        ) by {
            if i < before.len() {
                assert(kept[i] == before[i]);
                assert(ranked_among(before[i], branches, count - 1));
            } else {
                assert(ranks_alike(kept[i], branches[count - 1]));
            }
        }
        assert forall|i: int, j: int|
            #![trigger kept[i], kept[j]]
            0 <= i < j < kept.len() implies ranks_no_later(kept[i], kept[j]) by {
            assert(kept[i] == before[i]);
            if j < before.len() {
                assert(kept[j] == before[j]);
            } else {
                let shorter = count - 1;
                assert(ranked_among(before[i], branches, shorter));
                let k = choose|k: int|
                    0 <= k < shorter && #[trigger] ranks_alike(before[i], branches[k]);
                assert(ranks_no_later(branches[k], branches[count - 1]));
            }
        }
    }
}

/// The branches of a graph stand in the order of their persistence, merged ones first.
pub proof fn law_graph_branches_by_persistence(
    snapshot: Snapshot,
    settings: Settings,
    max_count: Option<usize>,
    graph: GraphState,
    displaced: Seq<usize>,
    i: int,
    j: int,
)
    requires
        graph_of(snapshot, settings, max_count) == Some(
            Ok::<(GraphState, Seq<usize>), Seq<char>>((graph, displaced)),
        ),
        0 <= i < j < graph.branches.len(),
    ensures
        ranks_no_later(graph.branches[i], graph.branches[j]),
{
    lemma_drawable(snapshot, settings, max_count);
    lemma_drawn_branches(snapshot, settings, max_count, graph, displaced);
    let linked = linked_history(snapshot, max_count);
    let indices = history_positions(snapshot, max_count);
    let branches = history_branches(snapshot, settings, max_count)->0->Ok_0;
    let kept = history_assignment(snapshot, settings, max_count).branches;
    assert forall|k: int, l: int|
        #![trigger branches[k], branches[l]]
        0 <= k < l < branches.len() implies ranks_no_later(branches[k], branches[l]) by {
        law_extracted_by_persistence(
            snapshot.branches,
            linked,
            snapshot.lookups@,
            indices,
            settings.branches,
            k,
            l,
        );
    }
    lemma_kept_in_order(linked, snapshot.lookups@, indices, branches, branches.len() as int);
    assert(ranks_no_later(kept[i], kept[j]));
    assert(ranks_alike(graph.branches[i], kept[i]));
    assert(ranks_alike(graph.branches[j], kept[j]));
}

proof fn lemma_spans(snapshot: Snapshot, settings: Settings, max_count: Option<usize>)
    requires
        drawable(snapshot, settings, max_count),
        walks_children_first(snapshot, max_count),
    ensures
        spans_commits(history_assignment(snapshot, settings, max_count)),
{
    let commits = history(snapshot, max_count);
    let indices = history_positions(snapshot, max_count);
    let linked = linked_history(snapshot, max_count);
    let branches = history_branches(snapshot, settings, max_count)->0->Ok_0;
    lemma_collected(snapshot.walk@, history_len(snapshot, max_count));
    lemma_linked(commits);
    lemma_extracted(snapshot.branches, linked, snapshot.lookups@, indices, settings.branches);
    law_branches_span_their_commits(
        linked,
        snapshot.lookups@,
        indices,
        settings.branches.order@.len() + 1,
        branches,
        branches.len() as int,
    );
}

/// A commit that is kept lies in the moved range of a branch if it lies in its range.
proof fn lemma_moved_around(
    commits: Seq<CommitState>,
    indices: Map<Oid, usize>,
    range: (Option<usize>, Option<usize>),
    at: int,
)
    requires
        commits.len() <= usize::MAX,
        distinct(commits),
        forall|i: int|
            0 <= i < commits.len() ==> indices.contains_key((#[trigger] commits[i]).oid)
                && indices[commits[i].oid] == i,
        0 <= at < commits.len(),
        commits[at].branch_trace is Some,
        lies_in(at, range),
        range.1 matches Some(last) ==> last < commits.len(),
    ensures
        moved_range(moves(commits, indices), range) matches Some(moved) && lies_in(
            rank(commits, at) as int,
            moved,
        ),
{
    let moved = moves(commits, indices);
    let first = range.0->0;
    lemma_moves(commits, indices);
    lemma_first_kept(commits, indices, first as int);
    assert(commits[at].branch_trace is Some);
    let kept = first_kept(moved, first as int)->0;
    let a = choose|a: int|
        first <= a < commits.len() && (#[trigger] commits[a]).branch_trace is Some && kept == rank(
            commits,
            a,
        ) && forall|q: int|
            first <= q < commits.len() && (#[trigger] commits[q]).branch_trace is Some ==> a <= q;
    lemma_rank_monotonic(commits, a, at);
    if let Some(last) = range.1 {
        lemma_last_kept(commits, indices, last as int);
        let kept_last = last_kept(moved, last as int)->0;
        let b = choose|b: int|
            0 <= b <= last && (#[trigger] commits[b]).branch_trace is Some && kept_last == rank(
                commits,
                b,
            ) && forall|q: int|
                0 <= q <= last && (#[trigger] commits[q]).branch_trace is Some ==> q <= b;
        lemma_rank_monotonic(commits, at, b);
    }
}

/// A commit of a graph lies in the range of the branch that it belongs to, and that range ends
/// among the commits of the graph, if its end is known.
pub proof fn law_graph_commits_lie_in_ranges(
    snapshot: Snapshot,
    settings: Settings,
    max_count: Option<usize>,
    graph: GraphState,
    displaced: Seq<usize>,
    i: int,
)
    requires
        settings.include_remote || walks_once(snapshot, max_count),
        walks_children_first(snapshot, max_count),
        graph_of(snapshot, settings, max_count) == Some(
            Ok::<(GraphState, Seq<usize>), Seq<char>>((graph, displaced)),
        ),
        0 <= i < graph.commits.len(),
    ensures
        graph.commits[i].branch_trace matches Some(number) ==> {
            &&& number < graph.branches.len()
            &&& lies_in(i, graph.branches[number as int].range)
            &&& graph.branches[number as int].range.1 matches Some(last) ==> last
                < graph.commits.len()
        },
{
    lemma_drawable(snapshot, settings, max_count);
    lemma_spans(snapshot, settings, max_count);
    lemma_drawn_branches(snapshot, settings, max_count, graph, displaced);
    let assignment = history_assignment(snapshot, settings, max_count);
    let commits = assignment.commits;
    let indices = history_positions(snapshot, max_count);
    let groups = settings.branches.order@.len() + 1;
    if let Some(number) = graph.commits[i].branch_trace {
        let at = lemma_source(snapshot, settings, max_count, graph, displaced, i);
        let branch = assignment.branches[number as int];
        assert(commits[at].branch_trace == Some(number));
        assert(lies_in(at, branch.range));
        law_graph_ranges_lie_among_commits(
            snapshot,
            settings,
            max_count,
            graph,
            displaced,
            number as int,
        );
        if settings.include_remote {
            assert(graph.branches[number as int].range == branch.range);
        } else {
            lemma_history(snapshot, settings, max_count);
            assert(well_assigned(branch, commits, indices, groups));
            lemma_moved_around(commits, indices, branch.range, at);
            assert(moved_range(moves(commits, indices), branch.range) == Some(
                graph.branches[number as int].range,
            ));
        }
    }
}

/// A branch of a graph has no range if and only if no commit of the graph belongs to it.
pub proof fn law_graph_ranges_of_bare_branches(
    snapshot: Snapshot,
    settings: Settings,
    max_count: Option<usize>,
    graph: GraphState,
    displaced: Seq<usize>,
    b: int,
)
    requires
        walks_children_first(snapshot, max_count),
        graph_of(snapshot, settings, max_count) == Some(
            Ok::<(GraphState, Seq<usize>), Seq<char>>((graph, displaced)),
        ),
        0 <= b < graph.branches.len(),
    ensures
        graph.branches[b].range == (None::<usize>, None::<usize>) <==> is_bare(graph.commits, b),
{
    lemma_drawable(snapshot, settings, max_count);
    lemma_spans(snapshot, settings, max_count);
    lemma_drawn_branches(snapshot, settings, max_count, graph, displaced);
    let assignment = history_assignment(snapshot, settings, max_count);
    let commits = assignment.commits;
    let branch = assignment.branches[b];
    assert(graph.branches[b].range == (None::<usize>, None::<usize>) <==> branch.range == (
        None::<usize>,
        None::<usize>,
    )) by {
        assert(graph.branches[b].target == branch.target);
    }
    if is_bare(commits, b) {
        assert forall|i: int| 0 <= i < graph.commits.len() implies ((
        #[trigger] graph.commits[i]).branch_trace matches Some(own) ==> own != b) by {
            let at = lemma_source(snapshot, settings, max_count, graph, displaced, i);
            assert(commits[at].branch_trace matches Some(own) ==> own != b);
        }
    }
    if is_bare(graph.commits, b) {
        assert forall|at: int| 0 <= at < commits.len() implies ((
        #[trigger] commits[at]).branch_trace matches Some(own) ==> own != b) by {
            if commits[at].branch_trace is Some {
                let i = lemma_image(snapshot, settings, max_count, graph, displaced, at);
                assert(graph.commits[i].branch_trace matches Some(own) ==> own != b);
            }
        }
    }
}

/// Whether commits are those of a longer list that belong to a branch, in order: `from` says where
/// each stands in that list.
pub open spec fn leaves_out(
    full: Seq<CommitState>,
    commits: Seq<CommitState>,
    from: Seq<int>,
) -> bool {
    &&& from.len() == commits.len()
    &&& forall|p: int|
        #![trigger from[p]]
        #![trigger commits[p]]
        0 <= p < from.len() ==> {
            &&& 0 <= from[p] < full.len()
            &&& full[from[p]].branch_trace is Some
            &&& commits[p] == full[from[p]]
        }
    &&& forall|p: int, q: int|
        #![trigger from[p], from[q]]
        0 <= p < q < from.len() ==> from[p] < from[q]
    &&& forall|i: int|
        0 <= i < full.len() && (#[trigger] full[i]).branch_trace is Some ==> from.contains(i)
}

/// Whether a range is what is left of a wider one: it starts at the first of the commits that are
/// left from the old start on, and it ends at the last of them up to the old end.
pub open spec fn narrows(
    wide: (Option<usize>, Option<usize>),
    range: (Option<usize>, Option<usize>),
    from: Seq<int>,
) -> bool {
    &&& range.0 is Some <==> wide.0 is Some
    &&& range.1 is Some <==> wide.1 is Some
    &&& range.0 matches Some(p) ==> {
        &&& p < from.len()
        &&& wide.0->0 <= from[p as int]
        &&& forall|q: int| 0 <= q < p ==> #[trigger] from[q] < wide.0->0
    }
    &&& range.1 matches Some(p) ==> {
        &&& p < from.len()
        &&& from[p as int] <= wide.1->0
        &&& forall|q: int| p < q < from.len() ==> wide.1->0 < #[trigger] from[q]
    }
}

/// Where the commits that belong to a branch stand.
proof fn lemma_left(commits: Seq<CommitState>) -> (from: Seq<int>)
    ensures
        leaves_out(commits, kept_commits(commits), from),
        forall|p: int| 0 <= p < from.len() ==> rank(commits, #[trigger] from[p]) == p,
        forall|i: int|
            0 <= i < commits.len() && (#[trigger] commits[i]).branch_trace is Some ==> rank(
                commits,
                i,
            ) < from.len() && from[rank(commits, i) as int] == i,
{
    let count = commits.len() as int;
    let kept = kept_commits(commits);
    lemma_on_branches(commits, count);
    let from = Seq::new(kept.len(), |p: int| choose|i: int| kept_from(commits, count, p, i));
    assert forall|p: int|
        #![trigger from[p]]
        0 <= p < from.len() implies kept_from(commits, count, p, from[p]) by {
        assert(kept[p].branch_trace is Some);
    }
    assert forall|p: int, q: int|
        #![trigger from[p], from[q]]
        0 <= p < q < from.len() implies from[p] < from[q] by {
        if from[q] <= from[p] {
            lemma_rank_monotonic(commits, from[q], from[p]);
        }
    }
    assert forall|i: int|
        0 <= i < commits.len() && (#[trigger] commits[i]).branch_trace is Some implies rank(
        commits,
        i,
    ) < from.len() && from[rank(commits, i) as int] == i by {
        let p = rank(commits, i) as int;
        let j = from[p];
        assert(kept_from(commits, count, p, j));
        if i < j {
            lemma_rank_monotonic(commits, i, j);
        } else if j < i {
            lemma_rank_monotonic(commits, j, i);
        }
    }
    assert forall|i: int|
        0 <= i < commits.len() && (#[trigger] commits[i]).branch_trace is Some implies from.contains(
        i,
    ) by {
        assert(from[rank(commits, i) as int] == i);
    }
    from
}

/// A range that is moved to the commits that are left is what is left of it.
proof fn lemma_narrowed(
    commits: Seq<CommitState>,
    indices: Map<Oid, usize>,
    wide: (Option<usize>, Option<usize>),
    range: (Option<usize>, Option<usize>),
    from: Seq<int>,
)
    requires
        commits.len() <= usize::MAX,
        distinct(commits),
        forall|i: int|
            0 <= i < commits.len() ==> indices.contains_key((#[trigger] commits[i]).oid)
                && indices[commits[i].oid] == i,
        moved_range(moves(commits, indices), wide) == Some(range),
        leaves_out(commits, kept_commits(commits), from),
        forall|p: int| 0 <= p < from.len() ==> rank(commits, #[trigger] from[p]) == p,
        forall|i: int|
            0 <= i < commits.len() && (#[trigger] commits[i]).branch_trace is Some ==> rank(
                commits,
                i,
            ) < from.len() && from[rank(commits, i) as int] == i,
    ensures
        narrows(wide, range, from),
{
    let moved = moves(commits, indices);
    lemma_moves(commits, indices);
    if let Some(first) = wide.0 {
        lemma_first_kept(commits, indices, first as int);
        let kept = first_kept(moved, first as int)->0;
        let a = choose|a: int|
            first <= a < commits.len() && (#[trigger] commits[a]).branch_trace is Some && kept
                == rank(commits, a) && forall|q: int|
                first <= q < commits.len() && (#[trigger] commits[q]).branch_trace is Some ==> a
                    <= q;
        assert(from[kept as int] == a);
        assert forall|q: int| 0 <= q < kept implies #[trigger] from[q] < first by {
            assert(commits[from[q]].branch_trace is Some);
            assert(from[q] < from[kept as int]);
        }
    }
    if let Some(last) = wide.1 {
        assert(last < commits.len());
        lemma_last_kept(commits, indices, last as int);
        let kept = last_kept(moved, last as int)->0;
        let b = choose|b: int|
            0 <= b <= last && (#[trigger] commits[b]).branch_trace is Some && kept == rank(
                commits,
                b,
            ) && forall|q: int|
                0 <= q <= last && (#[trigger] commits[q]).branch_trace is Some ==> q <= b;
        assert(from[kept as int] == b);
        assert forall|q: int| kept < q < from.len() implies last < #[trigger] from[q] by {
            assert(commits[from[q]].branch_trace is Some);
            assert(from[kept as int] < from[q]);
        }
    }
}

/// The same settings, with remote branches.
pub open spec fn with_remotes(settings: Settings) -> Settings {
    Settings { include_remote: true, ..settings }
}

/// Whether a graph is what is left of a fuller one without the commits that belong to no branch:
/// the commits left are the same, and so are the branches but for their ranges.
pub open spec fn is_left_of_graph(full: GraphState, graph: GraphState, from: Seq<int>) -> bool {
    &&& leaves_out(full.commits, graph.commits, from)
    &&& graph.branches.len() == full.branches.len()
    &&& forall|b: int|
        #![trigger graph.branches[b]]
        #![trigger full.branches[b]]
        0 <= b < graph.branches.len() ==> {
            &&& graph.branches[b] == (BranchState {
                range: graph.branches[b].range,
                ..full.branches[b]
            })
            &&& narrows(full.branches[b].range, graph.branches[b].range, from)
        }
}

/// A graph without remote branches is what is left of the graph that the same answers give with
/// remote branches, once the commits that belong to no branch are left out. The same branches are
/// reported.
pub proof fn law_graph_leaves_out_other_commits(
    snapshot: Snapshot,
    settings: Settings,
    max_count: Option<usize>,
    graph: GraphState,
    displaced: Seq<usize>,
)
    requires
        !settings.include_remote,
        walks_once(snapshot, max_count),
        graph_of(snapshot, settings, max_count) == Some(
            Ok::<(GraphState, Seq<usize>), Seq<char>>((graph, displaced)),
        ),
    ensures
        exists|full: GraphState, from: Seq<int>| #[trigger]
            is_left_of_graph(full, graph, from) && graph_of(
                snapshot,
                with_remotes(settings),
                max_count,
            ) == Some(Ok::<(GraphState, Seq<usize>), Seq<char>>((full, displaced))),
{
    let all = with_remotes(settings);
    lemma_drawable(snapshot, settings, max_count);
    lemma_history(snapshot, settings, max_count);
    assert(drawable(snapshot, all, max_count));
    lemma_history(snapshot, all, max_count);
    let assignment = history_assignment(snapshot, settings, max_count);
    let indices = history_positions(snapshot, max_count);
    assert(assignment == history_assignment(snapshot, all, max_count));
    let (full, _) = drawn(all, indices, assignment)->0;
    let from = lemma_left(assignment.commits);
    lemma_drawn_branches(snapshot, settings, max_count, graph, displaced);
    lemma_drawn_branches(snapshot, all, max_count, full, displaced);
    assert forall|b: int|
        #![trigger graph.branches[b]]
        #![trigger full.branches[b]]
        0 <= b < graph.branches.len() implies {
        &&& graph.branches[b] == (BranchState {
            range: graph.branches[b].range,
            ..full.branches[b]
        })
        &&& narrows(full.branches[b].range, graph.branches[b].range, from)
    } by {
        lemma_narrowed(
            assignment.commits,
            indices,
            assignment.branches[b].range,
            graph.branches[b].range,
            from,
        );
    }
    assert(is_left_of_graph(full, graph, from));
}

} // verus!
