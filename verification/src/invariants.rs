//! What holds of commits and branches on the way to the graph.

use crate::assign::{assigned, lemma_same_history, same_history, Assignment};
use crate::branch::{Branch, BranchState};
use crate::children::{adopted, is_parent, lemma_adopted, parents_found, with_children};
use crate::commit::{fresh_commit, Commit, CommitState};
use crate::extract::{
    by_persistence, extracted, listed_branch, merge_name, merged_branch, short_name, state_keys,
    style, with_listed, with_merged,
};
use crate::filter::positions;
use crate::graph::collected;
use crate::oid::Oid;
use crate::patterns::lemma_first_match;
use crate::settings::BranchSettings;
use crate::sorting::{lemma_stable_order, stable_order};
use crate::trace::{
    children_found, furthest, indexes, law_tracing_keeps_traces, lemma_untraced_update, traceable,
    traced, traced_range, traces_of, untraced, with_traces,
};
use vstd::prelude::*;

verus! {

/// Whether commits have different ids.
pub open spec fn distinct(commits: Seq<CommitState>) -> bool {
    forall|i: int, j: int|
        #![trigger commits[i].oid, commits[j].oid]
        0 <= i < commits.len() && 0 <= j < commits.len() && i != j ==> commits[i].oid
            != commits[j].oid
}

/// Positions by id are those of the last commits that have the id, and every commit has its id
/// among them; it is its own position if no other commit has the id.
pub proof fn lemma_positions(commits: Seq<CommitState>, count: int)
    requires
        0 <= count <= commits.len(),
        commits.len() <= usize::MAX,
    ensures
        forall|oid: Oid| #[trigger]
            positions(commits, count).contains_key(oid) ==> positions(commits, count)[oid] < count
                && commits[positions(commits, count)[oid] as int].oid == oid,
        forall|i: int|
            0 <= i < count ==> positions(commits, count).contains_key(#[trigger] commits[i].oid),
        forall|i: int|
            0 <= i < count ==> positions(commits, count)[#[trigger] commits[i].oid] >= i,
        distinct(commits) ==> forall|i: int|
            0 <= i < count ==> positions(commits, count)[#[trigger] commits[i].oid] == i,
    decreases count,
{
    if count > 0 {
        lemma_positions(commits, count - 1);
    }
}

/// The commits of a walk, one by one.
pub proof fn lemma_collected(walk: Seq<Result<Commit, String>>, count: int)
    requires
        0 <= count <= walk.len(),
        collected(walk, count) is Ok,
    ensures
        ({
            let commits = collected(walk, count)->Ok_0;
            &&& commits.len() == count
            &&& forall|i: int| 0 <= i < count ==> (#[trigger] walk[i]) is Ok
            &&& forall|i: int|
                0 <= i < count ==> #[trigger] commits[i] == fresh_commit(walk[i]->Ok_0)
        }),
    decreases count,
{
    if count > 0 {
        lemma_collected(walk, count - 1);
        let before = collected(walk, count - 1)->Ok_0;
        let commits = collected(walk, count)->Ok_0;
        assert(commits == before.push(fresh_commit(walk[count - 1]->Ok_0)));
        assert forall|i: int| 0 <= i < count implies #[trigger] commits[i] == fresh_commit(
            walk[i]->Ok_0,
        ) by {
            if i < count - 1 {
                assert(commits[i] == before[i]);
            }
        }
    }
}

/// Commits without children can be linked, and their children are found then.
pub proof fn lemma_linked(commits: Seq<CommitState>)
    requires
        commits.len() <= usize::MAX,
        forall|i: int| 0 <= i < commits.len() ==> (#[trigger] commits[i]).children.len() == 0,
    ensures
        parents_found(commits, positions(commits, commits.len() as int)),
        indexes(
            positions(commits, commits.len() as int),
            with_children(commits, positions(commits, commits.len() as int)),
        ),
        children_found(
            with_children(commits, positions(commits, commits.len() as int)),
            positions(commits, commits.len() as int),
        ),
{
    let indices = positions(commits, commits.len() as int);
    let linked = with_children(commits, indices);
    lemma_positions(commits, commits.len() as int);
    assert forall|oid: Oid| #[trigger] indices.contains_key(oid) implies indices[oid] < linked.len()
        && linked[indices[oid] as int].oid == oid by {
        assert(linked[indices[oid] as int].oid == commits[indices[oid] as int].oid);
    }
    assert forall|i: int, k: int|
        #![trigger linked[i].children[k]]
        0 <= i < linked.len() && 0 <= k < linked[i].children.len() implies indices.contains_key(
        linked[i].children[k],
    ) by {
        let child = linked[i].children[k];
        let gained = adopted(commits, indices, commits.len() as int, i);
        assert(commits[i].children.len() == 0);
        assert(linked[i].children =~= gained);
        assert(gained.contains(child));
        lemma_adopted(commits, indices, commits.len() as int, i, child);
        let (j, l) = choose|j: int, l: int|
            0 <= j < commits.len() && 0 <= l < 2 && #[trigger] is_parent(
                commits[j],
                l,
                indices,
                i,
            ) && commits[j].oid == child;
        assert(indices.contains_key(commits[j].oid));
    }
}

/// Whether a branch comes from the merge commit at position `k`.
pub open spec fn merge_of(
    branch: BranchState,
    commits: Seq<CommitState>,
    lookups: Seq<Result<Commit, String>>,
    k: int,
) -> bool {
    &&& 0 <= k < commits.len()
    &&& commits[k].is_merge
    &&& branch.merge_target == Some(commits[k].oid)
    &&& branch.range.0 == Some((k + 1) as usize)
    &&& lookups[k] matches Ok(commit) && commit.parents@.len() >= 2 && branch.target
        == commit.parents@[1]
}

/// What holds of every branch that is extracted: it has no column yet, its group is below
/// `groups`, and it starts at its target or, if it was merged, right after the merge commit.
pub open spec fn well_extracted(
    branch: BranchState,
    commits: Seq<CommitState>,
    lookups: Seq<Result<Commit, String>>,
    indices: Map<Oid, usize>,
    groups: nat,
) -> bool {
    &&& branch.visual.column is None
    &&& branch.visual.order_group < groups
    &&& branch.deleted == branch.is_merged
    &&& branch.range.1 is None
    &&& branch.is_merged ==> exists|k: int| merge_of(branch, commits, lookups, k)
    &&& !branch.is_merged ==> branch.merge_target is None && branch.range.0 == (
    if indices.contains_key(branch.target) {
        Some(indices[branch.target])
    } else {
        None
    })
}

/// Whether a list holds only branches as they are extracted.
pub open spec fn all_well_extracted(
    branches: Seq<BranchState>,
    commits: Seq<CommitState>,
    lookups: Seq<Result<Commit, String>>,
    indices: Map<Oid, usize>,
    groups: nat,
) -> bool {
    forall|i: int|
        0 <= i < branches.len() ==> well_extracted(
            #[trigger] branches[i],
            commits,
            lookups,
            indices,
            groups,
        )
}

proof fn lemma_with_listed(
    branches: Seq<Branch>,
    commits: Seq<CommitState>,
    lookups: Seq<Result<Commit, String>>,
    indices: Map<Oid, usize>,
    settings: BranchSettings,
    from: int,
    counter: int,
    found: Seq<BranchState>,
)
    requires
        settings.order@.len() < usize::MAX,
        0 <= from,
        found.len() <= counter <= usize::MAX,
        all_well_extracted(found, commits, lookups, indices, settings.order@.len() + 1),
    ensures
        with_listed(branches, indices, settings, from, counter, found) matches Some(
            Ok((counted, all)),
        ) ==> {
            &&& all.len() <= counted <= usize::MAX
            &&& all_well_extracted(all, commits, lookups, indices, settings.order@.len() + 1)
        },
    decreases branches.len() - from,
{
    if from < branches.len() {
        let branch = branches[from];
        match (branch.name, branch.target) {
            (Some(name), Some(target)) => {
                if let Some(short) = short_name(name@, branch.kind) {
                    let styled = style(short, settings, (counter + 1) as usize);
                    if counter < usize::MAX && styled is Some && styled->0 is Ok {
                        let chosen = styled->0->Ok_0;
                        lemma_first_match(settings.order@, short, 0);
                        lemma_with_listed(
                            branches,
                            commits,
                            lookups,
                            indices,
                            settings,
                            from + 1,
                            counter + 1,
                            found.push(listed_branch(target, short, chosen, branch.kind, indices)),
                        );
                    }
                }
            },
            _ => {
                lemma_with_listed(
                    branches,
                    commits,
                    lookups,
                    indices,
                    settings,
                    from + 1,
                    counter,
                    found,
                );
            },
        }
    }
}

proof fn lemma_with_merged(
    commits: Seq<CommitState>,
    lookups: Seq<Result<Commit, String>>,
    indices: Map<Oid, usize>,
    settings: BranchSettings,
    from: int,
    counter: int,
    found: Seq<BranchState>,
)
    requires
        settings.order@.len() < usize::MAX,
        0 <= from,
        found.len() <= counter <= usize::MAX,
        all_well_extracted(found, commits, lookups, indices, settings.order@.len() + 1),
    ensures
        with_merged(commits, lookups, settings, from, counter, found) matches Some(
            Ok((counted, all)),
        ) ==> {
            &&& all.len() <= counted <= usize::MAX
            &&& all_well_extracted(all, commits, lookups, indices, settings.order@.len() + 1)
            &&& forall|i: int| from <= i < commits.len() ==> (#[trigger] lookups[i]) is Ok
        },
    decreases commits.len() - from,
{
    if from < commits.len() {
        if let Ok(commit) = lookups[from] {
            match commit.summary {
                Some(summary) if commits[from].is_merge => {
                    let name = merge_name(summary.merged_branch);
                    let styled = style(name, settings, (counter + 1) as usize);
                    if counter < usize::MAX && commit.parents@.len() >= 2 {
                        if styled is Some && styled->0 is Ok {
                            let chosen = styled->0->Ok_0;
                            let branch = merged_branch(
                                commit.parents@[1],
                                commits[from].oid,
                                name,
                                chosen,
                                from,
                            );
                            lemma_first_match(settings.order@, name, 0);
                            assert(merge_of(branch, commits, lookups, from));
                            lemma_with_merged(
                                commits,
                                lookups,
                                indices,
                                settings,
                                from + 1,
                                counter + 1,
                                found.push(branch),
                            );
                        }
                    }
                },
                _ => {
                    lemma_with_merged(
                        commits,
                        lookups,
                        indices,
                        settings,
                        from + 1,
                        counter,
                        found,
                    );
                },
            }
        }
    }
}

/// What is extracted holds only branches as they are extracted, no more than can be counted; each
/// commit could be read.
pub proof fn lemma_extracted(
    listing: Result<Vec<Branch>, String>,
    commits: Seq<CommitState>,
    lookups: Seq<Result<Commit, String>>,
    indices: Map<Oid, usize>,
    settings: BranchSettings,
)
    requires
        settings.order@.len() < usize::MAX,
    ensures
        extracted(listing, commits, lookups, indices, settings) matches Some(Ok(branches)) ==> {
            &&& branches.len() <= usize::MAX
            &&& all_well_extracted(
                branches,
                commits,
                lookups,
                indices,
                settings.order@.len() + 1,
            )
            &&& forall|i: int| 0 <= i < commits.len() ==> (#[trigger] lookups[i]) is Ok
        },
{
    if let Ok(branches) = listing {
        lemma_with_listed(
            branches@,
            commits,
            lookups,
            indices,
            settings,
            0,
            0,
            Seq::empty(),
        );
        if let Some(Ok((counter, found))) = with_listed(
            branches@,
            indices,
            settings,
            0,
            0,
            Seq::empty(),
        ) {
            lemma_with_merged(commits, lookups, indices, settings, 0, counter, found);
            if let Some(Ok((_, all))) = with_merged(
                commits,
                lookups,
                settings,
                0,
                counter,
                found,
            ) {
                let order = stable_order(state_keys(all));
                lemma_stable_order(state_keys(all));
                let sorted = by_persistence(all);
                assert forall|i: int| 0 <= i < sorted.len() implies well_extracted(
                    #[trigger] sorted[i],
                    commits,
                    lookups,
                    indices,
                    settings.order@.len() + 1,
                ) by {
                    assert(sorted[i] == all[order[i]]);
                }
            }
        }
    }
}

/// The furthest of positions that lie before `len` lies there too, and not before `from`.
pub proof fn lemma_furthest(
    children: Seq<Oid>,
    indices: Map<Oid, usize>,
    own: Oid,
    from: usize,
    len: nat,
)
    requires
        from < len,
        forall|k: int|
            0 <= k < children.len() ==> indices.contains_key(#[trigger] children[k])
                && indices[children[k]] < len,
    ensures
        from <= furthest(children, indices, own, from) < len,
    decreases children.len(),
{
    if children.len() > 0 {
        assert(indices.contains_key(children[children.len() - 1]));
        lemma_furthest(children.drop_last(), indices, own, from, len);
    }
}

/// A branch that is traced ends before the last commit or at it; reading commits fails only where a
/// commit cannot be read.
pub proof fn lemma_traced_end(
    commits: Seq<CommitState>,
    lookups: Seq<Result<Commit, String>>,
    indices: Map<Oid, usize>,
    traces: Seq<Option<usize>>,
    curr: Oid,
    prev: Option<usize>,
    branch: usize,
)
    requires
        indexes(indices, commits),
        children_found(commits, indices),
        traces.len() == commits.len() <= i32::MAX,
        forall|i: int| 0 <= i < commits.len() ==> (#[trigger] lookups[i]) is Ok,
        prev matches Some(prev) ==> prev < commits.len(),
    ensures
        traced(commits, lookups, indices, traces, curr, prev, branch).end is Ok,
        traced(commits, lookups, indices, traces, curr, prev, branch).end matches Ok(Some(end))
            ==> -1 <= end < commits.len(),
    decreases untraced(traces),
{
    if indices.contains_key(curr) {
        let index = indices[curr];
        if traces[index as int] is Some {
            if let Some(prev) = prev {
                let children = commits[index as int].children;
                assert forall|k: int| 0 <= k < children.len() implies indices.contains_key(
                    #[trigger] children[k],
                ) && indices[children[k]] < commits.len() by {
                    assert(indices.contains_key(commits[index as int].children[k]));
                }
                lemma_furthest(children, indices, curr, prev, commits.len());
            }
        } else {
            assert(lookups[index as int] is Ok);
            let commit = lookups[index as int]->Ok_0;
            lemma_untraced_update(traces, index as int, branch);
            if commit.parents@.len() > 0 {
                lemma_traced_end(
                    commits,
                    lookups,
                    indices,
                    traces.update(index as int, Some(branch)),
                    commit.parents@[0],
                    Some(index),
                    branch,
                );
            }
        }
    }
}

/// Whether commits stand before their parents.
pub open spec fn children_first(
    lookups: Seq<Result<Commit, String>>,
    indices: Map<Oid, usize>,
    count: int,
) -> bool {
    forall|i: int, p: int|
        #![trigger lookups[i]->Ok_0.parents@[p]]
        0 <= i < count && lookups[i] is Ok && 0 <= p < lookups[i]->Ok_0.parents@.len()
            && indices.contains_key(lookups[i]->Ok_0.parents@[p])
            ==> indices[lookups[i]->Ok_0.parents@[p]] > i
}

/// Where commits stand before their parents, a branch that is traced ends no earlier than at some
/// commit that was assigned to it.
proof fn lemma_traced_down(
    commits: Seq<CommitState>,
    lookups: Seq<Result<Commit, String>>,
    indices: Map<Oid, usize>,
    traces: Seq<Option<usize>>,
    curr: Oid,
    prev: usize,
    branch: usize,
)
    requires
        indexes(indices, commits),
        children_found(commits, indices),
        traces.len() == commits.len() <= i32::MAX,
        children_first(lookups, indices, commits.len() as int),
        prev < commits.len(),
        traces[prev as int] is Some,
        indices.contains_key(curr) ==> indices[curr] > prev,
    ensures
        ({
            let tracing = traced(commits, lookups, indices, traces, curr, Some(prev), branch);
            tracing.end matches Ok(Some(end)) ==> exists|q: int|
                prev <= q <= end && q < commits.len() && (#[trigger] tracing.traces[q]) is Some
        }),
    decreases untraced(traces),
{
    let tracing = traced(commits, lookups, indices, traces, curr, Some(prev), branch);
    if indices.contains_key(curr) {
        let index = indices[curr];
        if traces[index as int] is Some {
            let children = commits[index as int].children;
            assert forall|k: int| 0 <= k < children.len() implies indices.contains_key(
                #[trigger] children[k],
            ) && indices[children[k]] < commits.len() by {
                assert(indices.contains_key(commits[index as int].children[k]));
            }
            lemma_furthest(children, indices, curr, prev, commits.len());
            assert(tracing.traces[prev as int] is Some);
        } else if let Ok(commit) = lookups[index as int] {
            lemma_untraced_update(traces, index as int, branch);
            let marked = traces.update(index as int, Some(branch));
            if commit.parents@.len() > 0 {
                assert(lookups[index as int]->Ok_0.parents@[0] == commit.parents@[0]);
                lemma_traced_down(
                    commits,
                    lookups,
                    indices,
                    marked,
                    commit.parents@[0],
                    index,
                    branch,
                );
            } else {
                assert(tracing.traces[index as int] is Some);
            }
        }
    }
}

/// What holds of every branch that is kept: it has no column yet, its group is below `groups`, its
/// target is among the commits and belongs to a branch, and its range, if it has one, lies among
/// the commits.
pub open spec fn well_assigned(
    branch: BranchState,
    commits: Seq<CommitState>,
    indices: Map<Oid, usize>,
    groups: nat,
) -> bool {
    &&& branch.visual.column is None
    &&& branch.visual.order_group < groups
    &&& indices.contains_key(branch.target)
    &&& commits[indices[branch.target] as int].branch_trace is Some
    &&& match branch.range {
        (Some(first), Some(last)) => first <= last < commits.len(),
        (Some(first), None) => first <= commits.len(),
        (None, last) => last is None,
    }
}

/// What holds of every branch that is kept where commits stand before their parents: it starts no
/// later than at its target, and ends no earlier than at a later commit that belongs to a branch.
pub open spec fn well_ordered(
    branch: BranchState,
    commits: Seq<CommitState>,
    indices: Map<Oid, usize>,
) -> bool {
    &&& branch.range.0 matches Some(first) ==> first <= indices[branch.target]
    &&& branch.range.1 matches Some(last) ==> exists|q: int|
        indices[branch.target] <= q <= last && q < commits.len() && (
        #[trigger] commits[q]).branch_trace is Some
}

/// What holds of the state of an assignment of branches.
pub open spec fn assignment_sound(
    assignment: Assignment,
    commits: Seq<CommitState>,
    indices: Map<Oid, usize>,
    groups: nat,
) -> bool {
    &&& same_history(commits, assignment.commits)
    &&& forall|i: int|
        0 <= i < commits.len() ==> ((#[trigger] assignment.commits[i]).branch_trace matches Some(
            number,
        ) ==> number < assignment.branches.len())
    &&& forall|b: int|
        0 <= b < assignment.branches.len() ==> well_assigned(
            #[trigger] assignment.branches[b],
            assignment.commits,
            indices,
            groups,
        )
}

/// Whether all branches kept are well ordered.
pub open spec fn assignment_ordered(assignment: Assignment, indices: Map<Oid, usize>) -> bool {
    forall|b: int|
        0 <= b < assignment.branches.len() ==> well_ordered(
            #[trigger] assignment.branches[b],
            assignment.commits,
            indices,
        )
}

proof fn lemma_assign(
    assignment: Assignment,
    commits: Seq<CommitState>,
    lookups: Seq<Result<Commit, String>>,
    indices: Map<Oid, usize>,
    groups: nat,
    branch: BranchState,
)
    requires
        commits.len() <= i32::MAX,
        indexes(indices, commits),
        children_found(commits, indices),
        forall|i: int| 0 <= i < commits.len() ==> (#[trigger] lookups[i]) is Ok,
        assignment.branches.len() < usize::MAX,
        assignment_sound(assignment, commits, indices, groups),
        well_extracted(branch, commits, lookups, indices, groups),
    ensures
        assignment_sound(
            assignment.assign(lookups, indices, branch),
            commits,
            indices,
            groups,
        ),
        assignment.assign(lookups, indices, branch).branches.len() <= assignment.branches.len() + 1,
        children_first(lookups, indices, commits.len() as int) && assignment_ordered(
            assignment,
            indices,
        ) ==> assignment_ordered(assignment.assign(lookups, indices, branch), indices),
{
    let after = assignment.assign(lookups, indices, branch);
    if indices.contains_key(branch.target) {
        let index = indices[branch.target] as int;
        let number = assignment.branches.len() as usize;
        let marked = assignment.marked(index, branch.deleted);
        let oid = marked[index].oid;
        let traces = traces_of(marked);
        let tracing = traced(marked, lookups, indices, traces, oid, None, number);
        assert(same_history(commits, marked)) by {
            assert forall|i: int|
                #![trigger marked[i]]
                0 <= i < commits.len() implies marked[i] == (CommitState {
                branches: marked[i].branches,
                branch_trace: marked[i].branch_trace,
                ..commits[i]
            }) by {
                assert(assignment.commits[i].oid == commits[i].oid);
            }
        }
        lemma_same_history(commits, marked, indices);
        assert(oid == branch.target);
        lemma_traced_end(marked, lookups, indices, traces, oid, None, number);
        law_tracing_keeps_traces(marked, lookups, indices, traces, oid, None, number);
        assert forall|i: int| 0 <= i < commits.len() implies #[trigger] traces[i]
            == assignment.commits[i].branch_trace by {
            assert(traces[i] == marked[i].branch_trace);
        }
        assert forall|i: int| 0 <= i < commits.len() implies (
        #[trigger] after.commits[i]).branch_trace == tracing.traces[i] by {}
        assert(same_history(commits, after.commits));
        let kept = traceable(indices, traces, oid) || !branch.deleted;
        if !traceable(indices, traces, oid) {
            assert(tracing.traces == traces);
        }
        assert forall|i: int| 0 <= i < commits.len() implies ((
        #[trigger] after.commits[i]).branch_trace matches Some(n) ==> n < after.branches.len()) by {
            assert(tracing.traces[i] == traces[i] || tracing.traces[i] == Some(number));
            assert(traces[i] == assignment.commits[i].branch_trace);
        }
        let range = traced_range(branch.range, tracing.end->Ok_0);
        let newest = branch.spanning(range);
        assert(after.commits[index].branch_trace is Some);
        assert(branch.range.0 is Some && branch.range.0->0 <= commits.len()) by {
            if branch.is_merged {
                let k = choose|k: int| merge_of(branch, commits, lookups, k);
                assert(merge_of(branch, commits, lookups, k));
            }
        }
        assert(well_assigned(newest, after.commits, indices, groups));
        assert forall|b: int| 0 <= b < after.branches.len() implies well_assigned(
            #[trigger] after.branches[b],
            after.commits,
            indices,
            groups,
        ) by {
            if b < assignment.branches.len() {
                let other = assignment.branches[b];
                assert(after.branches[b] == other);
                assert(well_assigned(other, assignment.commits, indices, groups));
                let target = indices[other.target] as int;
                assert(traces[target] == assignment.commits[target].branch_trace);
                assert(after.commits[target].branch_trace == tracing.traces[target]);
            }
        }
        if children_first(lookups, indices, commits.len() as int) && assignment_ordered(
            assignment,
            indices,
        ) {
            assert forall|b: int| 0 <= b < after.branches.len() implies well_ordered(
                #[trigger] after.branches[b],
                after.commits,
                indices,
            ) by {
                if b < assignment.branches.len() {
                    let other = assignment.branches[b];
                    assert(after.branches[b] == other);
                    assert(well_ordered(other, assignment.commits, indices));
                    if let Some(last) = other.range.1 {
                        let q = choose|q: int|
                            indices[other.target] <= q <= last && q < assignment.commits.len() && (
                            #[trigger] assignment.commits[q]).branch_trace is Some;
                        assert(traces[q] == assignment.commits[q].branch_trace);
                        assert(after.commits[q].branch_trace == tracing.traces[q]);
                        assert(after.commits[q].branch_trace is Some);
                    }
                } else {
                    lemma_newest_ordered(
                        marked,
                        commits,
                        lookups,
                        indices,
                        groups,
                        branch,
                        number,
                    );
                }
            }
        }
    }
}

/// The branch assigned last is well ordered.
proof fn lemma_newest_ordered(
    marked: Seq<CommitState>,
    commits: Seq<CommitState>,
    lookups: Seq<Result<Commit, String>>,
    indices: Map<Oid, usize>,
    groups: nat,
    branch: BranchState,
    number: usize,
)
    requires
        commits.len() <= i32::MAX,
        same_history(commits, marked),
        indexes(indices, commits),
        children_found(commits, indices),
        forall|i: int| 0 <= i < commits.len() ==> (#[trigger] lookups[i]) is Ok,
        well_extracted(branch, commits, lookups, indices, groups),
        indices.contains_key(branch.target),
        children_first(lookups, indices, commits.len() as int),
        traceable(indices, traces_of(marked), branch.target) || !branch.deleted,
    ensures
        ({
            let tracing = traced(
                marked,
                lookups,
                indices,
                traces_of(marked),
                branch.target,
                None,
                number,
            );
            well_ordered(
                branch.spanning(traced_range(branch.range, tracing.end->Ok_0)),
                with_traces(marked, tracing.traces),
                indices,
            )
        }),
{
    let target = indices[branch.target];
    let traces = traces_of(marked);
    let tracing = traced(marked, lookups, indices, traces, branch.target, None, number);
    let after = with_traces(marked, tracing.traces);
    let newest = branch.spanning(traced_range(branch.range, tracing.end->Ok_0));
    lemma_same_history(commits, marked, indices);
    lemma_traced_end(marked, lookups, indices, traces, branch.target, None, number);
    law_tracing_keeps_traces(marked, lookups, indices, traces, branch.target, None, number);
    if branch.is_merged {
        let k = choose|k: int| merge_of(branch, commits, lookups, k);
        assert(merge_of(branch, commits, lookups, k));
        assert(lookups[k]->Ok_0.parents@[1] == branch.target);
        assert(branch.range.0->0 <= target);
    }
    if let Some(last) = newest.range.1 {
        if traces[target as int] is None {
            let marked_traces = traces.update(target as int, Some(number));
            assert(lookups[target as int] is Ok);
            let commit = lookups[target as int]->Ok_0;
            if commit.parents@.len() > 0 {
                assert(lookups[target as int]->Ok_0.parents@[0] == commit.parents@[0]);
                lemma_traced_down(
                    marked,
                    lookups,
                    indices,
                    marked_traces,
                    commit.parents@[0],
                    target,
                    number,
                );
                let q = choose|q: int|
                    target <= q <= last && q < commits.len() && (
                    #[trigger] tracing.traces[q]) is Some;
                assert(after[q].branch_trace is Some);
            } else {
                assert(after[target as int].branch_trace is Some);
            }
        }
    }
}

/// What assigning branches one after the other leaves is sound, and ordered where commits stand
/// before their parents.
pub proof fn lemma_assigned(
    commits: Seq<CommitState>,
    lookups: Seq<Result<Commit, String>>,
    indices: Map<Oid, usize>,
    groups: nat,
    branches: Seq<BranchState>,
    count: int,
)
    requires
        commits.len() <= i32::MAX,
        indexes(indices, commits),
        children_found(commits, indices),
        forall|i: int| 0 <= i < commits.len() ==> (#[trigger] lookups[i]) is Ok,
        forall|i: int| 0 <= i < commits.len() ==> (#[trigger] commits[i]).branch_trace is None,
        0 <= count <= branches.len() <= usize::MAX,
        all_well_extracted(branches, commits, lookups, indices, groups),
    ensures
        assignment_sound(
            assigned(commits, lookups, indices, branches, count),
            commits,
            indices,
            groups,
        ),
        assigned(commits, lookups, indices, branches, count).branches.len() <= count,
        children_first(lookups, indices, commits.len() as int) ==> assignment_ordered(
            assigned(commits, lookups, indices, branches, count),
            indices,
        ),
    decreases count,
{
    if count > 0 {
        lemma_assigned(commits, lookups, indices, groups, branches, count - 1);
        assert(well_extracted(branches[count - 1], commits, lookups, indices, groups));
        lemma_assign(
            assigned(commits, lookups, indices, branches, count - 1),
            commits,
            lookups,
            indices,
            groups,
            branches[count - 1],
        );
    }
}

/// Whether numbers stand in ascending order.
pub open spec fn ascending(numbers: Seq<usize>) -> bool {
    forall|a: int, b: int|
        #![trigger numbers[a], numbers[b]]
        0 <= a < b < numbers.len() ==> numbers[a] < numbers[b]
}

/// Whether each commit lists the branches that still exist and point at it, each once and in order.
pub open spec fn tips_listed(assignment: Assignment, indices: Map<Oid, usize>) -> bool {
    &&& forall|i: int, number: usize|
        0 <= i < assignment.commits.len() ==> (
        #[trigger] assignment.commits[i].branches.contains(number) <==> {
            &&& number < assignment.branches.len()
            &&& !assignment.branches[number as int].deleted
            &&& indices[assignment.branches[number as int].target] == i
        })
    &&& forall|i: int|
        0 <= i < assignment.commits.len() ==> ascending((#[trigger] assignment.commits[i]).branches)
}

/// Each commit lists the branches that still exist and point at it, each once and in order, once
/// branches are assigned.
pub proof fn law_commits_list_their_branches(
    commits: Seq<CommitState>,
    lookups: Seq<Result<Commit, String>>,
    indices: Map<Oid, usize>,
    groups: nat,
    branches: Seq<BranchState>,
    count: int,
)
    requires
        commits.len() <= i32::MAX,
        indexes(indices, commits),
        children_found(commits, indices),
        forall|i: int| 0 <= i < commits.len() ==> (#[trigger] lookups[i]) is Ok,
        forall|i: int| 0 <= i < commits.len() ==> (#[trigger] commits[i]).branch_trace is None,
        forall|i: int| 0 <= i < commits.len() ==> (#[trigger] commits[i]).branches.len() == 0,
        0 <= count <= branches.len() <= usize::MAX,
        all_well_extracted(branches, commits, lookups, indices, groups),
    ensures
        tips_listed(assigned(commits, lookups, indices, branches, count), indices),
    decreases count,
{
    if count > 0 {
        let before = assigned(commits, lookups, indices, branches, count - 1);
        let after = assigned(commits, lookups, indices, branches, count);
        let branch = branches[count - 1];
        law_commits_list_their_branches(
            commits,
            lookups,
            indices,
            groups,
            branches,
            count - 1,
        );
        lemma_assigned(commits, lookups, indices, groups, branches, count - 1);
        lemma_assigned(commits, lookups, indices, groups, branches, count);
        if indices.contains_key(branch.target) {
            let index = indices[branch.target] as int;
            let marked = before.marked(index, branch.deleted);
            let fresh = before.branches.len() as usize;
            assert forall|i: int|
                #![trigger marked[i]]
                0 <= i < commits.len() implies marked[i] == (CommitState {
                branches: marked[i].branches,
                branch_trace: marked[i].branch_trace,
                ..commits[i]
            }) by {
                assert(before.commits[i].oid == commits[i].oid);
            }
            assert(same_history(commits, marked));
            lemma_same_history(commits, marked, indices);
            lemma_traced_end(
                marked,
                lookups,
                indices,
                traces_of(marked),
                marked[index].oid,
                None,
                fresh,
            );
            assert forall|i: int, number: usize|
                0 <= i < after.commits.len() implies (
            #[trigger] after.commits[i].branches.contains(number) <==> {
                &&& number < after.branches.len()
                &&& !after.branches[number as int].deleted
                &&& indices[after.branches[number as int].target] == i
            }) by {
                let old_list = before.commits[i].branches;
                let new_list = after.commits[i].branches;
                assert(old_list.contains(number) <==> {
                    &&& number < before.branches.len()
                    &&& !before.branches[number as int].deleted
                    &&& indices[before.branches[number as int].target] == i
                });
                if !branch.deleted && i == index {
                    assert(new_list == old_list.push(fresh));
                    if new_list.contains(number) && number != fresh {
                        let at = choose|at: int| 0 <= at < new_list.len() && new_list[at] == number;
                        assert(old_list[at] == number);
                    }
                    if old_list.contains(number) {
                        let at = choose|at: int| 0 <= at < old_list.len() && old_list[at] == number;
                        assert(new_list[at] == number);
                    }
                    assert(new_list[new_list.len() - 1] == fresh);
                } else {
                    assert(new_list == old_list);
                }
            }
            assert forall|i: int| 0 <= i < after.commits.len() implies ascending(
                (#[trigger] after.commits[i]).branches,
            ) by {
                let old_list = before.commits[i].branches;
                let new_list = after.commits[i].branches;
                assert(ascending(before.commits[i].branches));
                if !branch.deleted && i == index {
                    assert(new_list == old_list.push(fresh));
                    assert forall|a: int, b: int|
                        #![trigger new_list[a], new_list[b]]
                        0 <= a < b < new_list.len() implies new_list[a] < new_list[b] by {
                        assert(new_list[a] == old_list[a]);
                        assert(old_list.contains(old_list[a]));
                        assert(before.commits[i].branches.contains(old_list[a]));
                        if b < old_list.len() {
                            assert(new_list[b] == old_list[b]);
                        }
                    }
                } else {
                    assert(new_list == old_list);
                }
            }
        }
    } else {
        let start = assigned(commits, lookups, indices, branches, count);
        assert forall|i: int, number: usize|
            0 <= i < start.commits.len() implies !(
        #[trigger] start.commits[i].branches.contains(number)) by {
            assert(commits[i].branches.len() == 0);
        }
    }
}

} // verus!
