//! Which branch each commit belongs to, and which branches are kept.

use crate::assign::{assigned, lemma_same_history, same_history, Assignment};
use crate::branch::BranchState;
use crate::chains::{
    closed_under_first_parents, is_first_parent, law_branches_follow_first_parents,
};
use crate::commit::{Commit, CommitState};
use crate::invariants::{
    all_well_extracted, children_first, lemma_assigned, lemma_traced_end, well_extracted,
};
use crate::oid::Oid;
use crate::ranges::law_branches_span_their_commits;
use crate::trace::{children_found, indexes, traceable, traced, traced_range, traces_of};
use crate::trails::{
    ends_rightly, is_furthest_child, is_traced, is_trail, law_traced_along_trail,
};
use vstd::prelude::*;

verus! {

/// Whether `steps` steps from a commit to its first parent lead from one position to another.
pub open spec fn leads(
    lookups: Seq<Result<Commit, String>>,
    indices: Map<Oid, usize>,
    from: int,
    to: int,
    steps: nat,
) -> bool
    decreases steps,
{
    if steps == 0 {
        from == to
    } else {
        exists|between: int| #[trigger]
            is_first_parent(lookups, indices, from, between) && leads(
                lookups,
                indices,
                between,
                to,
                (steps - 1) as nat,
            )
    }
}

/// Whether the commit at `to` is the one at `from`, or comes after it along first parents.
pub open spec fn descends(
    lookups: Seq<Result<Commit, String>>,
    indices: Map<Oid, usize>,
    from: int,
    to: int,
) -> bool {
    exists|steps: nat| #[trigger] leads(lookups, indices, from, to, steps)
}

/// Whether a branch points at a commit from which first parents lead to the commit at `i`.
pub open spec fn claims(
    branch: BranchState,
    lookups: Seq<Result<Commit, String>>,
    indices: Map<Oid, usize>,
    i: int,
) -> bool {
    indices.contains_key(branch.target) && descends(
        lookups,
        indices,
        indices[branch.target] as int,
        i,
    )
}

/// Whether branch number `j` is the first of all that claim the commit at `i`.
pub open spec fn claims_first(
    branches: Seq<BranchState>,
    lookups: Seq<Result<Commit, String>>,
    indices: Map<Oid, usize>,
    j: int,
    i: int,
) -> bool {
    &&& claims(branches[j], lookups, indices, i)
    &&& forall|other: int|
        0 <= other < j ==> !claims(#[trigger] branches[other], lookups, indices, i)
}

/// Whether branch number `j` is kept: it points at one of the commits, and it still exists or is
/// the first to claim that commit.
pub open spec fn is_kept(
    branches: Seq<BranchState>,
    lookups: Seq<Result<Commit, String>>,
    indices: Map<Oid, usize>,
    j: int,
) -> bool {
    &&& indices.contains_key(branches[j].target)
    &&& !branches[j].deleted || claims_first(
        branches,
        lookups,
        indices,
        j,
        indices[branches[j].target] as int,
    )
}

/// Whether a range starts where another one does, or is no range at all.
pub open spec fn starts_alike(
    range: (Option<usize>, Option<usize>),
    other: (Option<usize>, Option<usize>),
) -> bool {
    range == (None::<usize>, None::<usize>) || range.0 == other.0
}

/// Whether an assignment of the first `count` branches is right, where `kept` lists the branches
/// that are kept: these are all that should be, in order and unchanged but for their ranges, which
/// start where they did unless they are lost, and each commit belongs to the first branch that
/// claims it.
pub open spec fn is_assignment(
    assignment: Assignment,
    kept: Seq<int>,
    commits: Seq<CommitState>,
    lookups: Seq<Result<Commit, String>>,
    indices: Map<Oid, usize>,
    branches: Seq<BranchState>,
    count: int,
) -> bool {
    &&& kept.len() == assignment.branches.len()
    &&& assignment.commits.len() == commits.len()
    &&& forall|n: int|
        #![trigger kept[n]]
        #![trigger assignment.branches[n]]
        0 <= n < kept.len() ==> {
            &&& 0 <= kept[n] < count
            &&& is_kept(branches, lookups, indices, kept[n])
            &&& assignment.branches[n] == (BranchState {
                range: assignment.branches[n].range,
                ..branches[kept[n]]
            })
            &&& starts_alike(assignment.branches[n].range, branches[kept[n]].range)
        }
    &&& forall|n: int, m: int|
        #![trigger kept[n], kept[m]]
        0 <= n < m < kept.len() ==> kept[n] < kept[m]
    &&& forall|j: int|
        0 <= j < count && #[trigger] is_kept(branches, lookups, indices, j) ==> kept.contains(j)
    &&& forall|i: int|
        0 <= i < commits.len() ==> match (#[trigger] assignment.commits[i]).branch_trace {
            Some(n) => n < kept.len() && claims_first(
                branches,
                lookups,
                indices,
                kept[n as int],
                i,
            ),
            None => forall|j: int|
                0 <= j < count ==> !claims(#[trigger] branches[j], lookups, indices, i),
        }
}

proof fn lemma_leads_on(
    lookups: Seq<Result<Commit, String>>,
    indices: Map<Oid, usize>,
    from: int,
    to: int,
    next: int,
    steps: nat,
)
    requires
        leads(lookups, indices, from, to, steps),
        is_first_parent(lookups, indices, to, next),
    ensures
        leads(lookups, indices, from, next, steps + 1),
    decreases steps,
{
    if steps == 0 {
        assert(leads(lookups, indices, next, next, 0));
        assert(is_first_parent(lookups, indices, from, next));
    } else {
        let between = choose|between: int| #[trigger]
            is_first_parent(lookups, indices, from, between) && leads(
                lookups,
                indices,
                between,
                to,
                (steps - 1) as nat,
            );
        lemma_leads_on(lookups, indices, between, to, next, (steps - 1) as nat);
        assert(is_first_parent(lookups, indices, from, between));
    }
}

/// What first parents lead to from a commit with a trace has a trace.
proof fn lemma_closed(
    lookups: Seq<Result<Commit, String>>,
    indices: Map<Oid, usize>,
    traces: Seq<Option<usize>>,
    from: int,
    to: int,
    steps: nat,
)
    requires
        closed_under_first_parents(lookups, indices, traces),
        forall|oid: Oid| #[trigger] indices.contains_key(oid) ==> indices[oid] < traces.len(),
        0 <= from < traces.len(),
        traces[from] is Some,
        leads(lookups, indices, from, to, steps),
    ensures
        0 <= to < traces.len(),
        traces[to] is Some,
    decreases steps,
{
    if steps > 0 {
        let between = choose|between: int| #[trigger]
            is_first_parent(lookups, indices, from, between) && leads(
                lookups,
                indices,
                between,
                to,
                (steps - 1) as nat,
            );
        assert(is_first_parent(lookups, indices, from, between));
        lemma_closed(lookups, indices, traces, between, to, (steps - 1) as nat);
    }
}

/// First parents lead from the start of a trail to each commit on it.
proof fn lemma_on_trail(
    trail: Seq<int>,
    lookups: Seq<Result<Commit, String>>,
    indices: Map<Oid, usize>,
    traces: Seq<Option<usize>>,
    oid: Oid,
    k: int,
)
    requires
        is_trail(trail, lookups, indices, traces, oid),
        0 <= k < trail.len(),
    ensures
        leads(lookups, indices, trail[0], trail[k], k as nat),
    decreases k,
{
    if k > 0 {
        lemma_on_trail(trail, lookups, indices, traces, oid, k - 1);
        assert(is_first_parent(lookups, indices, trail[k - 1], trail[k]));
        lemma_leads_on(
            lookups,
            indices,
            trail[0],
            trail[k - 1],
            trail[k],
            (k - 1) as nat,
        );
    }
}

/// Assigning one more branch.
proof fn lemma_assignment(
    kept: Seq<int>,
    commits: Seq<CommitState>,
    lookups: Seq<Result<Commit, String>>,
    indices: Map<Oid, usize>,
    groups: nat,
    branches: Seq<BranchState>,
    count: int,
) -> (all: Seq<int>)
    requires
        commits.len() <= i32::MAX,
        commits.len() <= lookups.len(),
        indexes(indices, commits),
        children_found(commits, indices),
        forall|i: int| 0 <= i < commits.len() ==> (#[trigger] lookups[i]) is Ok,
        forall|i: int| 0 <= i < commits.len() ==> (#[trigger] commits[i]).branch_trace is None,
        0 <= count < branches.len() <= usize::MAX,
        all_well_extracted(branches, commits, lookups, indices, groups),
        is_assignment(
            assigned(commits, lookups, indices, branches, count),
            kept,
            commits,
            lookups,
            indices,
            branches,
            count,
        ),
    ensures
        is_assignment(
            assigned(commits, lookups, indices, branches, count + 1),
            all,
            commits,
            lookups,
            indices,
            branches,
            count + 1,
        ),
{
    let before = assigned(commits, lookups, indices, branches, count);
    let after = assigned(commits, lookups, indices, branches, count + 1);
    let branch = branches[count];
    lemma_assigned(commits, lookups, indices, groups, branches, count);
    law_branches_follow_first_parents(commits, lookups, indices, groups, branches, count);
    law_branches_follow_first_parents(commits, lookups, indices, groups, branches, count + 1);
    if indices.contains_key(branch.target) {
        let index = indices[branch.target] as int;
        let marked = before.marked(index, branch.deleted);
        let number = before.branches.len() as usize;
        let traces = traces_of(marked);
        assert forall|i: int|
            #![trigger marked[i]]
            0 <= i < commits.len() implies marked[i] == (CommitState {
            branches: marked[i].branches,
            branch_trace: marked[i].branch_trace,
            ..commits[i]
        }) by {
            assert(before.commits[i].oid == commits[i].oid);
        }
        assert(same_history(commits, marked));
        lemma_same_history(commits, marked, indices);
        assert(marked[index].oid == branch.target);
        assert forall|i: int| 0 <= i < commits.len() implies #[trigger] traces[i]
            == before.commits[i].branch_trace by {
            assert(traces[i] == marked[i].branch_trace);
        }
        let tracing = traced(marked, lookups, indices, traces, branch.target, None, number);
        lemma_traced_end(marked, lookups, indices, traces, branch.target, None, number);
        law_traced_along_trail(marked, lookups, indices, traces, branch.target, number);
        let trail = choose|trail: Seq<int>| #[trigger]
            is_traced(
                trail,
                tracing.traces,
                tracing.end,
                marked,
                lookups,
                indices,
                traces,
                branch.target,
                number,
            );
        assert forall|i: int| 0 <= i < commits.len() implies (
        #[trigger] after.commits[i]).branch_trace == tracing.traces[i] by {}
        let found = traceable(indices, traces, branch.target);
        assert(descends(lookups, indices, index, index)) by {
            assert(leads(lookups, indices, index, index, 0));
        }
        assert(found <==> claims_first(branches, lookups, indices, count, index)) by {
            assert(traces[index] == before.commits[index].branch_trace);
            if !found {
                let n = traces[index]->0 as int;
                assert(claims(branches[kept[n]], lookups, indices, index));
            }
        }
        assert(found <==> trail.len() > 0);
        if found {
            assert(trail.contains(trail[0]));
        }
        assert(is_kept(branches, lookups, indices, count) <==> found || !branch.deleted);
        let all = if found || !branch.deleted {
            kept.push(count)
        } else {
            kept
        };
        assert forall|i: int| 0 <= i < commits.len() implies match (
        #[trigger] after.commits[i]).branch_trace {
            Some(n) => n < all.len() && claims_first(branches, lookups, indices, all[n as int], i),
            None => forall|j: int|
                0 <= j < count + 1 ==> !claims(#[trigger] branches[j], lookups, indices, i),
        } by {
            assert(traces[i] == before.commits[i].branch_trace);
            if trail.contains(i) {
                let k = choose|k: int| 0 <= k < trail.len() && trail[k] == i;
                lemma_on_trail(trail, lookups, indices, traces, branch.target, k);
                assert(traces[trail[k]] is None);
                assert(claims(branches[count], lookups, indices, i));
            } else if traces[i] is None {
                if claims(branches[count], lookups, indices, i) {
                    let steps = choose|steps: nat| #[trigger]
                        leads(lookups, indices, index, i, steps);
                    let final_traces = traces_of(after.commits);
                    assert(final_traces[index] == after.commits[index].branch_trace);
                    assert(final_traces[i] == after.commits[i].branch_trace);
                    if found {
                        assert(trail[0] == index);
                        assert(tracing.traces[index] == Some(number));
                    }
                    lemma_closed(lookups, indices, final_traces, index, i, steps);
                }
            } else {
                let n = traces[i]->0 as int;
                assert(all[n] == kept[n]);
            }
        }
        assert forall|n: int|
            #![trigger all[n]]
            #![trigger after.branches[n]]
            0 <= n < all.len() implies {
            &&& 0 <= all[n] < count + 1
            &&& is_kept(branches, lookups, indices, all[n])
            &&& after.branches[n] == (BranchState {
                range: after.branches[n].range,
                ..branches[all[n]]
            })
            &&& starts_alike(after.branches[n].range, branches[all[n]].range)
        } by {
            if n < kept.len() {
                assert(all[n] == kept[n]);
                assert(after.branches[n] == before.branches[n]);
            }
        }
        assert forall|n: int, m: int|
            #![trigger all[n], all[m]]
            0 <= n < m < all.len() implies all[n] < all[m] by {
            assert(all[n] == kept[n]);
            if m < kept.len() {
                assert(all[m] == kept[m]);
            }
        }
        assert forall|j: int|
            0 <= j < count + 1 && #[trigger] is_kept(
                branches,
                lookups,
                indices,
                j,
            ) implies all.contains(j) by {
            if j == count {
                assert(all[kept.len() as int] == j);
            } else {
                let n = choose|n: int| 0 <= n < kept.len() && kept[n] == j;
                assert(all[n] == j);
            }
        }
        all
    } else {
        assert(after == before);
        assert forall|i: int| 0 <= i < commits.len() implies match (
        #[trigger] after.commits[i]).branch_trace {
            Some(n) => n < kept.len() && claims_first(
                branches,
                lookups,
                indices,
                kept[n as int],
                i,
            ),
            None => forall|j: int|
                0 <= j < count + 1 ==> !claims(#[trigger] branches[j], lookups, indices, i),
        } by {
            assert(before.commits[i].branch_trace == after.commits[i].branch_trace);
        }
        kept
    }
}

proof fn lemma_assignments(
    commits: Seq<CommitState>,
    lookups: Seq<Result<Commit, String>>,
    indices: Map<Oid, usize>,
    groups: nat,
    branches: Seq<BranchState>,
    count: int,
) -> (kept: Seq<int>)
    requires
        commits.len() <= i32::MAX,
        commits.len() <= lookups.len(),
        indexes(indices, commits),
        children_found(commits, indices),
        forall|i: int| 0 <= i < commits.len() ==> (#[trigger] lookups[i]) is Ok,
        forall|i: int| 0 <= i < commits.len() ==> (#[trigger] commits[i]).branch_trace is None,
        0 <= count <= branches.len() <= usize::MAX,
        all_well_extracted(branches, commits, lookups, indices, groups),
    ensures
        is_assignment(
            assigned(commits, lookups, indices, branches, count),
            kept,
            commits,
            lookups,
            indices,
            branches,
            count,
        ),
    decreases count,
{
    if count == 0 {
        Seq::empty()
    } else {
        let kept = lemma_assignments(commits, lookups, indices, groups, branches, count - 1);
        lemma_assignment(kept, commits, lookups, indices, groups, branches, count - 1)
    }
}

/// Each commit belongs to the first branch from whose target first parents lead to it, and to none
/// where there is no such branch. Of the branches whose targets are among the commits, those that
/// still exist are kept, and of the others those that are the first to claim their target.
pub proof fn law_commits_belong_to_first_claim(
    commits: Seq<CommitState>,
    lookups: Seq<Result<Commit, String>>,
    indices: Map<Oid, usize>,
    groups: nat,
    branches: Seq<BranchState>,
)
    requires
        commits.len() <= i32::MAX,
        commits.len() <= lookups.len(),
        indexes(indices, commits),
        children_found(commits, indices),
        forall|i: int| 0 <= i < commits.len() ==> (#[trigger] lookups[i]) is Ok,
        forall|i: int| 0 <= i < commits.len() ==> (#[trigger] commits[i]).branch_trace is None,
        branches.len() <= usize::MAX,
        all_well_extracted(branches, commits, lookups, indices, groups),
    ensures
        exists|kept: Seq<int>| #[trigger]
            is_assignment(
                assigned(commits, lookups, indices, branches, branches.len() as int),
                kept,
                commits,
                lookups,
                indices,
                branches,
                branches.len() as int,
            ),
{
    let kept = lemma_assignments(
        commits,
        lookups,
        indices,
        groups,
        branches,
        branches.len() as int,
    );
}

/// Whether the branch that the commit at `q` belongs to ends as that commit says: at it, if it has
/// no parents; nowhere among the commits, if its first parent is not among them; and if its first
/// parent belongs to another branch, right before that parent or, from a merge, at the furthest
/// child of that parent.
pub open spec fn forks_at(
    assignment: Assignment,
    lookups: Seq<Result<Commit, String>>,
    indices: Map<Oid, usize>,
    q: int,
) -> bool {
    let commit = lookups[q]->Ok_0;
    let number = assignment.commits[q].branch_trace->0 as int;
    let last = assignment.branches[number].range.1;
    let parent = commit.parents@[0];
    let p = indices[parent] as int;
    &&& commit.parents@.len() == 0 ==> (last matches Some(position) && position == q)
    &&& commit.parents@.len() > 0 && !indices.contains_key(parent) ==> last is None
    &&& commit.parents@.len() > 0 && indices.contains_key(parent) ==> {
        &&& assignment.commits[p].branch_trace is Some
        &&& assignment.commits[p].branch_trace->0 != number ==> (last matches Some(position)
            && if assignment.commits[q].is_merge {
            is_furthest_child(assignment.commits, indices, position as int, q, parent, p)
        } else {
            position == p - 1
        })
    }
}

/// Where commits stand before their parents, each branch ends where it forks from another, leaves
/// the commits, or began.
pub proof fn law_branches_end_where_they_fork(
    commits: Seq<CommitState>,
    lookups: Seq<Result<Commit, String>>,
    indices: Map<Oid, usize>,
    groups: nat,
    branches: Seq<BranchState>,
    count: int,
)
    requires
        commits.len() <= i32::MAX,
        commits.len() <= lookups.len(),
        indexes(indices, commits),
        children_found(commits, indices),
        forall|i: int| 0 <= i < commits.len() ==> (#[trigger] lookups[i]) is Ok,
        forall|i: int| 0 <= i < commits.len() ==> (#[trigger] commits[i]).branch_trace is None,
        children_first(lookups, indices, commits.len() as int),
        0 <= count <= branches.len() <= usize::MAX,
        all_well_extracted(branches, commits, lookups, indices, groups),
    ensures
        ({
            let assignment = assigned(commits, lookups, indices, branches, count);
            forall|q: int|
                0 <= q < commits.len() && (#[trigger] assignment.commits[q]).branch_trace is Some
                    ==> forks_at(assignment, lookups, indices, q)
        }),
    decreases count,
{
    if count > 0 {
        let before = assigned(commits, lookups, indices, branches, count - 1);
        let after = assigned(commits, lookups, indices, branches, count);
        let branch = branches[count - 1];
        law_branches_end_where_they_fork(commits, lookups, indices, groups, branches, count - 1);
        law_branches_span_their_commits(commits, lookups, indices, groups, branches, count - 1);
        law_branches_span_their_commits(commits, lookups, indices, groups, branches, count);
        lemma_assigned(commits, lookups, indices, groups, branches, count - 1);
        assert(well_extracted(branch, commits, lookups, indices, groups));
        if indices.contains_key(branch.target) {
            let index = indices[branch.target] as int;
            let marked = before.marked(index, branch.deleted);
            let number = before.branches.len() as usize;
            let traces = traces_of(marked);
            assert forall|i: int|
                #![trigger marked[i]]
                0 <= i < commits.len() implies marked[i] == (CommitState {
                branches: marked[i].branches,
                branch_trace: marked[i].branch_trace,
                ..commits[i]
            }) by {
                assert(before.commits[i].oid == commits[i].oid);
            }
            assert(same_history(commits, marked));
            lemma_same_history(commits, marked, indices);
            assert(marked[index].oid == branch.target);
            assert forall|i: int| 0 <= i < commits.len() implies #[trigger] traces[i]
                == before.commits[i].branch_trace by {
                assert(traces[i] == marked[i].branch_trace);
            }
            let tracing = traced(marked, lookups, indices, traces, branch.target, None, number);
            lemma_traced_end(marked, lookups, indices, traces, branch.target, None, number);
            law_traced_along_trail(marked, lookups, indices, traces, branch.target, number);
            let trail = choose|trail: Seq<int>| #[trigger]
                is_traced(
                    trail,
                    tracing.traces,
                    tracing.end,
                    marked,
                    lookups,
                    indices,
                    traces,
                    branch.target,
                    number,
                );
            assert forall|i: int| 0 <= i < commits.len() implies {
                &&& (#[trigger] after.commits[i]).branch_trace == tracing.traces[i]
                &&& after.commits[i].is_merge == commits[i].is_merge
                &&& after.commits[i].children == commits[i].children
                &&& before.commits[i].is_merge == commits[i].is_merge
                &&& before.commits[i].children == commits[i].children
                &&& marked[i].is_merge == commits[i].is_merge
                &&& marked[i].children == commits[i].children
            } by {
                assert(before.commits[i].oid == commits[i].oid);
                assert(marked[i].oid == commits[i].oid);
            }
            assert forall|q: int|
                0 <= q < commits.len() && (
                #[trigger] after.commits[q]).branch_trace is Some implies forks_at(
                after,
                lookups,
                indices,
                q,
            ) by {
                assert(lookups[q] is Ok);
                let commit = lookups[q]->Ok_0;
                assert(traces[q] == before.commits[q].branch_trace);
                if commit.parents@.len() > 0 && indices.contains_key(commit.parents@[0]) {
                    let p = indices[commit.parents@[0]] as int;
                    assert(traces[p] == before.commits[p].branch_trace);
                    assert(after.commits[p].branch_trace == tracing.traces[p]);
                }
                if trail.contains(q) {
                    let k = choose|k: int| 0 <= k < trail.len() && trail[k] == q;
                    assert(traces[trail[k]] is None);
                    assert(tracing.traces[q] == Some(number));
                    assert(after.branches[number as int] == branch.spanning(
                        traced_range(branch.range, tracing.end->Ok_0),
                    ));
                    assert(after.branches[number as int].range.0 is Some);
                    if k < trail.len() - 1 {
                        let l = k + 1;
                        assert(is_first_parent(lookups, indices, trail[k], trail[l]));
                        assert(trail.contains(trail[l]));
                    } else {
                        assert(ends_rightly(
                            tracing.end,
                            trail,
                            marked,
                            lookups,
                            indices,
                            traces,
                            branch.target,
                        ));
                        assert(branch.range.0 is Some);
                    }
                } else {
                    assert(before.commits[q].branch_trace is Some);
                    assert(forks_at(before, lookups, indices, q));
                    let n = traces[q]->0 as int;
                    assert(after.branches[n] == before.branches[n]);
                }
            }
        }
    } else {
        let start = assigned(commits, lookups, indices, branches, count);
        assert forall|i: int| 0 <= i < start.commits.len() implies (
        #[trigger] start.commits[i]).branch_trace is None by {
            assert(commits[i].branch_trace is None);
        }
    }
}

/// Whether a range is what becomes of another one once it is known where the branch ends: it keeps
/// its start and gets that end, and it is lost where the branch would end before it starts.
pub open spec fn is_cut_at(
    range: (Option<usize>, Option<usize>),
    before: (Option<usize>, Option<usize>),
    end: Option<i32>,
) -> bool {
    match (before.0, end) {
        (Some(start), Some(last)) if last < start => range == (None::<usize>, None::<usize>),
        (_, Some(last)) => range.0 == before.0 && (range.1 matches Some(position) && position
            == last),
        (_, None) => range.0 == before.0 && range.1 is None,
    }
}

/// Whether one more branch was assigned rightly, along a trail and with an end. Its target lists it
/// if it still exists, the commits on the trail belong to it, and it is kept unless tracing it
/// failed, or there are none and it no longer exists.
pub open spec fn is_step(
    before: Assignment,
    after: Assignment,
    lookups: Seq<Result<Commit, String>>,
    indices: Map<Oid, usize>,
    branch: BranchState,
    trail: Seq<int>,
    end: Result<Option<i32>, Seq<char>>,
) -> bool {
    let number = before.branches.len() as usize;
    let index = indices[branch.target] as int;
    &&& is_traced(
        trail,
        traces_of(after.commits),
        end,
        before.commits,
        lookups,
        indices,
        traces_of(before.commits),
        branch.target,
        number,
    )
    &&& after.commits.len() == before.commits.len()
    &&& forall|i: int|
        #![trigger after.commits[i]]
        0 <= i < before.commits.len() ==> after.commits[i] == (CommitState {
            branches: if i == index && !branch.deleted {
                before.commits[i].branches.push(number)
            } else {
                before.commits[i].branches
            },
            branch_trace: after.commits[i].branch_trace,
            ..before.commits[i]
        })
    &&& if end is Err || trail.len() == 0 && branch.deleted {
        after.branches == before.branches
    } else {
        &&& after.branches.len() == before.branches.len() + 1
        &&& after.branches.drop_last() == before.branches
        &&& after.branches.last() == (BranchState {
            range: after.branches.last().range,
            ..branch
        })
        &&& is_cut_at(after.branches.last().range, branch.range, end->Ok_0)
    }
}

/// Each branch is assigned in one step, and a branch whose target is not among the commits changes
/// nothing.
pub proof fn law_branch_is_assigned_in_a_step(
    before: Assignment,
    lookups: Seq<Result<Commit, String>>,
    indices: Map<Oid, usize>,
    branch: BranchState,
)
    requires
        before.commits.len() <= i32::MAX,
        before.branches.len() < usize::MAX,
        indexes(indices, before.commits),
        children_found(before.commits, indices),
        branch.range.0 matches Some(first) && first <= i32::MAX,
    ensures
        indices.contains_key(branch.target) ==> exists|
            trail: Seq<int>,
            end: Result<Option<i32>, Seq<char>>,
        | #[trigger]
            is_step(
                before,
                before.assign(lookups, indices, branch),
                lookups,
                indices,
                branch,
                trail,
                end,
            ),
        !indices.contains_key(branch.target) ==> before.assign(lookups, indices, branch) == before,
{
    if indices.contains_key(branch.target) {
        let index = indices[branch.target] as int;
        let number = before.branches.len() as usize;
        let marked = before.marked(index, branch.deleted);
        let after = before.assign(lookups, indices, branch);
        let traces = traces_of(marked);
        assert forall|i: int|
            #![trigger marked[i]]
            0 <= i < before.commits.len() implies marked[i] == (CommitState {
            branches: marked[i].branches,
            branch_trace: marked[i].branch_trace,
            ..before.commits[i]
        }) by {}
        assert(same_history(before.commits, marked));
        lemma_same_history(before.commits, marked, indices);
        assert(marked[index].oid == branch.target);
        assert(traces =~= traces_of(before.commits));
        let tracing = traced(marked, lookups, indices, traces, branch.target, None, number);
        law_traced_along_trail(marked, lookups, indices, traces, branch.target, number);
        let trail = choose|trail: Seq<int>| #[trigger]
            is_traced(
                trail,
                tracing.traces,
                tracing.end,
                marked,
                lookups,
                indices,
                traces,
                branch.target,
                number,
            );
        assert(traces_of(after.commits) =~= tracing.traces);
        if trail.len() > 0 {
            let own = trail[trail.len() - 1];
            assert(marked[own].is_merge == before.commits[own].is_merge);
            if let Ok(commit) = lookups[own] {
                if commit.parents@.len() > 0 && indices.contains_key(commit.parents@[0]) {
                    let p = indices[commit.parents@[0]] as int;
                    assert(marked[p].children == before.commits[p].children);
                }
            }
        }
        assert(ends_rightly(
            tracing.end,
            trail,
            before.commits,
            lookups,
            indices,
            traces,
            branch.target,
        ));
        assert(traceable(indices, traces, branch.target) <==> trail.len() > 0);
        assert forall|i: int|
            #![trigger after.commits[i]]
            0 <= i < before.commits.len() implies after.commits[i] == (CommitState {
            branches: if i == index && !branch.deleted {
                before.commits[i].branches.push(number)
            } else {
                before.commits[i].branches
            },
            branch_trace: after.commits[i].branch_trace,
            ..before.commits[i]
        }) by {
            assert(marked[i].oid == before.commits[i].oid);
        }
        if let Ok(end) = tracing.end {
            if trail.len() > 0 || !branch.deleted {
                let kept = branch.spanning(traced_range(branch.range, end));
                assert(after.branches == before.branches.push(kept));
                assert(after.branches.drop_last() =~= before.branches);
            }
        }
        assert(is_step(before, after, lookups, indices, branch, trail, tracing.end));
    }
}

} // verus!
