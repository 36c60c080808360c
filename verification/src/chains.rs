//! Branches follow first parents.

use crate::assign::{assigned, lemma_same_history, same_history, Assignment};
use crate::branch::BranchState;
use crate::commit::{Commit, CommitState};
use crate::invariants::{all_well_extracted, lemma_assigned, lemma_traced_end};
use crate::oid::Oid;
use crate::trace::{
    children_found, indexes, law_tracing_keeps_traces, lemma_untraced_update, traceable, traced,
    traces_of, untraced,
};
use vstd::prelude::*;

verus! {

/// Whether the commit at `parent` is the first parent of the commit at `child`.
pub open spec fn is_first_parent(
    lookups: Seq<Result<Commit, String>>,
    indices: Map<Oid, usize>,
    child: int,
    parent: int,
) -> bool {
    lookups[child] matches Ok(commit) && commit.parents@.len() > 0 && indices.contains_key(
        commit.parents@[0],
    ) && indices[commit.parents@[0]] == parent
}

/// Whether the first parent of a commit that has a trace has one too.
pub open spec fn closed_under_first_parents(
    lookups: Seq<Result<Commit, String>>,
    indices: Map<Oid, usize>,
    traces: Seq<Option<usize>>,
) -> bool {
    forall|child: int, parent: int| #[trigger]
        is_first_parent(lookups, indices, child, parent) && 0 <= child < traces.len() && 0 <= parent
            < traces.len() && traces[child] is Some ==> traces[parent] is Some
}

/// Whether the commit at `i` is the one at `tip`, or the first parent of a commit with the same
/// trace.
pub open spec fn reached(
    lookups: Seq<Result<Commit, String>>,
    indices: Map<Oid, usize>,
    traces: Seq<Option<usize>>,
    tip: int,
    i: int,
) -> bool {
    i == tip || exists|child: int|
        0 <= child < traces.len() && traces[child] == traces[i] && #[trigger] is_first_parent(
            lookups,
            indices,
            child,
            i,
        )
}

/// Whether the commits of each branch follow one another by first parents, from the one that the
/// branch points at.
pub open spec fn follows_first_parents(
    assignment: Assignment,
    lookups: Seq<Result<Commit, String>>,
    indices: Map<Oid, usize>,
) -> bool {
    forall|i: int|
        0 <= i < assignment.commits.len() ==> ((
        #[trigger] assignment.commits[i]).branch_trace matches Some(number) ==> number
            < assignment.branches.len() && reached(
            lookups,
            indices,
            traces_of(assignment.commits),
            indices[assignment.branches[number as int].target] as int,
            i,
        ))
}

/// While a branch is traced, only the commit traced last may have a first parent without a trace,
/// and the commits of the branch follow one another.
proof fn lemma_traced_chain(
    commits: Seq<CommitState>,
    lookups: Seq<Result<Commit, String>>,
    indices: Map<Oid, usize>,
    traces: Seq<Option<usize>>,
    curr: Oid,
    prev: Option<usize>,
    branch: usize,
    tip: int,
)
    requires
        traces.len() == commits.len() <= lookups.len(),
        indexes(indices, commits),
        prev matches Some(p) ==> p < traces.len() && traces[p as int] == Some(branch)
            && lookups[p as int] is Ok && lookups[p as int]->Ok_0.parents@.len() > 0
            && lookups[p as int]->Ok_0.parents@[0] == curr,
        prev is None && indices.contains_key(curr) ==> indices[curr] == tip,
        forall|child: int, parent: int| #[trigger]
            is_first_parent(lookups, indices, child, parent) && 0 <= child < traces.len() && 0
                <= parent < traces.len() && traces[child] is Some && !(prev matches Some(p) && p
                == child) ==> traces[parent] is Some,
        forall|i: int|
            0 <= i < traces.len() && #[trigger] traces[i] == Some(branch) ==> reached(
                lookups,
                indices,
                traces,
                tip,
                i,
            ),
    ensures
        ({
            let after = traced(commits, lookups, indices, traces, curr, prev, branch).traces;
            &&& closed_under_first_parents(lookups, indices, after)
            &&& forall|i: int|
                0 <= i < after.len() && #[trigger] after[i] == Some(branch) ==> reached(
                    lookups,
                    indices,
                    after,
                    tip,
                    i,
                )
        }),
    decreases untraced(traces),
{
    if indices.contains_key(curr) && indices[curr] < traces.len() && traces[indices[curr] as int]
        is None {
        let index = indices[curr];
        let after = traces.update(index as int, Some(branch));
        lemma_untraced_update(traces, index as int, branch);
        assert forall|i: int|
            0 <= i < after.len() && #[trigger] after[i] == Some(branch) implies reached(
            lookups,
            indices,
            after,
            tip,
            i,
        ) by {
            if i == index {
                if let Some(p) = prev {
                    assert(is_first_parent(lookups, indices, p as int, i));
                }
            } else {
                assert(traces[i] == Some(branch));
                if i != tip {
                    let child = choose|child: int|
                        0 <= child < traces.len() && traces[child] == traces[i]
                            && #[trigger] is_first_parent(lookups, indices, child, i);
                    assert(after[child] == after[i]);
                    assert(is_first_parent(lookups, indices, child, i));
                }
            }
        }
        match lookups[index as int] {
            Ok(commit) => {
                if commit.parents@.len() > 0 {
                    lemma_traced_chain(
                        commits,
                        lookups,
                        indices,
                        after,
                        commit.parents@[0],
                        Some(index),
                        branch,
                        tip,
                    );
                }
            },
            Err(_) => {},
        }
    }
}

/// The commits of each branch follow one another by first parents, from the one that the branch
/// points at; and the first parent of a commit that belongs to a branch belongs to one too.
pub proof fn law_branches_follow_first_parents(
    commits: Seq<CommitState>,
    lookups: Seq<Result<Commit, String>>,
    indices: Map<Oid, usize>,
    groups: nat,
    branches: Seq<BranchState>,
    count: int,
)
    requires
        commits.len() <= i32::MAX,
        commits.len() <= lookups.len(),
        indexes(indices, commits),
        children_found(commits, indices),
        forall|i: int| 0 <= i < commits.len() ==> (#[trigger] lookups[i]) is Ok,
        forall|i: int| 0 <= i < commits.len() ==> (#[trigger] commits[i]).branch_trace is None,
        0 <= count <= branches.len() <= usize::MAX,
        all_well_extracted(branches, commits, lookups, indices, groups),
    ensures
        follows_first_parents(
            assigned(commits, lookups, indices, branches, count),
            lookups,
            indices,
        ),
        closed_under_first_parents(
            lookups,
            indices,
            traces_of(assigned(commits, lookups, indices, branches, count).commits),
        ),
    decreases count,
{
    let after = assigned(commits, lookups, indices, branches, count);
    if count > 0 {
        let before = assigned(commits, lookups, indices, branches, count - 1);
        let branch = branches[count - 1];
        law_branches_follow_first_parents(
            commits,
            lookups,
            indices,
            groups,
            branches,
            count - 1,
        );
        lemma_assigned(commits, lookups, indices, groups, branches, count - 1);
        if indices.contains_key(branch.target) {
            let index = indices[branch.target] as int;
            let marked = before.marked(index, branch.deleted);
            let number = before.branches.len() as usize;
            let traces = traces_of(marked);
            let old_traces = traces_of(before.commits);
            assert forall|i: int|
                #![trigger marked[i]]
                0 <= i < commits.len() implies marked[i] == (CommitState {
                branches: marked[i].branches,
                branch_trace: marked[i].branch_trace,
                ..commits[i]
            }) by {
                assert(before.commits[i].oid == commits[i].oid);
            }
            assert(same_history(commits, marked));
            lemma_same_history(commits, marked, indices);
            assert(marked[index].oid == branch.target);
            assert forall|i: int| 0 <= i < commits.len() implies #[trigger] traces[i]
                == old_traces[i] by {
                assert(traces[i] == marked[i].branch_trace);
            }
            assert(traces =~= old_traces);
            assert forall|i: int| 0 <= i < traces.len() implies #[trigger] traces[i] != Some(
                number,
            ) by {
                assert(before.commits[i].branch_trace == traces[i]);
            }
            let tracing = traced(marked, lookups, indices, traces, branch.target, None, number);
            lemma_traced_end(marked, lookups, indices, traces, branch.target, None, number);
            law_tracing_keeps_traces(
                marked,
                lookups,
                indices,
                traces,
                branch.target,
                None,
                number,
            );
            lemma_traced_chain(
                marked,
                lookups,
                indices,
                traces,
                branch.target,
                None,
                number,
                index,
            );
            assert(traces_of(after.commits) =~= tracing.traces);
            if !traceable(indices, traces, branch.target) {
                assert(tracing.traces == traces);
            }
            assert forall|i: int| 0 <= i < after.commits.len() implies ((
            #[trigger] after.commits[i]).branch_trace matches Some(n) ==> n < after.branches.len()
                && reached(
                lookups,
                indices,
                tracing.traces,
                indices[after.branches[n as int].target] as int,
                i,
            )) by {
                assert(after.commits[i].branch_trace == tracing.traces[i]);
                if let Some(n) = tracing.traces[i] {
                    if traces[i] is Some {
                        assert(before.commits[i].branch_trace == traces[i]);
                        let tip = indices[before.branches[n as int].target] as int;
                        assert(after.branches[n as int] == before.branches[n as int]);
                        assert(reached(lookups, indices, old_traces, tip, i));
                        if i != tip {
                            let child = choose|child: int|
                                0 <= child < old_traces.len() && old_traces[child] == old_traces[i]
                                    && #[trigger] is_first_parent(lookups, indices, child, i);
                            assert(tracing.traces[child] == traces[child]);
                            assert(is_first_parent(lookups, indices, child, i));
                        }
                    } else {
                        assert(tracing.traces[i] == Some(number));
                        assert(reached(lookups, indices, tracing.traces, index, i));
                        assert(after.branches[n as int].target == branch.target);
                    }
                }
            }
        }
    } else {
        assert forall|i: int| 0 <= i < commits.len() implies #[trigger] traces_of(
            after.commits,
        )[i] is None by {
            assert(commits[i].branch_trace is None);
        }
    }
}

} // verus!
