//! Branches span the commits that belong to them.

use crate::assign::{assigned, lemma_same_history, same_history, Assignment};
use crate::branch::BranchState;
use crate::commit::{Commit, CommitState};
use crate::invariants::{
    all_well_extracted, children_first, lemma_assigned, lemma_furthest, lemma_traced_end, merge_of,
    well_extracted,
};
use crate::oid::Oid;
use crate::trace::{
    children_found, indexes, law_tracing_keeps_traces, lemma_untraced_update, traceable, traced,
    traces_of, untraced,
};
use vstd::prelude::*;

verus! {

/// Whether a position lies in a range: not before its first position, which is known, and not after
/// its last one, if that is known.
pub open spec fn lies_in(position: int, range: (Option<usize>, Option<usize>)) -> bool {
    &&& range.0 matches Some(first) && first <= position
    &&& range.1 matches Some(last) ==> position <= last
}

/// Whether no commit belongs to branch number `number`.
pub open spec fn is_bare(commits: Seq<CommitState>, number: int) -> bool {
    forall|i: int|
        0 <= i < commits.len() ==> ((#[trigger] commits[i]).branch_trace matches Some(own) ==> own
            != number)
}

/// Whether each commit lies in the range of the branch that it belongs to, and only branches
/// without commits have no range.
pub open spec fn spans_commits(assignment: Assignment) -> bool {
    &&& forall|i: int|
        0 <= i < assignment.commits.len() ==> ((
        #[trigger] assignment.commits[i]).branch_trace matches Some(number) ==> number
            < assignment.branches.len() && lies_in(i, assignment.branches[number as int].range))
    &&& forall|b: int|
        0 <= b < assignment.branches.len() ==> ((#[trigger] assignment.branches[b]).range == (
            None::<usize>,
            None::<usize>,
        ) <==> is_bare(assignment.commits, b))
}

/// The commits that a branch is traced to lie between the one at `start` and the end of the branch.
proof fn lemma_traced_span(
    commits: Seq<CommitState>,
    lookups: Seq<Result<Commit, String>>,
    indices: Map<Oid, usize>,
    traces: Seq<Option<usize>>,
    curr: Oid,
    prev: Option<usize>,
    branch: usize,
    start: int,
)
    requires
        indexes(indices, commits),
        children_found(commits, indices),
        traces.len() == commits.len() <= i32::MAX,
        children_first(lookups, indices, commits.len() as int),
        prev matches Some(p) ==> {
            &&& start <= p < commits.len()
            &&& indices.contains_key(curr) ==> indices[curr] > p
            &&& forall|i: int|
                0 <= i < traces.len() && #[trigger] traces[i] == Some(branch) ==> start <= i <= p
        },
        prev is None ==> {
            &&& indices.contains_key(curr) ==> indices[curr] == start
            &&& forall|i: int| 0 <= i < traces.len() ==> #[trigger] traces[i] != Some(branch)
        },
    ensures
        ({
            let tracing = traced(commits, lookups, indices, traces, curr, prev, branch);
            forall|i: int|
                0 <= i < traces.len() && #[trigger] tracing.traces[i] == Some(branch) ==> start <= i
                    && (tracing.end matches Ok(Some(end)) ==> i <= end)
        }),
    decreases untraced(traces),
{
    if indices.contains_key(curr) {
        let index = indices[curr];
        if traces[index as int] is Some {
            if let Some(p) = prev {
                let children = commits[index as int].children;
                assert forall|k: int| 0 <= k < children.len() implies indices.contains_key(
                    #[trigger] children[k],
                ) && indices[children[k]] < commits.len() by {
                    assert(indices.contains_key(commits[index as int].children[k]));
                }
                lemma_furthest(children, indices, curr, p, commits.len());
            }
        } else if let Ok(commit) = lookups[index as int] {
            lemma_untraced_update(traces, index as int, branch);
            if commit.parents@.len() > 0 {
                assert(lookups[index as int]->Ok_0.parents@[0] == commit.parents@[0]);
                lemma_traced_span(
                    commits,
                    lookups,
                    indices,
                    traces.update(index as int, Some(branch)),
                    commit.parents@[0],
                    Some(index),
                    branch,
                    start,
                );
            }
        }
    }
}

/// Where commits stand before their parents, each commit lies in the range of the branch that it
/// belongs to once branches are assigned, and only branches without commits have no range.
pub proof fn law_branches_span_their_commits(
    commits: Seq<CommitState>,
    lookups: Seq<Result<Commit, String>>,
    indices: Map<Oid, usize>,
    groups: nat,
    branches: Seq<BranchState>,
    count: int,
)
    requires
        commits.len() <= i32::MAX,
        indexes(indices, commits),
        children_found(commits, indices),
        forall|i: int| 0 <= i < commits.len() ==> (#[trigger] lookups[i]) is Ok,
        forall|i: int| 0 <= i < commits.len() ==> (#[trigger] commits[i]).branch_trace is None,
        children_first(lookups, indices, commits.len() as int),
        0 <= count <= branches.len() <= usize::MAX,
        all_well_extracted(branches, commits, lookups, indices, groups),
    ensures
        spans_commits(assigned(commits, lookups, indices, branches, count)),
    decreases count,
{
    if count > 0 {
        let before = assigned(commits, lookups, indices, branches, count - 1);
        let after = assigned(commits, lookups, indices, branches, count);
        let branch = branches[count - 1];
        law_branches_span_their_commits(commits, lookups, indices, groups, branches, count - 1);
        lemma_assigned(commits, lookups, indices, groups, branches, count - 1);
        assert(well_extracted(branch, commits, lookups, indices, groups));
        if indices.contains_key(branch.target) {
            let index = indices[branch.target] as int;
            let marked = before.marked(index, branch.deleted);
            let number = before.branches.len() as usize;
            let traces = traces_of(marked);
            assert forall|i: int|
                #![trigger marked[i]]
                0 <= i < commits.len() implies marked[i] == (CommitState {
                branches: marked[i].branches,
                branch_trace: marked[i].branch_trace,
                ..commits[i]
            }) by {
                assert(before.commits[i].oid == commits[i].oid);
            }
            assert(same_history(commits, marked));
            lemma_same_history(commits, marked, indices);
            assert(marked[index].oid == branch.target);
            assert forall|i: int| 0 <= i < commits.len() implies #[trigger] traces[i]
                == before.commits[i].branch_trace && traces[i] != Some(number) by {
                assert(traces[i] == marked[i].branch_trace);
            }
            let tracing = traced(marked, lookups, indices, traces, branch.target, None, number);
            lemma_traced_end(marked, lookups, indices, traces, branch.target, None, number);
            law_tracing_keeps_traces(
                marked,
                lookups,
                indices,
                traces,
                branch.target,
                None,
                number,
            );
            lemma_traced_span(
                marked,
                lookups,
                indices,
                traces,
                branch.target,
                None,
                number,
                index,
            );
            assert forall|i: int| 0 <= i < commits.len() implies (
            #[trigger] after.commits[i]).branch_trace == tracing.traces[i] by {}
            assert(branch.range.0 matches Some(first) && first <= index) by {
                if branch.is_merged {
                    let k = choose|k: int| merge_of(branch, commits, lookups, k);
                    assert(merge_of(branch, commits, lookups, k));
                    assert(lookups[k]->Ok_0.parents@[1] == branch.target);
                }
            }
            let found = traceable(indices, traces, branch.target);
            if found {
                assert(tracing.traces[index] == Some(number));
                assert(after.commits[index].branch_trace == Some(number));
            } else {
                assert(tracing.traces == traces);
            }
            assert forall|i: int| 0 <= i < after.commits.len() implies ((
            #[trigger] after.commits[i]).branch_trace matches Some(n) ==> n < after.branches.len()
                && lies_in(i, after.branches[n as int].range)) by {
                if traces[i] is Some {
                    assert(before.commits[i].branch_trace == traces[i]);
                }
            }
            assert forall|b: int| 0 <= b < after.branches.len() implies ((
            #[trigger] after.branches[b]).range == (None::<usize>, None::<usize>) <==> is_bare(
                after.commits,
                b,
            )) by {
                if b < before.branches.len() {
                    assert(after.branches[b] == before.branches[b]);
                    assert forall|i: int| 0 <= i < commits.len() implies ((
                    #[trigger] after.commits[i]).branch_trace matches Some(n) && n == b) == (
                    before.commits[i].branch_trace matches Some(n) && n == b) by {
                        assert(traces[i] == before.commits[i].branch_trace);
                    }
                    if is_bare(after.commits, b) {
                        assert forall|i: int| 0 <= i < commits.len() implies ((
                        #[trigger] before.commits[i]).branch_trace matches Some(n) ==> n != b) by {
                            assert(after.commits[i].branch_trace matches Some(n) ==> n != b);
                        }
                    }
                } else if !found {
                    assert forall|i: int| 0 <= i < commits.len() implies ((
                    #[trigger] after.commits[i]).branch_trace matches Some(n) ==> n != b) by {
                        assert(traces[i] != Some(number));
                    }
                }
            }
        }
    } else {
        let start = assigned(commits, lookups, indices, branches, count);
        assert forall|i: int| 0 <= i < start.commits.len() implies (
        #[trigger] start.commits[i]).branch_trace is None by {
            assert(commits[i].branch_trace is None);
        }
    }
}

} // verus!
