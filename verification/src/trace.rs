//! Tracing a branch back through the history.

use crate::branch::BranchInfo;
use crate::commit::{commit_states, Commit, CommitInfo, CommitState};
use crate::oid::{Oid, OidMap};
use vstd::prelude::*;

verus! {

/// Whether positions are those of the commits that have the ids.
pub open spec fn indexes(indices: Map<Oid, usize>, commits: Seq<CommitState>) -> bool {
    forall|oid: Oid| #[trigger]
        indices.contains_key(oid) ==> indices[oid] < commits.len() && commits[indices[oid] as int].oid
            == oid
}

/// The traces of the commits of a list.
pub open spec fn traces_of(commits: Seq<CommitState>) -> Seq<Option<usize>> {
    commits.map_values(|commit: CommitState| commit.branch_trace)
}

/// The commits, each with the trace that `traces` gives it.
pub open spec fn with_traces(
    commits: Seq<CommitState>,
    traces: Seq<Option<usize>>,
) -> Seq<CommitState> {
    Seq::new(
        commits.len(),
        |i: int| CommitState { branch_trace: traces[i], ..commits[i] },
    )
}

/// The number of commits that have no trace.
pub open spec fn untraced(traces: Seq<Option<usize>>) -> nat
    decreases traces.len(),
{
    if traces.len() == 0 {
        0
    } else {
        untraced(traces.drop_last()) + if traces.last() is None {
            1nat
        } else {
            0nat
        }
    }
}

/// A commit that gets a trace is one less without.
pub proof fn lemma_untraced_update(traces: Seq<Option<usize>>, i: int, branch: usize)
    requires
        0 <= i < traces.len(),
        traces[i] is None,
    ensures
        untraced(traces.update(i, Some(branch))) < untraced(traces),
    decreases traces.len(),
{
    let after = traces.update(i, Some(branch));
    if i < traces.len() - 1 {
        lemma_untraced_update(traces.drop_last(), i, branch);
        assert(after.drop_last() =~= traces.drop_last().update(i, Some(branch)));
    } else {
        assert(after.drop_last() =~= traces.drop_last());
    }
}

/// The furthest of `from` and the positions of the given children, those with the id `own` left
/// out.
pub open spec fn furthest(
    children: Seq<Oid>,
    indices: Map<Oid, usize>,
    own: Oid,
    from: usize,
) -> usize
    decreases children.len(),
{
    if children.len() == 0 {
        from
    } else {
        let before = furthest(children.drop_last(), indices, own, from);
        let child = children.last();
        if child != own && indices[child] > before {
            indices[child]
        } else {
            before
        }
    }
}

/// Where a branch ends that comes from the commit at `prev` to the commit `own` at `index`, which
/// belongs to another branch: right before that commit or, below a merge, as far down as any child
/// of that commit.
pub open spec fn fork_position(
    commits: Seq<CommitState>,
    indices: Map<Oid, usize>,
    own: Oid,
    index: usize,
    prev: Option<usize>,
) -> i32 {
    match prev {
        Some(prev) => if commits[prev as int].is_merge {
            furthest(commits[index as int].children, indices, own, prev) as i32
        } else {
            ((index as i32) - 1) as i32
        },
        None => ((index as i32) - 1) as i32,
    }
}

/// What tracing a branch gives.
#[verifier::ext_equal]
pub struct Tracing {
    /// The traces of the commits afterwards.
    pub traces: Seq<Option<usize>>,
    /// Where the branch ends, if that is among the commits, or why a commit could not be read.
    pub end: Result<Option<i32>, Seq<char>>,
}

/// Traces branch number `branch` from the commit `curr` along first parents, up to a commit that
/// has a trace. `prev` is the position of the commit before; `lookups` holds, for each commit, what
/// reading it gives.
pub open spec fn traced(
    commits: Seq<CommitState>,
    lookups: Seq<Result<Commit, String>>,
    indices: Map<Oid, usize>,
    traces: Seq<Option<usize>>,
    curr: Oid,
    prev: Option<usize>,
    branch: usize,
) -> Tracing
    decreases untraced(traces),
{
    if !indices.contains_key(curr) || indices[curr] >= traces.len() {
        Tracing { traces, end: Ok(None) }
    } else if traces[indices[curr] as int] is Some {
        Tracing {
            traces,
            end: Ok(Some(fork_position(commits, indices, curr, indices[curr], prev))),
        }
    } else {
        proof {
            lemma_untraced_update(traces, indices[curr] as int, branch);
        }
        let index = indices[curr];
        let after = traces.update(index as int, Some(branch));
        match lookups[index as int] {
            Ok(commit) => if commit.parents@.len() == 0 {
                Tracing { traces: after, end: Ok(Some(index as i32)) }
            } else {
                traced(
                    commits,
                    lookups,
                    indices,
                    after,
                    commit.parents@[0],
                    Some(index),
                    branch,
                )
            },
            Err(message) => Tracing { traces: after, end: Err(message@) },
        }
    }
}

/// The range of a branch, once it is known where the branch ends. A branch that would end before
/// it starts has none.
pub open spec fn traced_range(
    range: (Option<usize>, Option<usize>),
    end: Option<i32>,
) -> (Option<usize>, Option<usize>) {
    match (range.0, end) {
        (Some(start), Some(end)) => if end < start as i32 {
            (None, None)
        } else {
            (Some(start), Some(end as usize))
        },
        (None, Some(end)) => (None, Some(end as usize)),
        (start, None) => (start, None),
    }
}

/// Whether the branch that starts at the commit `oid` can be traced to at least one commit.
pub open spec fn traceable(
    indices: Map<Oid, usize>,
    traces: Seq<Option<usize>>,
    oid: Oid,
) -> bool {
    indices.contains_key(oid) && traces[indices[oid] as int] is None
}

/// Whether the children of commits are found.
pub open spec fn children_found(commits: Seq<CommitState>, indices: Map<Oid, usize>) -> bool {
    forall|i: int, k: int|
        #![trigger commits[i].children[k]]
        0 <= i < commits.len() && 0 <= k < commits[i].children.len() ==> indices.contains_key(
            commits[i].children[k],
        )
}

/// The furthest of `from` and the positions of the children.
fn find_furthest(children: &Vec<Oid>, indices: &OidMap, own: Oid, from: usize) -> (position: usize)
    requires
        forall|k: int|
            0 <= k < children@.len() ==> indices@.contains_key(#[trigger] children@[k]),
    ensures
        position == furthest(children@, indices@, own, from),
{
    let mut position = from;
    for k in 0..children.len()
        invariant
            forall|l: int|
                0 <= l < children@.len() ==> indices@.contains_key(#[trigger] children@[l]),
            position == furthest(children@.take(k as int), indices@, own, from),
    {
        let child = children[k];
        assert(children@.take(k + 1).drop_last() =~= children@.take(k as int));
        if child != own {
            if let Some(index) = indices.get(&child) {
                if index > position {
                    position = index;
                }
            }
        }
    }
    assert(children@.take(children@.len() as int) =~= children@);
    position
}

/// Traces back branches by following 1st commit parent, until a commit is reached that already has
/// a trace.
///
/// `lookups` holds, for each of the commits, what reading it gives. Returns whether any commit was
/// assigned to the branch.
pub fn trace_branch(
    lookups: &[Result<Commit, String>],
    commits: &mut [CommitInfo],
    indices: &OidMap,
    oid: Oid,
    branch: &mut BranchInfo,
    branch_index: usize,
) -> (result: Result<bool, String>)
    requires
        old(commits)@.len() <= i32::MAX,
        old(commits)@.len() <= lookups@.len(),
        indexes(indices@, commit_states(old(commits)@)),
        children_found(commit_states(old(commits)@), indices@),
    ensures
        ({
            let before = commit_states(old(commits)@);
            let tracing = traced(
                before,
                lookups@,
                indices@,
                traces_of(before),
                oid,
                None,
                branch_index,
            );
            &&& commit_states(final(commits)@) == with_traces(before, tracing.traces)
            &&& match tracing.end {
                Ok(end) => {
                    &&& result == Ok::<bool, String>(traceable(indices@, traces_of(before), oid))
                    &&& final(branch)@ == old(branch)@.spanning(
                        traced_range(old(branch).range, end),
                    )
                },
                Err(message) => {
                    &&& result matches Err(error) && error@ == message
                    &&& *final(branch) == *old(branch)
                },
            }
        }),
{
    let ghost before = commit_states(commits@);
    let ghost target = traced(
        before,
        lookups@,
        indices@,
        traces_of(before),
        oid,
        None,
        branch_index,
    );
    let len = commits.len();
    let mut curr_oid = oid;
    let mut prev_index: Option<usize> = None;
    let mut start_index: Option<i32> = None;
    let mut any_assigned = false;
    let ghost mut traces = traces_of(before);
    assert(commit_states(commits@) =~= with_traces(before, traces));
    loop
        invariant_except_break
            target == traced(
                before,
                lookups@,
                indices@,
                traces,
                curr_oid,
                prev_index,
                branch_index,
            ),
            start_index is None,
            any_assigned <==> prev_index is Some,
            prev_index is None ==> traces == traces_of(before) && curr_oid == oid,
        invariant
            before == commit_states(old(commits)@),
            target == traced(
                before,
                lookups@,
                indices@,
                traces_of(before),
                oid,
                None,
                branch_index,
            ),
            len == commits@.len() == before.len() == traces.len() <= i32::MAX,
            len <= lookups@.len(),
            indexes(indices@, before),
            children_found(before, indices@),
            commit_states(commits@) == with_traces(before, traces),
            prev_index matches Some(prev) ==> prev < len,
            any_assigned ==> traceable(indices@, traces_of(before), oid),
            *branch == *old(branch),
        ensures
            target == (Tracing { traces, end: Ok(start_index) }),
            any_assigned == traceable(indices@, traces_of(before), oid),
        decreases untraced(traces),
    {
        let index = match indices.get(&curr_oid) {
            Some(index) => index,
            None => {
                break;
            },
        };
        assert(before[index as int].oid == curr_oid);
        assert(commit_states(commits@)[index as int] == commits@[index as int]@);
        if commits[index].branch_trace.is_some() {
            match prev_index {
                None => {
                    start_index = Some(index as i32 - 1);
                },
                Some(prev) => {
                    assert(commit_states(commits@)[prev as int] == commits@[prev as int]@);
                    if commits[prev].is_merge {
                        assert forall|k: int|
                            0 <= k < before[index as int].children.len() implies indices@.contains_key(
                            #[trigger] before[index as int].children[k],
                        ) by {}
                        let position = find_furthest(
                            &commits[index].children,
                            indices,
                            curr_oid,
                            prev,
                        );
                        start_index = Some(position as i32);
                    } else {
                        start_index = Some(index as i32 - 1);
                    }
                },
            }
            break;
        }
        proof {
            lemma_untraced_update(traces, index as int, branch_index);
            traces = traces.update(index as int, Some(branch_index));
        }
        let ghost unmarked = commit_states(commits@);
        commits[index].branch_trace = Some(branch_index);
        assert forall|j: int| 0 <= j < len implies #[trigger] commit_states(commits@)[j]
            == with_traces(before, traces)[j] by {
            if j == index {
                assert(commits@[j]@ =~= with_traces(before, traces)[j]);
            } else {
                assert(commit_states(commits@)[j] == unmarked[j]);
            }
        }
        assert(commit_states(commits@) =~= with_traces(before, traces));
        any_assigned = true;
        match &lookups[index] {
            Ok(commit) => {
                if commit.parent_count() == 0 {
                    start_index = Some(index as i32);
                    break;
                } else {
                    prev_index = Some(index);
                    curr_oid = commit.parents[0];
                }
            },
            Err(message) => {
                return Err(message.clone());
            },
        }
    }
    if let Some(end) = branch.range.0 {
        if let Some(start_index) = start_index {
            if start_index < end as i32 {
                branch.range = (None, None);
            } else {
                branch.range = (branch.range.0, Some(start_index as usize));
            }
        } else {
            branch.range = (branch.range.0, None);
        }
    } else {
        let last: Option<usize> = match start_index {
            Some(position) => Some(position as usize),
            None => None,
        };
        branch.range = (branch.range.0, last);
    }
    Ok(any_assigned)
}

/// Tracing a branch leaves alone what is traced already: a commit that has a trace keeps it, a
/// commit that gets one gets that of the branch, and the commit at which tracing starts has a trace
/// afterwards.
pub proof fn law_tracing_keeps_traces(
    commits: Seq<CommitState>,
    lookups: Seq<Result<Commit, String>>,
    indices: Map<Oid, usize>,
    traces: Seq<Option<usize>>,
    curr: Oid,
    prev: Option<usize>,
    branch: usize,
)
    ensures
        ({
            let after = traced(commits, lookups, indices, traces, curr, prev, branch).traces;
            &&& after.len() == traces.len()
            &&& forall|i: int|
                0 <= i < traces.len() ==> (#[trigger] after[i] == traces[i] || traces[i] is None
                    && after[i] == Some(branch))
            &&& indices.contains_key(curr) && indices[curr] < traces.len()
                ==> after[indices[curr] as int] is Some
        }),
    decreases untraced(traces),
{
    if indices.contains_key(curr) && indices[curr] < traces.len() && traces[indices[curr] as int]
        is None {
        let index = indices[curr];
        lemma_untraced_update(traces, index as int, branch);
        if let Ok(commit) = lookups[index as int] {
            if commit.parents@.len() > 0 {
                let marked = traces.update(index as int, Some(branch));
                law_tracing_keeps_traces(
                    commits,
                    lookups,
                    indices,
                    marked,
                    commit.parents@[0],
                    Some(index),
                    branch,
                );
                let after = traced(commits, lookups, indices, traces, curr, prev, branch).traces;
                assert forall|i: int| 0 <= i < traces.len() implies (#[trigger] after[i]
                    == traces[i] || traces[i] is None && after[i] == Some(branch)) by {
                    assert(after[i] == marked[i] || marked[i] is None && after[i] == Some(branch));
                }
                assert(after[index as int] == marked[index as int]);
            }
        }
    }
}

} // verus!
