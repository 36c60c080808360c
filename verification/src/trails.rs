//! The commits that tracing a branch comes to, and where the branch ends.

use crate::chains::is_first_parent;
use crate::commit::{Commit, CommitState};
use crate::invariants::lemma_furthest;
use crate::oid::Oid;
use crate::trace::{
    children_found, furthest, indexes, lemma_untraced_update, traced, traced_range, untraced,
};
use vstd::prelude::*;

verus! {

/// Whether a list of positions starts at the commit `oid`, if it is not empty, goes on from each
/// commit to its first parent, and comes only to commits without a trace, to each once.
pub open spec fn is_trail(
    trail: Seq<int>,
    lookups: Seq<Result<Commit, String>>,
    indices: Map<Oid, usize>,
    traces: Seq<Option<usize>>,
    oid: Oid,
) -> bool {
    &&& trail.no_duplicates()
    &&& forall|k: int|
        0 <= k < trail.len() ==> 0 <= #[trigger] trail[k] < traces.len() && traces[trail[k]] is None
    &&& trail.len() > 0 ==> indices.contains_key(oid) && trail[0] == indices[oid]
    &&& forall|k: int, l: int|
        #![trigger trail[k], trail[l]]
        0 <= k < trail.len() && l == k + 1 && l < trail.len() ==> is_first_parent(
            lookups,
            indices,
            trail[k],
            trail[l],
        )
}

/// Whether a position is the furthest of that of a commit and those of the children of its first
/// parent `parent`, which stands at `p`.
pub open spec fn is_furthest_child(
    commits: Seq<CommitState>,
    indices: Map<Oid, usize>,
    position: int,
    own: int,
    parent: Oid,
    p: int,
) -> bool {
    let children = commits[p].children;
    &&& own <= position
    &&& forall|c: int|
        0 <= c < children.len() && #[trigger] children[c] != parent ==> indices[children[c]]
            <= position
    &&& position == own || exists|c: int|
        0 <= c < children.len() && #[trigger] children[c] != parent && indices[children[c]]
            == position
}

/// Whether a branch ends as it should, once it was traced along a trail:
/// * at the last commit of the trail, if that has no parents;
/// * nowhere among the commits, if its first parent is not among them;
/// * otherwise its first parent belongs to a branch already. From a merge, the branch ends at the
///   furthest child of that parent; from another commit, right before that parent.
///
/// Where the first commit belongs to a branch already, the branch ends right before it. A commit that
/// cannot be read is reported.
pub open spec fn ends_rightly(
    end: Result<Option<i32>, Seq<char>>,
    trail: Seq<int>,
    commits: Seq<CommitState>,
    lookups: Seq<Result<Commit, String>>,
    indices: Map<Oid, usize>,
    traces: Seq<Option<usize>>,
    oid: Oid,
) -> bool {
    if trail.len() == 0 {
        if !indices.contains_key(oid) {
            end == Ok::<Option<i32>, Seq<char>>(None)
        } else {
            &&& traces[indices[oid] as int] is Some
            &&& end matches Ok(Some(position)) && position == indices[oid] - 1
        }
    } else {
        let own = trail[trail.len() - 1];
        match lookups[own] {
            Err(message) => end == Err::<Option<i32>, Seq<char>>(message@),
            Ok(commit) => if commit.parents@.len() == 0 {
                end matches Ok(Some(position)) && position == own
            } else if !indices.contains_key(commit.parents@[0]) {
                end == Ok::<Option<i32>, Seq<char>>(None)
            } else {
                let parent = commit.parents@[0];
                let p = indices[parent] as int;
                &&& traces[p] is Some || trail.contains(p)
                &&& end matches Ok(Some(position)) && if commits[own].is_merge {
                    is_furthest_child(commits, indices, position as int, own, parent, p)
                } else {
                    position == p - 1
                }
            },
        }
    }
}

/// Whether tracing a branch gave the commits of a trail to it, left the others alone, and ended
/// rightly.
pub open spec fn is_traced(
    trail: Seq<int>,
    after: Seq<Option<usize>>,
    end: Result<Option<i32>, Seq<char>>,
    commits: Seq<CommitState>,
    lookups: Seq<Result<Commit, String>>,
    indices: Map<Oid, usize>,
    traces: Seq<Option<usize>>,
    oid: Oid,
    branch: usize,
) -> bool {
    &&& is_trail(trail, lookups, indices, traces, oid)
    &&& after.len() == traces.len()
    &&& forall|i: int|
        0 <= i < traces.len() ==> #[trigger] after[i] == (if trail.contains(i) {
            Some(branch)
        } else {
            traces[i]
        })
    &&& ends_rightly(end, trail, commits, lookups, indices, traces, oid)
}

/// The furthest child is the furthest child.
proof fn lemma_furthest_child(
    children: Seq<Oid>,
    indices: Map<Oid, usize>,
    own: Oid,
    from: usize,
)
    ensures
        ({
            let position = furthest(children, indices, own, from);
            &&& from <= position
            &&& forall|c: int|
                0 <= c < children.len() && #[trigger] children[c] != own ==> indices[children[c]]
                    <= position
            &&& position == from || exists|c: int|
                0 <= c < children.len() && #[trigger] children[c] != own && indices[children[c]]
                    == position
        }),
    decreases children.len(),
{
    if children.len() > 0 {
        let shorter = children.drop_last();
        let last = children.len() - 1;
        let before = furthest(shorter, indices, own, from);
        let position = furthest(children, indices, own, from);
        lemma_furthest_child(shorter, indices, own, from);
        assert forall|c: int| 0 <= c < children.len() && #[trigger] children[c] != own implies
            indices[children[c]] <= position by {
            if c < last {
                assert(shorter[c] == children[c]);
            }
        }
        if position != from {
            if position == before && before != from {
                let c = choose|c: int|
                    0 <= c < shorter.len() && #[trigger] shorter[c] != own && indices[shorter[c]]
                        == before;
                assert(children[c] != own && indices[children[c]] == position);
            } else {
                assert(children[last] != own && indices[children[last]] == position);
            }
        }
    }
}

/// A branch that was traced along a trail so far is traced along a longer one in the end.
proof fn lemma_trail(
    trail: Seq<int>,
    commits: Seq<CommitState>,
    lookups: Seq<Result<Commit, String>>,
    indices: Map<Oid, usize>,
    before: Seq<Option<usize>>,
    oid: Oid,
    traces: Seq<Option<usize>>,
    curr: Oid,
    prev: Option<usize>,
    branch: usize,
) -> (whole: Seq<int>)
    requires
        before.len() == traces.len() == commits.len() <= i32::MAX,
        indexes(indices, commits),
        children_found(commits, indices),
        is_trail(trail, lookups, indices, before, oid),
        forall|i: int|
            0 <= i < traces.len() ==> #[trigger] traces[i] == (if trail.contains(i) {
                Some(branch)
            } else {
                before[i]
            }),
        trail.len() == 0 ==> curr == oid && prev is None,
        trail.len() > 0 ==> {
            let own = trail[trail.len() - 1];
            &&& prev matches Some(p) && p == own
            &&& lookups[own] matches Ok(commit) && commit.parents@.len() > 0 && commit.parents@[0]
                == curr
        },
    ensures
        ({
            let tracing = traced(commits, lookups, indices, traces, curr, prev, branch);
            is_traced(
                whole,
                tracing.traces,
                tracing.end,
                commits,
                lookups,
                indices,
                before,
                oid,
                branch,
            )
        }),
    decreases untraced(traces),
{
    let tracing = traced(commits, lookups, indices, traces, curr, prev, branch);
    if !indices.contains_key(curr) {
        trail
    } else {
        let index = indices[curr];
        if traces[index as int] is Some {
            if trail.len() > 0 {
                let own = prev->0;
                let children = commits[index as int].children;
                assert forall|k: int| 0 <= k < children.len() implies indices.contains_key(
                    #[trigger] children[k],
                ) && indices[children[k]] < commits.len() by {
                    assert(indices.contains_key(commits[index as int].children[k]));
                }
                lemma_furthest(children, indices, curr, own, commits.len());
                lemma_furthest_child(children, indices, curr, own);
            }
            trail
        } else {
            let longer = trail.push(index as int);
            let after = traces.update(index as int, Some(branch));
            lemma_untraced_update(traces, index as int, branch);
            assert(!trail.contains(index as int));
            assert forall|k: int, l: int|
                0 <= k < longer.len() && 0 <= l < longer.len() && k != l implies longer[k]
                != longer[l] by {
                if k < trail.len() {
                    assert(trail.contains(trail[k]));
                }
                if l < trail.len() {
                    assert(trail.contains(trail[l]));
                }
            }
            assert forall|i: int| 0 <= i < after.len() implies #[trigger] after[i] == (
            if longer.contains(i) {
                Some(branch)
            } else {
                before[i]
            }) by {
                if i == index {
                    assert(longer[trail.len() as int] == i);
                } else if trail.contains(i) {
                    let k = choose|k: int| 0 <= k < trail.len() && trail[k] == i;
                    assert(longer[k] == i);
                } else if longer.contains(i) {
                    let k = choose|k: int| 0 <= k < longer.len() && longer[k] == i;
                    assert(trail[k] == i);
                }
            }
            assert(is_trail(longer, lookups, indices, before, oid)) by {
                assert forall|k: int, l: int|
                    #![trigger longer[k], longer[l]]
                    0 <= k < longer.len() && l == k + 1 && l < longer.len() implies is_first_parent(
                    lookups,
                    indices,
                    longer[k],
                    longer[l],
                ) by {
                    assert(longer[k] == trail[k]);
                    if l < trail.len() {
                        assert(longer[l] == trail[l]);
                    }
                }
                assert forall|k: int| 0 <= k < longer.len() implies 0 <= #[trigger] longer[k]
                    < before.len() && before[longer[k]] is None by {
                    if k < trail.len() {
                        assert(longer[k] == trail[k]);
                    } else {
                        assert(before[index as int] == traces[index as int]);
                    }
                }
            }
            match lookups[index as int] {
                Ok(commit) => {
                    if commit.parents@.len() > 0 {
                        lemma_trail(
                            longer,
                            commits,
                            lookups,
                            indices,
                            before,
                            oid,
                            after,
                            commit.parents@[0],
                            Some(index),
                            branch,
                        )
                    } else {
                        longer
                    }
                },
                Err(_) => longer,
            }
        }
    }
}

/// A branch is traced from a commit along first parents, as far as commits have no trace and can be
/// read. The commits on that trail, and no others, get the trace of the branch, and the branch ends
/// where it forks from another branch, leaves the commits, or began.
pub proof fn law_traced_along_trail(
    commits: Seq<CommitState>,
    lookups: Seq<Result<Commit, String>>,
    indices: Map<Oid, usize>,
    traces: Seq<Option<usize>>,
    oid: Oid,
    branch: usize,
)
    requires
        traces.len() == commits.len() <= i32::MAX,
        indexes(indices, commits),
        children_found(commits, indices),
    ensures
        exists|trail: Seq<int>| #[trigger]
            is_traced(
                trail,
                traced(commits, lookups, indices, traces, oid, None, branch).traces,
                traced(commits, lookups, indices, traces, oid, None, branch).end,
                commits,
                lookups,
                indices,
                traces,
                oid,
                branch,
            ),
{
    let trail = lemma_trail(
        Seq::empty(),
        commits,
        lookups,
        indices,
        traces,
        oid,
        traces,
        oid,
        None,
        branch,
    );
}

/// The range of a branch keeps its start and gets its end. It is lost where the branch would end
/// before it starts.
pub proof fn law_traced_range(range: (Option<usize>, Option<usize>), end: Option<i32>)
    requires
        range.0 matches Some(first) ==> first <= i32::MAX,
        range.0 is None ==> (end matches Some(last) ==> last >= 0),
    ensures
        range.0 is Some && end is Some && end->0 < range.0->0 ==> traced_range(range, end) == (
            None::<usize>,
            None::<usize>,
        ),
        !(range.0 is Some && end is Some && end->0 < range.0->0) ==> {
            &&& traced_range(range, end).0 == range.0
            &&& traced_range(range, end).1 is Some <==> end is Some
            &&& end is Some ==> traced_range(range, end).1->0 == end->0
        },
{
}

} // verus!
