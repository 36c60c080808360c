//! From parents to children.

use crate::commit::{commit_states, CommitInfo, CommitState};
use crate::oid::{Oid, OidMap};
use vstd::prelude::*;

verus! {

/// Whether parent number `k` of a commit is the commit at `position`.
pub open spec fn is_parent(
    commit: CommitState,
    k: int,
    indices: Map<Oid, usize>,
    position: int,
) -> bool {
    commit.parents[k] matches Some(parent) && indices.contains_key(parent) && indices[parent]
        == position
}

/// The children that the first `count` commits make for the commit at `position`: each commit
/// once for each of its two recorded parents that is that commit, in order.
pub open spec fn adopted(
    commits: Seq<CommitState>,
    indices: Map<Oid, usize>,
    count: int,
    position: int,
) -> Seq<Oid>
    decreases count,
{
    if count <= 0 {
        Seq::empty()
    } else {
        let commit = commits[count - 1];
        let before = adopted(commits, indices, count - 1, position);
        let after_first = if is_parent(commit, 0, indices, position) {
            before.push(commit.oid)
        } else {
            before
        };
        if is_parent(commit, 1, indices, position) {
            after_first.push(commit.oid)
        } else {
            after_first
        }
    }
}

/// The commits, with the children that their parents say they have.
pub open spec fn with_children(commits: Seq<CommitState>, indices: Map<Oid, usize>) -> Seq<
    CommitState,
> {
    Seq::new(
        commits.len(),
        |j: int|
            CommitState {
                children: commits[j].children + adopted(
                    commits,
                    indices,
                    commits.len() as int,
                    j,
                ),
                ..commits[j]
            },
    )
}

/// Whether the recorded parents of commits are found at positions of commits.
pub open spec fn parents_found(commits: Seq<CommitState>, indices: Map<Oid, usize>) -> bool {
    forall|i: int, k: int|
        #![trigger commits[i].parents[k]]
        0 <= i < commits.len() && 0 <= k < 2 ==> (commits[i].parents[k] matches Some(parent)
            ==> indices.contains_key(parent) ==> indices[parent] < commits.len())
}

/// Walks through the commits and adds each commit's Oid to the children of its parents.
pub fn assign_children(commits: &mut [CommitInfo], indices: &OidMap)
    requires
        parents_found(commit_states(old(commits)@), indices@),
    ensures
        commit_states(final(commits)@) == with_children(commit_states(old(commits)@), indices@),
{
    let ghost before = commit_states(commits@);
    let len = commits.len();
    assert forall|j: int| 0 <= j < len implies #[trigger] before[j] =~= (CommitState {
        children: before[j].children + adopted(before, indices@, 0, j),
        ..before[j]
    }) by {
        assert(before[j].children + Seq::<Oid>::empty() =~= before[j].children);
    }
    for i in 0..len
        invariant
            len == commits@.len() == before.len(),
            parents_found(before, indices@),
            forall|j: int|
                0 <= j < len ==> (#[trigger] commits@[j])@ == (CommitState {
                    children: before[j].children + adopted(before, indices@, i as int, j),
                    ..before[j]
                }),
    {
        let oid = commits[i].oid;
        let parents = commits[i].parents;
        let ghost commit = before[i as int];
        assert(commits@[i as int]@.parents == commit.parents);
        if let Some(parent) = parents[0] {
            assert(commit.parents[0] == Some(parent));
            if let Some(position) = indices.get(&parent) {
                assert(before[i as int].parents[0] is Some);
                commits[position].children.push(oid);
            }
        }
        let ghost middle = commits@;
        assert forall|j: int| 0 <= j < len implies (#[trigger] middle[j])@ == (CommitState {
            children: before[j].children + if is_parent(commit, 0, indices@, j) {
                adopted(before, indices@, i as int, j).push(oid)
            } else {
                adopted(before, indices@, i as int, j)
            },
            ..before[j]
        }) by {
            assert(commits@[j]@ =~= middle[j]@);
        }
        if let Some(parent) = parents[1] {
            assert(commit.parents[1] == Some(parent));
            if let Some(position) = indices.get(&parent) {
                assert(before[i as int].parents[1] is Some);
                commits[position].children.push(oid);
            }
        }
        assert forall|j: int| 0 <= j < len implies (#[trigger] commits@[j])@ == (CommitState {
            children: before[j].children + adopted(before, indices@, i + 1, j),
            ..before[j]
        }) by {
            assert(middle[j]@ == middle[j]@);
            assert(commits@[j]@.children =~= before[j].children + adopted(
                before,
                indices@,
                i + 1,
                j,
            ));
        }
    }
    assert(commit_states(commits@) =~= with_children(before, indices@));
}

/// The children that commits make are those commits that have the parent.
pub proof fn lemma_adopted(
    commits: Seq<CommitState>,
    indices: Map<Oid, usize>,
    count: int,
    position: int,
    child: Oid,
)
    requires
        0 <= count <= commits.len(),
    ensures
        adopted(commits, indices, count, position).contains(child) <==> exists|i: int, k: int|
            0 <= i < count && 0 <= k < 2 && #[trigger] is_parent(commits[i], k, indices, position)
                && commits[i].oid == child,
    decreases count,
{
    if count > 0 {
        let commit = commits[count - 1];
        let before = adopted(commits, indices, count - 1, position);
        let after = adopted(commits, indices, count, position);
        lemma_adopted(commits, indices, count - 1, position, child);
        if before.contains(child) {
            let at = choose|at: int| 0 <= at < before.len() && before[at] == child;
            assert(after[at] == child);
        }
        if is_parent(commit, 0, indices, position) || is_parent(commit, 1, indices, position) {
            assert(after[after.len() - 1] == commit.oid);
        }
        if after.contains(child) && !before.contains(child) {
            let at = choose|at: int| 0 <= at < after.len() && after[at] == child;
            assert(at >= before.len());
            assert(commit.oid == child);
            if is_parent(commit, 0, indices, position) {
                assert(is_parent(commits[count - 1], 0, indices, position));
            } else {
                assert(is_parent(commits[count - 1], 1, indices, position));
            }
        }
    }
}

/// Children mirror parents: the children that a commit gets are the commits that have it as one
/// of their two recorded parents.
pub proof fn law_children_mirror_parents(
    commits: Seq<CommitState>,
    indices: Map<Oid, usize>,
    position: int,
    child: Oid,
)
    requires
        0 <= position < commits.len(),
        commits[position].children.len() == 0,
    ensures
        with_children(commits, indices)[position].children.contains(child) <==> exists|
            i: int,
            k: int,
        |
            0 <= i < commits.len() && 0 <= k < 2 && #[trigger] is_parent(
                commits[i],
                k,
                indices,
                position,
            ) && commits[i].oid == child,
{
    lemma_adopted(commits, indices, commits.len() as int, position, child);
    assert(with_children(commits, indices)[position].children =~= adopted(
        commits,
        indices,
        commits.len() as int,
        position,
    ));
}

/// Whether parent number `k` of commit `i` is the commit at `position`.
pub open spec fn is_child(
    commits: Seq<CommitState>,
    indices: Map<Oid, usize>,
    link: (int, int),
    position: int,
) -> bool {
    let (i, k) = link;
    &&& 0 <= i < commits.len()
    &&& 0 <= k < 2
    &&& commits[i].parents[k] is Some
    &&& indices.contains_key(commits[i].parents[k]->0)
    &&& indices[commits[i].parents[k]->0] == position
}

/// Whether children come from links, a commit and the number of one of its two recorded parents
/// each: one child from each link to the commit at `position`, and from no other, in order.
pub open spec fn is_lineage(
    children: Seq<Oid>,
    links: Seq<(int, int)>,
    commits: Seq<CommitState>,
    indices: Map<Oid, usize>,
    position: int,
) -> bool {
    &&& links.len() == children.len()
    &&& forall|c: int|
        #![trigger children[c]]
        #![trigger links[c]]
        0 <= c < links.len() ==> is_child(commits, indices, links[c], position) && children[c]
            == commits[links[c].0].oid
    &&& forall|c: int, d: int|
        #![trigger links[c], links[d]]
        0 <= c < d < links.len() ==> links[c].0 < links[d].0 || links[c].0 == links[d].0
            && links[c].1 < links[d].1
    &&& forall|link: (int, int)| #[trigger]
        is_child(commits, indices, link, position) ==> links.contains(link)
}

proof fn lemma_lineage(
    commits: Seq<CommitState>,
    indices: Map<Oid, usize>,
    count: int,
    position: int,
) -> (links: Seq<(int, int)>)
    requires
        0 <= count <= commits.len(),
    ensures
        links.len() == adopted(commits, indices, count, position).len(),
        forall|c: int|
            #![trigger links[c]]
            0 <= c < links.len() ==> is_child(commits, indices, links[c], position) && links[c].0
                < count && adopted(commits, indices, count, position)[c]
                == commits[links[c].0].oid,
        forall|c: int, d: int|
            #![trigger links[c], links[d]]
            0 <= c < d < links.len() ==> links[c].0 < links[d].0 || links[c].0 == links[d].0
                && links[c].1 < links[d].1,
        forall|link: (int, int)| #[trigger]
            is_child(commits, indices, link, position) && link.0 < count ==> links.contains(link),
    decreases count,
{
    if count == 0 {
        Seq::empty()
    } else {
        let before = lemma_lineage(commits, indices, count - 1, position);
        let last = count - 1;
        let first = is_parent(commits[last], 0, indices, position);
        let second = is_parent(commits[last], 1, indices, position);
        let with_first = if first {
            before.push((last, 0int))
        } else {
            before
        };
        let links = if second {
            with_first.push((last, 1int))
        } else {
            with_first
        };
        assert forall|link: (int, int)| #[trigger]
            is_child(commits, indices, link, position) && link.0 < count implies links.contains(
            link,
        ) by {
            if link.0 < last {
                let c = choose|c: int| 0 <= c < before.len() && before[c] == link;
                assert(links[c] == link);
            } else if link.1 == 0 {
                assert(first);
                assert(links[before.len() as int] == link);
            } else {
                assert(second);
                assert(links[with_first.len() as int] == link);
            }
        }
        assert forall|c: int|
            #![trigger links[c]]
            0 <= c < links.len() implies is_child(commits, indices, links[c], position)
            && links[c].0 < count && adopted(commits, indices, count, position)[c]
            == commits[links[c].0].oid by {
            if c < before.len() {
                assert(links[c] == before[c]);
            }
        }
        assert forall|c: int, d: int|
            #![trigger links[c], links[d]]
            0 <= c < d < links.len() implies links[c].0 < links[d].0 || links[c].0 == links[d].0
            && links[c].1 < links[d].1 by {
            if c < before.len() {
                assert(links[c] == before[c]);
            }
            if d < before.len() {
                assert(links[d] == before[d]);
            }
        }
        links
    }
}

/// Walking through the commits adds to the children of each commit the id of each commit that names
/// it as one of its two recorded parents, once for each time it does, in order. Nothing else
/// changes.
pub proof fn law_children_come_from_parents(
    commits: Seq<CommitState>,
    indices: Map<Oid, usize>,
    position: int,
)
    requires
        0 <= position < commits.len(),
    ensures
        with_children(commits, indices).len() == commits.len(),
        exists|children: Seq<Oid>, links: Seq<(int, int)>| #[trigger]
            is_lineage(children, links, commits, indices, position) && with_children(
                commits,
                indices,
            )[position] == (CommitState {
                children: commits[position].children + children,
                ..commits[position]
            }),
{
    let count = commits.len() as int;
    let children = adopted(commits, indices, count, position);
    let links = lemma_lineage(commits, indices, count, position);
    assert(is_lineage(children, links, commits, indices, position)) by {
        assert forall|link: (int, int)| #[trigger]
            is_child(commits, indices, link, position) implies links.contains(link) by {
            assert(link.0 < count);
        }
    }
}

} // verus!
