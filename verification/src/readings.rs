//! How a graph answers to what was read of a repository.

use crate::assign::Assignment;
use crate::branch::{Branch, BranchState, VisState};
use crate::children::{is_child, is_lineage, law_children_come_from_parents};
use crate::claims::{
    forks_at, is_assignment, is_kept, law_branches_end_where_they_fork,
    law_commits_belong_to_first_claim,
};
use crate::columns::{columns_of, in_columns};
use crate::commit::{Commit, CommitState};
use crate::fcfs::{law_fcfs_serves_in_turn, unplaced};
use crate::graph::{collected, graph_of, laid_out, walk_count, GraphState, Snapshot};
use crate::invariants::{lemma_collected, lemma_extracted, lemma_linked, well_assigned};
use crate::laws::{
    drawable, history, history_assignment, history_branches, history_len, history_positions,
    law_graph_commits_belong_to_branches, law_graph_commits_list_their_branches,
    law_graph_is_indexed, law_graph_ranges_lie_among_commits, linked_history,
    walks_children_first, walks_once,
};
use crate::laws::{law_drawable_has_graph, lemma_drawable, lemma_drawn_branches, lemma_history};
use crate::length::{
    is_displaced_by, is_report, law_length_leaves_no_gaps, law_length_packs,
    law_length_reports_displaced,
};
use crate::oid::Oid;
use crate::outcomes::{
    commit_decides, commit_gives, is_outcome, law_extracted_or_reported, outcome_of, Outcome,
};
use crate::scheduling::{
    fits, is_merged_into, is_packed_by_length, is_served_in_turn, is_taken_before, lemma_meet_alike,
    meet,
};
use crate::settings::{BranchOrder, BranchSettings, Settings};
use crate::sources::{
    comes_from, is_account, is_named, is_rest, is_source, is_styled, law_extracted_from_sources,
    number_of, reference_prefix, summarised_before, Source,
};
use vstd::prelude::*;

verus! {

/// Whether a commit of a graph is one that was read: it has its id and its first two parents, and
/// it is a merge if it has more than one.
pub open spec fn is_copy(commit: CommitState, read: Commit) -> bool {
    &&& commit.oid == read.id
    &&& commit.is_merge <==> read.parents@.len() > 1
    &&& commit.parents.len() == 2
    &&& forall|k: int|
        0 <= k < 2 ==> #[trigger] commit.parents[k] == (if k < read.parents@.len() {
            Some(read.parents@[k])
        } else {
            None
        })
}

/// Whether `count` commits of a walk are asked for: all of them, or as many as the limit says if
/// there are more.
pub open spec fn is_asked_for(
    walk: Seq<Result<Commit, String>>,
    max_count: Option<usize>,
    count: int,
) -> bool {
    &&& 0 <= count <= walk.len()
    &&& max_count matches Some(max) ==> count <= max
    &&& count == walk.len() || (max_count matches Some(max) && count == max)
}

/// A graph with remote branches holds the commits that are asked for, as they were read and in the
/// order of the walk.
pub proof fn law_graph_copies_the_walk(
    snapshot: Snapshot,
    settings: Settings,
    max_count: Option<usize>,
    graph: GraphState,
    displaced: Seq<usize>,
)
    requires
        settings.include_remote,
        graph_of(snapshot, settings, max_count) == Some(
            Ok::<(GraphState, Seq<usize>), Seq<char>>((graph, displaced)),
        ),
    ensures
        is_asked_for(snapshot.walk@, max_count, graph.commits.len() as int),
        forall|i: int|
            0 <= i < graph.commits.len() ==> snapshot.walk@[i] is Ok && is_copy(
                #[trigger] graph.commits[i],
                snapshot.walk@[i]->Ok_0,
            ),
{
    lemma_drawable(snapshot, settings, max_count);
    lemma_history(snapshot, settings, max_count);
    lemma_collected(snapshot.walk@, history_len(snapshot, max_count));
    assert forall|i: int| 0 <= i < graph.commits.len() implies snapshot.walk@[i] is Ok && is_copy(
        #[trigger] graph.commits[i],
        snapshot.walk@[i]->Ok_0,
    ) by {
        let fresh = history(snapshot, max_count)[i];
        assert(snapshot.walk@[i] is Ok);
        assert(linked_history(snapshot, max_count)[i].oid == fresh.oid);
        assert(graph.commits[i].parents == fresh.parents);
    }
}

/// The children of a commit of a graph with remote branches are the commits of the graph that name
/// it as a parent, in order and each as often as it does.
pub proof fn law_graph_children_come_from_parents(
    snapshot: Snapshot,
    settings: Settings,
    max_count: Option<usize>,
    graph: GraphState,
    displaced: Seq<usize>,
    p: int,
)
    requires
        settings.include_remote,
        graph_of(snapshot, settings, max_count) == Some(
            Ok::<(GraphState, Seq<usize>), Seq<char>>((graph, displaced)),
        ),
        0 <= p < graph.commits.len(),
    ensures
        exists|links: Seq<(int, int)>| #[trigger]
            is_lineage(graph.commits[p].children, links, graph.commits, graph.indices, p),
{
    lemma_drawable(snapshot, settings, max_count);
    lemma_history(snapshot, settings, max_count);
    lemma_collected(snapshot.walk@, history_len(snapshot, max_count));
    let commits = history(snapshot, max_count);
    let indices = history_positions(snapshot, max_count);
    let linked = linked_history(snapshot, max_count);
    law_children_come_from_parents(commits, indices, p);
    let (children, links) = choose|children: Seq<Oid>, links: Seq<(int, int)>| #[trigger]
        is_lineage(children, links, commits, indices, p) && linked[p] == (CommitState {
            children: commits[p].children + children,
            ..commits[p]
        });
    assert(commits[p].children.len() == 0);
    assert(commits[p].children + children =~= children);
    assert(graph.commits[p].children == children);
    assert forall|i: int| 0 <= i < commits.len() implies (#[trigger] graph.commits[i]).oid
        == commits[i].oid && graph.commits[i].parents == commits[i].parents by {
        assert(linked[i].oid == commits[i].oid);
    }
    assert forall|link: (int, int)| #[trigger]
        is_child(graph.commits, indices, link, p) == is_child(commits, indices, link, p) by {
        if 0 <= link.0 < commits.len() {
            assert(graph.commits[link.0].parents == commits[link.0].parents);
        }
    }
    assert(is_lineage(children, links, graph.commits, indices, p)) by {
        assert forall|c: int|
            #![trigger children[c]]
            #![trigger links[c]]
            0 <= c < links.len() implies is_child(graph.commits, indices, links[c], p)
            && children[c] == graph.commits[links[c].0].oid by {
            assert(is_child(commits, indices, links[c], p));
            assert(graph.commits[links[c].0].oid == commits[links[c].0].oid);
        }
    }
    assert(is_lineage(graph.commits[p].children, links, graph.commits, graph.indices, p));
}

/// Whether two lists hold the same commits, as far as branches are found in them.
spec fn reads_as(commits: Seq<CommitState>, others: Seq<CommitState>) -> bool {
    &&& commits.len() == others.len()
    &&& forall|i: int|
        #![trigger commits[i]]
        #![trigger others[i]]
        0 <= i < commits.len() ==> commits[i].oid == others[i].oid && commits[i].is_merge
            == others[i].is_merge
}

proof fn lemma_summarised_alike(
    commits: Seq<CommitState>,
    others: Seq<CommitState>,
    lookups: Seq<Result<Commit, String>>,
    count: int,
)
    requires
        reads_as(commits, others),
        count <= commits.len(),
    ensures
        summarised_before(commits, lookups, count) == summarised_before(others, lookups, count),
    decreases count,
{
    if count > 0 {
        lemma_summarised_alike(commits, others, lookups, count - 1);
        assert(commits[count - 1].is_merge == others[count - 1].is_merge);
    }
}

proof fn lemma_accounts_alike(
    branches: Seq<BranchState>,
    sources: Seq<Source>,
    listing: Seq<Branch>,
    commits: Seq<CommitState>,
    others: Seq<CommitState>,
    lookups: Seq<Result<Commit, String>>,
    indices: Map<Oid, usize>,
    settings: BranchSettings,
)
    requires
        reads_as(commits, others),
        is_account(branches, sources, listing, commits, lookups, indices, settings),
    ensures
        is_account(branches, sources, listing, others, lookups, indices, settings),
{
    assert forall|source: Source| #[trigger]
        is_source(listing, others, lookups, source) == is_source(
            listing,
            commits,
            lookups,
            source,
        ) by {
        if let Source::Merge(k) = source {
            if 0 <= k < commits.len() {
                assert(commits[k].is_merge == others[k].is_merge);
            }
        }
    }
    assert forall|j: int|
        #![trigger branches[j]]
        #![trigger sources[j]]
        0 <= j < branches.len() implies {
        &&& is_source(listing, others, lookups, sources[j])
        &&& comes_from(branches[j], sources[j], listing, others, lookups, indices)
        &&& is_styled(
            branches[j],
            settings,
            number_of(listing, others, lookups, sources[j]) as usize,
        )
    } by {
        assert(is_source(listing, commits, lookups, sources[j]));
        if let Source::Merge(k) = sources[j] {
            lemma_summarised_alike(commits, others, lookups, k);
            assert(commits[k].oid == others[k].oid);
        }
    }
}

proof fn lemma_commit_gives_alike(
    listing: Seq<Branch>,
    commits: Seq<CommitState>,
    others: Seq<CommitState>,
    lookups: Seq<Result<Commit, String>>,
    settings: BranchSettings,
    k: int,
    outcome: Outcome,
)
    requires
        reads_as(commits, others),
        0 <= k < commits.len(),
    ensures
        commit_gives(listing, commits, lookups, settings, k, outcome) == commit_gives(
            listing,
            others,
            lookups,
            settings,
            k,
            outcome,
        ),
{
    lemma_summarised_alike(commits, others, lookups, k);
    assert(commits[k].is_merge == others[k].is_merge);
}

proof fn lemma_outcomes_alike(
    listing: Seq<Branch>,
    commits: Seq<CommitState>,
    others: Seq<CommitState>,
    lookups: Seq<Result<Commit, String>>,
    settings: BranchSettings,
    outcome: Outcome,
)
    requires
        reads_as(commits, others),
        is_outcome(listing, commits, lookups, settings, outcome),
    ensures
        is_outcome(listing, others, lookups, settings, outcome),
{
    assert forall|k: int|
        0 <= k < commits.len() && #[trigger] commit_gives(
            listing,
            commits,
            lookups,
            settings,
            k,
            Outcome::Fine,
        ) implies commit_gives(listing, others, lookups, settings, k, Outcome::Fine) by {
        lemma_commit_gives_alike(
            listing,
            commits,
            others,
            lookups,
            settings,
            k,
            Outcome::Fine,
        );
    }
    if outcome is Fine {
        assert forall|k: int| 0 <= k < others.len() implies #[trigger] commit_gives(
            listing,
            others,
            lookups,
            settings,
            k,
            Outcome::Fine,
        ) by {
            assert(commit_gives(listing, commits, lookups, settings, k, Outcome::Fine));
        }
    } else if exists|k: int| #[trigger]
        commit_decides(listing, commits, lookups, settings, k, outcome) {
        let k = choose|k: int| #[trigger]
            commit_decides(listing, commits, lookups, settings, k, outcome);
        lemma_commit_gives_alike(listing, commits, others, lookups, settings, k, outcome);
        assert forall|l: int| 0 <= l < k implies #[trigger] commit_gives(
            listing,
            others,
            lookups,
            settings,
            l,
            Outcome::Fine,
        ) by {
            assert(commit_gives(listing, commits, lookups, settings, l, Outcome::Fine));
        }
        assert(commit_decides(listing, others, lookups, settings, k, outcome));
    }
}

/// The branches of a list, in no column.
pub open spec fn without_columns(branches: Seq<BranchState>) -> Seq<BranchState> {
    Seq::new(
        branches.len(),
        |b: int|
            BranchState {
                visual: VisState { column: None, ..branches[b].visual },
                ..branches[b]
            },
    )
}

/// Whether a graph shows the branches of a repository: `all` are those that come from its
/// references and its merge commits, and those of them that `kept` lists are the branches of the
/// graph.
pub open spec fn is_accounted_for(
    graph: GraphState,
    listing: Seq<Branch>,
    lookups: Seq<Result<Commit, String>>,
    settings: BranchSettings,
    all: Seq<BranchState>,
    sources: Seq<Source>,
    kept: Seq<int>,
) -> bool {
    &&& is_account(all, sources, listing, graph.commits, lookups, graph.indices, settings)
    &&& is_assignment(
        Assignment { commits: graph.commits, branches: without_columns(graph.branches) },
        kept,
        graph.commits,
        lookups,
        graph.indices,
        all,
        all.len() as int,
    )
}

/// The branches of a repository come from its references and its merge commits, and its commits
/// belong to the first of them that claim them.
proof fn lemma_accounted_for(snapshot: Snapshot, settings: Settings, max_count: Option<usize>) -> (r:
    (Seq<Source>, Seq<int>))
    requires
        drawable(snapshot, settings, max_count),
    ensures
        snapshot.branches is Ok,
        is_account(
            history_branches(snapshot, settings, max_count)->0->Ok_0,
            r.0,
            snapshot.branches->Ok_0@,
            linked_history(snapshot, max_count),
            snapshot.lookups@,
            history_positions(snapshot, max_count),
            settings.branches,
        ),
        is_assignment(
            history_assignment(snapshot, settings, max_count),
            r.1,
            linked_history(snapshot, max_count),
            snapshot.lookups@,
            history_positions(snapshot, max_count),
            history_branches(snapshot, settings, max_count)->0->Ok_0,
            history_branches(snapshot, settings, max_count)->0->Ok_0.len() as int,
        ),
{
    let commits = history(snapshot, max_count);
    let linked = linked_history(snapshot, max_count);
    let indices = history_positions(snapshot, max_count);
    let lookups = snapshot.lookups@;
    let branches = history_branches(snapshot, settings, max_count)->0->Ok_0;
    lemma_collected(snapshot.walk@, history_len(snapshot, max_count));
    lemma_linked(commits);
    lemma_extracted(snapshot.branches, linked, lookups, indices, settings.branches);
    law_extracted_or_reported(snapshot.branches, linked, lookups, indices, settings.branches);
    let listing = snapshot.branches->Ok_0;
    law_extracted_from_sources(listing, linked, lookups, indices, settings.branches);
    let sources = choose|sources: Seq<Source>| #[trigger]
        is_account(
            branches,
            sources,
            listing@,
            linked,
            lookups,
            indices,
            settings.branches,
        );
    law_commits_belong_to_first_claim(
        linked,
        lookups,
        indices,
        settings.branches.order@.len() + 1,
        branches,
    );
    let kept = choose|kept: Seq<int>| #[trigger]
        is_assignment(
            history_assignment(snapshot, settings, max_count),
            kept,
            linked,
            lookups,
            indices,
            branches,
            branches.len() as int,
        );
    (sources, kept)
}

/// The branches of a graph with remote branches are those of the branches of the repository that
/// should be kept, named, styled and in the order that their sources and the settings say, and each
/// commit belongs to the first branch from whose target first parents lead to it.
pub proof fn law_graph_branches_are_accounted_for(
    snapshot: Snapshot,
    settings: Settings,
    max_count: Option<usize>,
    graph: GraphState,
    displaced: Seq<usize>,
)
    requires
        settings.include_remote,
        graph_of(snapshot, settings, max_count) == Some(
            Ok::<(GraphState, Seq<usize>), Seq<char>>((graph, displaced)),
        ),
    ensures
        snapshot.branches is Ok,
        exists|all: Seq<BranchState>, sources: Seq<Source>, kept: Seq<int>| #[trigger]
            is_accounted_for(
                graph,
                snapshot.branches->Ok_0@,
                snapshot.lookups@,
                settings.branches,
                all,
                sources,
                kept,
            ),
{
    lemma_drawable(snapshot, settings, max_count);
    lemma_history(snapshot, settings, max_count);
    let (sources, kept) = lemma_accounted_for(snapshot, settings, max_count);
    lemma_drawn_branches(snapshot, settings, max_count, graph, displaced);
    let linked = linked_history(snapshot, max_count);
    let all = history_branches(snapshot, settings, max_count)->0->Ok_0;
    let assignment = history_assignment(snapshot, settings, max_count);
    assert(graph.commits == assignment.commits);
    assert(reads_as(linked, graph.commits));
    lemma_accounts_alike(
        all,
        sources,
        snapshot.branches->Ok_0@,
        linked,
        graph.commits,
        snapshot.lookups@,
        graph.indices,
        settings.branches,
    );
    let bare = without_columns(graph.branches);
    assert forall|b: int| 0 <= b < bare.len() implies #[trigger] bare[b]
        == assignment.branches[b] by {
        assert(well_assigned(
            assignment.branches[b],
            assignment.commits,
            history_positions(snapshot, max_count),
            settings.branches.order@.len() + 1,
        ));
        assert(graph.branches[b].range == assignment.branches[b].range);
    }
    assert(bare =~= assignment.branches);
    assert((Assignment { commits: graph.commits, branches: bare }) == assignment);
    assert(is_accounted_for(
        graph,
        snapshot.branches->Ok_0@,
        snapshot.lookups@,
        settings.branches,
        all,
        sources,
        kept,
    ));
}

/// Where commits stand before their parents, each branch of a graph with remote branches ends where
/// it forks from another, leaves the commits, or began.
pub proof fn law_graph_branches_end_where_they_fork(
    snapshot: Snapshot,
    settings: Settings,
    max_count: Option<usize>,
    graph: GraphState,
    displaced: Seq<usize>,
    q: int,
)
    requires
        settings.include_remote,
        walks_children_first(snapshot, max_count),
        graph_of(snapshot, settings, max_count) == Some(
            Ok::<(GraphState, Seq<usize>), Seq<char>>((graph, displaced)),
        ),
        0 <= q < graph.commits.len(),
        graph.commits[q].branch_trace is Some,
    ensures
        forks_at(
            (Assignment { commits: graph.commits, branches: graph.branches }),
            snapshot.lookups@,
            graph.indices,
            q,
        ),
{
    lemma_drawable(snapshot, settings, max_count);
    lemma_history(snapshot, settings, max_count);
    lemma_drawn_branches(snapshot, settings, max_count, graph, displaced);
    let linked = linked_history(snapshot, max_count);
    let indices = history_positions(snapshot, max_count);
    let branches = history_branches(snapshot, settings, max_count)->0->Ok_0;
    let assignment = history_assignment(snapshot, settings, max_count);
    lemma_collected(snapshot.walk@, history_len(snapshot, max_count));
    lemma_linked(history(snapshot, max_count));
    lemma_extracted(
        snapshot.branches,
        linked,
        snapshot.lookups@,
        indices,
        settings.branches,
    );
    law_branches_end_where_they_fork(
        linked,
        snapshot.lookups@,
        indices,
        settings.branches.order@.len() + 1,
        branches,
        branches.len() as int,
    );
    assert(assignment.commits[q].branch_trace is Some);
    assert(forks_at(assignment, snapshot.lookups@, indices, q));
    let number = graph.commits[q].branch_trace->0 as int;
    assert(graph.branches[number].range == assignment.branches[number].range);
}

/// Whether a graph shows a reference: one of its branches has the short name and the target of the
/// reference, is remote if the reference is, and the commit that it points at lists it.
pub open spec fn shows(graph: GraphState, branch: Branch, b: int) -> bool {
    &&& 0 <= b < graph.branches.len()
    &&& is_rest(branch.name->0@, reference_prefix(branch.kind), graph.branches[b].name)
    &&& graph.branches[b].target == branch.target->0
    &&& graph.branches[b].is_remote <==> branch.kind is Remote
    &&& !graph.branches[b].is_merged
    &&& !graph.branches[b].deleted
    &&& graph.indices.contains_key(branch.target->0)
    &&& graph.commits[graph.indices[branch.target->0] as int].branches.contains(b as usize)
}

/// Every reference that has a name and whose target is among the commits that are asked for is
/// shown as a branch of the graph, listed by the commit that it points at.
pub proof fn law_graph_shows_references(
    snapshot: Snapshot,
    settings: Settings,
    max_count: Option<usize>,
    graph: GraphState,
    displaced: Seq<usize>,
    count: int,
    at: int,
    i: int,
)
    requires
        walks_once(snapshot, max_count),
        graph_of(snapshot, settings, max_count) == Some(
            Ok::<(GraphState, Seq<usize>), Seq<char>>((graph, displaced)),
        ),
        is_asked_for(snapshot.walk@, max_count, count),
        0 <= at < count,
        snapshot.branches matches Ok(listing) ==> {
            &&& 0 <= i < listing@.len()
            &&& is_named(listing@[i])
            &&& snapshot.walk@[at] matches Ok(commit) && Some(commit.id) == listing@[i].target
        },
    ensures
        snapshot.branches matches Ok(listing) && exists|b: int| #[trigger]
            shows(graph, listing@[i], b),
{
    lemma_drawable(snapshot, settings, max_count);
    lemma_history(snapshot, settings, max_count);
    lemma_collected(snapshot.walk@, history_len(snapshot, max_count));
    let (sources, kept) = lemma_accounted_for(snapshot, settings, max_count);
    lemma_drawn_branches(snapshot, settings, max_count, graph, displaced);
    law_graph_is_indexed(snapshot, settings, max_count, graph, displaced);
    law_graph_commits_belong_to_branches(snapshot, settings, max_count, graph, displaced);
    let linked = linked_history(snapshot, max_count);
    let indices = history_positions(snapshot, max_count);
    let lookups = snapshot.lookups@;
    let all = history_branches(snapshot, settings, max_count)->0->Ok_0;
    let assignment = history_assignment(snapshot, settings, max_count);
    let listing = snapshot.branches->Ok_0@;
    let source = Source::Listed(i);
    assert(is_source(listing, linked, lookups, source));
    let j = choose|j: int| 0 <= j < sources.len() && sources[j] == source;
    assert(comes_from(all[j], sources[j], listing, linked, lookups, indices));
    assert(history(snapshot, max_count)[at].oid == all[j].target);
    assert(assignment.commits[at].oid == all[j].target) by {
        assert(linked[at].oid == history(snapshot, max_count)[at].oid);
    }
    assert(indices.contains_key(all[j].target));
    assert(is_kept(all, lookups, indices, j));
    let b = choose|b: int| 0 <= b < kept.len() && kept[b] == j;
    assert(assignment.branches[b].name == all[kept[b]].name);
    assert(graph.branches[b].target == all[j].target);
    let position = graph.indices[all[j].target] as int;
    law_graph_commits_list_their_branches(
        snapshot,
        settings,
        max_count,
        graph,
        displaced,
        position,
        b as usize,
    );
    assert(shows(graph, listing[i], b));
}

/// Whether the branches of a graph stand in the columns that the settings ask for, and those that
/// should be are reported.
pub open spec fn is_laid_out(
    graph: GraphState,
    displaced: Seq<usize>,
    order: BranchOrder,
) -> bool {
    match order {
        BranchOrder::FirstComeFirstServed(forward) => is_served_in_turn(
            graph.branches,
            graph.commits.len(),
            forward,
        ) && displaced.len() == 0,
        BranchOrder::ShortestFirst(forward) => is_packed(graph, displaced, true, forward),
        BranchOrder::LongestFirst(forward) => is_packed(graph, displaced, false, forward),
    }
}

/// Whether the branches of a graph stand in columns by length, and those that should be are
/// reported.
pub open spec fn is_packed(
    graph: GraphState,
    displaced: Seq<usize>,
    shortest_first: bool,
    forward: bool,
) -> bool {
    &&& is_packed_by_length(
        graph.branches,
        graph.commits,
        graph.indices,
        shortest_first,
        forward,
    )
    &&& is_report(
        displaced,
        graph.branches,
        columns_of(graph.branches),
        graph.commits,
        graph.indices,
        shortest_first,
        forward,
    )
}

/// Which branches are kept out of a column does not depend on the columns they are marked with.
proof fn lemma_reports_alike(
    displaced: Seq<usize>,
    branches: Seq<BranchState>,
    placed: Seq<BranchState>,
    columns: Seq<Option<usize>>,
    commits: Seq<CommitState>,
    indices: Map<Oid, usize>,
    shortest_first: bool,
    forward: bool,
)
    requires
        placed == in_columns(branches, columns),
        is_report(displaced, branches, columns, commits, indices, shortest_first, forward),
    ensures
        is_report(displaced, placed, columns, commits, indices, shortest_first, forward),
{
    let n = commits.len();
    assert forall|i: int, j: int| 0 <= i < branches.len() implies #[trigger] is_displaced_by(
        placed,
        columns,
        commits,
        indices,
        shortest_first,
        forward,
        i,
        j,
    ) == is_displaced_by(
        branches,
        columns,
        commits,
        indices,
        shortest_first,
        forward,
        i,
        j,
    ) by {
        assert forall|e: int| 0 <= e < branches.len() implies #[trigger] meet(
            placed[e],
            placed[i],
            n,
        ) == meet(branches[e], branches[i], n) by {
            lemma_meet_alike(placed[e], placed[i], branches[e], branches[i], n);
        }
        if 0 <= j < branches.len() {
            assert(placed[j].visual.order_group == branches[j].visual.order_group);
            assert forall|e: int| 0 <= e < branches.len() implies #[trigger] is_taken_before(
                placed,
                n,
                shortest_first,
                forward,
                e,
                i,
            ) == is_taken_before(branches, n, shortest_first, forward, e, i) by {}
            assert(is_merged_into(placed, commits, indices, i, j) == is_merged_into(
                branches,
                commits,
                indices,
                i,
                j,
            ));
        }
    }
    assert forall|i: usize| #[trigger] displaced.contains(i) <==> i < placed.len() && exists|
        j: int,
    | #[trigger]
        is_displaced_by(
            placed,
            columns,
            commits,
            indices,
            shortest_first,
            forward,
            i as int,
            j,
        ) by {
        if displaced.contains(i) {
            let j = choose|j: int| #[trigger]
                is_displaced_by(
                    branches,
                    columns,
                    commits,
                    indices,
                    shortest_first,
                    forward,
                    i as int,
                    j,
                );
            assert(is_displaced_by(
                placed,
                columns,
                commits,
                indices,
                shortest_first,
                forward,
                i as int,
                j,
            ));
        }
        if i < placed.len() && exists|j: int| #[trigger]
            is_displaced_by(
                placed,
                columns,
                commits,
                indices,
                shortest_first,
                forward,
                i as int,
                j,
            ) {
            let j = choose|j: int| #[trigger]
                is_displaced_by(
                    placed,
                    columns,
                    commits,
                    indices,
                    shortest_first,
                    forward,
                    i as int,
                    j,
                );
            assert(is_displaced_by(
                branches,
                columns,
                commits,
                indices,
                shortest_first,
                forward,
                i as int,
                j,
            ));
        }
    }
    assert forall|d: int, e: int|
        #![trigger displaced[d], displaced[e]]
        0 <= d < e < displaced.len() implies is_taken_before(
        placed,
        n,
        shortest_first,
        forward,
        displaced[d] as int,
        displaced[e] as int,
    ) by {
        assert(displaced.contains(displaced[d]) && displaced.contains(displaced[e]));
    }
}

proof fn lemma_packed(
    graph: GraphState,
    displaced: Seq<usize>,
    branches: Seq<BranchState>,
    groups: nat,
    order: BranchOrder,
    shortest_first: bool,
    forward: bool,
)
    requires
        branches.len() <= usize::MAX,
        unplaced(branches, groups),
        fits(branches, graph.commits.len()),
        order == if shortest_first {
            BranchOrder::ShortestFirst(forward)
        } else {
            BranchOrder::LongestFirst(forward)
        },
        laid_out(order, groups, graph.commits, graph.indices, branches).1 == displaced,
        graph.branches == in_columns(
            branches,
            laid_out(order, groups, graph.commits, graph.indices, branches).0,
        ),
    ensures
        is_packed(graph, displaced, shortest_first, forward),
{
    let columns = laid_out(order, groups, graph.commits, graph.indices, branches).0;
    law_length_packs(branches, groups, graph.commits, graph.indices, shortest_first, forward);
    law_length_reports_displaced(
        branches,
        groups,
        graph.commits,
        graph.indices,
        shortest_first,
        forward,
    );
    lemma_reports_alike(
        displaced,
        branches,
        graph.branches,
        columns,
        graph.commits,
        graph.indices,
        shortest_first,
        forward,
    );
    law_length_leaves_no_gaps(
        branches,
        groups,
        graph.commits,
        graph.indices,
        shortest_first,
        forward,
    );
    assert(columns_of(graph.branches) =~= columns);
}

/// Where commits stand before their parents, the branches of a graph with remote branches stand in
/// the columns that the order of the settings should give them.
pub proof fn law_graph_is_laid_out(
    snapshot: Snapshot,
    settings: Settings,
    max_count: Option<usize>,
    graph: GraphState,
    displaced: Seq<usize>,
)
    requires
        settings.include_remote,
        walks_children_first(snapshot, max_count),
        graph_of(snapshot, settings, max_count) == Some(
            Ok::<(GraphState, Seq<usize>), Seq<char>>((graph, displaced)),
        ),
    ensures
        is_laid_out(graph, displaced, settings.branch_order),
{
    lemma_drawable(snapshot, settings, max_count);
    lemma_history(snapshot, settings, max_count);
    lemma_drawn_branches(snapshot, settings, max_count, graph, displaced);
    let assignment = history_assignment(snapshot, settings, max_count);
    let branches = assignment.branches;
    let indices = history_positions(snapshot, max_count);
    let groups = settings.branches.order@.len() + 1;
    assert(graph.commits == assignment.commits && graph.indices == indices);
    assert forall|b: int|
        #![trigger branches[b]]
        0 <= b < branches.len() implies branches[b].visual.column is None
        && branches[b].visual.order_group < groups by {
        assert(well_assigned(branches[b], assignment.commits, indices, groups));
    }
    assert(unplaced(branches, groups));
    assert forall|b: int|
        #![trigger branches[b]]
        0 <= b < branches.len() implies {
        &&& branches[b].range.0 matches Some(first) ==> first < graph.commits.len()
        &&& branches[b].range.1 matches Some(last) ==> last < graph.commits.len()
        &&& branches[b].range.0 is Some && branches[b].range.1 is Some ==> branches[b].range.0->0
            <= branches[b].range.1->0
    } by {
        law_graph_ranges_lie_among_commits(
            snapshot,
            settings,
            max_count,
            graph,
            displaced,
            b,
        );
        assert(graph.branches[b].range == branches[b].range);
    }
    assert(fits(branches, graph.commits.len()));
    match settings.branch_order {
        BranchOrder::FirstComeFirstServed(forward) => {
            law_fcfs_serves_in_turn(branches, groups, graph.commits.len(), forward);
        },
        BranchOrder::ShortestFirst(forward) => {
            lemma_packed(
                graph,
                displaced,
                branches,
                groups,
                settings.branch_order,
                true,
                forward,
            );
        },
        BranchOrder::LongestFirst(forward) => {
            lemma_packed(
                graph,
                displaced,
                branches,
                groups,
                settings.branch_order,
                false,
                forward,
            );
        },
    }
}

/// An error on a walk is the first one if the commits before it could be read.
proof fn lemma_first_error(walk: Seq<Result<Commit, String>>, count: int, i: int)
    requires
        0 <= i < count <= walk.len(),
        walk[i] is Err,
        forall|j: int| 0 <= j < i ==> (#[trigger] walk[j]) is Ok,
    ensures
        collected(walk, count) == Err::<Seq<CommitState>, Seq<char>>(walk[i]->Err_0@),
    decreases count,
{
    if i + 1 < count {
        lemma_first_error(walk, count - 1, i);
    } else {
        lemma_all_read(walk, i);
    }
}

proof fn lemma_all_read(walk: Seq<Result<Commit, String>>, count: int)
    requires
        0 <= count <= walk.len(),
        forall|j: int| 0 <= j < count ==> (#[trigger] walk[j]) is Ok,
    ensures
        collected(walk, count) is Ok,
    decreases count,
{
    if count > 0 {
        lemma_all_read(walk, count - 1);
    }
}

/// Where a commit that is asked for cannot be read, the first error on the walk is reported.
pub proof fn law_graph_reports_first_error(
    snapshot: Snapshot,
    settings: Settings,
    max_count: Option<usize>,
    count: int,
    i: int,
)
    requires
        is_asked_for(snapshot.walk@, max_count, count),
        0 <= i < count,
        snapshot.walk@[i] is Err,
        forall|j: int| 0 <= j < i ==> (#[trigger] snapshot.walk@[j]) is Ok,
    ensures
        graph_of(snapshot, settings, max_count) == Some(
            Err::<(GraphState, Seq<usize>), Seq<char>>(snapshot.walk@[i]->Err_0@),
        ),
{
    lemma_first_error(snapshot.walk@, count, i);
}

/// Where all commits that are asked for are read, a listing that failed is reported. Otherwise it
/// is the first reference or commit that is not fine that decides, and there is a graph if all are,
/// provided that no commits need to be left out or that the walk lists each commit once and before
/// its parents. There is no answer where commits or order groups cannot be counted or were not read
/// again.
pub proof fn law_graph_or_report(
    snapshot: Snapshot,
    settings: Settings,
    max_count: Option<usize>,
    commits: Seq<CommitState>,
)
    requires
        is_asked_for(snapshot.walk@, max_count, commits.len() as int),
        forall|i: int|
            0 <= i < commits.len() ==> snapshot.walk@[i] is Ok && is_copy(
                #[trigger] commits[i],
                snapshot.walk@[i]->Ok_0,
            ),
    ensures
        ({
            let result = graph_of(snapshot, settings, max_count);
            if commits.len() > i32::MAX || commits.len() > snapshot.lookups@.len()
                || settings.branches.order@.len() == usize::MAX {
                result is None
            } else {
                match snapshot.branches {
                    Err(message) => result == Some(
                        Err::<(GraphState, Seq<usize>), Seq<char>>(message@),
                    ),
                    Ok(listing) => {
                        ||| is_outcome(
                            listing@,
                            commits,
                            snapshot.lookups@,
                            settings.branches,
                            outcome_of(result),
                        )
                        ||| {
                            &&& result is None
                            &&& is_outcome(
                                listing@,
                                commits,
                                snapshot.lookups@,
                                settings.branches,
                                Outcome::Fine,
                            )
                            &&& !settings.include_remote
                            &&& !(walks_once(snapshot, max_count) && walks_children_first(
                                snapshot,
                                max_count,
                            ))
                        }
                    },
                }
            }
        }),
{
    let count = commits.len() as int;
    assert(walk_count(snapshot.walk@, max_count) == count);
    assert forall|j: int| 0 <= j < count implies (#[trigger] snapshot.walk@[j]) is Ok by {
        assert(is_copy(commits[j], snapshot.walk@[j]->Ok_0));
    }
    lemma_all_read(snapshot.walk@, count);
    lemma_collected(snapshot.walk@, count);
    let fresh = history(snapshot, max_count);
    let linked = linked_history(snapshot, max_count);
    let indices = history_positions(snapshot, max_count);
    let lookups = snapshot.lookups@;
    assert(settings.branches.order.len() == settings.branches.order@.len());
    law_extracted_or_reported(snapshot.branches, linked, lookups, indices, settings.branches);
    let branches = history_branches(snapshot, settings, max_count);
    assert(reads_as(linked, commits)) by {
        assert forall|i: int|
            #![trigger linked[i]]
            #![trigger commits[i]]
            0 <= i < linked.len() implies linked[i].oid == commits[i].oid && linked[i].is_merge
            == commits[i].is_merge by {
            assert(linked[i].oid == fresh[i].oid);
            assert(is_copy(commits[i], snapshot.walk@[i]->Ok_0));
        }
    }
    if let Ok(listing) = snapshot.branches {
        lemma_outcomes_alike(
            listing@,
            linked,
            commits,
            lookups,
            settings.branches,
            outcome_of(branches),
        );
        if drawable(snapshot, settings, max_count) {
            lemma_history(snapshot, settings, max_count);
            if walks_once(snapshot, max_count) && walks_children_first(snapshot, max_count) {
                law_drawable_has_graph(snapshot, settings, max_count);
            }
        }
    }
}

} // verus!
