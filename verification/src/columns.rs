//! What the ways to give branches their columns have in common.
//!
//! Branches of one order group share lanes, numbered from zero within the group. The lanes of a
//! group stand to the right of those of the groups before it.

use crate::branch::{branch_states, BranchInfo, BranchState};
use vstd::prelude::*;

verus! {

/// Whether any position of a branch is known. A branch without positions gets no column.
pub open spec fn has_range(branch: BranchState) -> bool {
    branch.range.0 is Some || branch.range.1 is Some
}

/// The position at which a branch starts, the first of all where that is not known.
pub open spec fn first_position(branch: BranchState) -> usize {
    match branch.range.0 {
        Some(position) => position,
        None => 0,
    }
}

/// The position at which a branch ends. A branch whose end is not known runs on past the last of
/// the `commits` commits, so it is shown down to that one; without commits, at the first position.
pub open spec fn last_position(branch: BranchState, commits: nat) -> usize {
    match branch.range.1 {
        Some(position) => position,
        None => if commits == 0 {
            0
        } else {
            (commits - 1) as usize
        },
    }
}

/// The numbers of those of the first `count` branches that have positions.
pub open spec fn ranged(branches: Seq<BranchState>, count: nat) -> Seq<usize>
    decreases count,
{
    if count == 0 {
        Seq::empty()
    } else {
        let before = ranged(branches, (count - 1) as nat);
        if has_range(branches[count - 1]) {
            before.push((count - 1) as usize)
        } else {
            before
        }
    }
}

/// Whether two branches of a list have a position in common, among `commits` commits.
pub open spec fn overlap(branches: Seq<BranchState>, commits: nat, i: int, j: int) -> bool {
    &&& first_position(branches[i]) <= last_position(branches[j], commits)
    &&& first_position(branches[j]) <= last_position(branches[i], commits)
}

/// Whether no two branches that share a column have a position in common, among `commits` commits.
pub open spec fn free_of_overlaps(
    branches: Seq<BranchState>,
    commits: nat,
    columns: Seq<Option<usize>>,
) -> bool {
    forall|i: int, j: int|
        #![trigger columns[i], columns[j]]
        0 <= i < branches.len() && 0 <= j < branches.len() && i != j && columns[i] is Some
            && columns[i] == columns[j] ==> !overlap(branches, commits, i, j)
}

/// Whether the branches of a group stand to the right of those of the groups before it.
pub open spec fn groups_in_order(
    branches: Seq<BranchState>,
    columns: Seq<Option<usize>>,
) -> bool {
    forall|i: int, j: int|
        #![trigger columns[i], columns[j]]
        0 <= i < branches.len() && 0 <= j < branches.len() && columns[i] is Some && columns[j] is Some
            && branches[i].visual.order_group < branches[j].visual.order_group ==> columns[i]->0
            < columns[j]->0
}

/// The columns of the branches of a list.
pub open spec fn columns_of(branches: Seq<BranchState>) -> Seq<Option<usize>> {
    branches.map_values(|branch: BranchState| branch.visual.column)
}

/// The branches, each in the column that `columns` gives it.
pub open spec fn in_columns(
    branches: Seq<BranchState>,
    columns: Seq<Option<usize>>,
) -> Seq<BranchState> {
    Seq::new(branches.len(), |i: int| branches[i].in_column(columns[i]))
}

/// The number of lanes of each group.
pub open spec fn lane_counts<T>(groups: Seq<Seq<T>>) -> Seq<nat> {
    groups.map_values(|lanes: Seq<T>| lanes.len())
}

/// The number of lanes of all groups before group `group`.
pub open spec fn lanes_before(counts: Seq<nat>, group: int) -> nat
    decreases group,
{
    if group <= 0 {
        0
    } else {
        lanes_before(counts, group - 1) + counts[group - 1]
    }
}

/// The columns in the whole graph of branches that stand in the lanes `lanes` of their groups.
pub open spec fn graph_columns(
    branches: Seq<BranchState>,
    lanes: Seq<Option<usize>>,
    counts: Seq<nat>,
) -> Seq<Option<usize>> {
    Seq::new(
        lanes.len(),
        |i: int|
            match lanes[i] {
                Some(lane) => Some(
                    (lane + lanes_before(counts, branches[i].visual.order_group as int)) as usize,
                ),
                None => None,
            },
    )
}

/// The number of lanes before a group does not shrink from group to group.
pub proof fn lemma_lanes_before_monotonic(counts: Seq<nat>, a: int, b: int)
    requires
        0 <= a <= b,
    ensures
        lanes_before(counts, a) <= lanes_before(counts, b),
        a < b ==> lanes_before(counts, a) + counts[a] <= lanes_before(counts, b),
    decreases b - a,
{
    if a < b {
        lemma_lanes_before_monotonic(counts, a, b - 1);
    }
}

/// Groups of as many lanes as before but for one, which has one more.
pub proof fn lemma_lanes_before_grow(before: Seq<nat>, after: Seq<nat>, grown: int, group: int)
    requires
        0 <= group <= before.len(),
        after.len() == before.len(),
        0 <= grown < before.len(),
        after[grown] <= before[grown] + 1,
        forall|i: int| 0 <= i < before.len() && i != grown ==> after[i] == before[i],
    ensures
        lanes_before(after, group) <= lanes_before(before, group) + 1,
    decreases group,
{
    if group > 0 {
        lemma_lanes_before_grow(before, after, grown, group - 1);
        if grown == group - 1 {
            lemma_lanes_before_same(before, after, group - 1);
        }
    }
}

/// Only the lanes of the groups before a group count.
pub proof fn lemma_lanes_before_same(a: Seq<nat>, b: Seq<nat>, group: int)
    requires
        forall|i: int| 0 <= i < group ==> a[i] == b[i],
    ensures
        lanes_before(a, group) == lanes_before(b, group),
    decreases group,
{
    if group > 0 {
        lemma_lanes_before_same(a, b, group - 1);
    }
}

/// Without lanes there are none before any group.
pub proof fn lemma_lanes_before_empty(counts: Seq<nat>, group: int)
    requires
        forall|i: int| 0 <= i < group ==> counts[i] == 0,
    ensures
        lanes_before(counts, group) == 0,
    decreases group,
{
    if group > 0 {
        lemma_lanes_before_empty(counts, group - 1);
    }
}

/// The numbers of the branches with positions ascend, each below `count` and with positions; no
/// such branch is left out.
pub proof fn lemma_ranged(branches: Seq<BranchState>, count: nat)
    requires
        count <= branches.len(),
        branches.len() <= usize::MAX,
    ensures
        ranged(branches, count).len() <= count,
        forall|k: int|
            0 <= k < ranged(branches, count).len() ==> {
                &&& #[trigger] ranged(branches, count)[k] < count
                &&& has_range(branches[ranged(branches, count)[k] as int])
            },
        forall|k: int, l: int|
            #![trigger ranged(branches, count)[k], ranged(branches, count)[l]]
            0 <= k < l < ranged(branches, count).len() ==> ranged(branches, count)[k] < ranged(
                branches,
                count,
            )[l],
        forall|i: int|
            0 <= i < count && has_range(#[trigger] branches[i]) ==> ranged(
                branches,
                count,
            ).contains(i as usize),
    decreases count,
{
    if count > 0 {
        let before = ranged(branches, (count - 1) as nat);
        let all = ranged(branches, count);
        lemma_ranged(branches, (count - 1) as nat);
        assert forall|i: int| 0 <= i < count && has_range(#[trigger] branches[i]) implies all.contains(
            i as usize,
        ) by {
            if i == count - 1 {
                assert(all[all.len() - 1] == i as usize);
            } else {
                assert(before.contains(i as usize));
                let k = choose|k: int| 0 <= k < before.len() && before[k] == i as usize;
                assert(all[k] == i as usize);
            }
        }
    }
}

/// Two branches that stand in the same column of the graph stand in the same lane of the same
/// group.
pub proof fn lemma_same_column(
    branches: Seq<BranchState>,
    lanes: Seq<Option<usize>>,
    counts: Seq<nat>,
    i: int,
    j: int,
)
    requires
        lanes.len() == branches.len(),
        0 <= i < branches.len(),
        0 <= j < branches.len(),
        lanes_before(counts, counts.len() as int) <= usize::MAX,
        in_bounds(branches, lanes, counts),
        graph_columns(branches, lanes, counts)[i] is Some,
        graph_columns(branches, lanes, counts)[i] == graph_columns(branches, lanes, counts)[j],
    ensures
        branches[i].visual.order_group == branches[j].visual.order_group,
        lanes[i] == lanes[j],
{
    let columns = graph_columns(branches, lanes, counts);
    let a = branches[i].visual.order_group as int;
    let b = branches[j].visual.order_group as int;
    assert(columns[i] is Some && columns[j] is Some);
    lemma_lanes_before_monotonic(counts, a, a + 1);
    lemma_lanes_before_monotonic(counts, b, b + 1);
    lemma_lanes_before_monotonic(counts, a + 1, counts.len() as int);
    lemma_lanes_before_monotonic(counts, b + 1, counts.len() as int);
    if a < b {
        lemma_lanes_before_monotonic(counts, a + 1, b);
    } else if b < a {
        lemma_lanes_before_monotonic(counts, b + 1, a);
    }
}

/// Lanes of later groups become columns further to the right.
pub proof fn lemma_groups_in_order(
    branches: Seq<BranchState>,
    lanes: Seq<Option<usize>>,
    counts: Seq<nat>,
)
    requires
        lanes.len() == branches.len(),
        lanes_before(counts, counts.len() as int) <= usize::MAX,
        in_bounds(branches, lanes, counts),
    ensures
        groups_in_order(branches, graph_columns(branches, lanes, counts)),
{
    let columns = graph_columns(branches, lanes, counts);
    assert forall|i: int, j: int|
        #![trigger columns[i], columns[j]]
        0 <= i < branches.len() && 0 <= j < branches.len() && columns[i] is Some && columns[j] is Some
            && branches[i].visual.order_group < branches[j].visual.order_group implies columns[i]->0
        < columns[j]->0 by {
        let a = branches[i].visual.order_group as int;
        let b = branches[j].visual.order_group as int;
        assert(lanes[i] is Some && lanes[j] is Some);
        lemma_lanes_before_monotonic(counts, a, b);
        lemma_lanes_before_monotonic(counts, b, counts.len() as int);
    }
}

/// Whether each branch that stands in a lane stands in one that its group has.
pub open spec fn in_bounds(
    branches: Seq<BranchState>,
    lanes: Seq<Option<usize>>,
    counts: Seq<nat>,
) -> bool {
    forall|i: int|
        0 <= i < lanes.len() ==> (#[trigger] lanes[i] matches Some(lane) ==> {
            &&& branches[i].visual.order_group < counts.len()
            &&& lane < counts[branches[i].visual.order_group as int]
        })
}

/// Whether the column of each branch in the whole graph can be told and counted.
pub open spec fn shiftable(
    branches: Seq<BranchState>,
    lanes: Seq<Option<usize>>,
    counts: Seq<nat>,
) -> bool {
    forall|i: int|
        0 <= i < lanes.len() ==> (#[trigger] lanes[i] matches Some(lane) ==> {
            &&& branches[i].visual.order_group <= counts.len()
            &&& lane + lanes_before(counts, branches[i].visual.order_group as int) <= usize::MAX
        })
}

/// Branches in lanes that their groups have can be moved to the columns of the graph.
pub proof fn lemma_shiftable(
    branches: Seq<BranchState>,
    lanes: Seq<Option<usize>>,
    counts: Seq<nat>,
)
    requires
        in_bounds(branches, lanes, counts),
        lanes_before(counts, counts.len() as int) <= usize::MAX,
    ensures
        shiftable(branches, lanes, counts),
{
    assert forall|i: int| 0 <= i < lanes.len() implies (#[trigger] lanes[i] matches Some(lane) ==> {
        &&& branches[i].visual.order_group <= counts.len()
        &&& lane + lanes_before(counts, branches[i].visual.order_group as int) <= usize::MAX
    }) by {
        if lanes[i] is Some {
            let group = branches[i].visual.order_group as int;
            lemma_lanes_before_monotonic(counts, group + 1, counts.len() as int);
        }
    }
}

/// Whether the columns in use are those below `n`, with no empty one between them.
pub open spec fn fills(columns: Seq<Option<usize>>, n: nat) -> bool {
    forall|column: usize| #[trigger] columns.contains(Some(column)) <==> column < n
}

/// Whether branch `i` stands in lane `lane` of group `group`.
pub open spec fn stands_in(
    branches: Seq<BranchState>,
    lanes: Seq<Option<usize>>,
    group: int,
    lane: int,
    i: int,
) -> bool {
    &&& 0 <= i < lanes.len()
    &&& branches[i].visual.order_group == group
    &&& lanes[i] matches Some(own) && own == lane
}

/// Whether a branch stands in lane `lane` of group `group`.
pub open spec fn is_used(
    branches: Seq<BranchState>,
    lanes: Seq<Option<usize>>,
    group: int,
    lane: int,
) -> bool {
    exists|i: int| stands_in(branches, lanes, group, lane, i)
}

/// Whether a branch stands in each lane of each group.
pub open spec fn lanes_used(
    branches: Seq<BranchState>,
    lanes: Seq<Option<usize>>,
    counts: Seq<nat>,
) -> bool {
    forall|group: int, lane: int|
        0 <= group < counts.len() && 0 <= lane < counts[group] ==> #[trigger] is_used(
            branches,
            lanes,
            group,
            lane,
        )
}

/// A branch that gets a lane leaves no lane unused, if the only lane that it may add is its own.
pub proof fn lemma_lanes_used(
    branches: Seq<BranchState>,
    lanes: Seq<Option<usize>>,
    before: Seq<nat>,
    after: Seq<nat>,
    b: int,
    lane: usize,
)
    requires
        lanes_used(branches, lanes, before),
        0 <= b < lanes.len(),
        lanes[b] is None,
        after.len() == before.len(),
        branches[b].visual.order_group < before.len(),
        forall|g: int|
            0 <= g < before.len() && g != branches[b].visual.order_group ==> #[trigger] after[g]
                == before[g],
        after[branches[b].visual.order_group as int] == before[branches[b].visual.order_group as int]
            || after[branches[b].visual.order_group as int] == lane + 1 && lane
            == before[branches[b].visual.order_group as int],
    ensures
        lanes_used(branches, lanes.update(b, Some(lane)), after),
{
    let own = branches[b].visual.order_group as int;
    let placed = lanes.update(b, Some(lane));
    assert forall|group: int, l: int|
        0 <= group < after.len() && 0 <= l < after[group] implies #[trigger] is_used(
        branches,
        placed,
        group,
        l,
    ) by {
        if group == own && l == lane {
            assert(stands_in(branches, placed, group, l, b));
        } else {
            assert(is_used(branches, lanes, group, l));
            let i = choose|i: int| stands_in(branches, lanes, group, l, i);
            assert(stands_in(branches, placed, group, l, i));
        }
    }
}

/// The group and the lane that a column of the graph is.
proof fn lemma_lane_of_column(counts: Seq<nat>, groups: int, column: int) -> (found: (int, int))
    requires
        0 <= groups <= counts.len(),
        0 <= column < lanes_before(counts, groups),
    ensures
        0 <= found.0 < groups,
        0 <= found.1 < counts[found.0],
        column == found.1 + lanes_before(counts, found.0),
    decreases groups,
{
    if column < lanes_before(counts, groups - 1) {
        lemma_lane_of_column(counts, groups - 1, column)
    } else {
        (groups - 1, column - lanes_before(counts, groups - 1))
    }
}

/// Where a branch stands in each lane, a branch stands in each column up to the last.
pub proof fn lemma_fills(
    branches: Seq<BranchState>,
    lanes: Seq<Option<usize>>,
    counts: Seq<nat>,
)
    requires
        lanes.len() == branches.len(),
        lanes_before(counts, counts.len() as int) <= usize::MAX,
        in_bounds(branches, lanes, counts),
        lanes_used(branches, lanes, counts),
    ensures
        fills(
            graph_columns(branches, lanes, counts),
            lanes_before(counts, counts.len() as int),
        ),
{
    let columns = graph_columns(branches, lanes, counts);
    let total = lanes_before(counts, counts.len() as int);
    assert forall|column: usize| #[trigger] columns.contains(Some(column)) <==> column < total by {
        if column < total {
            let (group, lane) = lemma_lane_of_column(counts, counts.len() as int, column as int);
            assert(is_used(branches, lanes, group, lane));
            let i = choose|i: int| stands_in(branches, lanes, group, lane, i);
            assert(columns[i] == Some(column));
        }
        if columns.contains(Some(column)) {
            let i = choose|i: int| 0 <= i < columns.len() && columns[i] == Some(column);
            let group = branches[i].visual.order_group as int;
            assert(lanes[i] is Some);
            lemma_lanes_before_monotonic(counts, group, group + 1);
            lemma_lanes_before_monotonic(counts, group + 1, counts.len() as int);
        }
    }
}

/// Numbers of lanes, without their bounds.
pub open spec fn as_counts(counts: Seq<usize>) -> Seq<nat> {
    counts.map_values(|count: usize| count as nat)
}

/// The position at which a branch ends, among `commits` commits.
pub(crate) fn find_last_position(branch: &BranchInfo, commits: usize) -> (position: usize)
    ensures
        position == last_position(branch@, commits as nat),
{
    match branch.range.1 {
        Some(position) => position,
        None => if commits == 0 {
            0
        } else {
            commits - 1
        },
    }
}

/// Moves each branch from the lane of its group in which it stands to the column of the graph that
/// this lane is. `counts` holds the number of lanes of each group.
pub(crate) fn shift_to_graph_columns(branches: &mut [BranchInfo], counts: &Vec<usize>)
    requires
        shiftable(
            branch_states(old(branches)@),
            columns_of(branch_states(old(branches)@)),
            as_counts(counts@),
        ),
        lanes_before(as_counts(counts@), counts@.len() as int) <= usize::MAX,
    ensures
        branch_states(final(branches)@) == in_columns(
            branch_states(old(branches)@),
            graph_columns(
                branch_states(old(branches)@),
                columns_of(branch_states(old(branches)@)),
                as_counts(counts@),
            ),
        ),
{
    let ghost before = branch_states(branches@);
    let ghost lanes = columns_of(before);
    let ghost nats = as_counts(counts@);
    let mut offsets: Vec<usize> = Vec::new();
    let mut offset: usize = 0;
    for group in 0..counts.len()
        invariant
            nats == as_counts(counts@),
            offset == lanes_before(nats, group as int),
            lanes_before(nats, counts@.len() as int) <= usize::MAX,
            offsets@.len() == group,
            forall|g: int| 0 <= g < group ==> #[trigger] offsets@[g] == lanes_before(nats, g),
    {
        proof {
            lemma_lanes_before_monotonic(nats, group as int + 1, counts@.len() as int);
        }
        offsets.push(offset);
        offset = offset + counts[group];
    }
    offsets.push(offset);
    let ghost columns = graph_columns(before, lanes, nats);
    let len = branches.len();
    for i in 0..len
        invariant
            len == branches@.len(),
            len == before.len(),
            lanes == columns_of(before),
            nats == as_counts(counts@),
            columns == graph_columns(before, lanes, nats),
            shiftable(before, lanes, nats),
            offsets@.len() == counts@.len() + 1,
            forall|g: int|
                0 <= g < offsets@.len() ==> #[trigger] offsets@[g] == lanes_before(nats, g),
            forall|j: int| 0 <= j < i ==> (#[trigger] branches@[j])@ == before[j].in_column(columns[j]),
            forall|j: int| i <= j < len ==> (#[trigger] branches@[j])@ == before[j],
    {
        assert(branches@[i as int]@ == before[i as int]);
        assert(lanes[i as int] == before[i as int].visual.column);
        if let Some(lane) = branches[i].visual.column {
            let group = branches[i].visual.order_group;
            branches[i].visual.column = Some(lane + offsets[group]);
        }
        assert(branches@[i as int]@ =~= before[i as int].in_column(columns[i as int]));
    }
    assert(branch_states(branches@) =~= in_columns(before, columns));
}

} // verus!
