//! Columns by length: branches are taken by the length of their ranges, and each is put into the
//! first lane of its group where it meets no branch and does not stand in line with the branch
//! that it was merged into.

use crate::branch::{branch_states, BranchInfo, BranchState};
use crate::columns::{
    as_counts, columns_of, fills, find_last_position, first_position, free_of_overlaps,
    graph_columns, groups_in_order, has_range, in_bounds, in_columns, lane_counts, lanes_before,
    lanes_used, last_position, overlap, ranged, shift_to_graph_columns, shiftable,
};
use crate::columns::{
    lemma_fills, lemma_groups_in_order, lemma_lanes_before_empty, lemma_lanes_before_grow,
    lemma_lanes_before_monotonic, lemma_lanes_used, lemma_ranged, lemma_same_column,
    lemma_shiftable,
};
use crate::commit::{commit_states, CommitInfo, CommitState};
use crate::fcfs::{grouped, unplaced};
use crate::oid::{Oid, OidMap};
use crate::scheduling::{
    covers, fits, is_left_of, is_merged_into, is_packed_by_length, is_taken_before, lemma_apart,
    lemma_meet, meet, start_of,
};
use crate::settings::BranchSettings;
use crate::sorting::{
    arranged, is_stable_order, item_keys, precedes, sorted_by_key, stable_order,
};
use crate::sorting::{
    lemma_stable_order, lemma_stable_order_complete, lemma_stable_order_distinct,
    lemma_stable_order_unique,
};
use vstd::prelude::*;

verus! {

/// The number of each branch that has positions, with its first and its last position.
pub open spec fn spans(branches: Seq<BranchState>, commits: nat) -> Seq<(usize, usize, usize)> {
    ranged(branches, branches.len()).map_values(
        |i: usize|
            (
                i,
                first_position(branches[i as int]),
                last_position(branches[i as int], commits),
            ),
    )
}

/// A number, negated unless `ascending`.
pub open spec fn directed(value: int, ascending: bool) -> int {
    if ascending {
        value
    } else {
        -value
    }
}

/// How far the last position of a span lies after the first, as `i32`.
pub open spec fn span_length(span: (usize, usize, usize)) -> int {
    (span.2 as i32) - (span.1 as i32)
}

/// The keys by which spans are sorted: length first, then the first position.
pub open spec fn span_keys(
    spans: Seq<(usize, usize, usize)>,
    shortest_first: bool,
    forward: bool,
) -> Seq<(int, int)> {
    spans.map_values(
        |span: (usize, usize, usize)|
            (
                directed(span_length(span), shortest_first),
                directed(span.1 as i32 as int, forward),
            ),
    )
}

/// The spans in the order in which they are put into lanes.
pub open spec fn span_queue(
    branches: Seq<BranchState>,
    commits: nat,
    shortest_first: bool,
    forward: bool,
) -> Seq<(usize, usize, usize)> {
    arranged(
        spans(branches, commits),
        stable_order(span_keys(spans(branches, commits), shortest_first, forward)),
    )
}

/// Whether a lane holds a span that has a position from `start` to `end`.
pub open spec fn taken(lane: Seq<(usize, usize)>, start: usize, end: usize) -> bool {
    exists|k: int| 0 <= k < lane.len() && start <= (#[trigger] lane[k]).1 && end >= lane[k].0
}

/// The first lane from lane `from` on that is not taken and is not the lane `avoid`, the number of
/// lanes where there is none.
pub open spec fn first_fit(
    lanes: Seq<Seq<(usize, usize)>>,
    start: usize,
    end: usize,
    avoid: Option<usize>,
    from: int,
) -> int
    decreases lanes.len() - from,
{
    if from >= lanes.len() {
        lanes.len() as int
    } else if !taken(lanes[from], start, end) && avoid != Some(from as usize) {
        from
    } else {
        first_fit(lanes, start, end, avoid, from + 1)
    }
}

/// The branch that a branch was merged into: the one that the merge commit belongs to.
pub open spec fn merged_into(
    branch: BranchState,
    commits: Seq<CommitState>,
    indices: Map<Oid, usize>,
) -> Option<usize> {
    match branch.merge_target {
        Some(target) => if indices.contains_key(target) && indices[target] < commits.len() {
            commits[indices[target] as int].branch_trace
        } else {
            None
        },
        None => None,
    }
}

/// Whether the branch that a branch was merged into can be found: the position is that of a commit,
/// and its trace is the number of a branch.
pub open spec fn merge_found(
    branches: Seq<BranchState>,
    commits: Seq<CommitState>,
    indices: Map<Oid, usize>,
    b: int,
) -> bool {
    &&& branches[b].merge_target matches Some(target) ==> indices.contains_key(target)
        ==> indices[target] < commits.len()
    &&& merged_into(branches[b], commits, indices) matches Some(other) ==> other < branches.len()
}

/// The lane that a branch stays out of: the one of the branch that it was merged into, if that is
/// in the same group and has a lane already.
pub open spec fn lane_to_avoid(
    branches: Seq<BranchState>,
    commits: Seq<CommitState>,
    indices: Map<Oid, usize>,
    lanes: Seq<Option<usize>>,
    b: int,
) -> Option<usize> {
    match merged_into(branches[b], commits, indices) {
        Some(other) => if other < branches.len() && branches[other as int].visual.order_group
            == branches[b].visual.order_group {
            lanes[other as int]
        } else {
            None
        },
        None => None,
    }
}

/// The state of the distribution of branches over lanes.
#[verifier::ext_equal]
pub struct Packing {
    /// For each lane of each group, the first and the last positions of its branches.
    pub occupied: Seq<Seq<Seq<(usize, usize)>>>,
    /// The lane of each branch that has one.
    pub lanes: Seq<Option<usize>>,
    /// The branches that were kept out of a lane for the sake of the branch they were merged into.
    pub displaced: Seq<usize>,
    /// Whether a lane that is not taken met a branch of which cannot be told what it was merged
    /// into.
    pub lost: bool,
}

impl Packing {
    /// The state before any branch is put into a lane. A branch that has a column already has it as
    /// its lane until then.
    pub open spec fn start(branches: Seq<BranchState>, groups: nat) -> Packing {
        Packing {
            occupied: Seq::new(groups, |g: int| Seq::empty()),
            lanes: columns_of(branches),
            displaced: Seq::empty(),
            lost: false,
        }
    }

    /// Puts a branch into the first lane of its group that fits, a new one where none does.
    pub open spec fn place(
        self,
        branches: Seq<BranchState>,
        commits: Seq<CommitState>,
        indices: Map<Oid, usize>,
        span: (usize, usize, usize),
    ) -> Packing {
        let (b, start, end) = span;
        let group = branches[b as int].visual.order_group as int;
        let lanes = self.occupied[group];
        let avoid = lane_to_avoid(branches, commits, indices, self.lanes, b as int);
        let found = first_fit(lanes, start, end, avoid, 0);
        Packing {
            occupied: self.occupied.update(
                group,
                if found < lanes.len() {
                    lanes.update(found, lanes[found].push((start, end)))
                } else {
                    lanes.push(seq![(start, end)])
                },
            ),
            lanes: self.lanes.update(b as int, Some(found as usize)),
            displaced: if avoid matches Some(lane) && lane < found && !taken(
                lanes[lane as int],
                start,
                end,
            ) {
                self.displaced.push(b)
            } else {
                self.displaced
            },
            lost: self.lost || !merge_found(branches, commits, indices, b as int) && exists|l: int|
                0 <= l < lanes.len() && !taken(#[trigger] lanes[l], start, end),
        }
    }
}

/// The state after the first `steps` spans of the queue were put into lanes.
pub open spec fn packed(
    branches: Seq<BranchState>,
    groups: nat,
    commits: Seq<CommitState>,
    indices: Map<Oid, usize>,
    queue: Seq<(usize, usize, usize)>,
    steps: int,
) -> Packing
    decreases steps,
{
    if steps <= 0 {
        Packing::start(branches, groups)
    } else {
        packed(branches, groups, commits, indices, queue, steps - 1).place(
            branches,
            commits,
            indices,
            queue[steps - 1],
        )
    }
}

/// The state after all branches with positions were put into lanes.
pub open spec fn packed_by_length(
    branches: Seq<BranchState>,
    groups: nat,
    commits: Seq<CommitState>,
    indices: Map<Oid, usize>,
    shortest_first: bool,
    forward: bool,
) -> Packing {
    let queue = span_queue(branches, commits.len(), shortest_first, forward);
    packed(branches, groups, commits, indices, queue, queue.len() as int)
}

/// The columns that scheduling by length gives to branches, with order groups numbered below
/// `groups`.
pub open spec fn length_columns(
    branches: Seq<BranchState>,
    groups: nat,
    commits: Seq<CommitState>,
    indices: Map<Oid, usize>,
    shortest_first: bool,
    forward: bool,
) -> Seq<Option<usize>> {
    let packing = packed_by_length(
        branches,
        groups,
        commits,
        indices,
        shortest_first,
        forward,
    );
    graph_columns(branches, packing.lanes, lane_counts(packing.occupied))
}

/// Whether the spans of branches can be sorted: their lengths and, descending, their negated
/// positions are `i32`.
pub open spec fn sortable_by_length(
    branches: Seq<BranchState>,
    commits: nat,
    shortest_first: bool,
    forward: bool,
) -> bool {
    forall|i: int|
        #![trigger branches[i]]
        0 <= i < branches.len() && has_range(branches[i]) ==> {
            let span = (
                i as usize,
                first_position(branches[i]),
                last_position(branches[i], commits),
            );
            &&& i32::MIN <= span_length(span) <= i32::MAX
            &&& directed(span_length(span), shortest_first) <= i32::MAX
            &&& directed(span.1 as i32 as int, forward) <= i32::MAX
        }
}

/// Whether the branches that branches were merged into can all be found.
pub open spec fn merges_found(
    branches: Seq<BranchState>,
    commits: Seq<CommitState>,
    indices: Map<Oid, usize>,
) -> bool {
    forall|i: int|
        #![trigger branches[i]]
        0 <= i < branches.len() && has_range(branches[i]) ==> merge_found(
            branches,
            commits,
            indices,
            i,
        )
}

/// Whether branches can get columns: they are grouped, it can be told what they were merged into
/// where that matters, and columns can be counted. This holds of all branches that have no column
/// yet, if [`merges_found`].
pub open spec fn placeable_by_length(
    branches: Seq<BranchState>,
    groups: nat,
    commits: Seq<CommitState>,
    indices: Map<Oid, usize>,
    shortest_first: bool,
    forward: bool,
) -> bool {
    let packing = packed_by_length(
        branches,
        groups,
        commits,
        indices,
        shortest_first,
        forward,
    );
    &&& grouped(branches, groups)
    &&& !packing.lost
    &&& shiftable(branches, packing.lanes, lane_counts(packing.occupied))
}

/// What holds of every state of the distribution after `steps` branches.
pub open spec fn shaped(
    packing: Packing,
    branches: Seq<BranchState>,
    groups: nat,
    steps: int,
) -> bool {
    &&& packing.occupied.len() == groups
    &&& packing.lanes.len() == branches.len()
    &&& lanes_before(lane_counts(packing.occupied), groups as int) <= steps
}

/// What holds of every state of the distribution of branches without columns.
pub open spec fn sound(
    packing: Packing,
    branches: Seq<BranchState>,
    groups: nat,
    steps: int,
) -> bool {
    &&& shaped(packing, branches, groups, steps)
    &&& in_bounds(branches, packing.lanes, lane_counts(packing.occupied))
}

proof fn lemma_first_fit(
    lanes: Seq<Seq<(usize, usize)>>,
    start: usize,
    end: usize,
    avoid: Option<usize>,
    from: int,
)
    requires
        0 <= from <= lanes.len(),
    ensures
        from <= first_fit(lanes, start, end, avoid, from) <= lanes.len(),
        first_fit(lanes, start, end, avoid, from) < lanes.len() ==> {
            let found = first_fit(lanes, start, end, avoid, from);
            &&& !taken(lanes[found], start, end)
            &&& avoid != Some(found as usize)
        },
        forall|l: int|
            from <= l < first_fit(lanes, start, end, avoid, from) ==> taken(
                #[trigger] lanes[l],
                start,
                end,
            ) || avoid == Some(l as usize),
    decreases lanes.len() - from,
{
    if from < lanes.len() {
        lemma_first_fit(lanes, start, end, avoid, from + 1);
    }
}

proof fn lemma_start_shaped(branches: Seq<BranchState>, groups: nat)
    ensures
        shaped(Packing::start(branches, groups), branches, groups, 0),
{
    let packing = Packing::start(branches, groups);
    lemma_lanes_before_empty(lane_counts(packing.occupied), groups as int);
}

proof fn lemma_start_sound(branches: Seq<BranchState>, groups: nat)
    requires
        unplaced(branches, groups),
    ensures
        sound(Packing::start(branches, groups), branches, groups, 0),
{
    let packing = Packing::start(branches, groups);
    lemma_start_shaped(branches, groups);
    assert forall|i: int| 0 <= i < packing.lanes.len() implies (
    #[trigger] packing.lanes[i]) is None by {
        assert(branches[i].visual.column is None);
    }
}

proof fn lemma_place_shaped(
    packing: Packing,
    branches: Seq<BranchState>,
    groups: nat,
    commits: Seq<CommitState>,
    indices: Map<Oid, usize>,
    span: (usize, usize, usize),
    steps: int,
)
    requires
        shaped(packing, branches, groups, steps),
        steps < usize::MAX,
        span.0 < branches.len(),
        branches[span.0 as int].visual.order_group < groups,
    ensures
        shaped(packing.place(branches, commits, indices, span), branches, groups, steps + 1),
        packing.occupied[branches[span.0 as int].visual.order_group as int].len() < usize::MAX,
{
    let (b, start, end) = span;
    let group = branches[b as int].visual.order_group as int;
    let after = packing.place(branches, commits, indices, span);
    let before_counts = lane_counts(packing.occupied);
    let after_counts = lane_counts(after.occupied);
    let avoid = lane_to_avoid(branches, commits, indices, packing.lanes, b as int);
    lemma_first_fit(packing.occupied[group], start, end, avoid, 0);
    lemma_lanes_before_monotonic(before_counts, group, groups as int);
    lemma_lanes_before_grow(before_counts, after_counts, group, groups as int);
}

proof fn lemma_place_sound(
    packing: Packing,
    branches: Seq<BranchState>,
    groups: nat,
    commits: Seq<CommitState>,
    indices: Map<Oid, usize>,
    span: (usize, usize, usize),
    steps: int,
)
    requires
        sound(packing, branches, groups, steps),
        steps < usize::MAX,
        span.0 < branches.len(),
        branches[span.0 as int].visual.order_group < groups,
    ensures
        sound(packing.place(branches, commits, indices, span), branches, groups, steps + 1),
        packing.occupied[branches[span.0 as int].visual.order_group as int].len() < usize::MAX,
{
    let (b, start, end) = span;
    let group = branches[b as int].visual.order_group as int;
    let after = packing.place(branches, commits, indices, span);
    let after_counts = lane_counts(after.occupied);
    let avoid = lane_to_avoid(branches, commits, indices, packing.lanes, b as int);
    lemma_first_fit(packing.occupied[group], start, end, avoid, 0);
    lemma_place_shaped(packing, branches, groups, commits, indices, span, steps);
    assert forall|i: int| 0 <= i < after.lanes.len() implies (#[trigger] after.lanes[i] matches Some(
        lane,
    ) ==> {
        &&& branches[i].visual.order_group < after_counts.len()
        &&& lane < after_counts[branches[i].visual.order_group as int]
    }) by {
        if i != b {
            assert(after.lanes[i] == packing.lanes[i]);
        }
    }
}

/// The spans of the queue: those of the branches with positions, each once.
pub proof fn lemma_span_queue(
    branches: Seq<BranchState>,
    commits: nat,
    shortest_first: bool,
    forward: bool,
)
    requires
        branches.len() <= usize::MAX,
    ensures
        span_queue(branches, commits, shortest_first, forward).len() == ranged(
            branches,
            branches.len(),
        ).len(),
        forall|k: int|
            0 <= k < span_queue(branches, commits, shortest_first, forward).len() ==> {
                let span = #[trigger] span_queue(branches, commits, shortest_first, forward)[k];
                &&& span.0 < branches.len()
                &&& has_range(branches[span.0 as int])
                &&& span.1 == first_position(branches[span.0 as int])
                &&& span.2 == last_position(branches[span.0 as int], commits)
            },
        forall|k: int, l: int|
            #![trigger
                span_queue(branches, commits, shortest_first, forward)[k],
                span_queue(branches, commits, shortest_first, forward)[l]
            ]
            0 <= k < span_queue(branches, commits, shortest_first, forward).len() && 0 <= l < span_queue(
                branches,
                commits,
                shortest_first,
                forward,
            ).len() && k != l ==> span_queue(branches, commits, shortest_first, forward)[k].0 != span_queue(
                branches,
                commits,
                shortest_first,
                forward,
            )[l].0,
{
    let listed = spans(branches, commits);
    let keys = span_keys(listed, shortest_first, forward);
    let order = stable_order(keys);
    let queue = span_queue(branches, commits, shortest_first, forward);
    let numbers = ranged(branches, branches.len());
    lemma_ranged(branches, branches.len());
    lemma_stable_order(keys);
    lemma_stable_order_distinct(keys, order);
    assert forall|k: int| 0 <= k < queue.len() implies {
        let span = #[trigger] queue[k];
        &&& span.0 < branches.len()
        &&& has_range(branches[span.0 as int])
        &&& span.1 == first_position(branches[span.0 as int])
        &&& span.2 == last_position(branches[span.0 as int], commits)
    } by {
        assert(queue[k] == listed[order[k]]);
        assert(listed[order[k]].0 == numbers[order[k]]);
    }
    assert forall|k: int, l: int|
        #![trigger queue[k], queue[l]]
        0 <= k < queue.len() && 0 <= l < queue.len() && k != l implies queue[k].0 != queue[l].0 by {
        assert(queue[k].0 == numbers[order[k]]);
        assert(queue[l].0 == numbers[order[l]]);
        assert(order[k] != order[l]);
        if order[k] < order[l] {
            assert(numbers[order[k]] < numbers[order[l]]);
        } else {
            assert(numbers[order[l]] < numbers[order[k]]);
        }
    }
}

/// Lists the spans of the branches, sorted.
fn sorted_spans(
    branches: &[BranchInfo],
    commits: usize,
    shortest_first: bool,
    forward: bool,
) -> (queue: Vec<((i32, i32), (usize, usize, usize))>)
    requires
        sortable_by_length(branch_states(branches@), commits as nat, shortest_first, forward),
    ensures
        queue@.len() == span_queue(
            branch_states(branches@),
            commits as nat,
            shortest_first,
            forward,
        ).len(),
        forall|k: int|
            0 <= k < queue@.len() ==> (#[trigger] queue@[k]).1 == span_queue(
                branch_states(branches@),
                commits as nat,
                shortest_first,
                forward,
            )[k],
{
    let ghost states = branch_states(branches@);
    let mut items: Vec<((i32, i32), (usize, usize, usize))> = Vec::new();
    for i in 0..branches.len()
        invariant
            states == branch_states(branches@),
            sortable_by_length(states, commits as nat, shortest_first, forward),
            items@.len() == ranged(states, i as nat).len(),
            forall|k: int|
                0 <= k < items@.len() ==> {
                    let number = ranged(states, i as nat)[k];
                    let span = (
                        number,
                        first_position(states[number as int]),
                        last_position(states[number as int], commits as nat),
                    );
                    &&& (#[trigger] items@[k]).1 == span
                    &&& items@[k].0.0 == directed(span_length(span), shortest_first)
                    &&& items@[k].0.1 == directed(span.1 as i32 as int, forward)
                },
    {
        let range = branches[i].range;
        assert(states[i as int].range == range);
        if range.0.is_some() || range.1.is_some() {
            assert(has_range(states[i as int]));
            let start: usize = match range.0 {
                Some(position) => position,
                None => 0,
            };
            let end = find_last_position(&branches[i], commits);
            assert(start == first_position(states[i as int]));
            assert(end == last_position(states[i as int], commits as nat));
            let length: i32 = end as i32 - start as i32;
            let length_key: i32 = if shortest_first {
                length
            } else {
                -length
            };
            let start_key: i32 = if forward {
                start as i32
            } else {
                -(start as i32)
            };
            items.push(((length_key, start_key), (i, start, end)));
        }
    }
    let ghost listed = spans(states, commits as nat);
    let ghost keys = item_keys(items@);
    assert(keys =~= span_keys(listed, shortest_first, forward));
    let queue = sorted_by_key(items);
    proof {
        let order = choose|order: Seq<int>| #[trigger]
            is_stable_order(keys, order) && queue@ == arranged(items@, order);
        lemma_stable_order_unique(keys, order);
        assert forall|k: int| 0 <= k < queue@.len() implies (#[trigger] queue@[k]).1 == span_queue(
            states,
            commits as nat,
            shortest_first,
            forward,
        )[k] by {
            assert(0 <= order[k] < items@.len());
            assert(items@[order[k]].1 == listed[order[k]]);
        }
    }
    queue
}

/// Whether a lane holds a span that has a position from `start` to `end`.
fn is_taken(lane: &Vec<(usize, usize)>, start: usize, end: usize) -> (result: bool)
    ensures
        result == taken(lane@, start, end),
{
    for k in 0..lane.len()
        invariant
            forall|j: int| 0 <= j < k ==> !(start <= (#[trigger] lane@[j]).1 && end >= lane@[j].0),
    {
        if start <= lane[k].1 && end >= lane[k].0 {
            assert(start <= lane@[k as int].1 && end >= lane@[k as int].0);
            return true;
        }
    }
    false
}

/// The spans in the lanes of a group that nested vectors stand for.
pub open spec fn group_lanes(group: Seq<Vec<(usize, usize)>>) -> Seq<Seq<(usize, usize)>> {
    group.map_values(|lane: Vec<(usize, usize)>| lane@)
}

/// The spans in the lanes of all groups that nested vectors stand for.
pub open spec fn all_lanes(occupied: Seq<Vec<Vec<(usize, usize)>>>) -> Seq<
    Seq<Seq<(usize, usize)>>,
> {
    occupied.map_values(|group: Vec<Vec<(usize, usize)>>| group_lanes(group@))
}

/// The first lane that fits, the number of lanes where none does, and whether the lane to avoid
/// was passed over though it was not taken.
fn find_fit(
    lanes: &Vec<Vec<(usize, usize)>>,
    start: usize,
    end: usize,
    avoid: Option<usize>,
) -> (result: (usize, bool))
    ensures
        result.0 == first_fit(group_lanes(lanes@), start, end, avoid, 0),
        result.1 <==> (avoid matches Some(lane) && lane < result.0 && !taken(
            lanes@[lane as int]@,
            start,
            end,
        )),
{
    let ghost group = group_lanes(lanes@);
    let mut displaced = false;
    let mut i: usize = 0;
    while i < lanes.len()
        invariant
            i <= lanes@.len(),
            group == group_lanes(lanes@),
            first_fit(group, start, end, avoid, 0) == first_fit(group, start, end, avoid, i as int),
            displaced <==> (avoid matches Some(lane) && lane < i && !taken(
                lanes@[lane as int]@,
                start,
                end,
            )),
        decreases lanes@.len() - i,
    {
        assert(group[i as int] == lanes@[i as int]@);
        let mut occ = is_taken(&lanes[i], start, end);
        if !occ {
            if let Some(lane) = avoid {
                if lane == i {
                    displaced = true;
                    occ = true;
                }
            }
        }
        if !occ {
            return (i, displaced);
        }
        i = i + 1;
    }
    (i, displaced)
}

/// The branch that a branch was merged into, if it can be told.
fn find_merged_into(branch: &BranchInfo, commits: &[CommitInfo], indices: &OidMap) -> (other:
    Option<usize>)
    ensures
        other == merged_into(branch@, commit_states(commits@), indices@),
{
    match branch.merge_target {
        Some(target) => match indices.get(&target) {
            Some(position) => if position < commits.len() {
                assert(commit_states(commits@)[position as int] == commits@[position as int]@);
                commits[position].branch_trace
            } else {
                None
            },
            None => None,
        },
        None => None,
    }
}

/// Sorts branches into columns for visualization, that all branches can be visualized linearly
/// and without overlaps. Uses Shortest-First or Longest-First scheduling.
///
/// Returns the branches that were kept out of a free lane for the sake of the branch they were
/// merged into.
pub fn assign_branch_columns_branch_length(
    commits: &[CommitInfo],
    indices: &OidMap,
    branches: &mut [BranchInfo],
    settings: &BranchSettings,
    shortest_first: bool,
    forward: bool,
) -> (displaced: Vec<usize>)
    requires
        settings.order@.len() < usize::MAX,
        sortable_by_length(branch_states(old(branches)@), commits@.len(), shortest_first, forward),
        placeable_by_length(
            branch_states(old(branches)@),
            settings.order@.len() + 1,
            commit_states(commits@),
            indices@,
            shortest_first,
            forward,
        ),
    ensures
        branch_states(final(branches)@) == in_columns(
            branch_states(old(branches)@),
            length_columns(
                branch_states(old(branches)@),
                settings.order@.len() + 1,
                commit_states(commits@),
                indices@,
                shortest_first,
                forward,
            ),
        ),
        displaced@ == packed_by_length(
            branch_states(old(branches)@),
            settings.order@.len() + 1,
            commit_states(commits@),
            indices@,
            shortest_first,
            forward,
        ).displaced,
{
    let ghost before = branch_states(branches@);
    let ghost states = commit_states(commits@);
    let count = branches.len();
    let groups = settings.order.len() + 1;
    let mut occupied: Vec<Vec<Vec<(usize, usize)>>> = Vec::new();
    for group in 0..groups
        invariant
            occupied@.len() == group,
            forall|g: int| 0 <= g < group ==> (#[trigger] occupied@[g])@.len() == 0,
    {
        occupied.push(Vec::new());
    }
    let queue = sorted_spans(branches, commits.len(), shortest_first, forward);
    let ghost spans = span_queue(before, commits@.len(), shortest_first, forward);
    let mut displaced: Vec<usize> = Vec::new();
    let ghost mut packing = Packing::start(before, groups as nat);
    proof {
        lemma_span_queue(before, commits@.len(), shortest_first, forward);
        lemma_ranged(before, before.len());
        lemma_start_shaped(before, groups as nat);
        assert forall|g: int| 0 <= g < groups implies all_lanes(occupied@)[g]
            == packing.occupied[g] by {
            assert(group_lanes(occupied@[g]@) =~= Seq::empty());
        }
        assert(all_lanes(occupied@) =~= packing.occupied);
        assert(branch_states(branches@) =~= in_columns(before, packing.lanes));
    }
    for k in 0..queue.len()
        invariant
            states == commit_states(commits@),
            grouped(before, groups as nat),
            shaped(packing, before, groups as nat, k as int),
            packing == packed(before, groups as nat, states, indices@, spans, k as int),
            all_lanes(occupied@) == packing.occupied,
            count == branches@.len() == before.len(),
            branch_states(branches@) == in_columns(before, packing.lanes),
            displaced@ == packing.displaced,
            spans == span_queue(before, commits@.len(), shortest_first, forward),
            queue@.len() == spans.len() <= before.len(),
            forall|l: int| 0 <= l < queue@.len() ==> (#[trigger] queue@[l]).1 == spans[l],
            forall|l: int|
                0 <= l < spans.len() ==> (#[trigger] spans[l]).0 < before.len() && has_range(
                    before[spans[l].0 as int],
                ),
    {
        let (b, start, end) = queue[k].1;
        let ghost placed = branch_states(branches@);
        let ghost old_occupied = occupied@;
        let ghost lanes = packing.lanes;
        assert(spans[k as int] == (b, start, end));
        assert(has_range(before[b as int]));
        assert(placed[b as int] == before[b as int].in_column(lanes[b as int]));
        assert(branches@[b as int]@ == placed[b as int]);
        let group = branches[b].visual.order_group;
        let avoid: Option<usize> = match find_merged_into(&branches[b], commits, indices) {
            Some(other) if other < branches.len() => {
                assert(merged_into(before[b as int], states, indices@) == Some(other));
                assert(placed[other as int] == before[other as int].in_column(lanes[other as int]));
                assert(branches@[other as int]@ == placed[other as int]);
                if branches[other].visual.order_group == group {
                    branches[other].visual.column
                } else {
                    None
                }
            },
            _ => None,
        };
        assert(avoid == lane_to_avoid(before, states, indices@, lanes, b as int));
        proof {
            lemma_place_shaped(
                packing,
                before,
                groups as nat,
                states,
                indices@,
                (b, start, end),
                k as int,
            );
            assert(packing.occupied[group as int] == group_lanes(occupied@[group as int]@));
            lemma_first_fit(packing.occupied[group as int], start, end, avoid, 0);
            packing = packing.place(before, states, indices@, (b, start, end));
        }
        let (found, passed) = find_fit(&occupied[group], start, end, avoid);
        if passed {
            displaced.push(b);
        }
        branches[b].visual.column = Some(found);
        if found == occupied[group].len() {
            occupied[group].push(Vec::new());
        }
        occupied[group][found].push((start, end));
        proof {
            let old_lanes = group_lanes(old_occupied[group as int]@);
            let new_lanes = group_lanes(occupied@[group as int]@);
            assert(new_lanes[found as int] =~= if found < old_lanes.len() {
                old_lanes[found as int].push((start, end))
            } else {
                seq![(start, end)]
            });
            assert(new_lanes =~= packing.occupied[group as int]);
            assert forall|g: int| 0 <= g < groups implies all_lanes(occupied@)[g]
                == packing.occupied[g] by {
                if g != group {
                    assert(all_lanes(old_occupied)[g] == all_lanes(occupied@)[g]);
                }
            }
            assert(all_lanes(occupied@) =~= packing.occupied);
            assert forall|j: int| 0 <= j < count implies #[trigger] branch_states(branches@)[j]
                == in_columns(before, packing.lanes)[j] by {
                if j == b {
                    assert(branches@[j]@ =~= before[j].in_column(Some(found)));
                } else {
                    assert(branch_states(branches@)[j] == placed[j]);
                }
            }
            assert(branch_states(branches@) =~= in_columns(before, packing.lanes));
        }
    }
    let mut counts: Vec<usize> = Vec::new();
    for group in 0..occupied.len()
        invariant
            counts@.len() == group,
            forall|g: int| 0 <= g < group ==> #[trigger] counts@[g] == occupied@[g]@.len(),
    {
        counts.push(occupied[group].len());
    }
    proof {
        let placed = branch_states(branches@);
        assert(as_counts(counts@) =~= lane_counts(packing.occupied)) by {
            assert forall|g: int| 0 <= g < groups implies as_counts(counts@)[g] == lane_counts(
                packing.occupied,
            )[g] by {
                assert(packing.occupied[g] == group_lanes(occupied@[g]@));
            }
        }
        assert(columns_of(placed) =~= packing.lanes);
        assert(shiftable(placed, columns_of(placed), as_counts(counts@)));
        assert(graph_columns(placed, packing.lanes, as_counts(counts@)) =~= graph_columns(
            before,
            packing.lanes,
            as_counts(counts@),
        ));
    }
    shift_to_graph_columns(branches, &counts);
    assert(branch_states(branches@) =~= in_columns(
        before,
        length_columns(before, groups as nat, states, indices@, shortest_first, forward),
    ));
    displaced
}

/// What holds after `steps` spans of the queue: their branches have lanes and no others have, a
/// lane holds the spans of the branches in it, and branches in one lane have no position in
/// common.
spec fn orderly(
    packing: Packing,
    branches: Seq<BranchState>,
    commits: nat,
    queue: Seq<(usize, usize, usize)>,
    steps: int,
) -> bool {
    let count = branches.len();
    &&& forall|b: int|
        0 <= b < count && (#[trigger] packing.lanes[b]) is Some ==> {
            let lanes = packing.occupied[branches[b].visual.order_group as int];
            &&& has_range(branches[b])
            &&& lanes[packing.lanes[b]->0 as int].contains(
                (first_position(branches[b]), last_position(branches[b], commits)),
            )
        }
    &&& lanes_used(branches, packing.lanes, lane_counts(packing.occupied))
    &&& forall|k: int| 0 <= k < steps ==> packing.lanes[(#[trigger] queue[k]).0 as int] is Some
    &&& forall|k: int|
        steps <= k < queue.len() ==> packing.lanes[(#[trigger] queue[k]).0 as int] is None
    &&& forall|i: int, j: int|
        #![trigger packing.lanes[i], packing.lanes[j]]
        0 <= i < count && 0 <= j < count && i != j && packing.lanes[i] is Some && packing.lanes[i]
            == packing.lanes[j] && branches[i].visual.order_group == branches[j].visual.order_group
            ==> !overlap(branches, commits, i, j)
}

proof fn lemma_place_orderly(
    packing: Packing,
    branches: Seq<BranchState>,
    groups: nat,
    commits: Seq<CommitState>,
    indices: Map<Oid, usize>,
    shortest_first: bool,
    forward: bool,
    steps: int,
)
    requires
        branches.len() <= usize::MAX,
        unplaced(branches, groups),
        0 <= steps < span_queue(branches, commits.len(), shortest_first, forward).len(),
        sound(packing, branches, groups, steps),
        orderly(
            packing,
            branches,
            commits.len(),
            span_queue(branches, commits.len(), shortest_first, forward),
            steps,
        ),
    ensures
        sound(
            packing.place(
                branches,
                commits,
                indices,
                span_queue(branches, commits.len(), shortest_first, forward)[steps],
            ),
            branches,
            groups,
            steps + 1,
        ),
        orderly(
            packing.place(
                branches,
                commits,
                indices,
                span_queue(branches, commits.len(), shortest_first, forward)[steps],
            ),
            branches,
            commits.len(),
            span_queue(branches, commits.len(), shortest_first, forward),
            steps + 1,
        ),
{
    let queue = span_queue(branches, commits.len(), shortest_first, forward);
    let span = queue[steps];
    let (b, start, end) = span;
    let group = branches[b as int].visual.order_group as int;
    let after = packing.place(branches, commits, indices, span);
    let avoid = lane_to_avoid(branches, commits, indices, packing.lanes, b as int);
    let found = first_fit(packing.occupied[group], start, end, avoid, 0);
    lemma_span_queue(branches, commits.len(), shortest_first, forward);
    lemma_ranged(branches, branches.len());
    assert(branches[b as int].visual.column is None);
    lemma_place_sound(packing, branches, groups, commits, indices, span, steps);
    lemma_first_fit(packing.occupied[group], start, end, avoid, 0);
    lemma_lanes_used(
        branches,
        packing.lanes,
        lane_counts(packing.occupied),
        lane_counts(after.occupied),
        b as int,
        found as usize,
    );
    assert forall|i: int| 0 <= i < branches.len() && (#[trigger] after.lanes[i]) is Some implies {
        let lanes = after.occupied[branches[i].visual.order_group as int];
        &&& has_range(branches[i])
        &&& lanes[after.lanes[i]->0 as int].contains(
            (first_position(branches[i]), last_position(branches[i], commits.len())),
        )
    } by {
        let lanes = after.occupied[branches[i].visual.order_group as int];
        let own = (first_position(branches[i]), last_position(branches[i], commits.len()));
        let lane = lanes[after.lanes[i]->0 as int];
        if i == b {
            assert(lane[lane.len() - 1] == own);
        } else {
            assert(after.lanes[i] == packing.lanes[i]);
            let old_lanes = packing.occupied[branches[i].visual.order_group as int];
            let old_lane = old_lanes[packing.lanes[i]->0 as int];
            let at = choose|at: int| 0 <= at < old_lane.len() && old_lane[at] == own;
            assert(lane[at] == own);
        }
    }
    assert forall|k: int| 0 <= k < steps + 1 implies after.lanes[(
    #[trigger] queue[k]).0 as int] is Some by {
        if k < steps {
            assert(queue[k].0 != queue[steps].0);
        }
    }
    assert forall|k: int| steps + 1 <= k < queue.len() implies after.lanes[(
    #[trigger] queue[k]).0 as int] is None by {
        assert(queue[k].0 != queue[steps].0);
    }
    assert forall|i: int, j: int|
        #![trigger after.lanes[i], after.lanes[j]]
        0 <= i < branches.len() && 0 <= j < branches.len() && i != j && after.lanes[i] is Some
            && after.lanes[i] == after.lanes[j] && branches[i].visual.order_group
            == branches[j].visual.order_group implies !overlap(branches, commits.len(), i, j) by {
        if i == b || j == b {
            let other = if i == b {
                j
            } else {
                i
            };
            assert(packing.lanes[other] == Some(found as usize));
            let own = (
                first_position(branches[other]),
                last_position(branches[other], commits.len()),
            );
            let lane = packing.occupied[group][found];
            let at = choose|at: int| 0 <= at < lane.len() && lane[at] == own;
            assert(!taken(lane, start, end));
            assert(!(start <= lane[at].1 && end >= lane[at].0));
        } else {
            assert(packing.lanes[i] == after.lanes[i]);
            assert(packing.lanes[j] == after.lanes[j]);
        }
    }
}

proof fn lemma_packed(
    branches: Seq<BranchState>,
    groups: nat,
    commits: Seq<CommitState>,
    indices: Map<Oid, usize>,
    shortest_first: bool,
    forward: bool,
    steps: int,
)
    requires
        branches.len() <= usize::MAX,
        unplaced(branches, groups),
        0 <= steps <= span_queue(branches, commits.len(), shortest_first, forward).len(),
    ensures
        sound(
            packed(
                branches,
                groups,
                commits,
                indices,
                span_queue(branches, commits.len(), shortest_first, forward),
                steps,
            ),
            branches,
            groups,
            steps,
        ),
        orderly(
            packed(
                branches,
                groups,
                commits,
                indices,
                span_queue(branches, commits.len(), shortest_first, forward),
                steps,
            ),
            branches,
            commits.len(),
            span_queue(branches, commits.len(), shortest_first, forward),
            steps,
        ),
    decreases steps,
{
    let queue = span_queue(branches, commits.len(), shortest_first, forward);
    if steps == 0 {
        let packing = packed(branches, groups, commits, indices, queue, steps);
        lemma_start_sound(branches, groups);
        lemma_span_queue(branches, commits.len(), shortest_first, forward);
        assert forall|i: int| 0 <= i < branches.len() implies (
        #[trigger] packing.lanes[i]) is None by {
            assert(branches[i].visual.column is None);
        }
    } else {
        lemma_packed(
            branches,
            groups,
            commits,
            indices,
            shortest_first,
            forward,
            steps - 1,
        );
        lemma_place_orderly(
            packed(branches, groups, commits, indices, queue, steps - 1),
            branches,
            groups,
            commits,
            indices,
            shortest_first,
            forward,
            steps - 1,
        );
    }
}

/// Branches without columns can get columns, if it can be told what they were merged into.
pub proof fn lemma_placeable_by_length(
    branches: Seq<BranchState>,
    groups: nat,
    commits: Seq<CommitState>,
    indices: Map<Oid, usize>,
    shortest_first: bool,
    forward: bool,
)
    requires
        branches.len() <= usize::MAX,
        unplaced(branches, groups),
        merges_found(branches, commits, indices),
    ensures
        placeable_by_length(branches, groups, commits, indices, shortest_first, forward),
{
    let queue = span_queue(branches, commits.len(), shortest_first, forward);
    let packing = packed(branches, groups, commits, indices, queue, queue.len() as int);
    lemma_packed(
        branches,
        groups,
        commits,
        indices,
        shortest_first,
        forward,
        queue.len() as int,
    );
    lemma_never_lost(
        branches,
        groups,
        commits,
        indices,
        shortest_first,
        forward,
        queue.len() as int,
    );
    lemma_span_queue(branches, commits.len(), shortest_first, forward);
    lemma_ranged(branches, branches.len());
    lemma_shiftable(branches, packing.lanes, lane_counts(packing.occupied));
}

proof fn lemma_never_lost(
    branches: Seq<BranchState>,
    groups: nat,
    commits: Seq<CommitState>,
    indices: Map<Oid, usize>,
    shortest_first: bool,
    forward: bool,
    steps: int,
)
    requires
        branches.len() <= usize::MAX,
        merges_found(branches, commits, indices),
        0 <= steps <= span_queue(branches, commits.len(), shortest_first, forward).len(),
    ensures
        !packed(
            branches,
            groups,
            commits,
            indices,
            span_queue(branches, commits.len(), shortest_first, forward),
            steps,
        ).lost,
    decreases steps,
{
    if steps > 0 {
        let queue = span_queue(branches, commits.len(), shortest_first, forward);
        lemma_span_queue(branches, commits.len(), shortest_first, forward);
        lemma_never_lost(
            branches,
            groups,
            commits,
            indices,
            shortest_first,
            forward,
            steps - 1,
        );
        assert(has_range(branches[queue[steps - 1].0 as int]));
    }
}

/// Scheduling by length leaves no overlaps: two branches that it gives the same column have no
/// position in common. It keeps the groups apart, in their order, and gives a column to every
/// branch that has positions, and to no other.
pub proof fn law_length_free_of_overlaps(
    branches: Seq<BranchState>,
    groups: nat,
    commits: Seq<CommitState>,
    indices: Map<Oid, usize>,
    shortest_first: bool,
    forward: bool,
)
    requires
        branches.len() <= usize::MAX,
        unplaced(branches, groups),
    ensures
        free_of_overlaps(
            branches,
            commits.len(),
            length_columns(branches, groups, commits, indices, shortest_first, forward),
        ),
        groups_in_order(
            branches,
            length_columns(branches, groups, commits, indices, shortest_first, forward),
        ),
        forall|i: int|
            0 <= i < branches.len() ==> ((#[trigger] length_columns(
                branches,
                groups,
                commits,
                indices,
                shortest_first,
                forward,
            )[i]) is Some <==> has_range(branches[i])),
{
    let queue = span_queue(branches, commits.len(), shortest_first, forward);
    let packing = packed(branches, groups, commits, indices, queue, queue.len() as int);
    let counts = lane_counts(packing.occupied);
    let columns = length_columns(branches, groups, commits, indices, shortest_first, forward);
    lemma_packed(
        branches,
        groups,
        commits,
        indices,
        shortest_first,
        forward,
        queue.len() as int,
    );
    lemma_span_queue(branches, commits.len(), shortest_first, forward);
    lemma_ranged(branches, branches.len());
    lemma_groups_in_order(branches, packing.lanes, counts);
    assert forall|i: int, j: int|
        #![trigger columns[i], columns[j]]
        0 <= i < branches.len() && 0 <= j < branches.len() && i != j && columns[i] is Some
            && columns[i] == columns[j] implies !overlap(branches, commits.len(), i, j) by {
        lemma_same_column(branches, packing.lanes, counts, i, j);
        assert(packing.lanes[i] is Some);
    }
    assert forall|i: int| 0 <= i < branches.len() implies ((#[trigger] columns[i]) is Some
        <==> has_range(branches[i])) by {
        if has_range(branches[i]) {
            let numbers = ranged(branches, branches.len());
            let keys = span_keys(spans(branches, commits.len()), shortest_first, forward);
            lemma_stable_order(keys);
            let n = choose|n: int| 0 <= n < numbers.len() && numbers[n] == i as usize;
            lemma_stable_order_complete(keys, stable_order(keys), n);
            let k = choose|k: int| 0 <= k < stable_order(keys).len() && stable_order(keys)[k] == n;
            assert(queue[k].0 == i as usize);
        } else {
            assert(packing.lanes[i] is None);
        }
    }
}

/// Scheduling by length leaves no column empty: those in use are all below some number.
pub proof fn law_length_leaves_no_gaps(
    branches: Seq<BranchState>,
    groups: nat,
    commits: Seq<CommitState>,
    indices: Map<Oid, usize>,
    shortest_first: bool,
    forward: bool,
)
    requires
        branches.len() <= usize::MAX,
        unplaced(branches, groups),
    ensures
        length_columns(branches, groups, commits, indices, shortest_first, forward).len()
            == branches.len(),
        exists|n: nat| #[trigger]
            fills(
                length_columns(branches, groups, commits, indices, shortest_first, forward),
                n,
            ),
{
    let queue = span_queue(branches, commits.len(), shortest_first, forward);
    let steps = queue.len() as int;
    let packing = packed(branches, groups, commits, indices, queue, steps);
    lemma_packed(branches, groups, commits, indices, shortest_first, forward, steps);
    lemma_span_queue(branches, commits.len(), shortest_first, forward);
    lemma_ranged(branches, branches.len());
    let counts = lane_counts(packing.occupied);
    lemma_fills(branches, packing.lanes, counts);
    assert(fills(
        length_columns(branches, groups, commits, indices, shortest_first, forward),
        lanes_before(counts, counts.len() as int),
    ));
}

proof fn lemma_packed_keeps_lanes(
    branches: Seq<BranchState>,
    groups: nat,
    commits: Seq<CommitState>,
    indices: Map<Oid, usize>,
    shortest_first: bool,
    forward: bool,
    k: int,
    steps: int,
)
    requires
        branches.len() <= usize::MAX,
        unplaced(branches, groups),
        0 <= k < steps <= span_queue(branches, commits.len(), shortest_first, forward).len(),
    ensures
        ({
            let queue = span_queue(branches, commits.len(), shortest_first, forward);
            packed(branches, groups, commits, indices, queue, steps).lanes[queue[k].0 as int]
                == packed(branches, groups, commits, indices, queue, k + 1).lanes[queue[k].0 as int]
        }),
    decreases steps,
{
    if k + 1 < steps {
        let queue = span_queue(branches, commits.len(), shortest_first, forward);
        lemma_span_queue(branches, commits.len(), shortest_first, forward);
        lemma_packed(branches, groups, commits, indices, shortest_first, forward, steps - 1);
        lemma_packed_keeps_lanes(
            branches,
            groups,
            commits,
            indices,
            shortest_first,
            forward,
            k,
            steps - 1,
        );
        assert(queue[k].0 != queue[steps - 1].0);
    }
}

/// A branch does not stand in line with the branch that it was merged into, where that was put
/// into a lane before it.
pub proof fn law_length_keeps_merges_apart(
    branches: Seq<BranchState>,
    groups: nat,
    commits: Seq<CommitState>,
    indices: Map<Oid, usize>,
    shortest_first: bool,
    forward: bool,
    k: int,
    l: int,
)
    requires
        branches.len() <= usize::MAX,
        unplaced(branches, groups),
        0 <= k < l < span_queue(branches, commits.len(), shortest_first, forward).len(),
        merged_into(
            branches[span_queue(branches, commits.len(), shortest_first, forward)[l].0 as int],
            commits,
            indices,
        ) == Some(span_queue(branches, commits.len(), shortest_first, forward)[k].0),
    ensures
        ({
            let queue = span_queue(branches, commits.len(), shortest_first, forward);
            let columns = length_columns(
                branches,
                groups,
                commits,
                indices,
                shortest_first,
                forward,
            );
            columns[queue[k].0 as int] != columns[queue[l].0 as int]
        }),
{
    let queue = span_queue(branches, commits.len(), shortest_first, forward);
    let steps = queue.len() as int;
    let packing = packed(branches, groups, commits, indices, queue, steps);
    let counts = lane_counts(packing.occupied);
    let columns = length_columns(branches, groups, commits, indices, shortest_first, forward);
    let other = queue[k].0 as int;
    let b = queue[l].0 as int;
    lemma_span_queue(branches, commits.len(), shortest_first, forward);
    lemma_ranged(branches, branches.len());
    lemma_packed(branches, groups, commits, indices, shortest_first, forward, steps);
    lemma_packed(branches, groups, commits, indices, shortest_first, forward, l);
    assert(packing.lanes[b] is Some && packing.lanes[other] is Some);
    if columns[other] == columns[b] {
        let before = packed(branches, groups, commits, indices, queue, l);
        let group = branches[b].visual.order_group as int;
        lemma_same_column(branches, packing.lanes, counts, other, b);
        lemma_packed_keeps_lanes(
            branches,
            groups,
            commits,
            indices,
            shortest_first,
            forward,
            k,
            steps,
        );
        lemma_packed_keeps_lanes(
            branches,
            groups,
            commits,
            indices,
            shortest_first,
            forward,
            k,
            l,
        );
        lemma_packed_keeps_lanes(
            branches,
            groups,
            commits,
            indices,
            shortest_first,
            forward,
            l,
            steps,
        );
        assert(before.lanes[other] == packing.lanes[other]);
        assert(branches[b].visual.column is None);
        lemma_place_sound(before, branches, groups, commits, indices, queue[l], l);
        lemma_first_fit(
            before.occupied[group],
            queue[l].1,
            queue[l].2,
            before.lanes[other],
            0,
        );
        assert(false);
    }
}

/// Whether the branch of span `l` of the queue was put into a lane before that of span `k`, into
/// the lane `lane` of the same group.
spec fn is_earlier(
    lanes: Seq<Option<usize>>,
    branches: Seq<BranchState>,
    queue: Seq<(usize, usize, usize)>,
    k: int,
    lane: int,
    l: int,
) -> bool {
    &&& 0 <= l < k
    &&& branches[queue[l].0 as int].visual.order_group
        == branches[queue[k].0 as int].visual.order_group
    &&& lanes[queue[l].0 as int] == Some(lane as usize)
}

/// Whether lane `lane` was not for the branch of span `k` of the queue: a branch in it has a
/// position in common with it, or it was merged into one.
spec fn is_refused(
    lanes: Seq<Option<usize>>,
    branches: Seq<BranchState>,
    commits: Seq<CommitState>,
    indices: Map<Oid, usize>,
    queue: Seq<(usize, usize, usize)>,
    k: int,
    lane: int,
) -> bool {
    exists|l: int| #[trigger]
        is_earlier(lanes, branches, queue, k, lane, l) && (overlap(
            branches,
            commits.len(),
            queue[l].0 as int,
            queue[k].0 as int,
        ) || merged_into(branches[queue[k].0 as int], commits, indices) == Some(queue[l].0))
}

/// Whether the branch of span `k` of the queue was kept out of the lane `lane`, which was free, for
/// the sake of the branch that it was merged into.
spec fn is_kept_out(
    lanes: Seq<Option<usize>>,
    branches: Seq<BranchState>,
    commits: Seq<CommitState>,
    indices: Map<Oid, usize>,
    queue: Seq<(usize, usize, usize)>,
    k: int,
) -> bool {
    exists|l: int|
        #![trigger queue[l]]
        0 <= l < k && {
            let (m, b) = (queue[l].0 as int, queue[k].0 as int);
            &&& merged_into(branches[b], commits, indices) == Some(queue[l].0)
            &&& branches[m].visual.order_group == branches[b].visual.order_group
            &&& lanes[m]->0 < lanes[b]->0
            &&& forall|e: int| #[trigger]
                is_earlier(lanes, branches, queue, k, lanes[m]->0 as int, e) ==> !overlap(
                    branches,
                    commits.len(),
                    queue[e].0 as int,
                    b,
                )
        }
}

/// Whether a span is that of a branch in lane `lane` of group `group`, among the first `steps`
/// spans of the queue.
spec fn is_span_in(
    lanes: Seq<Option<usize>>,
    branches: Seq<BranchState>,
    queue: Seq<(usize, usize, usize)>,
    steps: int,
    group: int,
    lane: int,
    span: (usize, usize),
) -> bool {
    exists|l: int|
        0 <= l < steps && {
            let b = (#[trigger] queue[l]).0 as int;
            &&& branches[b].visual.order_group == group
            &&& lanes[b] == Some(lane as usize)
            &&& span == (queue[l].1, queue[l].2)
        }
}

/// Whether each lane holds only spans of the branches in it, after `steps` spans of the queue.
spec fn holds_spans(
    packing: Packing,
    branches: Seq<BranchState>,
    queue: Seq<(usize, usize, usize)>,
    steps: int,
) -> bool {
    forall|group: int, lane: int, at: int|
        #![trigger packing.occupied[group][lane][at]]
        0 <= group < packing.occupied.len() && 0 <= lane < packing.occupied[group].len() && 0 <= at
            < packing.occupied[group][lane].len() ==> is_span_in(
            packing.lanes,
            branches,
            queue,
            steps,
            group,
            lane,
            packing.occupied[group][lane][at],
        )
}

/// Whether each branch stands in the first lane that was for it, after `steps` spans of the queue.
spec fn stands_first(
    lanes: Seq<Option<usize>>,
    branches: Seq<BranchState>,
    commits: Seq<CommitState>,
    indices: Map<Oid, usize>,
    queue: Seq<(usize, usize, usize)>,
    steps: int,
) -> bool {
    forall|k: int, lane: int|
        0 <= k < steps && 0 <= lane < lanes[queue[k].0 as int]->0 ==> #[trigger] is_refused(
            lanes,
            branches,
            commits,
            indices,
            queue,
            k,
            lane,
        )
}

/// Whether branches come in the queue in this order, among the first `steps` spans.
spec fn come_in_order(
    queue: Seq<(usize, usize, usize)>,
    steps: int,
    branch: usize,
    other: usize,
) -> bool {
    exists|k: int, l: int|
        #![trigger queue[k], queue[l]]
        0 <= k < l < steps && queue[k].0 == branch && queue[l].0 == other
}

/// Whether the branches that were kept out of a lane are listed in order, and no others, after
/// `steps` spans of the queue.
spec fn lists_displaced(
    packing: Packing,
    branches: Seq<BranchState>,
    commits: Seq<CommitState>,
    indices: Map<Oid, usize>,
    queue: Seq<(usize, usize, usize)>,
    steps: int,
) -> bool {
    &&& forall|k: int|
        #![trigger queue[k]]
        0 <= k < steps ==> (packing.displaced.contains(queue[k].0) <==> is_kept_out(
            packing.lanes,
            branches,
            commits,
            indices,
            queue,
            k,
        ))
    &&& forall|d: int|
        #![trigger packing.displaced[d]]
        0 <= d < packing.displaced.len() ==> exists|k: int|
            0 <= k < steps && (#[trigger] queue[k]).0 == packing.displaced[d]
    &&& forall|d: int, e: int|
        #![trigger packing.displaced[d], packing.displaced[e]]
        0 <= d < e < packing.displaced.len() ==> come_in_order(
            queue,
            steps,
            packing.displaced[d],
            packing.displaced[e],
        )
}

/// Lanes of branches that have them already do not tell on what was refused to others before.
proof fn lemma_refused_stays(
    before: Seq<Option<usize>>,
    after: Seq<Option<usize>>,
    branches: Seq<BranchState>,
    commits: Seq<CommitState>,
    indices: Map<Oid, usize>,
    queue: Seq<(usize, usize, usize)>,
    k: int,
)
    requires
        forall|l: int| 0 <= l <= k ==> after[(#[trigger] queue[l]).0 as int] == before[queue[l].0 as int],
    ensures
        forall|lane: int| #[trigger]
            is_refused(before, branches, commits, indices, queue, k, lane) ==> is_refused(
                after,
                branches,
                commits,
                indices,
                queue,
                k,
                lane,
            ),
        0 <= k ==> (is_kept_out(before, branches, commits, indices, queue, k) <==> is_kept_out(
            after,
            branches,
            commits,
            indices,
            queue,
            k,
        )),
{
    assert forall|lane: int, l: int| #[trigger]
        is_earlier(before, branches, queue, k, lane, l) <==> is_earlier(
            after,
            branches,
            queue,
            k,
            lane,
            l,
        ) by {
        if 0 <= l < k {
            assert(after[queue[l].0 as int] == before[queue[l].0 as int]);
        }
    }
    assert forall|lane: int| #[trigger]
        is_refused(before, branches, commits, indices, queue, k, lane) implies is_refused(
        after,
        branches,
        commits,
        indices,
        queue,
        k,
        lane,
    ) by {
        let l = choose|l: int| #[trigger]
            is_earlier(before, branches, queue, k, lane, l) && (overlap(
                branches,
                commits.len(),
                queue[l].0 as int,
                queue[k].0 as int,
            ) || merged_into(branches[queue[k].0 as int], commits, indices) == Some(queue[l].0));
        assert(is_earlier(after, branches, queue, k, lane, l));
    }
    if 0 <= k {
        assert(after[queue[k].0 as int] == before[queue[k].0 as int]);
        if is_kept_out(before, branches, commits, indices, queue, k) {
            lemma_kept_out_stays(before, after, branches, commits, indices, queue, k);
        }
        if is_kept_out(after, branches, commits, indices, queue, k) {
            lemma_kept_out_stays(after, before, branches, commits, indices, queue, k);
        }
    }
}

proof fn lemma_kept_out_stays(
    before: Seq<Option<usize>>,
    after: Seq<Option<usize>>,
    branches: Seq<BranchState>,
    commits: Seq<CommitState>,
    indices: Map<Oid, usize>,
    queue: Seq<(usize, usize, usize)>,
    k: int,
)
    requires
        0 <= k,
        forall|l: int| 0 <= l <= k ==> after[(#[trigger] queue[l]).0 as int] == before[queue[l].0 as int],
        is_kept_out(before, branches, commits, indices, queue, k),
    ensures
        is_kept_out(after, branches, commits, indices, queue, k),
{
    let b = queue[k].0 as int;
    let l = choose|l: int|
        #![trigger queue[l]]
        0 <= l < k && {
            let m = queue[l].0 as int;
            &&& merged_into(branches[b], commits, indices) == Some(queue[l].0)
            &&& branches[m].visual.order_group == branches[b].visual.order_group
            &&& before[m]->0 < before[b]->0
            &&& forall|e: int| #[trigger]
                is_earlier(before, branches, queue, k, before[m]->0 as int, e) ==> !overlap(
                    branches,
                    commits.len(),
                    queue[e].0 as int,
                    b,
                )
        };
    let m = queue[l].0 as int;
    assert(after[m] == before[m]);
    assert(after[b] == before[b]);
    assert forall|e: int| #[trigger]
        is_earlier(after, branches, queue, k, after[m]->0 as int, e) implies !overlap(
        branches,
        commits.len(),
        queue[e].0 as int,
        b,
    ) by {
        assert(after[queue[e].0 as int] == before[queue[e].0 as int]);
        assert(is_earlier(before, branches, queue, k, before[m]->0 as int, e));
    }
    assert(queue[l].0 == m);
}

/// Each branch with positions has a span in the queue.
proof fn lemma_has_span(
    branches: Seq<BranchState>,
    commits: nat,
    shortest_first: bool,
    forward: bool,
    b: int,
) -> (k: int)
    requires
        branches.len() <= usize::MAX,
        0 <= b < branches.len(),
        has_range(branches[b]),
    ensures
        0 <= k < span_queue(branches, commits, shortest_first, forward).len(),
        span_queue(branches, commits, shortest_first, forward)[k].0 == b,
{
    let numbers = ranged(branches, branches.len());
    let keys = span_keys(spans(branches, commits), shortest_first, forward);
    lemma_ranged(branches, branches.len());
    lemma_stable_order(keys);
    let n = choose|n: int| 0 <= n < numbers.len() && numbers[n] == b as usize;
    lemma_stable_order_complete(keys, stable_order(keys), n);
    choose|k: int| 0 <= k < stable_order(keys).len() && stable_order(keys)[k] == n
}

/// A lane is taken where a branch in it has a position in common with the next one.
proof fn lemma_taken(
    packing: Packing,
    branches: Seq<BranchState>,
    groups: nat,
    commits: Seq<CommitState>,
    shortest_first: bool,
    forward: bool,
    steps: int,
    after: Seq<Option<usize>>,
    lane: int,
)
    requires
        branches.len() <= usize::MAX,
        unplaced(branches, groups),
        0 <= steps < span_queue(branches, commits.len(), shortest_first, forward).len(),
        sound(packing, branches, groups, steps),
        orderly(
            packing,
            branches,
            commits.len(),
            span_queue(branches, commits.len(), shortest_first, forward),
            steps,
        ),
        holds_spans(
            packing,
            branches,
            span_queue(branches, commits.len(), shortest_first, forward),
            steps,
        ),
        forall|l: int|
            0 <= l < steps ==> after[(#[trigger] span_queue(
                branches,
                commits.len(),
                shortest_first,
                forward,
            )[l]).0 as int] == packing.lanes[span_queue(
                branches,
                commits.len(),
                shortest_first,
                forward,
            )[l].0 as int],
        0 <= lane < packing.occupied[branches[span_queue(
            branches,
            commits.len(),
            shortest_first,
            forward,
        )[steps].0 as int].visual.order_group as int].len(),
    ensures
        ({
            let queue = span_queue(branches, commits.len(), shortest_first, forward);
            let (b, start, end) = queue[steps];
            let group = branches[b as int].visual.order_group as int;
            taken(packing.occupied[group][lane], start, end) <==> exists|e: int| #[trigger]
                is_earlier(after, branches, queue, steps, lane, e) && overlap(
                    branches,
                    commits.len(),
                    queue[e].0 as int,
                    b as int,
                )
        }),
{
    let queue = span_queue(branches, commits.len(), shortest_first, forward);
    let (b, start, end) = queue[steps];
    let group = branches[b as int].visual.order_group as int;
    let spans_in = packing.occupied[group][lane];
    lemma_span_queue(branches, commits.len(), shortest_first, forward);
    lemma_ranged(branches, branches.len());
    let counts = lane_counts(packing.occupied);
    assert(has_range(branches[b as int]));
    lemma_lanes_before_monotonic(counts, group, group + 1);
    lemma_lanes_before_monotonic(counts, group + 1, groups as int);
    assert(counts[group] == packing.occupied[group].len());
    assert(lane <= usize::MAX);
    if taken(spans_in, start, end) {
        let at = choose|at: int|
            0 <= at < spans_in.len() && start <= (#[trigger] spans_in[at]).1 && end
                >= spans_in[at].0;
        assert(packing.occupied[group][lane][at] == spans_in[at]);
        let l = choose|l: int|
            0 <= l < steps && {
                let a = (#[trigger] queue[l]).0 as int;
                &&& branches[a].visual.order_group == group
                &&& packing.lanes[a] == Some(lane as usize)
                &&& packing.occupied[group][lane][at] == (queue[l].1, queue[l].2)
            };
        assert(is_earlier(after, branches, queue, steps, lane, l));
    }
    if exists|e: int| #[trigger]
        is_earlier(after, branches, queue, steps, lane, e) && overlap(
            branches,
            commits.len(),
            queue[e].0 as int,
            b as int,
        ) {
        let e = choose|e: int| #[trigger]
            is_earlier(after, branches, queue, steps, lane, e) && overlap(
                branches,
                commits.len(),
                queue[e].0 as int,
                b as int,
            );
        let a = queue[e].0 as int;
        assert(packing.lanes[a] == Some(lane as usize));
        let own = (first_position(branches[a]), last_position(branches[a], commits.len()));
        assert(spans_in.contains(own));
        let at = choose|at: int| 0 <= at < spans_in.len() && spans_in[at] == own;
        assert(start <= spans_in[at].1 && end >= spans_in[at].0);
    }
}

/// The branches placed before keep their lanes when one more is placed.
proof fn lemma_place_keeps(
    packing: Packing,
    branches: Seq<BranchState>,
    commits: Seq<CommitState>,
    indices: Map<Oid, usize>,
    shortest_first: bool,
    forward: bool,
    steps: int,
)
    requires
        branches.len() <= usize::MAX,
        packing.lanes.len() == branches.len(),
        0 <= steps < span_queue(branches, commits.len(), shortest_first, forward).len(),
    ensures
        ({
            let queue = span_queue(branches, commits.len(), shortest_first, forward);
            let after = packing.place(branches, commits, indices, queue[steps]);
            forall|l: int|
                0 <= l < steps ==> after.lanes[(#[trigger] queue[l]).0 as int]
                    == packing.lanes[queue[l].0 as int]
        }),
{
    let queue = span_queue(branches, commits.len(), shortest_first, forward);
    let after = packing.place(branches, commits, indices, queue[steps]);
    lemma_span_queue(branches, commits.len(), shortest_first, forward);
    assert forall|l: int| 0 <= l < steps implies after.lanes[(#[trigger] queue[l]).0 as int]
        == packing.lanes[queue[l].0 as int] by {
        assert(queue[l].0 != queue[steps].0);
    }
}

/// The span of the branch into whose lane the next one does not go.
proof fn lemma_avoided(
    packing: Packing,
    branches: Seq<BranchState>,
    groups: nat,
    commits: Seq<CommitState>,
    indices: Map<Oid, usize>,
    shortest_first: bool,
    forward: bool,
    steps: int,
) -> (l: int)
    requires
        branches.len() <= usize::MAX,
        0 <= steps < span_queue(branches, commits.len(), shortest_first, forward).len(),
        sound(packing, branches, groups, steps),
        orderly(
            packing,
            branches,
            commits.len(),
            span_queue(branches, commits.len(), shortest_first, forward),
            steps,
        ),
        lane_to_avoid(
            branches,
            commits,
            indices,
            packing.lanes,
            span_queue(branches, commits.len(), shortest_first, forward)[steps].0 as int,
        ) is Some,
    ensures
        ({
            let queue = span_queue(branches, commits.len(), shortest_first, forward);
            let b = queue[steps].0 as int;
            &&& 0 <= l < steps
            &&& merged_into(branches[b], commits, indices) == Some(queue[l].0)
            &&& branches[queue[l].0 as int].visual.order_group == branches[b].visual.order_group
            &&& packing.lanes[queue[l].0 as int] == lane_to_avoid(
                branches,
                commits,
                indices,
                packing.lanes,
                b,
            )
        }),
{
    let queue = span_queue(branches, commits.len(), shortest_first, forward);
    let other = merged_into(branches[queue[steps].0 as int], commits, indices)->0;
    assert(packing.lanes[other as int] is Some);
    let l = lemma_has_span(branches, commits.len(), shortest_first, forward, other as int);
    assert(queue[l].0 == other);
    if l >= steps {
        assert(packing.lanes[queue[l].0 as int] is None);
    }
    l
}

proof fn lemma_place_spans(
    packing: Packing,
    branches: Seq<BranchState>,
    groups: nat,
    commits: Seq<CommitState>,
    indices: Map<Oid, usize>,
    shortest_first: bool,
    forward: bool,
    steps: int,
)
    requires
        branches.len() <= usize::MAX,
        unplaced(branches, groups),
        0 <= steps < span_queue(branches, commits.len(), shortest_first, forward).len(),
        sound(packing, branches, groups, steps),
        orderly(
            packing,
            branches,
            commits.len(),
            span_queue(branches, commits.len(), shortest_first, forward),
            steps,
        ),
        holds_spans(
            packing,
            branches,
            span_queue(branches, commits.len(), shortest_first, forward),
            steps,
        ),
    ensures
        holds_spans(
            packing.place(
                branches,
                commits,
                indices,
                span_queue(branches, commits.len(), shortest_first, forward)[steps],
            ),
            branches,
            span_queue(branches, commits.len(), shortest_first, forward),
            steps + 1,
        ),
{
    let queue = span_queue(branches, commits.len(), shortest_first, forward);
    let span = queue[steps];
    let (b, start, end) = span;
    let group = branches[b as int].visual.order_group as int;
    let lanes = packing.occupied[group];
    let after = packing.place(branches, commits, indices, span);
    let avoid = lane_to_avoid(branches, commits, indices, packing.lanes, b as int);
    let found = first_fit(lanes, start, end, avoid, 0);
    lemma_span_queue(branches, commits.len(), shortest_first, forward);
    lemma_ranged(branches, branches.len());
    assert(has_range(branches[b as int]));
    lemma_place_sound(packing, branches, groups, commits, indices, span, steps);
    lemma_first_fit(lanes, start, end, avoid, 0);
    lemma_place_keeps(packing, branches, commits, indices, shortest_first, forward, steps);
    assert forall|g: int, lane: int, at: int|
        #![trigger after.occupied[g][lane][at]]
        0 <= g < after.occupied.len() && 0 <= lane < after.occupied[g].len() && 0 <= at
            < after.occupied[g][lane].len() implies is_span_in(
        after.lanes,
        branches,
        queue,
        steps + 1,
        g,
        lane,
        after.occupied[g][lane][at],
    ) by {
        if g == group && lane == found && (found >= lanes.len() || at >= lanes[found].len()) {
            assert(queue[steps] == span);
            assert(after.occupied[g][lane][at] == (start, end));
        } else {
            assert(after.occupied[g][lane][at] == packing.occupied[g][lane][at]);
            let l = choose|l: int|
                0 <= l < steps && {
                    let a = (#[trigger] queue[l]).0 as int;
                    &&& branches[a].visual.order_group == g
                    &&& packing.lanes[a] == Some(lane as usize)
                    &&& packing.occupied[g][lane][at] == (queue[l].1, queue[l].2)
                };
            assert(after.lanes[queue[l].0 as int] == packing.lanes[queue[l].0 as int]);
        }
    }
}

proof fn lemma_place_first(
    packing: Packing,
    branches: Seq<BranchState>,
    groups: nat,
    commits: Seq<CommitState>,
    indices: Map<Oid, usize>,
    shortest_first: bool,
    forward: bool,
    steps: int,
)
    requires
        branches.len() <= usize::MAX,
        unplaced(branches, groups),
        0 <= steps < span_queue(branches, commits.len(), shortest_first, forward).len(),
        sound(packing, branches, groups, steps),
        orderly(
            packing,
            branches,
            commits.len(),
            span_queue(branches, commits.len(), shortest_first, forward),
            steps,
        ),
        holds_spans(
            packing,
            branches,
            span_queue(branches, commits.len(), shortest_first, forward),
            steps,
        ),
        stands_first(
            packing.lanes,
            branches,
            commits,
            indices,
            span_queue(branches, commits.len(), shortest_first, forward),
            steps,
        ),
    ensures
        stands_first(
            packing.place(
                branches,
                commits,
                indices,
                span_queue(branches, commits.len(), shortest_first, forward)[steps],
            ).lanes,
            branches,
            commits,
            indices,
            span_queue(branches, commits.len(), shortest_first, forward),
            steps + 1,
        ),
{
    let queue = span_queue(branches, commits.len(), shortest_first, forward);
    let span = queue[steps];
    let (b, start, end) = span;
    let group = branches[b as int].visual.order_group as int;
    let lanes = packing.occupied[group];
    let after = packing.place(branches, commits, indices, span);
    let avoid = lane_to_avoid(branches, commits, indices, packing.lanes, b as int);
    let found = first_fit(lanes, start, end, avoid, 0);
    lemma_span_queue(branches, commits.len(), shortest_first, forward);
    lemma_ranged(branches, branches.len());
    assert(has_range(branches[b as int]));
    lemma_place_sound(packing, branches, groups, commits, indices, span, steps);
    lemma_first_fit(lanes, start, end, avoid, 0);
    lemma_place_keeps(packing, branches, commits, indices, shortest_first, forward, steps);
    assert forall|k: int, lane: int|
        0 <= k < steps + 1 && 0 <= lane < after.lanes[queue[k].0 as int]->0 implies #[trigger] is_refused(
        after.lanes,
        branches,
        commits,
        indices,
        queue,
        k,
        lane,
    ) by {
        if k < steps {
            lemma_refused_stays(
                packing.lanes,
                after.lanes,
                branches,
                commits,
                indices,
                queue,
                k,
            );
            assert(is_refused(packing.lanes, branches, commits, indices, queue, k, lane));
        } else {
            assert(lane < found);
            if taken(lanes[lane], start, end) {
                lemma_taken(
                    packing,
                    branches,
                    groups,
                    commits,
                    shortest_first,
                    forward,
                    steps,
                    after.lanes,
                    lane,
                );
                let e = choose|e: int| #[trigger]
                    is_earlier(after.lanes, branches, queue, steps, lane, e) && overlap(
                        branches,
                        commits.len(),
                        queue[e].0 as int,
                        b as int,
                    );
                assert(is_earlier(after.lanes, branches, queue, k, lane, e));
            } else {
                let l = lemma_avoided(
                    packing,
                    branches,
                    groups,
                    commits,
                    indices,
                    shortest_first,
                    forward,
                    steps,
                );
                assert(after.lanes[queue[l].0 as int] == packing.lanes[queue[l].0 as int]);
                assert(is_earlier(after.lanes, branches, queue, k, lane, l));
            }
        }
    }
}

/// The next branch is displaced if and only if it is kept out of a lane.
proof fn lemma_passed(
    packing: Packing,
    branches: Seq<BranchState>,
    groups: nat,
    commits: Seq<CommitState>,
    indices: Map<Oid, usize>,
    shortest_first: bool,
    forward: bool,
    steps: int,
)
    requires
        branches.len() <= usize::MAX,
        unplaced(branches, groups),
        0 <= steps < span_queue(branches, commits.len(), shortest_first, forward).len(),
        sound(packing, branches, groups, steps),
        orderly(
            packing,
            branches,
            commits.len(),
            span_queue(branches, commits.len(), shortest_first, forward),
            steps,
        ),
        holds_spans(
            packing,
            branches,
            span_queue(branches, commits.len(), shortest_first, forward),
            steps,
        ),
    ensures
        ({
            let queue = span_queue(branches, commits.len(), shortest_first, forward);
            let (b, start, end) = queue[steps];
            let lanes = packing.occupied[branches[b as int].visual.order_group as int];
            let avoid = lane_to_avoid(branches, commits, indices, packing.lanes, b as int);
            let found = first_fit(lanes, start, end, avoid, 0);
            (avoid matches Some(lane) && lane < found && !taken(lanes[lane as int], start, end))
                <==> is_kept_out(
                packing.place(branches, commits, indices, queue[steps]).lanes,
                branches,
                commits,
                indices,
                queue,
                steps,
            )
        }),
{
    let queue = span_queue(branches, commits.len(), shortest_first, forward);
    let span = queue[steps];
    let (b, start, end) = span;
    let group = branches[b as int].visual.order_group as int;
    let lanes = packing.occupied[group];
    let after = packing.place(branches, commits, indices, span);
    let avoid = lane_to_avoid(branches, commits, indices, packing.lanes, b as int);
    let found = first_fit(lanes, start, end, avoid, 0);
    lemma_span_queue(branches, commits.len(), shortest_first, forward);
    lemma_ranged(branches, branches.len());
    assert(has_range(branches[b as int]));
    lemma_place_sound(packing, branches, groups, commits, indices, span, steps);
    lemma_first_fit(lanes, start, end, avoid, 0);
    lemma_place_keeps(packing, branches, commits, indices, shortest_first, forward, steps);
    assert(after.lanes[b as int] == Some(found as usize));
    if avoid matches Some(lane) && lane < found && !taken(lanes[lane as int], start, end) {
        let lane = avoid->0 as int;
        let l = lemma_avoided(
            packing,
            branches,
            groups,
            commits,
            indices,
            shortest_first,
            forward,
            steps,
        );
        assert(after.lanes[queue[l].0 as int] == packing.lanes[queue[l].0 as int]);
        lemma_taken(
            packing,
            branches,
            groups,
            commits,
            shortest_first,
            forward,
            steps,
            after.lanes,
            lane,
        );
    }
    if is_kept_out(after.lanes, branches, commits, indices, queue, steps) {
        let l = choose|l: int|
            #![trigger queue[l]]
            0 <= l < steps && {
                let m = queue[l].0 as int;
                &&& merged_into(branches[b as int], commits, indices) == Some(queue[l].0)
                &&& branches[m].visual.order_group == branches[b as int].visual.order_group
                &&& after.lanes[m]->0 < after.lanes[b as int]->0
                &&& forall|e: int| #[trigger]
                    is_earlier(
                        after.lanes,
                        branches,
                        queue,
                        steps,
                        after.lanes[m]->0 as int,
                        e,
                    ) ==> !overlap(branches, commits.len(), queue[e].0 as int, b as int)
            };
        let m = queue[l].0 as int;
        assert(after.lanes[m] == packing.lanes[m]);
        assert(packing.lanes[m] is Some);
        assert(avoid == packing.lanes[m]);
        lemma_taken(
            packing,
            branches,
            groups,
            commits,
            shortest_first,
            forward,
            steps,
            after.lanes,
            packing.lanes[m]->0 as int,
        );
    }
}

proof fn lemma_place_displaced(
    packing: Packing,
    branches: Seq<BranchState>,
    commits: Seq<CommitState>,
    indices: Map<Oid, usize>,
    shortest_first: bool,
    forward: bool,
    steps: int,
)
    requires
        branches.len() <= usize::MAX,
        packing.lanes.len() == branches.len(),
        0 <= steps < span_queue(branches, commits.len(), shortest_first, forward).len(),
        ({
            let queue = span_queue(branches, commits.len(), shortest_first, forward);
            let after = packing.place(branches, commits, indices, queue[steps]);
            after.displaced == if is_kept_out(
                after.lanes,
                branches,
                commits,
                indices,
                queue,
                steps,
            ) {
                packing.displaced.push(queue[steps].0)
            } else {
                packing.displaced
            }
        }),
        lists_displaced(
            packing,
            branches,
            commits,
            indices,
            span_queue(branches, commits.len(), shortest_first, forward),
            steps,
        ),
    ensures
        lists_displaced(
            packing.place(
                branches,
                commits,
                indices,
                span_queue(branches, commits.len(), shortest_first, forward)[steps],
            ),
            branches,
            commits,
            indices,
            span_queue(branches, commits.len(), shortest_first, forward),
            steps + 1,
        ),
{
    let queue = span_queue(branches, commits.len(), shortest_first, forward);
    let b = queue[steps].0;
    let after = packing.place(branches, commits, indices, queue[steps]);
    let passed = is_kept_out(after.lanes, branches, commits, indices, queue, steps);
    lemma_span_queue(branches, commits.len(), shortest_first, forward);
    lemma_place_keeps(packing, branches, commits, indices, shortest_first, forward, steps);
    assert(!packing.displaced.contains(b)) by {
        if packing.displaced.contains(b) {
            let d = choose|d: int| 0 <= d < packing.displaced.len() && packing.displaced[d] == b;
            let k = choose|k: int|
                0 <= k < steps && (#[trigger] queue[k]).0 == packing.displaced[d];
            assert(queue[k].0 != queue[steps].0);
        }
    }
    assert forall|k: int|
        #![trigger queue[k]]
        0 <= k < steps + 1 implies (after.displaced.contains(queue[k].0) <==> is_kept_out(
        after.lanes,
        branches,
        commits,
        indices,
        queue,
        k,
    )) by {
        if k < steps {
            assert(queue[k].0 != queue[steps].0);
            lemma_refused_stays(
                packing.lanes,
                after.lanes,
                branches,
                commits,
                indices,
                queue,
                k,
            );
            if packing.displaced.contains(queue[k].0) {
                let d = choose|d: int|
                    0 <= d < packing.displaced.len() && packing.displaced[d] == queue[k].0;
                assert(after.displaced[d] == queue[k].0);
            }
            if after.displaced.contains(queue[k].0) {
                let d = choose|d: int|
                    0 <= d < after.displaced.len() && after.displaced[d] == queue[k].0;
                assert(packing.displaced[d] == queue[k].0);
            }
        } else if passed {
            assert(after.displaced[packing.displaced.len() as int] == b);
        }
    }
    assert forall|d: int|
        #![trigger after.displaced[d]]
        0 <= d < after.displaced.len() implies exists|k: int|
        0 <= k < steps + 1 && (#[trigger] queue[k]).0 == after.displaced[d] by {
        if d < packing.displaced.len() {
            assert(after.displaced[d] == packing.displaced[d]);
            let k = choose|k: int|
                0 <= k < steps && (#[trigger] queue[k]).0 == packing.displaced[d];
            assert(queue[k].0 == after.displaced[d]);
        } else {
            assert(queue[steps].0 == after.displaced[d]);
        }
    }
    assert forall|d: int, e: int|
        #![trigger after.displaced[d], after.displaced[e]]
        0 <= d < e < after.displaced.len() implies come_in_order(
        queue,
        steps + 1,
        after.displaced[d],
        after.displaced[e],
    ) by {
        assert(after.displaced[d] == packing.displaced[d]);
        if e < packing.displaced.len() {
            assert(after.displaced[e] == packing.displaced[e]);
            assert(come_in_order(queue, steps, packing.displaced[d], packing.displaced[e]));
        } else {
            let k = choose|k: int|
                0 <= k < steps && (#[trigger] queue[k]).0 == packing.displaced[d];
            assert(queue[k].0 == after.displaced[d] && queue[steps].0 == after.displaced[e]);
        }
    }
}

proof fn lemma_packed_diligent(
    branches: Seq<BranchState>,
    groups: nat,
    commits: Seq<CommitState>,
    indices: Map<Oid, usize>,
    shortest_first: bool,
    forward: bool,
    steps: int,
)
    requires
        branches.len() <= usize::MAX,
        unplaced(branches, groups),
        0 <= steps <= span_queue(branches, commits.len(), shortest_first, forward).len(),
    ensures
        ({
            let queue = span_queue(branches, commits.len(), shortest_first, forward);
            let packing = packed(branches, groups, commits, indices, queue, steps);
            &&& holds_spans(packing, branches, queue, steps)
            &&& stands_first(packing.lanes, branches, commits, indices, queue, steps)
            &&& lists_displaced(packing, branches, commits, indices, queue, steps)
        }),
    decreases steps,
{
    if steps > 0 {
        let queue = span_queue(branches, commits.len(), shortest_first, forward);
        let before = packed(branches, groups, commits, indices, queue, steps - 1);
        let last = steps - 1;
        lemma_packed(branches, groups, commits, indices, shortest_first, forward, last);
        lemma_packed_diligent(branches, groups, commits, indices, shortest_first, forward, last);
        lemma_place_spans(
            before,
            branches,
            groups,
            commits,
            indices,
            shortest_first,
            forward,
            last,
        );
        lemma_place_first(
            before,
            branches,
            groups,
            commits,
            indices,
            shortest_first,
            forward,
            last,
        );
        lemma_passed(
            before,
            branches,
            groups,
            commits,
            indices,
            shortest_first,
            forward,
            last,
        );
        lemma_place_displaced(
            before,
            branches,
            commits,
            indices,
            shortest_first,
            forward,
            last,
        );
    }
}

/// Spans of branches that fit come in the order in which branches are taken by length.
proof fn lemma_queue_order(
    branches: Seq<BranchState>,
    commits: nat,
    shortest_first: bool,
    forward: bool,
    k: int,
    l: int,
)
    requires
        branches.len() <= usize::MAX,
        fits(branches, commits),
        0 <= k < span_queue(branches, commits, shortest_first, forward).len(),
        0 <= l < span_queue(branches, commits, shortest_first, forward).len(),
    ensures
        k < l <==> is_taken_before(
            branches,
            commits,
            shortest_first,
            forward,
            span_queue(branches, commits, shortest_first, forward)[k].0 as int,
            span_queue(branches, commits, shortest_first, forward)[l].0 as int,
        ),
{
    if k < l {
        lemma_queue_ascends(branches, commits, shortest_first, forward, k, l);
    } else if l < k {
        lemma_queue_ascends(branches, commits, shortest_first, forward, l, k);
    }
}

proof fn lemma_queue_ascends(
    branches: Seq<BranchState>,
    commits: nat,
    shortest_first: bool,
    forward: bool,
    k: int,
    l: int,
)
    requires
        branches.len() <= usize::MAX,
        fits(branches, commits),
        0 <= k < l < span_queue(branches, commits, shortest_first, forward).len(),
    ensures
        is_taken_before(
            branches,
            commits,
            shortest_first,
            forward,
            span_queue(branches, commits, shortest_first, forward)[k].0 as int,
            span_queue(branches, commits, shortest_first, forward)[l].0 as int,
        ),
{
    let listed = spans(branches, commits);
    let keys = span_keys(listed, shortest_first, forward);
    let order = stable_order(keys);
    let queue = span_queue(branches, commits, shortest_first, forward);
    let numbers = ranged(branches, branches.len());
    lemma_span_queue(branches, commits, shortest_first, forward);
    lemma_ranged(branches, branches.len());
    lemma_stable_order(keys);
    assert(precedes(keys, order[k], order[l]));
    assert(queue[k] == listed[order[k]]);
    assert(queue[l] == listed[order[l]]);
    let a = branches[queue[k].0 as int];
    let b = branches[queue[l].0 as int];
    assert(has_range(a) && has_range(b));
    assert(queue[k].1 <= i32::MAX && queue[k].2 <= i32::MAX);
    assert(queue[l].1 <= i32::MAX && queue[l].2 <= i32::MAX);
    if order[k] < order[l] {
        assert(numbers[order[k]] < numbers[order[l]]);
    }
}

/// Each lane before that of branch `i` is that of a branch which refuses it.
proof fn lemma_refused_lane(
    branches: Seq<BranchState>,
    groups: nat,
    commits: Seq<CommitState>,
    indices: Map<Oid, usize>,
    shortest_first: bool,
    forward: bool,
    i: int,
    lane: int,
) -> (j: int)
    requires
        branches.len() <= usize::MAX,
        unplaced(branches, groups),
        fits(branches, commits.len()),
        0 <= i < branches.len(),
        has_range(branches[i]),
        0 <= lane < packed_by_length(
            branches,
            groups,
            commits,
            indices,
            shortest_first,
            forward,
        ).lanes[i]->0,
    ensures
        0 <= j < branches.len(),
        packed_by_length(
            branches,
            groups,
            commits,
            indices,
            shortest_first,
            forward,
        ).lanes[j] == Some(lane as usize),
        branches[j].visual.order_group == branches[i].visual.order_group,
        is_taken_before(branches, commits.len(), shortest_first, forward, j, i),
        meet(branches[j], branches[i], commits.len()) || is_merged_into(
            branches,
            commits,
            indices,
            i,
            j,
        ),
{
    let queue = span_queue(branches, commits.len(), shortest_first, forward);
    let steps = queue.len() as int;
    let lanes = packed(branches, groups, commits, indices, queue, steps).lanes;
    let k = lemma_has_span(branches, commits.len(), shortest_first, forward, i);
    assert(is_refused(lanes, branches, commits, indices, queue, k, lane)) by {
        lemma_packed_diligent(
            branches,
            groups,
            commits,
            indices,
            shortest_first,
            forward,
            steps,
        );
    }
    let l = choose|l: int| #[trigger]
        is_earlier(lanes, branches, queue, k, lane, l) && (overlap(
            branches,
            commits.len(),
            queue[l].0 as int,
            queue[k].0 as int,
        ) || merged_into(branches[queue[k].0 as int], commits, indices) == Some(queue[l].0));
    let j = queue[l].0 as int;
    assert(0 <= j < branches.len() && has_range(branches[j])) by {
        lemma_span_queue(branches, commits.len(), shortest_first, forward);
        assert(has_range(branches[queue[l].0 as int]));
    }
    lemma_queue_order(branches, commits.len(), shortest_first, forward, l, k);
    lemma_meet(branches, commits.len(), j, i);
    j
}

/// Scheduling by length takes the first lane that fits: where branch `i` has a column, each column
/// before it is that of a branch of an earlier group, or of a branch of the same group that was
/// taken before it and is shown at one of its positions, or that it was merged into.
pub proof fn law_length_takes_first_fit(
    branches: Seq<BranchState>,
    groups: nat,
    commits: Seq<CommitState>,
    indices: Map<Oid, usize>,
    shortest_first: bool,
    forward: bool,
    i: int,
    column: usize,
)
    requires
        branches.len() <= usize::MAX,
        unplaced(branches, groups),
        fits(branches, commits.len()),
        0 <= i < branches.len(),
        length_columns(branches, groups, commits, indices, shortest_first, forward)[i] matches Some(
            own,
        ) && column < own,
    ensures
        exists|j: int|
            0 <= j < branches.len() && #[trigger] length_columns(
                branches,
                groups,
                commits,
                indices,
                shortest_first,
                forward,
            )[j] == Some(column) && {
                ||| branches[j].visual.order_group < branches[i].visual.order_group
                ||| {
                    &&& branches[j].visual.order_group == branches[i].visual.order_group
                    &&& is_taken_before(branches, commits.len(), shortest_first, forward, j, i)
                    &&& meet(branches[j], branches[i], commits.len()) || is_merged_into(
                        branches,
                        commits,
                        indices,
                        i,
                        j,
                    )
                }
            },
{
    let queue = span_queue(branches, commits.len(), shortest_first, forward);
    let steps = queue.len() as int;
    let packing = packed(branches, groups, commits, indices, queue, steps);
    let counts = lane_counts(packing.occupied);
    let columns = length_columns(branches, groups, commits, indices, shortest_first, forward);
    let group = branches[i].visual.order_group as int;
    let base = lanes_before(counts, group);
    lemma_packed(branches, groups, commits, indices, shortest_first, forward, steps);
    lemma_span_queue(branches, commits.len(), shortest_first, forward);
    lemma_ranged(branches, branches.len());
    assert(packing.lanes[i] is Some);
    let own_lane = packing.lanes[i]->0;
    lemma_lanes_before_monotonic(counts, group, group + 1);
    lemma_lanes_before_monotonic(counts, group + 1, groups as int);
    assert(columns[i] == Some((own_lane + base) as usize));
    if column >= base {
        let j = lemma_refused_lane(
            branches,
            groups,
            commits,
            indices,
            shortest_first,
            forward,
            i,
            column - base,
        );
        assert(columns[j] == Some(column));
    } else {
        lemma_fills(branches, packing.lanes, counts);
        lemma_groups_in_order(branches, packing.lanes, counts);
        assert(columns.contains(Some(column)));
        let j = choose|j: int| 0 <= j < columns.len() && columns[j] == Some(column);
        assert(packing.lanes[j] is Some);
        let other = branches[j].visual.order_group as int;
        if other == group {
            lemma_lanes_before_monotonic(counts, group, groups as int);
        }
        assert(columns[j] == Some(column));
    }
}

/// Scheduling by length leaves no overlaps: two branches of one column are never shown at one
/// position.
pub proof fn law_length_shows_one_branch_at_a_time(
    branches: Seq<BranchState>,
    groups: nat,
    commits: Seq<CommitState>,
    indices: Map<Oid, usize>,
    shortest_first: bool,
    forward: bool,
    i: int,
    j: int,
    position: int,
)
    requires
        branches.len() <= usize::MAX,
        commits.len() <= usize::MAX,
        unplaced(branches, groups),
        0 <= i < branches.len(),
        0 <= j < branches.len(),
        i != j,
        length_columns(branches, groups, commits, indices, shortest_first, forward)[i] is Some,
        length_columns(branches, groups, commits, indices, shortest_first, forward)[i]
            == length_columns(branches, groups, commits, indices, shortest_first, forward)[j],
    ensures
        !(covers(branches[i], commits.len(), position) && covers(
            branches[j],
            commits.len(),
            position,
        )),
{
    law_length_free_of_overlaps(branches, groups, commits, indices, shortest_first, forward);
    lemma_apart(branches, commits.len(), i, j, position);
}

/// Scheduling by length gives a column to each branch that fits and has a position, and to no
/// other.
pub proof fn law_length_places_what_fits(
    branches: Seq<BranchState>,
    groups: nat,
    commits: Seq<CommitState>,
    indices: Map<Oid, usize>,
    shortest_first: bool,
    forward: bool,
    i: int,
)
    requires
        branches.len() <= usize::MAX,
        unplaced(branches, groups),
        fits(branches, commits.len()),
        0 <= i < branches.len(),
    ensures
        length_columns(branches, groups, commits, indices, shortest_first, forward)[i] is Some
            <==> exists|position: int| #[trigger] covers(branches[i], commits.len(), position),
{
    law_length_free_of_overlaps(branches, groups, commits, indices, shortest_first, forward);
    if has_range(branches[i]) {
        assert(covers(branches[i], commits.len(), start_of(branches[i])));
    }
}

/// A branch does not share a column with the branch that it was merged into, if that was taken
/// before it.
pub proof fn law_length_avoids_merge_target(
    branches: Seq<BranchState>,
    groups: nat,
    commits: Seq<CommitState>,
    indices: Map<Oid, usize>,
    shortest_first: bool,
    forward: bool,
    i: int,
    j: int,
)
    requires
        branches.len() <= usize::MAX,
        unplaced(branches, groups),
        fits(branches, commits.len()),
        0 <= i < branches.len(),
        0 <= j < branches.len(),
        is_merged_into(branches, commits, indices, i, j),
        is_taken_before(branches, commits.len(), shortest_first, forward, j, i),
        length_columns(branches, groups, commits, indices, shortest_first, forward)[i] is Some,
        length_columns(branches, groups, commits, indices, shortest_first, forward)[j] is Some,
    ensures
        length_columns(branches, groups, commits, indices, shortest_first, forward)[i]
            != length_columns(branches, groups, commits, indices, shortest_first, forward)[j],
{
    law_length_free_of_overlaps(branches, groups, commits, indices, shortest_first, forward);
    let k = lemma_has_span(branches, commits.len(), shortest_first, forward, j);
    let l = lemma_has_span(branches, commits.len(), shortest_first, forward, i);
    lemma_queue_order(branches, commits.len(), shortest_first, forward, k, l);
    law_length_keeps_merges_apart(
        branches,
        groups,
        commits,
        indices,
        shortest_first,
        forward,
        k,
        l,
    );
}

/// Whether branch `i` was kept out of a column for the sake of branch `j`: it was merged into that
/// branch, which stands to the left of it in the same group and was taken before it, and no branch
/// of that column that was taken before it is shown at one of its positions.
pub open spec fn is_displaced_by(
    branches: Seq<BranchState>,
    columns: Seq<Option<usize>>,
    commits: Seq<CommitState>,
    indices: Map<Oid, usize>,
    shortest_first: bool,
    forward: bool,
    i: int,
    j: int,
) -> bool {
    &&& 0 <= j < branches.len()
    &&& is_merged_into(branches, commits, indices, i, j)
    &&& branches[j].visual.order_group == branches[i].visual.order_group
    &&& is_taken_before(branches, commits.len(), shortest_first, forward, j, i)
    &&& columns[j] is Some && columns[i] is Some && columns[j]->0 < columns[i]->0
    &&& forall|e: int|
        0 <= e < branches.len() && #[trigger] columns[e] == columns[j] && is_taken_before(
            branches,
            commits.len(),
            shortest_first,
            forward,
            e,
            i,
        ) ==> !meet(branches[e], branches[i], commits.len())
}

/// Whether branches are those that were kept out of a column for the sake of the branch that they
/// were merged into, in the order in which they were taken.
pub open spec fn is_report(
    displaced: Seq<usize>,
    branches: Seq<BranchState>,
    columns: Seq<Option<usize>>,
    commits: Seq<CommitState>,
    indices: Map<Oid, usize>,
    shortest_first: bool,
    forward: bool,
) -> bool {
    &&& forall|i: usize| #[trigger]
        displaced.contains(i) <==> i < branches.len() && exists|j: int| #[trigger]
            is_displaced_by(
                branches,
                columns,
                commits,
                indices,
                shortest_first,
                forward,
                i as int,
                j,
            )
    &&& forall|d: int, e: int|
        #![trigger displaced[d], displaced[e]]
        0 <= d < e < displaced.len() ==> is_taken_before(
            branches,
            commits.len(),
            shortest_first,
            forward,
            displaced[d] as int,
            displaced[e] as int,
        )
}

/// The branches that are reported are those that were kept out of a column for the sake of the
/// branch that they were merged into, in the order in which they were taken.
pub proof fn law_length_reports_displaced(
    branches: Seq<BranchState>,
    groups: nat,
    commits: Seq<CommitState>,
    indices: Map<Oid, usize>,
    shortest_first: bool,
    forward: bool,
)
    requires
        branches.len() <= usize::MAX,
        unplaced(branches, groups),
        fits(branches, commits.len()),
    ensures
        ({
            let displaced = packed_by_length(
                branches,
                groups,
                commits,
                indices,
                shortest_first,
                forward,
            ).displaced;
            let columns = length_columns(
                branches,
                groups,
                commits,
                indices,
                shortest_first,
                forward,
            );
            is_report(
                displaced,
                branches,
                columns,
                commits,
                indices,
                shortest_first,
                forward,
            )
        }),
{
    let queue = span_queue(branches, commits.len(), shortest_first, forward);
    let steps = queue.len() as int;
    let packing = packed(branches, groups, commits, indices, queue, steps);
    let columns = length_columns(branches, groups, commits, indices, shortest_first, forward);
    let displaced = packing.displaced;
    lemma_packed_diligent(branches, groups, commits, indices, shortest_first, forward, steps);
    lemma_span_queue(branches, commits.len(), shortest_first, forward);
    assert forall|i: usize| #[trigger] displaced.contains(i) <==> i < branches.len() && exists|
        j: int,
    | #[trigger]
        is_displaced_by(
            branches,
            columns,
            commits,
            indices,
            shortest_first,
            forward,
            i as int,
            j,
        ) by {
        if displaced.contains(i) {
            let d = choose|d: int| 0 <= d < displaced.len() && displaced[d] == i;
            let k = choose|k: int| 0 <= k < steps && (#[trigger] queue[k]).0 == displaced[d];
            assert(has_range(branches[queue[k].0 as int]));
            lemma_displaced(
                branches,
                groups,
                commits,
                indices,
                shortest_first,
                forward,
                k,
            );
        }
        if i < branches.len() && exists|j: int| #[trigger]
            is_displaced_by(
                branches,
                columns,
                commits,
                indices,
                shortest_first,
                forward,
                i as int,
                j,
            ) {
            law_length_free_of_overlaps(
                branches,
                groups,
                commits,
                indices,
                shortest_first,
                forward,
            );
            assert(columns[i as int] is Some);
            let k = lemma_has_span(branches, commits.len(), shortest_first, forward, i as int);
            lemma_displaced(
                branches,
                groups,
                commits,
                indices,
                shortest_first,
                forward,
                k,
            );
            assert(queue[k].0 == i);
        }
    }
    assert forall|d: int, e: int|
        #![trigger displaced[d], displaced[e]]
        0 <= d < e < displaced.len() implies is_taken_before(
        branches,
        commits.len(),
        shortest_first,
        forward,
        displaced[d] as int,
        displaced[e] as int,
    ) by {
        assert(come_in_order(queue, steps, displaced[d], displaced[e]));
        let (k, l) = choose|k: int, l: int|
            #![trigger queue[k], queue[l]]
            0 <= k < l < steps && queue[k].0 == displaced[d] && queue[l].0 == displaced[e];
        lemma_queue_order(branches, commits.len(), shortest_first, forward, k, l);
    }
}

/// What keeps the branch of a span out of a lane keeps it out of a column.
proof fn lemma_displaced(
    branches: Seq<BranchState>,
    groups: nat,
    commits: Seq<CommitState>,
    indices: Map<Oid, usize>,
    shortest_first: bool,
    forward: bool,
    k: int,
)
    requires
        branches.len() <= usize::MAX,
        unplaced(branches, groups),
        fits(branches, commits.len()),
        0 <= k < span_queue(branches, commits.len(), shortest_first, forward).len(),
    ensures
        ({
            let queue = span_queue(branches, commits.len(), shortest_first, forward);
            is_kept_out(
                packed(
                    branches,
                    groups,
                    commits,
                    indices,
                    queue,
                    queue.len() as int,
                ).lanes,
                branches,
                commits,
                indices,
                queue,
                k,
            ) <==> exists|j: int| #[trigger]
                is_displaced_by(
                    branches,
                    length_columns(branches, groups, commits, indices, shortest_first, forward),
                    commits,
                    indices,
                    shortest_first,
                    forward,
                    queue[k].0 as int,
                    j,
                )
        }),
{
    let queue = span_queue(branches, commits.len(), shortest_first, forward);
    let steps = queue.len() as int;
    let packing = packed(branches, groups, commits, indices, queue, steps);
    let lanes = packing.lanes;
    let counts = lane_counts(packing.occupied);
    let columns = length_columns(branches, groups, commits, indices, shortest_first, forward);
    let b = queue[k].0 as int;
    let group = branches[b].visual.order_group as int;
    lemma_span_queue(branches, commits.len(), shortest_first, forward);
    lemma_ranged(branches, branches.len());
    lemma_packed(branches, groups, commits, indices, shortest_first, forward, steps);
    assert(has_range(branches[b]));
    assert(lanes[b] is Some);
    lemma_lanes_before_monotonic(counts, group, group + 1);
    lemma_lanes_before_monotonic(counts, group + 1, groups as int);
    assert forall|a: int|
        #![trigger lanes[a]]
        0 <= a < branches.len() && lanes[a] is Some && branches[a].visual.order_group
            == group implies columns[a] == Some((lanes[a]->0 + lanes_before(counts, group)) as usize)
        && lanes[a]->0 + lanes_before(counts, group) <= usize::MAX by {
        assert(in_bounds(branches, lanes, counts));
    }
    if is_kept_out(lanes, branches, commits, indices, queue, k) {
        let l = choose|l: int|
            #![trigger queue[l]]
            0 <= l < k && {
                let m = queue[l].0 as int;
                &&& merged_into(branches[b], commits, indices) == Some(queue[l].0)
                &&& branches[m].visual.order_group == branches[b].visual.order_group
                &&& lanes[m]->0 < lanes[b]->0
                &&& forall|e: int| #[trigger]
                    is_earlier(lanes, branches, queue, k, lanes[m]->0 as int, e) ==> !overlap(
                        branches,
                        commits.len(),
                        queue[e].0 as int,
                        b,
                    )
            };
        let m = queue[l].0 as int;
        lemma_queue_order(branches, commits.len(), shortest_first, forward, l, k);
        assert(lanes[m] is Some);
        assert forall|e: int|
            0 <= e < branches.len() && #[trigger] columns[e] == columns[m] && is_taken_before(
                branches,
                commits.len(),
                shortest_first,
                forward,
                e,
                b,
            ) implies !meet(branches[e], branches[b], commits.len()) by {
            assert(lanes[e] is Some);
            lemma_same_column(branches, lanes, counts, e, m);
            let at = lemma_has_span(branches, commits.len(), shortest_first, forward, e);
            lemma_queue_order(branches, commits.len(), shortest_first, forward, at, k);
            assert(is_earlier(lanes, branches, queue, k, lanes[m]->0 as int, at));
            lemma_meet(branches, commits.len(), e, b);
        }
        assert(is_displaced_by(
            branches,
            columns,
            commits,
            indices,
            shortest_first,
            forward,
            b,
            m,
        ));
    }
    if exists|j: int| #[trigger]
        is_displaced_by(branches, columns, commits, indices, shortest_first, forward, b, j) {
        let m = choose|j: int| #[trigger]
            is_displaced_by(branches, columns, commits, indices, shortest_first, forward, b, j);
        assert(lanes[m] is Some);
        let l = lemma_has_span(branches, commits.len(), shortest_first, forward, m);
        lemma_queue_order(branches, commits.len(), shortest_first, forward, l, k);
        assert forall|e: int| #[trigger]
            is_earlier(lanes, branches, queue, k, lanes[m]->0 as int, e) implies !overlap(
            branches,
            commits.len(),
            queue[e].0 as int,
            b,
        ) by {
            let a = queue[e].0 as int;
            assert(has_range(branches[a]));
            lemma_queue_order(branches, commits.len(), shortest_first, forward, e, k);
            assert(columns[a] == columns[m]);
            lemma_meet(branches, commits.len(), a, b);
        }
        assert(queue[l].0 == m);
    }
}

/// Branches that fit stand in the columns that scheduling by length should give them.
pub proof fn law_length_packs(
    branches: Seq<BranchState>,
    groups: nat,
    commits: Seq<CommitState>,
    indices: Map<Oid, usize>,
    shortest_first: bool,
    forward: bool,
)
    requires
        branches.len() <= usize::MAX,
        unplaced(branches, groups),
        fits(branches, commits.len()),
    ensures
        is_packed_by_length(
            in_columns(
                branches,
                length_columns(branches, groups, commits, indices, shortest_first, forward),
            ),
            commits,
            indices,
            shortest_first,
            forward,
        ),
{
    let n = commits.len();
    let columns = length_columns(branches, groups, commits, indices, shortest_first, forward);
    let placed = in_columns(branches, columns);
    assert forall|i: int|
        #![trigger placed[i]]
        0 <= i < placed.len() implies (placed[i].visual.column is Some <==> exists|position: int|
        #[trigger] covers(placed[i], n, position)) by {
        law_length_places_what_fits(
            branches,
            groups,
            commits,
            indices,
            shortest_first,
            forward,
            i,
        );
        if placed[i].visual.column is Some {
            let position = choose|position: int| #[trigger] covers(branches[i], n, position);
            assert(covers(placed[i], n, position));
        }
        if exists|position: int| #[trigger] covers(placed[i], n, position) {
            let position = choose|position: int| #[trigger] covers(placed[i], n, position);
            assert(covers(branches[i], n, position));
        }
    }
    assert forall|i: int, j: int|
        #![trigger placed[i], placed[j]]
        0 <= i < placed.len() && 0 <= j < placed.len() && i != j && placed[i].visual.column is Some
            && placed[i].visual.column == placed[j].visual.column implies {
        &&& !meet(placed[i], placed[j], n)
        &&& !(is_merged_into(placed, commits, indices, i, j) && is_taken_before(
            placed,
            n,
            shortest_first,
            forward,
            j,
            i,
        ))
    } by {
        assert forall|position: int|
            !(#[trigger] covers(placed[i], n, position) && covers(placed[j], n, position)) by {
            law_length_shows_one_branch_at_a_time(
                branches,
                groups,
                commits,
                indices,
                shortest_first,
                forward,
                i,
                j,
                position,
            );
        }
        if is_merged_into(placed, commits, indices, i, j) && is_taken_before(
            placed,
            n,
            shortest_first,
            forward,
            j,
            i,
        ) {
            law_length_avoids_merge_target(
                branches,
                groups,
                commits,
                indices,
                shortest_first,
                forward,
                i,
                j,
            );
        }
    }
    assert forall|i: int, column: usize| #[trigger] is_left_of(placed, column, i) implies exists|
        j: int,
    |
        #![trigger placed[j]]
        0 <= j < placed.len() && placed[j].visual.column == Some(column) && {
            ||| placed[j].visual.order_group < placed[i].visual.order_group
            ||| {
                &&& placed[j].visual.order_group == placed[i].visual.order_group
                &&& is_taken_before(placed, n, shortest_first, forward, j, i)
                &&& meet(placed[j], placed[i], n) || is_merged_into(placed, commits, indices, i, j)
            }
        } by {
        assert(placed[i].visual.column == columns[i]);
        law_length_takes_first_fit(
            branches,
            groups,
            commits,
            indices,
            shortest_first,
            forward,
            i,
            column,
        );
        let j = choose|j: int|
            0 <= j < branches.len() && #[trigger] columns[j] == Some(column) && {
                ||| branches[j].visual.order_group < branches[i].visual.order_group
                ||| {
                    &&& branches[j].visual.order_group == branches[i].visual.order_group
                    &&& is_taken_before(branches, n, shortest_first, forward, j, i)
                    &&& meet(branches[j], branches[i], n) || is_merged_into(
                        branches,
                        commits,
                        indices,
                        i,
                        j,
                    )
                }
            };
        assert(placed[j].visual.column == Some(column));
        if meet(branches[j], branches[i], n) {
            let position = choose|position: int| #[trigger]
                covers(branches[j], n, position) && covers(branches[i], n, position);
            assert(covers(placed[j], n, position) && covers(placed[i], n, position));
        }
    }
}

} // verus!
