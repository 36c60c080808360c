//! Columns by first-come first-served scheduling: a sweep over the positions of the graph opens
//! each branch where it starts, in the first lane of its group that is free, and frees the lane
//! where the branch ends.

use crate::branch::{branch_states, BranchInfo, BranchState};
use crate::columns::{
    as_counts, columns_of, fills, find_last_position, first_position, free_of_overlaps,
    graph_columns, groups_in_order, has_range, in_bounds, in_columns, lane_counts, lanes_before,
    lanes_used, last_position, overlap, ranged, shift_to_graph_columns, shiftable,
};
use crate::columns::{
    lemma_fills, lemma_groups_in_order, lemma_lanes_before_empty, lemma_lanes_before_grow,
    lemma_lanes_before_monotonic, lemma_lanes_used, lemma_ranged, lemma_same_column,
    lemma_shiftable,
};
use crate::commit::CommitInfo;
use crate::scheduling::{
    covers, fits, is_left_of, is_met_before, is_served_in_turn, lemma_apart, meet, met_at,
};
use crate::settings::BranchSettings;
use crate::sorting::{
    arranged, is_stable_order, item_keys, precedes, sorted_by_key, stable_order,
};
use crate::sorting::{
    lemma_stable_order, lemma_stable_order_complete, lemma_stable_order_distinct,
    lemma_stable_order_unique,
};
use vstd::prelude::*;

verus! {

/// The first or the last position of a branch.
pub open spec fn end_position(branch: BranchState, commits: nat, last: bool) -> usize {
    if last {
        last_position(branch, commits)
    } else {
        first_position(branch)
    }
}

/// The number of each branch that has positions, with its first or its last position.
pub open spec fn events(branches: Seq<BranchState>, commits: nat, last: bool) -> Seq<
    (usize, usize),
> {
    ranged(branches, branches.len()).map_values(
        |i: usize| (i, end_position(branches[i as int], commits, last)),
    )
}

/// The keys by which events are sorted: positions, ascending or descending.
pub open spec fn event_keys(events: Seq<(usize, usize)>, forward: bool) -> Seq<(int, int)> {
    events.map_values(
        |event: (usize, usize)|
            (
                if forward {
                    event.1 as i32 as int
                } else {
                    -(event.1 as i32 as int)
                },
                0int,
            ),
    )
}

/// The events in the order in which the sweep waits for them.
pub open spec fn event_queue(
    branches: Seq<BranchState>,
    commits: nat,
    last: bool,
    forward: bool,
) -> Seq<(usize, usize)> {
    arranged(
        events(branches, commits, last),
        stable_order(event_keys(events(branches, commits, last), forward)),
    )
}

/// The events that open branches: a branch opens where the sweep comes to it first.
pub open spec fn opening_queue(
    branches: Seq<BranchState>,
    commits: nat,
    forward: bool,
) -> Seq<(usize, usize)> {
    event_queue(branches, commits, !forward, forward)
}

/// The events that close branches.
pub open spec fn closing_queue(
    branches: Seq<BranchState>,
    commits: nat,
    forward: bool,
) -> Seq<(usize, usize)> {
    event_queue(branches, commits, forward, forward)
}

/// The first lane from lane `from` on that is free, the number of lanes where none is.
pub open spec fn first_free(lanes: Seq<bool>, from: int) -> int
    decreases lanes.len() - from,
{
    if from >= lanes.len() {
        lanes.len() as int
    } else if !lanes[from] {
        from
    } else {
        first_free(lanes, from + 1)
    }
}

/// The state of a sweep.
#[verifier::ext_equal]
pub struct Sweep {
    /// For each group, which of its lanes are occupied.
    pub occupied: Seq<Seq<bool>>,
    /// The lane of each branch that was opened.
    pub lanes: Seq<Option<usize>>,
    /// The branches that were opened and not closed yet.
    pub open: Set<int>,
    /// The number of opening events that lie behind.
    pub opened: int,
    /// The number of closing events that lie behind.
    pub closed: int,
    /// Whether a lane was to be freed that is not there.
    pub stuck: bool,
}

impl Sweep {
    /// The state before the first position. A branch that has a column already has it as its lane
    /// until it is opened.
    pub open spec fn start(branches: Seq<BranchState>, groups: nat) -> Sweep {
        Sweep {
            occupied: Seq::new(groups, |g: int| Seq::empty()),
            lanes: columns_of(branches),
            open: Set::empty(),
            opened: 0,
            closed: 0,
            stuck: false,
        }
    }

    /// Branch `b` occupies the first free lane of its group, a new one where none is free.
    pub open spec fn open_branch(self, branches: Seq<BranchState>, b: int) -> Sweep {
        let group = branches[b].visual.order_group as int;
        let lanes = self.occupied[group];
        let lane = first_free(lanes, 0);
        Sweep {
            occupied: self.occupied.update(
                group,
                if lane < lanes.len() {
                    lanes.update(lane, true)
                } else {
                    lanes.push(true)
                },
            ),
            lanes: self.lanes.update(b, Some(lane as usize)),
            open: self.open.insert(b),
            opened: self.opened + 1,
            ..self
        }
    }

    /// The lane of branch `b` is free again, if the branch has one.
    pub open spec fn close_branch(self, branches: Seq<BranchState>, b: int) -> Sweep {
        let group = branches[b].visual.order_group as int;
        match self.lanes[b] {
            Some(lane) => Sweep {
                occupied: self.occupied.update(
                    group,
                    self.occupied[group].update(lane as int, false),
                ),
                open: self.open.remove(b),
                closed: self.closed + 1,
                stuck: self.stuck || lane >= self.occupied[group].len(),
                ..self
            },
            None => Sweep { closed: self.closed + 1, ..self },
        }
    }

    /// Opens branches as long as the next opening event is at `position`.
    pub open spec fn open_at(
        self,
        branches: Seq<BranchState>,
        opening: Seq<(usize, usize)>,
        position: int,
    ) -> Sweep
        decreases opening.len() - self.opened,
    {
        if 0 <= self.opened < opening.len() && opening[self.opened].1 == position {
            self.open_branch(branches, opening[self.opened].0 as int).open_at(
                branches,
                opening,
                position,
            )
        } else {
            self
        }
    }

    /// Closes branches as long as the next closing event is at `position`.
    pub open spec fn close_at(
        self,
        branches: Seq<BranchState>,
        closing: Seq<(usize, usize)>,
        position: int,
    ) -> Sweep
        decreases closing.len() - self.closed,
    {
        if 0 <= self.closed < closing.len() && closing[self.closed].1 == position {
            self.close_branch(branches, closing[self.closed].0 as int).close_at(
                branches,
                closing,
                position,
            )
        } else {
            self
        }
    }
}

/// The position that a sweep over `commits` positions reaches after `steps` others.
pub open spec fn position_at(commits: nat, forward: bool, steps: int) -> int {
    if forward {
        steps
    } else {
        commits - 1 - steps
    }
}

/// The state of the sweep after `steps` of `commits` positions.
pub open spec fn swept(
    branches: Seq<BranchState>,
    groups: nat,
    commits: nat,
    forward: bool,
    steps: int,
) -> Sweep
    decreases steps,
{
    if steps <= 0 {
        Sweep::start(branches, groups)
    } else {
        let position = position_at(commits, forward, steps - 1);
        swept(branches, groups, commits, forward, steps - 1).open_at(
            branches,
            opening_queue(branches, commits, forward),
            position,
        ).close_at(branches, closing_queue(branches, commits, forward), position)
    }
}

/// The columns that first-come first-served scheduling gives to branches over `commits`
/// positions, with order groups numbered below `groups`.
pub open spec fn fcfs_columns(
    branches: Seq<BranchState>,
    groups: nat,
    commits: nat,
    forward: bool,
) -> Seq<Option<usize>> {
    let sweep = swept(branches, groups, commits, forward, commits as int);
    graph_columns(branches, sweep.lanes, lane_counts(sweep.occupied))
}

/// Whether the events of a sweep can be sorted: descending, a position is negated as an `i32`.
pub open spec fn sortable(branches: Seq<BranchState>, commits: nat, forward: bool) -> bool {
    forward || forall|i: int|
        #![trigger branches[i]]
        0 <= i < branches.len() && has_range(branches[i]) ==> {
            &&& first_position(branches[i]) as i32 != i32::MIN
            &&& last_position(branches[i], commits) as i32 != i32::MIN
        }
}

/// Whether the branches with positions belong to groups numbered below `groups`.
pub open spec fn grouped(branches: Seq<BranchState>, groups: nat) -> bool {
    forall|i: int|
        #![trigger branches[i]]
        0 <= i < branches.len() && has_range(branches[i]) ==> branches[i].visual.order_group
            < groups
}

/// Whether branches can get columns: they are grouped, the sweep frees no lane that is not there,
/// and columns can be counted. This holds of all branches that have no column yet.
pub open spec fn placeable(
    branches: Seq<BranchState>,
    groups: nat,
    commits: nat,
    forward: bool,
) -> bool {
    let sweep = swept(branches, groups, commits, forward, commits as int);
    &&& grouped(branches, groups)
    &&& !sweep.stuck
    &&& shiftable(branches, sweep.lanes, lane_counts(sweep.occupied))
}

/// Whether branches are ready to get lanes: none has a column, and those with positions belong to
/// groups numbered below `groups`.
pub open spec fn unplaced(branches: Seq<BranchState>, groups: nat) -> bool {
    forall|i: int|
        #![trigger branches[i]]
        0 <= i < branches.len() ==> {
            &&& branches[i].visual.column is None
            &&& has_range(branches[i]) ==> branches[i].visual.order_group < groups
        }
}

/// What holds of every state of a sweep that is not stuck.
pub open spec fn shaped(sweep: Sweep, branches: Seq<BranchState>, groups: nat) -> bool {
    &&& sweep.occupied.len() == groups
    &&& sweep.lanes.len() == branches.len()
    &&& 0 <= sweep.opened
    &&& 0 <= sweep.closed
    &&& lanes_before(lane_counts(sweep.occupied), groups as int) <= sweep.opened
}

/// What holds of every state of a sweep over branches without columns.
pub open spec fn sound(sweep: Sweep, branches: Seq<BranchState>, groups: nat) -> bool {
    &&& shaped(sweep, branches, groups)
    &&& in_bounds(branches, sweep.lanes, lane_counts(sweep.occupied))
    &&& !sweep.stuck
}

proof fn lemma_first_free(lanes: Seq<bool>, from: int)
    requires
        0 <= from <= lanes.len(),
    ensures
        from <= first_free(lanes, from) <= lanes.len(),
        first_free(lanes, from) < lanes.len() ==> !lanes[first_free(lanes, from)],
        forall|l: int| from <= l < first_free(lanes, from) ==> #[trigger] lanes[l],
    decreases lanes.len() - from,
{
    if from < lanes.len() && lanes[from] {
        lemma_first_free(lanes, from + 1);
    }
}

proof fn lemma_start_shaped(branches: Seq<BranchState>, groups: nat)
    ensures
        shaped(Sweep::start(branches, groups), branches, groups),
{
    let sweep = Sweep::start(branches, groups);
    lemma_lanes_before_empty(lane_counts(sweep.occupied), groups as int);
}

proof fn lemma_start_sound(branches: Seq<BranchState>, groups: nat)
    requires
        unplaced(branches, groups),
    ensures
        sound(Sweep::start(branches, groups), branches, groups),
{
    let sweep = Sweep::start(branches, groups);
    lemma_start_shaped(branches, groups);
    assert forall|i: int| 0 <= i < sweep.lanes.len() implies (#[trigger] sweep.lanes[i]) is None by {
        assert(branches[i].visual.column is None);
    }
}

proof fn lemma_open_shaped(sweep: Sweep, branches: Seq<BranchState>, groups: nat, b: int)
    requires
        shaped(sweep, branches, groups),
        0 <= b < branches.len(),
        branches[b].visual.order_group < groups,
        sweep.opened < usize::MAX,
    ensures
        shaped(sweep.open_branch(branches, b), branches, groups),
        first_free(sweep.occupied[branches[b].visual.order_group as int], 0) < usize::MAX,
{
    let group = branches[b].visual.order_group as int;
    let after = sweep.open_branch(branches, b);
    let before_counts = lane_counts(sweep.occupied);
    let after_counts = lane_counts(after.occupied);
    lemma_first_free(sweep.occupied[group], 0);
    lemma_lanes_before_monotonic(before_counts, group, groups as int);
    lemma_lanes_before_grow(before_counts, after_counts, group, groups as int);
}

proof fn lemma_open_sound(sweep: Sweep, branches: Seq<BranchState>, groups: nat, b: int)
    requires
        sound(sweep, branches, groups),
        0 <= b < branches.len(),
        branches[b].visual.order_group < groups,
        sweep.opened < usize::MAX,
    ensures
        sound(sweep.open_branch(branches, b), branches, groups),
        first_free(sweep.occupied[branches[b].visual.order_group as int], 0) < usize::MAX,
{
    let group = branches[b].visual.order_group as int;
    let after = sweep.open_branch(branches, b);
    let after_counts = lane_counts(after.occupied);
    lemma_first_free(sweep.occupied[group], 0);
    lemma_open_shaped(sweep, branches, groups, b);
    assert forall|i: int| 0 <= i < after.lanes.len() implies (#[trigger] after.lanes[i] matches Some(
        lane,
    ) ==> {
        &&& branches[i].visual.order_group < after_counts.len()
        &&& lane < after_counts[branches[i].visual.order_group as int]
    }) by {
        if i != b {
            assert(after.lanes[i] == sweep.lanes[i]);
        }
    }
}

proof fn lemma_close_shaped(sweep: Sweep, branches: Seq<BranchState>, groups: nat, b: int)
    requires
        shaped(sweep, branches, groups),
        0 <= b < branches.len(),
        branches[b].visual.order_group < groups,
        !sweep.close_branch(branches, b).stuck,
    ensures
        shaped(sweep.close_branch(branches, b), branches, groups),
{
    let after = sweep.close_branch(branches, b);
    assert(lane_counts(after.occupied) =~= lane_counts(sweep.occupied));
}

/// A sweep that is stuck stays so while branches are opened and closed.
proof fn lemma_stuck_at(
    sweep: Sweep,
    branches: Seq<BranchState>,
    queue: Seq<(usize, usize)>,
    position: int,
)
    requires
        sweep.stuck,
    ensures
        sweep.open_at(branches, queue, position).stuck,
        sweep.close_at(branches, queue, position).stuck,
    decreases queue.len() - sweep.opened, queue.len() - sweep.closed,
{
    if 0 <= sweep.opened < queue.len() && queue[sweep.opened].1 == position {
        lemma_stuck_at(
            sweep.open_branch(branches, queue[sweep.opened].0 as int),
            branches,
            queue,
            position,
        );
    }
    if 0 <= sweep.closed < queue.len() && queue[sweep.closed].1 == position {
        lemma_stuck_at(
            sweep.close_branch(branches, queue[sweep.closed].0 as int),
            branches,
            queue,
            position,
        );
    }
}

/// A sweep that is stuck stays so.
proof fn lemma_stuck(
    branches: Seq<BranchState>,
    groups: nat,
    commits: nat,
    forward: bool,
    steps: int,
    later: int,
)
    requires
        0 <= steps <= later,
        swept(branches, groups, commits, forward, steps).stuck,
    ensures
        swept(branches, groups, commits, forward, later).stuck,
    decreases later,
{
    if steps < later {
        let position = position_at(commits, forward, later - 1);
        let before = swept(branches, groups, commits, forward, later - 1);
        let opening = opening_queue(branches, commits, forward);
        lemma_stuck(branches, groups, commits, forward, steps, later - 1);
        lemma_stuck_at(before, branches, opening, position);
        lemma_stuck_at(
            before.open_at(branches, opening, position),
            branches,
            closing_queue(branches, commits, forward),
            position,
        );
    }
}

proof fn lemma_close_sound(sweep: Sweep, branches: Seq<BranchState>, groups: nat, b: int)
    requires
        sound(sweep, branches, groups),
        0 <= b < branches.len(),
    ensures
        sound(sweep.close_branch(branches, b), branches, groups),
{
    let after = sweep.close_branch(branches, b);
    assert(lane_counts(after.occupied) =~= lane_counts(sweep.occupied));
    assert(after.lanes == sweep.lanes);
}

/// The events of a queue: branches with positions, each once, with the position asked for.
pub proof fn lemma_event_queue(
    branches: Seq<BranchState>,
    commits: nat,
    last: bool,
    forward: bool,
)
    requires
        branches.len() <= usize::MAX,
    ensures
        event_queue(branches, commits, last, forward).len() == ranged(branches, branches.len()).len(),
        forall|k: int|
            0 <= k < event_queue(branches, commits, last, forward).len() ==> {
                let event = #[trigger] event_queue(branches, commits, last, forward)[k];
                &&& event.0 < branches.len()
                &&& has_range(branches[event.0 as int])
                &&& event.1 == end_position(branches[event.0 as int], commits, last)
            },
        forall|k: int, l: int|
            #![trigger
                event_queue(branches, commits, last, forward)[k],
                event_queue(branches, commits, last, forward)[l]
            ]
            0 <= k < event_queue(branches, commits, last, forward).len() && 0 <= l < event_queue(
                branches,
                commits,
                last,
                forward,
            ).len() && k != l ==> event_queue(branches, commits, last, forward)[k].0 != event_queue(
                branches,
                commits,
                last,
                forward,
            )[l].0,
{
    let listed = events(branches, commits, last);
    let keys = event_keys(listed, forward);
    let order = stable_order(keys);
    let queue = event_queue(branches, commits, last, forward);
    let numbers = ranged(branches, branches.len());
    lemma_ranged(branches, branches.len());
    lemma_stable_order(keys);
    lemma_stable_order_distinct(keys, order);
    assert forall|k: int| 0 <= k < queue.len() implies {
        let event = #[trigger] queue[k];
        &&& event.0 < branches.len()
        &&& has_range(branches[event.0 as int])
        &&& event.1 == end_position(branches[event.0 as int], commits, last)
    } by {
        assert(queue[k] == listed[order[k]]);
        assert(listed[order[k]].0 == numbers[order[k]]);
    }
    assert forall|k: int, l: int|
        #![trigger queue[k], queue[l]]
        0 <= k < queue.len() && 0 <= l < queue.len() && k != l implies queue[k].0 != queue[l].0 by {
        assert(queue[k].0 == numbers[order[k]]);
        assert(queue[l].0 == numbers[order[l]]);
        assert(order[k] != order[l]);
        if order[k] < order[l] {
            assert(numbers[order[k]] < numbers[order[l]]);
        } else {
            assert(numbers[order[l]] < numbers[order[k]]);
        }
    }
}

/// Lists the events of the branches, sorted.
fn sorted_events(
    branches: &[BranchInfo],
    commits: usize,
    last: bool,
    forward: bool,
) -> (queue: Vec<((i32, i32), (usize, usize))>)
    requires
        sortable(branch_states(branches@), commits as nat, forward),
    ensures
        queue@.len() == event_queue(branch_states(branches@), commits as nat, last, forward).len(),
        forall|k: int|
            0 <= k < queue@.len() ==> (#[trigger] queue@[k]).1 == event_queue(
                branch_states(branches@),
                commits as nat,
                last,
                forward,
            )[k],
{
    let ghost states = branch_states(branches@);
    let mut items: Vec<((i32, i32), (usize, usize))> = Vec::new();
    for i in 0..branches.len()
        invariant
            states == branch_states(branches@),
            sortable(states, commits as nat, forward),
            items@.len() == ranged(states, i as nat).len(),
            forall|k: int|
                0 <= k < items@.len() ==> {
                    let number = ranged(states, i as nat)[k];
                    let position = end_position(states[number as int], commits as nat, last);
                    &&& (#[trigger] items@[k]).1 == (number, position)
                    &&& items@[k].0.0 as int == if forward {
                        position as i32 as int
                    } else {
                        -(position as i32 as int)
                    }
                    &&& items@[k].0.1 == 0
                },
    {
        let range = branches[i].range;
        assert(states[i as int].range == range);
        if range.0.is_some() || range.1.is_some() {
            assert(has_range(states[i as int]));
            let position: usize = if last {
                find_last_position(&branches[i], commits)
            } else {
                match range.0 {
                    Some(position) => position,
                    None => 0,
                }
            };
            assert(position == end_position(states[i as int], commits as nat, last));
            let key: i32 = if forward {
                position as i32
            } else {
                -(position as i32)
            };
            items.push(((key, 0), (i, position)));
        }
    }
    let ghost listed = events(states, commits as nat, last);
    let ghost keys = item_keys(items@);
    assert(keys =~= event_keys(listed, forward));
    let queue = sorted_by_key(items);
    proof {
        let order = choose|order: Seq<int>| #[trigger]
            is_stable_order(keys, order) && queue@ == arranged(items@, order);
        lemma_stable_order_unique(keys, order);
        assert forall|k: int| 0 <= k < queue@.len() implies (#[trigger] queue@[k]).1 == event_queue(
            states,
            commits as nat,
            last,
            forward,
        )[k] by {
            assert(0 <= order[k] < items@.len());
            assert(items@[order[k]].1 == listed[order[k]]);
        }
    }
    queue
}

/// The occupied lanes that nested vectors stand for.
pub open spec fn occupied_lanes(occupied: Seq<Vec<bool>>) -> Seq<Seq<bool>> {
    occupied.map_values(|lanes: Vec<bool>| lanes@)
}

/// The first free lane, the number of lanes where none is free.
fn find_free(lanes: &Vec<bool>) -> (lane: usize)
    ensures
        lane == first_free(lanes@, 0),
{
    let mut lane: usize = 0;
    while lane < lanes.len() && lanes[lane]
        invariant
            lane <= lanes@.len(),
            first_free(lanes@, 0) == first_free(lanes@, lane as int),
        decreases lanes@.len() - lane,
    {
        lane = lane + 1;
    }
    lane
}

/// Sorts branches into columns for visualization, that all branches can be visualized linearly
/// and without overlaps. Uses First-Come First-Served scheduling.
pub fn assign_branch_columns_fcfs(
    commits: &[CommitInfo],
    branches: &mut [BranchInfo],
    settings: &BranchSettings,
    forward: bool,
)
    requires
        settings.order@.len() < usize::MAX,
        sortable(branch_states(old(branches)@), commits@.len(), forward),
        placeable(
            branch_states(old(branches)@),
            settings.order@.len() + 1,
            commits@.len(),
            forward,
        ),
    ensures
        branch_states(final(branches)@) == in_columns(
            branch_states(old(branches)@),
            fcfs_columns(
                branch_states(old(branches)@),
                settings.order@.len() + 1,
                commits@.len(),
                forward,
            ),
        ),
{
    let ghost before = branch_states(branches@);
    let count = branches.len();
    let groups = settings.order.len() + 1;
    let mut occupied: Vec<Vec<bool>> = Vec::new();
    for group in 0..groups
        invariant
            occupied@.len() == group,
            forall|g: int| 0 <= g < group ==> (#[trigger] occupied@[g])@ == Seq::<bool>::empty(),
    {
        occupied.push(Vec::new());
    }
    let opening = sorted_events(branches, commits.len(), !forward, forward);
    let closing = sorted_events(branches, commits.len(), forward, forward);
    let ghost openings = opening_queue(before, commits@.len(), forward);
    let ghost closings = closing_queue(before, commits@.len(), forward);
    let mut opened: usize = 0;
    let mut closed: usize = 0;
    let ghost mut sweep = Sweep::start(before, groups as nat);
    proof {
        lemma_event_queue(before, commits@.len(), !forward, forward);
        lemma_event_queue(before, commits@.len(), forward, forward);
        lemma_ranged(before, before.len());
        lemma_start_shaped(before, groups as nat);
        assert(occupied_lanes(occupied@) =~= sweep.occupied);
        assert(branch_states(branches@) =~= in_columns(before, sweep.lanes));
    }
    for i in 0..commits.len()
        invariant
            placeable(before, groups as nat, commits@.len(), forward),
            shaped(sweep, before, groups as nat),
            sweep == swept(before, groups as nat, commits@.len(), forward, i as int),
            occupied_lanes(occupied@) == sweep.occupied,
            count == branches@.len() == before.len(),
            branch_states(branches@) == in_columns(before, sweep.lanes),
            opened == sweep.opened,
            closed == sweep.closed,
            opened <= opening@.len() <= before.len() <= usize::MAX,
            closed <= closing@.len(),
            openings == opening_queue(before, commits@.len(), forward),
            closings == closing_queue(before, commits@.len(), forward),
            opening@.len() == openings.len(),
            closing@.len() == closings.len(),
            forall|k: int| 0 <= k < opening@.len() ==> (#[trigger] opening@[k]).1 == openings[k],
            forall|k: int| 0 <= k < closing@.len() ==> (#[trigger] closing@[k]).1 == closings[k],
            forall|k: int|
                0 <= k < openings.len() ==> (#[trigger] openings[k]).0 < before.len()
                    && has_range(before[openings[k].0 as int]),
            forall|k: int|
                0 <= k < closings.len() ==> (#[trigger] closings[k]).0 < before.len()
                    && has_range(before[closings[k].0 as int]),
    {
        let position: usize = if forward {
            i
        } else {
            commits.len() - 1 - i
        };
        let ghost reached = sweep.open_at(before, openings, position as int);
        while opened < opening.len() && opening[opened].1.1 == position
            invariant
                grouped(before, groups as nat),
                shaped(sweep, before, groups as nat),
                reached == sweep.open_at(before, openings, position as int),
                occupied_lanes(occupied@) == sweep.occupied,
                count == branches@.len() == before.len(),
                branch_states(branches@) == in_columns(before, sweep.lanes),
                opened == sweep.opened,
                closed == sweep.closed,
                opened <= opening@.len() <= before.len() <= usize::MAX,
                opening@.len() == openings.len(),
                forall|k: int|
                    0 <= k < opening@.len() ==> (#[trigger] opening@[k]).1 == openings[k],
                forall|k: int|
                    0 <= k < openings.len() ==> (#[trigger] openings[k]).0 < before.len()
                        && has_range(before[openings[k].0 as int]),
            decreases opening@.len() - opened,
        {
            let b = opening[opened].1.0;
            let ghost states = branch_states(branches@);
            let ghost lanes = sweep.occupied;
            assert(openings[opened as int].0 == b);
            assert(has_range(before[b as int]));
            assert(states[b as int] == before[b as int].in_column(sweep.lanes[b as int]));
            assert(branches@[b as int]@ == states[b as int]);
            let group = branches[b].visual.order_group;
            proof {
                lemma_open_shaped(sweep, before, groups as nat, b as int);
                sweep = sweep.open_branch(before, b as int);
            }
            assert(occupied@[group as int]@ == lanes[group as int]);
            let column = find_free(&occupied[group]);
            branches[b].visual.column = Some(column);
            if column < occupied[group].len() {
                occupied[group][column] = true;
            } else {
                occupied[group].push(true);
            }
            opened = opened + 1;
            assert(occupied_lanes(occupied@) =~= sweep.occupied);
            assert forall|j: int| 0 <= j < count implies #[trigger] branch_states(branches@)[j]
                == in_columns(before, sweep.lanes)[j] by {
                if j == b {
                    assert(branches@[j]@ =~= before[j].in_column(Some(column)));
                } else {
                    assert(branch_states(branches@)[j] == states[j]);
                }
            }
            assert(branch_states(branches@) =~= in_columns(before, sweep.lanes));
        }
        assert(sweep == reached);
        let ghost left = sweep.close_at(before, closings, position as int);
        proof {
            let total = commits@.len();
            assert(left == swept(before, groups as nat, total, forward, i + 1));
            if left.stuck {
                lemma_stuck(before, groups as nat, total, forward, i + 1, total as int);
            }
        }
        while closed < closing.len() && closing[closed].1.1 == position
            invariant
                grouped(before, groups as nat),
                shaped(sweep, before, groups as nat),
                !left.stuck,
                left == sweep.close_at(before, closings, position as int),
                occupied_lanes(occupied@) == sweep.occupied,
                count == branches@.len() == before.len(),
                branch_states(branches@) == in_columns(before, sweep.lanes),
                opened == sweep.opened,
                closed == sweep.closed,
                before.len() <= usize::MAX,
                closed <= closing@.len(),
                closing@.len() == closings.len(),
                forall|k: int|
                    0 <= k < closing@.len() ==> (#[trigger] closing@[k]).1 == closings[k],
                forall|k: int|
                    0 <= k < closings.len() ==> (#[trigger] closings[k]).0 < before.len()
                        && has_range(before[closings[k].0 as int]),
            decreases closing@.len() - closed,
        {
            let b = closing[closed].1.0;
            let ghost states = branch_states(branches@);
            let ghost lanes = sweep.occupied;
            assert(closings[closed as int].0 == b);
            assert(states[b as int] == before[b as int].in_column(sweep.lanes[b as int]));
            assert(branches@[b as int]@ == states[b as int]);
            let group = branches[b].visual.order_group;
            proof {
                assert(has_range(before[b as int]));
                if sweep.close_branch(before, b as int).stuck {
                    lemma_stuck_at(
                        sweep.close_branch(before, b as int),
                        before,
                        closings,
                        position as int,
                    );
                }
                lemma_close_shaped(sweep, before, groups as nat, b as int);
            }
            if let Some(column) = branches[b].visual.column {
                assert(sweep.lanes[b as int] == Some(column));
                assert(occupied@[group as int]@ == lanes[group as int]);
                occupied[group][column] = false;
            }
            closed = closed + 1;
            proof {
                sweep = sweep.close_branch(before, b as int);
            }
            assert(occupied_lanes(occupied@) =~= sweep.occupied);
            assert(branch_states(branches@) =~= in_columns(before, sweep.lanes));
        }
        assert(sweep == left);
    }
    let mut counts: Vec<usize> = Vec::new();
    for group in 0..occupied.len()
        invariant
            counts@.len() == group,
            forall|g: int| 0 <= g < group ==> #[trigger] counts@[g] == occupied@[g]@.len(),
    {
        counts.push(occupied[group].len());
    }
    proof {
        let placed = branch_states(branches@);
        assert(as_counts(counts@) =~= lane_counts(sweep.occupied)) by {
            assert(occupied_lanes(occupied@) == sweep.occupied);
            assert forall|g: int| 0 <= g < groups implies as_counts(counts@)[g] == lane_counts(
                sweep.occupied,
            )[g] by {
                assert(sweep.occupied[g] == occupied@[g]@);
            }
        }
        assert(columns_of(placed) =~= sweep.lanes);
        assert(shiftable(placed, columns_of(placed), as_counts(counts@)));
        assert(graph_columns(placed, sweep.lanes, as_counts(counts@)) =~= graph_columns(
            before,
            sweep.lanes,
            as_counts(counts@),
        ));
    }
    shift_to_graph_columns(branches, &counts);
    assert(branch_states(branches@) =~= in_columns(
        before,
        fcfs_columns(before, groups as nat, commits@.len(), forward),
    ));
}

/// How many positions a sweep over `commits` positions reaches before `position`.
spec fn steps_before(commits: nat, forward: bool, position: int) -> int {
    if forward {
        position
    } else {
        commits - 1 - position
    }
}

/// What holds of a sweep at its position number `step`, and after that position once `left`:
/// open branches occupy lanes of their own, and a branch that has a lane and is not open was closed
/// at an earlier position.
spec fn orderly(
    sweep: Sweep,
    branches: Seq<BranchState>,
    commits: nat,
    forward: bool,
    step: int,
    left: bool,
) -> bool {
    let opening = opening_queue(branches, commits, forward);
    let closing = closing_queue(branches, commits, forward);
    let count = branches.len();
    &&& forall|b: int| #[trigger]
        sweep.open.contains(b) ==> {
            &&& 0 <= b < count
            &&& sweep.lanes[b] is Some
            &&& sweep.occupied[branches[b].visual.order_group as int][sweep.lanes[b]->0 as int]
        }
    &&& forall|a: int, b: int|
        #![trigger sweep.open.contains(a), sweep.open.contains(b)]
        sweep.open.contains(a) && sweep.open.contains(b) && a != b
            && branches[a].visual.order_group == branches[b].visual.order_group
            ==> sweep.lanes[a] != sweep.lanes[b]
    &&& forall|b: int|
        0 <= b < count && (#[trigger] sweep.lanes[b]) is Some ==> has_range(branches[b])
    &&& forall|b: int|
        0 <= b < count && (#[trigger] sweep.lanes[b]) is Some && !sweep.open.contains(b) ==> {
            let closed_at = steps_before(
                commits,
                forward,
                end_position(branches[b], commits, forward) as int,
            );
            closed_at < step || left && closed_at == step
        }
    &&& forall|k: int|
        sweep.opened <= k < opening.len() ==> sweep.lanes[(#[trigger] opening[k]).0 as int] is None
    &&& forall|k: int|
        sweep.closed <= k < closing.len() && sweep.lanes[(#[trigger] closing[k]).0 as int] is Some
            ==> sweep.open.contains(closing[k].0 as int)
    &&& forall|i: int, j: int|
        #![trigger sweep.lanes[i], sweep.lanes[j]]
        0 <= i < count && 0 <= j < count && i != j && sweep.lanes[i] is Some && sweep.lanes[i]
            == sweep.lanes[j] && branches[i].visual.order_group == branches[j].visual.order_group
            ==> !overlap(branches, commits, i, j)
}

/// What makes the state of a sweep over branches meaningful.
spec fn sweeping(
    sweep: Sweep,
    branches: Seq<BranchState>,
    groups: nat,
    commits: nat,
    forward: bool,
    step: int,
    left: bool,
) -> bool {
    &&& branches.len() <= usize::MAX
    &&& unplaced(branches, groups)
    &&& sound(sweep, branches, groups)
    &&& sweep.opened <= opening_queue(branches, commits, forward).len()
    &&& sweep.closed <= closing_queue(branches, commits, forward).len()
    &&& lanes_used(branches, sweep.lanes, lane_counts(sweep.occupied))
    &&& orderly(sweep, branches, commits, forward, step, left)
}

proof fn lemma_open_once(
    sweep: Sweep,
    branches: Seq<BranchState>,
    groups: nat,
    commits: nat,
    forward: bool,
    step: int,
)
    requires
        sweeping(sweep, branches, groups, commits, forward, step, false),
        sweep.opened < opening_queue(branches, commits, forward).len(),
        opening_queue(branches, commits, forward)[sweep.opened].1 == position_at(
            commits,
            forward,
            step,
        ),
    ensures
        sweeping(
            sweep.open_branch(
                branches,
                opening_queue(branches, commits, forward)[sweep.opened].0 as int,
            ),
            branches,
            groups,
            commits,
            forward,
            step,
            false,
        ),
{
    let opening = opening_queue(branches, commits, forward);
    let closing = closing_queue(branches, commits, forward);
    let b = opening[sweep.opened].0 as int;
    let after = sweep.open_branch(branches, b);
    let group = branches[b].visual.order_group as int;
    let lane = first_free(sweep.occupied[group], 0);
    lemma_event_queue(branches, commits, !forward, forward);
    lemma_event_queue(branches, commits, forward, forward);
    lemma_ranged(branches, branches.len());
    lemma_open_sound(sweep, branches, groups, b);
    lemma_first_free(sweep.occupied[group], 0);
    assert(branches[b].visual.column is None);
    assert(sweep.lanes[b] is None);
    assert(!sweep.open.contains(b));
    lemma_lanes_used(
        branches,
        sweep.lanes,
        lane_counts(sweep.occupied),
        lane_counts(after.occupied),
        b,
        lane as usize,
    );
    assert forall|a: int| #[trigger] after.open.contains(a) implies {
        &&& 0 <= a < branches.len()
        &&& after.lanes[a] is Some
        &&& after.occupied[branches[a].visual.order_group as int][after.lanes[a]->0 as int]
    } by {
        if a != b {
            assert(sweep.open.contains(a));
            assert(after.lanes[a] == sweep.lanes[a]);
        }
    }
    assert forall|a: int, c: int|
        #![trigger after.open.contains(a), after.open.contains(c)]
        after.open.contains(a) && after.open.contains(c) && a != c
            && branches[a].visual.order_group
            == branches[c].visual.order_group implies after.lanes[a] != after.lanes[c] by {
        if a == b {
            assert(sweep.open.contains(c));
        } else {
            assert(sweep.open.contains(a));
            if c != b {
                assert(sweep.open.contains(c));
            }
        }
    }
    assert forall|k: int| after.opened <= k < opening.len() implies after.lanes[(
    #[trigger] opening[k]).0 as int] is None by {
        assert(opening[k].0 != opening[sweep.opened].0);
    }
    assert forall|i: int, j: int|
        #![trigger after.lanes[i], after.lanes[j]]
        0 <= i < branches.len() && 0 <= j < branches.len() && i != j && after.lanes[i] is Some
            && after.lanes[i] == after.lanes[j] && branches[i].visual.order_group
            == branches[j].visual.order_group implies !overlap(branches, commits, i, j) by {
        if i == b || j == b {
            let other = if i == b {
                j
            } else {
                i
            };
            assert(sweep.lanes[other] == Some(lane as usize));
            assert(!sweep.open.contains(other));
        } else {
            assert(sweep.lanes[i] == after.lanes[i]);
            assert(sweep.lanes[j] == after.lanes[j]);
        }
    }
}

proof fn lemma_open_at(
    sweep: Sweep,
    branches: Seq<BranchState>,
    groups: nat,
    commits: nat,
    forward: bool,
    step: int,
)
    requires
        sweeping(sweep, branches, groups, commits, forward, step, false),
    ensures
        sweeping(
            sweep.open_at(
                branches,
                opening_queue(branches, commits, forward),
                position_at(commits, forward, step),
            ),
            branches,
            groups,
            commits,
            forward,
            step,
            false,
        ),
    decreases opening_queue(branches, commits, forward).len() - sweep.opened,
{
    let opening = opening_queue(branches, commits, forward);
    let closing = closing_queue(branches, commits, forward);
    let position = position_at(commits, forward, step);
    if sweep.opened < opening.len() && opening[sweep.opened].1 == position {
        let after = sweep.open_branch(branches, opening[sweep.opened].0 as int);
        lemma_open_once(sweep, branches, groups, commits, forward, step);
        lemma_open_at(after, branches, groups, commits, forward, step);
    }
}

proof fn lemma_close_once(
    sweep: Sweep,
    branches: Seq<BranchState>,
    groups: nat,
    commits: nat,
    forward: bool,
    step: int,
)
    requires
        sweeping(sweep, branches, groups, commits, forward, step, true),
        sweep.closed < closing_queue(branches, commits, forward).len(),
        closing_queue(branches, commits, forward)[sweep.closed].1 == position_at(
            commits,
            forward,
            step,
        ),
    ensures
        sweeping(
            sweep.close_branch(
                branches,
                closing_queue(branches, commits, forward)[sweep.closed].0 as int,
            ),
            branches,
            groups,
            commits,
            forward,
            step,
            true,
        ),
{
    let closing = closing_queue(branches, commits, forward);
    let b = closing[sweep.closed].0 as int;
    let after = sweep.close_branch(branches, b);
    lemma_event_queue(branches, commits, !forward, forward);
    lemma_event_queue(branches, commits, forward, forward);
    lemma_close_sound(sweep, branches, groups, b);
    assert(after.lanes == sweep.lanes);
    assert(lane_counts(after.occupied) =~= lane_counts(sweep.occupied));
    assert forall|a: int| #[trigger] after.open.contains(a) implies {
        &&& 0 <= a < branches.len()
        &&& after.lanes[a] is Some
        &&& after.occupied[branches[a].visual.order_group as int][after.lanes[a]->0 as int]
    } by {
        assert(sweep.open.contains(a));
        if sweep.lanes[b] is Some {
            assert(sweep.open.contains(b));
        }
    }
    assert forall|a: int, c: int|
        #![trigger after.open.contains(a), after.open.contains(c)]
        after.open.contains(a) && after.open.contains(c) && a != c
            && branches[a].visual.order_group
            == branches[c].visual.order_group implies after.lanes[a] != after.lanes[c] by {
        assert(sweep.open.contains(a) && sweep.open.contains(c));
    }
    assert forall|k: int|
        after.closed <= k < closing.len() && after.lanes[(#[trigger] closing[k]).0 as int]
            is Some implies after.open.contains(closing[k].0 as int) by {
        assert(closing[k].0 != closing[sweep.closed].0);
    }
}

proof fn lemma_close_at(
    sweep: Sweep,
    branches: Seq<BranchState>,
    groups: nat,
    commits: nat,
    forward: bool,
    step: int,
)
    requires
        sweeping(sweep, branches, groups, commits, forward, step, true),
    ensures
        sweeping(
            sweep.close_at(
                branches,
                closing_queue(branches, commits, forward),
                position_at(commits, forward, step),
            ),
            branches,
            groups,
            commits,
            forward,
            step,
            true,
        ),
    decreases closing_queue(branches, commits, forward).len() - sweep.closed,
{
    let closing = closing_queue(branches, commits, forward);
    let position = position_at(commits, forward, step);
    if sweep.closed < closing.len() && closing[sweep.closed].1 == position {
        let after = sweep.close_branch(branches, closing[sweep.closed].0 as int);
        lemma_close_once(sweep, branches, groups, commits, forward, step);
        lemma_close_at(after, branches, groups, commits, forward, step);
    }
}

proof fn lemma_swept(
    branches: Seq<BranchState>,
    groups: nat,
    commits: nat,
    forward: bool,
    steps: int,
)
    requires
        branches.len() <= usize::MAX,
        unplaced(branches, groups),
        0 <= steps <= commits,
    ensures
        sweeping(
            swept(branches, groups, commits, forward, steps),
            branches,
            groups,
            commits,
            forward,
            steps,
            false,
        ),
    decreases steps,
{
    let sweep = swept(branches, groups, commits, forward, steps);
    if steps == 0 {
        lemma_start_sound(branches, groups);
        lemma_event_queue(branches, commits, !forward, forward);
        lemma_event_queue(branches, commits, forward, forward);
        assert forall|i: int| 0 <= i < branches.len() implies (#[trigger] sweep.lanes[i]) is None by {
            assert(branches[i].visual.column is None);
        }
    } else {
        let before = swept(branches, groups, commits, forward, steps - 1);
        lemma_swept(branches, groups, commits, forward, steps - 1);
        lemma_open_at(before, branches, groups, commits, forward, steps - 1);
        let opened = before.open_at(
            branches,
            opening_queue(branches, commits, forward),
            position_at(commits, forward, steps - 1),
        );
        assert(sweeping(opened, branches, groups, commits, forward, steps - 1, true));
        lemma_close_at(opened, branches, groups, commits, forward, steps - 1);
    }
}

/// Branches without columns can get columns.
pub proof fn lemma_placeable(
    branches: Seq<BranchState>,
    groups: nat,
    commits: nat,
    forward: bool,
)
    requires
        branches.len() <= usize::MAX,
        unplaced(branches, groups),
    ensures
        placeable(branches, groups, commits, forward),
{
    let sweep = swept(branches, groups, commits, forward, commits as int);
    lemma_swept(branches, groups, commits, forward, commits as int);
    lemma_event_queue(branches, commits, !forward, forward);
    lemma_ranged(branches, branches.len());
    lemma_shiftable(branches, sweep.lanes, lane_counts(sweep.occupied));
}

/// First-come first-served scheduling leaves no overlaps: two branches that it gives the same
/// column have no position in common. It keeps the groups apart, in their order, and gives no
/// column to a branch without positions.
pub proof fn law_fcfs_free_of_overlaps(
    branches: Seq<BranchState>,
    groups: nat,
    commits: nat,
    forward: bool,
)
    requires
        branches.len() <= usize::MAX,
        unplaced(branches, groups),
    ensures
        free_of_overlaps(branches, commits, fcfs_columns(branches, groups, commits, forward)),
        groups_in_order(branches, fcfs_columns(branches, groups, commits, forward)),
        forall|i: int|
            0 <= i < branches.len() && (#[trigger] fcfs_columns(
                branches,
                groups,
                commits,
                forward,
            )[i]) is Some ==> has_range(branches[i]),
{
    let sweep = swept(branches, groups, commits, forward, commits as int);
    let counts = lane_counts(sweep.occupied);
    let columns = fcfs_columns(branches, groups, commits, forward);
    lemma_swept(branches, groups, commits, forward, commits as int);
    lemma_event_queue(branches, commits, !forward, forward);
    lemma_ranged(branches, branches.len());
    lemma_groups_in_order(branches, sweep.lanes, counts);
    assert forall|i: int, j: int|
        #![trigger columns[i], columns[j]]
        0 <= i < branches.len() && 0 <= j < branches.len() && i != j && columns[i] is Some
            && columns[i] == columns[j] implies !overlap(branches, commits, i, j) by {
        lemma_same_column(branches, sweep.lanes, counts, i, j);
        assert(sweep.lanes[i] is Some);
    }
    assert forall|i: int| 0 <= i < branches.len() && (#[trigger] columns[i]) is Some implies has_range(
        branches[i],
    ) by {
        assert(sweep.lanes[i] is Some);
    }
}

/// First-come first-served scheduling leaves no column empty: those in use are all below some
/// number.
pub proof fn law_fcfs_leaves_no_gaps(
    branches: Seq<BranchState>,
    groups: nat,
    commits: nat,
    forward: bool,
)
    requires
        branches.len() <= usize::MAX,
        unplaced(branches, groups),
    ensures
        fcfs_columns(branches, groups, commits, forward).len() == branches.len(),
        exists|n: nat| #[trigger] fills(fcfs_columns(branches, groups, commits, forward), n),
{
    let sweep = swept(branches, groups, commits, forward, commits as int);
    lemma_swept(branches, groups, commits, forward, commits as int);
    lemma_event_queue(branches, commits, !forward, forward);
    lemma_ranged(branches, branches.len());
    let counts = lane_counts(sweep.occupied);
    lemma_fills(branches, sweep.lanes, counts);
    assert(fills(
        fcfs_columns(branches, groups, commits, forward),
        lanes_before(counts, counts.len() as int),
    ));
}

/// Whether the sweep comes to the branches one after the other: the positions at which it opens
/// them can be told apart as `i32`, and none lies past the last commit, if the sweep starts there.
pub open spec fn within(branches: Seq<BranchState>, commits: nat, forward: bool) -> bool {
    forall|i: int|
        #![trigger branches[i]]
        0 <= i < branches.len() && has_range(branches[i]) ==> {
            let opens = end_position(branches[i], commits, !forward);
            &&& opens <= i32::MAX
            &&& !forward ==> opens < commits
        }
}

/// What holds of a sweep at its position number `step`: the branches opened so far have lanes, and
/// no event that is still to come lies at an earlier position.
spec fn on_time(
    sweep: Sweep,
    branches: Seq<BranchState>,
    commits: nat,
    forward: bool,
    step: int,
) -> bool {
    let opening = opening_queue(branches, commits, forward);
    &&& sweep.lanes.len() == branches.len()
    &&& 0 <= sweep.opened <= opening.len()
    &&& forall|k: int|
        0 <= k < sweep.opened ==> sweep.lanes[(#[trigger] opening[k]).0 as int] is Some
    &&& forall|k: int|
        sweep.opened <= k < opening.len() ==> steps_before(
            commits,
            forward,
            (#[trigger] opening[k]).1 as int,
        ) >= step
}

proof fn lemma_opening_sorted(
    branches: Seq<BranchState>,
    commits: nat,
    forward: bool,
    k: int,
    l: int,
)
    requires
        branches.len() <= usize::MAX,
        within(branches, commits, forward),
        0 <= k < l < opening_queue(branches, commits, forward).len(),
    ensures
        steps_before(commits, forward, opening_queue(branches, commits, forward)[k].1 as int)
            <= steps_before(commits, forward, opening_queue(branches, commits, forward)[l].1 as int),
{
    let listed = events(branches, commits, !forward);
    let keys = event_keys(listed, forward);
    let order = stable_order(keys);
    let queue = opening_queue(branches, commits, forward);
    lemma_event_queue(branches, commits, !forward, forward);
    lemma_stable_order(keys);
    assert(precedes(keys, order[k], order[l]));
    assert(queue[k] == listed[order[k]]);
    assert(queue[l] == listed[order[l]]);
    let a = branches[queue[k].0 as int];
    let b = branches[queue[l].0 as int];
    assert(has_range(a) && has_range(b));
    assert(queue[k].1 <= i32::MAX && queue[l].1 <= i32::MAX);
}

proof fn lemma_open_at_on_time(
    sweep: Sweep,
    branches: Seq<BranchState>,
    commits: nat,
    forward: bool,
    step: int,
)
    requires
        branches.len() <= usize::MAX,
        within(branches, commits, forward),
        on_time(sweep, branches, commits, forward, step),
    ensures
        on_time(
            sweep.open_at(
                branches,
                opening_queue(branches, commits, forward),
                position_at(commits, forward, step),
            ),
            branches,
            commits,
            forward,
            step + 1,
        ),
    decreases opening_queue(branches, commits, forward).len() - sweep.opened,
{
    let opening = opening_queue(branches, commits, forward);
    let position = position_at(commits, forward, step);
    if sweep.opened < opening.len() {
        lemma_event_queue(branches, commits, !forward, forward);
        if opening[sweep.opened].1 == position {
            let b = opening[sweep.opened].0 as int;
            let after = sweep.open_branch(branches, b);
            lemma_open_at_on_time(after, branches, commits, forward, step);
        } else {
            assert forall|k: int| sweep.opened <= k < opening.len() implies steps_before(
                commits,
                forward,
                (#[trigger] opening[k]).1 as int,
            ) >= step + 1 by {
                if k > sweep.opened {
                    lemma_opening_sorted(branches, commits, forward, sweep.opened, k);
                }
            }
        }
    }
}

proof fn lemma_close_at_keeps_lanes(
    sweep: Sweep,
    branches: Seq<BranchState>,
    closing: Seq<(usize, usize)>,
    position: int,
)
    ensures
        sweep.close_at(branches, closing, position).lanes == sweep.lanes,
        sweep.close_at(branches, closing, position).opened == sweep.opened,
    decreases closing.len() - sweep.closed,
{
    if 0 <= sweep.closed < closing.len() && closing[sweep.closed].1 == position {
        lemma_close_at_keeps_lanes(
            sweep.close_branch(branches, closing[sweep.closed].0 as int),
            branches,
            closing,
            position,
        );
    }
}

proof fn lemma_swept_on_time(
    branches: Seq<BranchState>,
    groups: nat,
    commits: nat,
    forward: bool,
    steps: int,
)
    requires
        branches.len() <= usize::MAX,
        unplaced(branches, groups),
        within(branches, commits, forward),
        0 <= steps <= commits,
    ensures
        on_time(
            swept(branches, groups, commits, forward, steps),
            branches,
            commits,
            forward,
            steps,
        ),
    decreases steps,
{
    if steps == 0 {
        let sweep = swept(branches, groups, commits, forward, steps);
        lemma_event_queue(branches, commits, !forward, forward);
        assert forall|i: int| 0 <= i < branches.len() implies (#[trigger] sweep.lanes[i]) is None by {
            assert(branches[i].visual.column is None);
        }
        assert forall|k: int|
            0 <= k < opening_queue(branches, commits, forward).len() implies steps_before(
            commits,
            forward,
            (#[trigger] opening_queue(branches, commits, forward)[k]).1 as int,
        ) >= 0 by {
            assert(has_range(branches[opening_queue(branches, commits, forward)[k].0 as int]));
        }
    } else {
        let before = swept(branches, groups, commits, forward, steps - 1);
        let position = position_at(commits, forward, steps - 1);
        lemma_swept_on_time(branches, groups, commits, forward, steps - 1);
        lemma_open_at_on_time(before, branches, commits, forward, steps - 1);
        lemma_close_at_keeps_lanes(
            before.open_at(branches, opening_queue(branches, commits, forward), position),
            branches,
            closing_queue(branches, commits, forward),
            position,
        );
    }
}

/// First-come first-served scheduling gives a column to every branch that it opens at one of the
/// commits: at its first position or, if the sweep starts at the last commit, at its last one.
pub proof fn law_fcfs_places_every_branch(
    branches: Seq<BranchState>,
    groups: nat,
    commits: nat,
    forward: bool,
    i: int,
)
    requires
        branches.len() <= usize::MAX,
        unplaced(branches, groups),
        within(branches, commits, forward),
        0 <= i < branches.len(),
    ensures
        has_range(branches[i]) && end_position(branches[i], commits, !forward) < commits
            ==> fcfs_columns(
            branches,
            groups,
            commits,
            forward,
        )[i] is Some,
{
    let opening = opening_queue(branches, commits, forward);
    let sweep = swept(branches, groups, commits, forward, commits as int);
    if has_range(branches[i]) && end_position(branches[i], commits, !forward) < commits {
        lemma_swept_on_time(branches, groups, commits, forward, commits as int);
        lemma_event_queue(branches, commits, !forward, forward);
        let numbers = ranged(branches, branches.len());
        let keys = event_keys(events(branches, commits, !forward), forward);
        lemma_ranged(branches, branches.len());
        lemma_stable_order(keys);
        let n = choose|n: int| 0 <= n < numbers.len() && numbers[n] == i as usize;
        lemma_stable_order_complete(keys, stable_order(keys), n);
        let k = choose|k: int| 0 <= k < stable_order(keys).len() && stable_order(keys)[k] == n;
        assert(opening[k].0 == i as usize);
    }
}

/// How many positions a sweep reaches before it opens branch `b`.
spec fn opens_at(branches: Seq<BranchState>, commits: nat, forward: bool, b: int) -> int {
    steps_before(commits, forward, end_position(branches[b], commits, !forward) as int)
}

/// How many positions a sweep reaches before it closes branch `b`.
spec fn closes_at(branches: Seq<BranchState>, commits: nat, forward: bool, b: int) -> int {
    steps_before(commits, forward, end_position(branches[b], commits, forward) as int)
}

/// Whether an open branch occupies a lane of a group.
spec fn is_held(
    sweep: Sweep,
    branches: Seq<BranchState>,
    group: int,
    lane: int,
) -> bool {
    exists|b: int| #[trigger]
        sweep.open.contains(b) && branches[b].visual.order_group == group
            && sweep.lanes[b] == Some(lane as usize)
}

/// Whether lane `lane` is that of a branch of the same group which was opened before the branch of
/// opening event number `k`, and not closed before it.
spec fn is_below(
    lanes: Seq<Option<usize>>,
    branches: Seq<BranchState>,
    commits: nat,
    forward: bool,
    k: int,
    lane: int,
) -> bool {
    let opening = opening_queue(branches, commits, forward);
    let b = opening[k].0 as int;
    exists|earlier: int|
        0 <= earlier < k && {
            let a = (#[trigger] opening[earlier]).0 as int;
            &&& branches[a].visual.order_group == branches[b].visual.order_group
            &&& lanes[a] == Some(lane as usize)
            &&& closes_at(branches, commits, forward, a) >= opens_at(branches, commits, forward, b)
        }
}

/// What holds of a sweep over branches that fit, at its position number `step`, before branches are
/// closed there and after that.
spec fn diligent(
    sweep: Sweep,
    branches: Seq<BranchState>,
    commits: nat,
    forward: bool,
    step: int,
    closing_now: bool,
) -> bool {
    let opening = opening_queue(branches, commits, forward);
    let closing = closing_queue(branches, commits, forward);
    let next = if closing_now {
        step + 1
    } else {
        step
    };
    &&& 0 <= sweep.opened <= opening.len()
    &&& 0 <= sweep.closed <= closing.len()
    &&& forall|k: int|
        sweep.opened <= k < opening.len() ==> opens_at(
            branches,
            commits,
            forward,
            (#[trigger] opening[k]).0 as int,
        ) >= next
    &&& forall|k: int|
        0 <= k < sweep.opened ==> opens_at(
            branches,
            commits,
            forward,
            (#[trigger] opening[k]).0 as int,
        ) <= step
    &&& forall|k: int|
        sweep.closed <= k < closing.len() ==> closes_at(
            branches,
            commits,
            forward,
            (#[trigger] closing[k]).0 as int,
        ) >= step
    &&& forall|k: int|
        0 <= k < sweep.closed ==> closes_at(
            branches,
            commits,
            forward,
            (#[trigger] closing[k]).0 as int,
        ) < next
    &&& forall|k: int|
        0 <= k < sweep.closed ==> !sweep.open.contains((#[trigger] closing[k]).0 as int)
    &&& forall|b: int| #[trigger]
        sweep.open.contains(b) ==> exists|k: int|
            0 <= k < sweep.opened && (#[trigger] opening[k]).0 == b
    &&& forall|group: int, lane: int|
        #![trigger sweep.occupied[group][lane]]
        0 <= group < sweep.occupied.len() && 0 <= lane < sweep.occupied[group].len()
            && sweep.occupied[group][lane] ==> is_held(sweep, branches, group, lane)
    &&& forall|k: int, lane: int|
        0 <= k < sweep.opened && 0 <= lane < sweep.lanes[opening[k].0 as int]->0
            ==> #[trigger] is_below(sweep.lanes, branches, commits, forward, k, lane)
}

/// Events of branches that fit come in the order in which the sweep reaches them, of one position
/// in the order of the branches.
proof fn lemma_queue_sorted(
    branches: Seq<BranchState>,
    commits: nat,
    last: bool,
    forward: bool,
    k: int,
    l: int,
)
    requires
        branches.len() <= usize::MAX,
        fits(branches, commits),
        0 <= k < l < event_queue(branches, commits, last, forward).len(),
    ensures
        ({
            let queue = event_queue(branches, commits, last, forward);
            let (a, b) = (
                steps_before(commits, forward, queue[k].1 as int),
                steps_before(commits, forward, queue[l].1 as int),
            );
            a < b || a == b && queue[k].0 < queue[l].0
        }),
{
    let listed = events(branches, commits, last);
    let keys = event_keys(listed, forward);
    let order = stable_order(keys);
    let queue = event_queue(branches, commits, last, forward);
    let numbers = ranged(branches, branches.len());
    lemma_event_queue(branches, commits, last, forward);
    lemma_ranged(branches, branches.len());
    lemma_stable_order(keys);
    assert(precedes(keys, order[k], order[l]));
    assert(queue[k] == listed[order[k]]);
    assert(queue[l] == listed[order[l]]);
    let a = branches[queue[k].0 as int];
    let b = branches[queue[l].0 as int];
    assert(has_range(a) && has_range(b));
    assert(queue[k].1 <= i32::MAX && queue[l].1 <= i32::MAX);
    if order[k] < order[l] {
        assert(numbers[order[k]] < numbers[order[l]]);
    }
}

/// Each branch with positions has an event.
proof fn lemma_has_event(
    branches: Seq<BranchState>,
    commits: nat,
    last: bool,
    forward: bool,
    b: int,
) -> (k: int)
    requires
        branches.len() <= usize::MAX,
        0 <= b < branches.len(),
        has_range(branches[b]),
    ensures
        0 <= k < event_queue(branches, commits, last, forward).len(),
        event_queue(branches, commits, last, forward)[k].0 == b,
{
    let numbers = ranged(branches, branches.len());
    let keys = event_keys(events(branches, commits, last), forward);
    lemma_ranged(branches, branches.len());
    lemma_stable_order(keys);
    let n = choose|n: int| 0 <= n < numbers.len() && numbers[n] == b as usize;
    lemma_stable_order_complete(keys, stable_order(keys), n);
    choose|k: int| 0 <= k < stable_order(keys).len() && stable_order(keys)[k] == n
}

proof fn lemma_open_diligent(
    sweep: Sweep,
    branches: Seq<BranchState>,
    groups: nat,
    commits: nat,
    forward: bool,
    step: int,
)
    requires
        fits(branches, commits),
        sweeping(sweep, branches, groups, commits, forward, step, false),
        diligent(sweep, branches, commits, forward, step, false),
        sweep.opened < opening_queue(branches, commits, forward).len(),
        opens_at(
            branches,
            commits,
            forward,
            opening_queue(branches, commits, forward)[sweep.opened].0 as int,
        ) == step,
    ensures
        diligent(
            sweep.open_branch(
                branches,
                opening_queue(branches, commits, forward)[sweep.opened].0 as int,
            ),
            branches,
            commits,
            forward,
            step,
            false,
        ),
{
    let opening = opening_queue(branches, commits, forward);
    let closing = closing_queue(branches, commits, forward);
    let b = opening[sweep.opened].0 as int;
    let group = branches[b].visual.order_group as int;
    let lane = first_free(sweep.occupied[group], 0);
    let after = sweep.open_branch(branches, b);
    lemma_event_queue(branches, commits, !forward, forward);
    lemma_event_queue(branches, commits, forward, forward);
    lemma_ranged(branches, branches.len());
    assert(has_range(branches[b]));
    lemma_open_sound(sweep, branches, groups, b);
    lemma_first_free(sweep.occupied[group], 0);
    assert(sweep.lanes[b] is None);
    assert forall|k: int| 0 <= k < after.closed implies !after.open.contains(
        (#[trigger] closing[k]).0 as int,
    ) by {
        if closing[k].0 == b {
            assert(closes_at(branches, commits, forward, b) < step);
        }
    }
    assert forall|a: int| #[trigger] after.open.contains(a) implies exists|k: int|
        0 <= k < after.opened && (#[trigger] opening[k]).0 == a by {
        if a == b {
            assert(opening[sweep.opened].0 == a);
        } else {
            assert(sweep.open.contains(a));
            let k = choose|k: int| 0 <= k < sweep.opened && (#[trigger] opening[k]).0 == a;
            assert(opening[k].0 == a);
        }
    }
    assert forall|g: int, l: int|
        #![trigger after.occupied[g][l]]
        0 <= g < after.occupied.len() && 0 <= l < after.occupied[g].len()
            && after.occupied[g][l] implies is_held(after, branches, g, l) by {
        if g == group && l == lane {
            assert(after.open.contains(b));
        } else {
            assert(sweep.occupied[g][l]);
            assert(is_held(sweep, branches, g, l));
            let a = choose|a: int| #[trigger]
                sweep.open.contains(a) && branches[a].visual.order_group == g
                    && sweep.lanes[a] == Some(l as usize);
            assert(a != b);
            assert(after.open.contains(a));
        }
    }
    assert forall|k: int, l: int|
        0 <= k < after.opened && 0 <= l < after.lanes[opening[k].0 as int]->0 implies #[trigger] is_below(
        after.lanes,
        branches,
        commits,
        forward,
        k,
        l,
    ) by {
        if k < sweep.opened {
            assert(opening[k].0 != opening[sweep.opened].0);
            assert(is_below(sweep.lanes, branches, commits, forward, k, l));
            let earlier = choose|earlier: int|
                0 <= earlier < k && {
                    let a = (#[trigger] opening[earlier]).0 as int;
                    &&& branches[a].visual.order_group
                        == branches[opening[k].0 as int].visual.order_group
                    &&& sweep.lanes[a] == Some(l as usize)
                    &&& closes_at(branches, commits, forward, a) >= opens_at(
                        branches,
                        commits,
                        forward,
                        opening[k].0 as int,
                    )
                };
            assert(opening[earlier].0 != opening[sweep.opened].0);
            assert(after.lanes[opening[earlier].0 as int] == Some(l as usize));
        } else {
            assert(sweep.occupied[group][l]);
            assert(is_held(sweep, branches, group, l));
            let a = choose|a: int| #[trigger]
                sweep.open.contains(a) && branches[a].visual.order_group == group
                    && sweep.lanes[a] == Some(l as usize);
            let earlier = choose|k: int| 0 <= k < sweep.opened && (#[trigger] opening[k]).0 == a;
            let c = lemma_has_event(branches, commits, forward, forward, a);
            assert(closing[c].0 == a);
            assert(closes_at(branches, commits, forward, a) >= step);
            assert(opening[earlier].0 == a);
            assert(after.lanes[a] == Some(l as usize));
        }
    }
}

proof fn lemma_close_diligent(
    sweep: Sweep,
    branches: Seq<BranchState>,
    groups: nat,
    commits: nat,
    forward: bool,
    step: int,
)
    requires
        fits(branches, commits),
        sweeping(sweep, branches, groups, commits, forward, step, true),
        diligent(sweep, branches, commits, forward, step, true),
        sweep.closed < closing_queue(branches, commits, forward).len(),
        closes_at(
            branches,
            commits,
            forward,
            closing_queue(branches, commits, forward)[sweep.closed].0 as int,
        ) == step,
    ensures
        diligent(
            sweep.close_branch(
                branches,
                closing_queue(branches, commits, forward)[sweep.closed].0 as int,
            ),
            branches,
            commits,
            forward,
            step,
            true,
        ),
{
    let opening = opening_queue(branches, commits, forward);
    let closing = closing_queue(branches, commits, forward);
    let b = closing[sweep.closed].0 as int;
    let group = branches[b].visual.order_group as int;
    let after = sweep.close_branch(branches, b);
    lemma_event_queue(branches, commits, !forward, forward);
    lemma_event_queue(branches, commits, forward, forward);
    lemma_close_sound(sweep, branches, groups, b);
    assert(after.lanes == sweep.lanes);
    assert forall|k: int| 0 <= k < after.closed implies !after.open.contains(
        (#[trigger] closing[k]).0 as int,
    ) by {
        if k == sweep.closed && sweep.lanes[b] is None {
            if sweep.open.contains(b) {
                assert(sweep.lanes[b] is Some);
            }
        }
    }
    assert forall|a: int| #[trigger] after.open.contains(a) implies exists|k: int|
        0 <= k < after.opened && (#[trigger] opening[k]).0 == a by {
        assert(sweep.open.contains(a));
        let k = choose|k: int| 0 <= k < sweep.opened && (#[trigger] opening[k]).0 == a;
        assert(opening[k].0 == a);
    }
    assert forall|g: int, l: int|
        #![trigger after.occupied[g][l]]
        0 <= g < after.occupied.len() && 0 <= l < after.occupied[g].len()
            && after.occupied[g][l] implies is_held(after, branches, g, l) by {
        assert(sweep.occupied[g][l]);
        assert(is_held(sweep, branches, g, l));
        let a = choose|a: int| #[trigger]
            sweep.open.contains(a) && branches[a].visual.order_group == g
                && sweep.lanes[a] == Some(l as usize);
        let counts = lane_counts(sweep.occupied);
        lemma_lanes_before_monotonic(counts, g, g + 1);
        lemma_lanes_before_monotonic(counts, g + 1, groups as int);
        assert(counts[g] == sweep.occupied[g].len());
        lemma_ranged(branches, branches.len());
        assert(l <= usize::MAX);
        assert(after.open.contains(a));
    }
    assert forall|k: int, l: int|
        0 <= k < after.opened && 0 <= l < after.lanes[opening[k].0 as int]->0 implies #[trigger] is_below(
        after.lanes,
        branches,
        commits,
        forward,
        k,
        l,
    ) by {
        assert(is_below(sweep.lanes, branches, commits, forward, k, l));
    }
}

/// Opening branches at a position leaves only those that are opened later.
proof fn lemma_open_at_diligent(
    sweep: Sweep,
    branches: Seq<BranchState>,
    groups: nat,
    commits: nat,
    forward: bool,
    step: int,
)
    requires
        fits(branches, commits),
        0 <= step < commits,
        sweeping(sweep, branches, groups, commits, forward, step, false),
        diligent(sweep, branches, commits, forward, step, false),
    ensures
        ({
            let after = sweep.open_at(
                branches,
                opening_queue(branches, commits, forward),
                position_at(commits, forward, step),
            );
            &&& sweeping(after, branches, groups, commits, forward, step, false)
            &&& diligent(after, branches, commits, forward, step, true)
        }),
    decreases opening_queue(branches, commits, forward).len() - sweep.opened,
{
    let opening = opening_queue(branches, commits, forward);
    let position = position_at(commits, forward, step);
    lemma_event_queue(branches, commits, !forward, forward);
    lemma_open_at(sweep, branches, groups, commits, forward, step);
    if sweep.opened < opening.len() && opening[sweep.opened].1 == position {
        let b = opening[sweep.opened].0 as int;
        let after = sweep.open_branch(branches, b);
        assert(opens_at(branches, commits, forward, b) == step);
        lemma_open_diligent(sweep, branches, groups, commits, forward, step);
        lemma_open_once(sweep, branches, groups, commits, forward, step);
        lemma_open_at_diligent(after, branches, groups, commits, forward, step);
    } else {
        assert forall|k: int| sweep.opened <= k < opening.len() implies opens_at(
            branches,
            commits,
            forward,
            (#[trigger] opening[k]).0 as int,
        ) >= step + 1 by {
            let first = opening[sweep.opened];
            assert(first.1 == end_position(branches[first.0 as int], commits, !forward));
            assert(opens_at(branches, commits, forward, first.0 as int) >= step);
            if k > sweep.opened {
                lemma_queue_sorted(branches, commits, !forward, forward, sweep.opened, k);
                assert(opening[k].1 == end_position(branches[opening[k].0 as int], commits, !forward));
            }
        }
    }
}

/// Closing branches at a position leaves only those that are closed later.
proof fn lemma_close_at_diligent(
    sweep: Sweep,
    branches: Seq<BranchState>,
    groups: nat,
    commits: nat,
    forward: bool,
    step: int,
)
    requires
        fits(branches, commits),
        0 <= step < commits,
        sweeping(sweep, branches, groups, commits, forward, step, true),
        diligent(sweep, branches, commits, forward, step, true),
    ensures
        diligent(
            sweep.close_at(
                branches,
                closing_queue(branches, commits, forward),
                position_at(commits, forward, step),
            ),
            branches,
            commits,
            forward,
            step + 1,
            false,
        ),
    decreases closing_queue(branches, commits, forward).len() - sweep.closed,
{
    let opening = opening_queue(branches, commits, forward);
    let closing = closing_queue(branches, commits, forward);
    let position = position_at(commits, forward, step);
    lemma_event_queue(branches, commits, forward, forward);
    if sweep.closed < closing.len() && closing[sweep.closed].1 == position {
        let b = closing[sweep.closed].0 as int;
        let after = sweep.close_branch(branches, b);
        assert(closes_at(branches, commits, forward, b) == step);
        lemma_close_diligent(sweep, branches, groups, commits, forward, step);
        lemma_close_once(sweep, branches, groups, commits, forward, step);
        lemma_close_at_diligent(after, branches, groups, commits, forward, step);
    } else {
        assert forall|k: int| sweep.closed <= k < closing.len() implies closes_at(
            branches,
            commits,
            forward,
            (#[trigger] closing[k]).0 as int,
        ) >= step + 1 by {
            let first = closing[sweep.closed];
            assert(first.1 == end_position(branches[first.0 as int], commits, forward));
            assert(closes_at(branches, commits, forward, first.0 as int) >= step);
            if k > sweep.closed {
                lemma_queue_sorted(branches, commits, forward, forward, sweep.closed, k);
                assert(closing[k].1 == end_position(branches[closing[k].0 as int], commits, forward));
            }
        }
    }
}

proof fn lemma_swept_diligent(
    branches: Seq<BranchState>,
    groups: nat,
    commits: nat,
    forward: bool,
    steps: int,
)
    requires
        branches.len() <= usize::MAX,
        unplaced(branches, groups),
        fits(branches, commits),
        0 <= steps <= commits,
    ensures
        sweeping(
            swept(branches, groups, commits, forward, steps),
            branches,
            groups,
            commits,
            forward,
            steps,
            false,
        ),
        diligent(
            swept(branches, groups, commits, forward, steps),
            branches,
            commits,
            forward,
            steps,
            false,
        ),
    decreases steps,
{
    let opening = opening_queue(branches, commits, forward);
    let closing = closing_queue(branches, commits, forward);
    lemma_swept(branches, groups, commits, forward, steps);
    lemma_event_queue(branches, commits, !forward, forward);
    lemma_event_queue(branches, commits, forward, forward);
    if steps == 0 {
        assert forall|k: int| 0 <= k < opening.len() implies opens_at(
            branches,
            commits,
            forward,
            (#[trigger] opening[k]).0 as int,
        ) >= 0 by {
            assert(has_range(branches[opening[k].0 as int]));
        }
        assert forall|k: int| 0 <= k < closing.len() implies closes_at(
            branches,
            commits,
            forward,
            (#[trigger] closing[k]).0 as int,
        ) >= 0 by {
            assert(has_range(branches[closing[k].0 as int]));
        }
    } else {
        let before = swept(branches, groups, commits, forward, steps - 1);
        let position = position_at(commits, forward, steps - 1);
        lemma_swept_diligent(branches, groups, commits, forward, steps - 1);
        lemma_open_at_diligent(before, branches, groups, commits, forward, steps - 1);
        let opened = before.open_at(branches, opening, position);
        assert(sweeping(opened, branches, groups, commits, forward, steps - 1, true));
        lemma_close_at_diligent(opened, branches, groups, commits, forward, steps - 1);
    }
}

/// First-come first-served scheduling takes the first lane that is free: where branch `i` has a
/// column, each column before it is that of a branch of an earlier group, or of a branch of the
/// same group that was met before it and still covers the position at which it is met.
pub proof fn law_fcfs_takes_first_free_lane(
    branches: Seq<BranchState>,
    groups: nat,
    commits: nat,
    forward: bool,
    i: int,
    column: usize,
)
    requires
        branches.len() <= usize::MAX,
        unplaced(branches, groups),
        fits(branches, commits),
        0 <= i < branches.len(),
        fcfs_columns(branches, groups, commits, forward)[i] matches Some(own) && column < own,
    ensures
        exists|j: int|
            0 <= j < branches.len() && #[trigger] fcfs_columns(
                branches,
                groups,
                commits,
                forward,
            )[j] == Some(column) && {
                ||| branches[j].visual.order_group < branches[i].visual.order_group
                ||| {
                    &&& branches[j].visual.order_group == branches[i].visual.order_group
                    &&& is_met_before(branches, commits, forward, j, i)
                    &&& covers(branches[j], commits, met_at(branches[i], commits, forward))
                }
            },
{
    let opening = opening_queue(branches, commits, forward);
    let sweep = swept(branches, groups, commits, forward, commits as int);
    let counts = lane_counts(sweep.occupied);
    let columns = fcfs_columns(branches, groups, commits, forward);
    let group = branches[i].visual.order_group as int;
    let base = lanes_before(counts, group);
    lemma_swept_diligent(branches, groups, commits, forward, commits as int);
    lemma_event_queue(branches, commits, !forward, forward);
    lemma_ranged(branches, branches.len());
    assert(sweep.lanes[i] is Some);
    let own_lane = sweep.lanes[i]->0;
    lemma_lanes_before_monotonic(counts, group, group + 1);
    lemma_lanes_before_monotonic(counts, group + 1, groups as int);
    assert(columns[i] == Some((own_lane + base) as usize));
    if column >= base {
        let lane = column - base;
        let k = lemma_has_event(branches, commits, !forward, forward, i);
        assert(opening[k].0 == i);
        assert(k < sweep.opened);
        assert(is_below(sweep.lanes, branches, commits, forward, k, lane));
        let earlier = choose|earlier: int|
            0 <= earlier < k && {
                let a = (#[trigger] opening[earlier]).0 as int;
                &&& branches[a].visual.order_group == branches[i].visual.order_group
                &&& sweep.lanes[a] == Some(lane as usize)
                &&& closes_at(branches, commits, forward, a) >= opens_at(
                    branches,
                    commits,
                    forward,
                    i,
                )
            };
        let j = opening[earlier].0 as int;
        lemma_queue_sorted(branches, commits, !forward, forward, earlier, k);
        assert(has_range(branches[j]) && has_range(branches[i]));
        assert(columns[j] == Some(column));
        assert(opening[earlier].1 == end_position(branches[j], commits, !forward));
        assert(opening[k].1 == end_position(branches[i], commits, !forward));
        assert(is_met_before(branches, commits, forward, j, i));
        assert(covers(branches[j], commits, met_at(branches[i], commits, forward)));
    } else {
        lemma_fills(branches, sweep.lanes, counts);
        lemma_groups_in_order(branches, sweep.lanes, counts);
        assert(columns.contains(Some(column)));
        let j = choose|j: int| 0 <= j < columns.len() && columns[j] == Some(column);
        assert(sweep.lanes[j] is Some);
        let other = branches[j].visual.order_group as int;
        if other == group {
            lemma_lanes_before_monotonic(counts, group, groups as int);
        }
        assert(columns[j] == Some(column));
    }
}

/// First-come first-served scheduling leaves no overlaps: two branches of one column are never
/// shown at one position.
pub proof fn law_fcfs_shows_one_branch_at_a_time(
    branches: Seq<BranchState>,
    groups: nat,
    commits: nat,
    forward: bool,
    i: int,
    j: int,
    position: int,
)
    requires
        branches.len() <= usize::MAX,
        commits <= usize::MAX,
        unplaced(branches, groups),
        0 <= i < branches.len(),
        0 <= j < branches.len(),
        i != j,
        fcfs_columns(branches, groups, commits, forward)[i] is Some,
        fcfs_columns(branches, groups, commits, forward)[i] == fcfs_columns(
            branches,
            groups,
            commits,
            forward,
        )[j],
    ensures
        !(covers(branches[i], commits, position) && covers(branches[j], commits, position)),
{
    law_fcfs_free_of_overlaps(branches, groups, commits, forward);
    lemma_apart(branches, commits, i, j, position);
}

/// First-come first-served scheduling gives a column to each branch that fits and has a position,
/// and to no other.
pub proof fn law_fcfs_places_what_fits(
    branches: Seq<BranchState>,
    groups: nat,
    commits: nat,
    forward: bool,
    i: int,
)
    requires
        branches.len() <= usize::MAX,
        unplaced(branches, groups),
        fits(branches, commits),
        0 <= i < branches.len(),
    ensures
        fcfs_columns(branches, groups, commits, forward)[i] is Some <==> exists|position: int|
            #[trigger] covers(branches[i], commits, position),
{
    law_fcfs_free_of_overlaps(branches, groups, commits, forward);
    if has_range(branches[i]) {
        assert forall|b: int|
            #![trigger branches[b]]
            0 <= b < branches.len() && has_range(branches[b]) implies {
            let opens = end_position(branches[b], commits, !forward);
            &&& opens <= i32::MAX
            &&& !forward ==> opens < commits
        } by {}
        if forward && branches[i].range.0 is None {
            assert(branches[i].range.1 is Some);
        }
        assert(covers(branches[i], commits, met_at(branches[i], commits, true)));
        law_fcfs_places_every_branch(branches, groups, commits, forward, i);
    }
}

/// Branches that fit stand in the columns that first-come first-served scheduling should give them.
pub proof fn law_fcfs_serves_in_turn(
    branches: Seq<BranchState>,
    groups: nat,
    commits: nat,
    forward: bool,
)
    requires
        branches.len() <= usize::MAX,
        unplaced(branches, groups),
        fits(branches, commits),
    ensures
        is_served_in_turn(
            in_columns(branches, fcfs_columns(branches, groups, commits, forward)),
            commits,
            forward,
        ),
{
    let columns = fcfs_columns(branches, groups, commits, forward);
    let placed = in_columns(branches, columns);
    assert forall|i: int|
        #![trigger placed[i]]
        0 <= i < placed.len() implies (placed[i].visual.column is Some <==> exists|position: int|
        #[trigger] covers(placed[i], commits, position)) by {
        law_fcfs_places_what_fits(branches, groups, commits, forward, i);
        assert forall|position: int| #[trigger] covers(placed[i], commits, position) == covers(
            branches[i],
            commits,
            position,
        ) by {}
        if placed[i].visual.column is Some {
            let position = choose|position: int| #[trigger]
                covers(branches[i], commits, position);
            assert(covers(placed[i], commits, position));
        }
        if exists|position: int| #[trigger] covers(placed[i], commits, position) {
            let position = choose|position: int| #[trigger] covers(placed[i], commits, position);
            assert(covers(branches[i], commits, position));
        }
    }
    assert forall|i: int, j: int|
        #![trigger placed[i], placed[j]]
        0 <= i < placed.len() && 0 <= j < placed.len() && i != j && placed[i].visual.column is Some
            && placed[i].visual.column == placed[j].visual.column implies !meet(
        placed[i],
        placed[j],
        commits,
    ) by {
        assert forall|position: int|
            !(#[trigger] covers(placed[i], commits, position) && covers(
                placed[j],
                commits,
                position,
            )) by {
            law_fcfs_shows_one_branch_at_a_time(
                branches,
                groups,
                commits,
                forward,
                i,
                j,
                position,
            );
        }
    }
    assert forall|i: int, column: usize| #[trigger] is_left_of(placed, column, i) implies exists|
        j: int,
    |
        #![trigger placed[j]]
        0 <= j < placed.len() && placed[j].visual.column == Some(column) && {
            ||| placed[j].visual.order_group < placed[i].visual.order_group
            ||| {
                &&& placed[j].visual.order_group == placed[i].visual.order_group
                &&& is_met_before(placed, commits, forward, j, i)
                &&& covers(placed[j], commits, met_at(placed[i], commits, forward))
            }
        } by {
        assert(placed[i].visual.column == columns[i]);
        law_fcfs_takes_first_free_lane(branches, groups, commits, forward, i, column);
        let j = choose|j: int|
            0 <= j < branches.len() && #[trigger] columns[j] == Some(column) && {
                ||| branches[j].visual.order_group < branches[i].visual.order_group
                ||| {
                    &&& branches[j].visual.order_group == branches[i].visual.order_group
                    &&& is_met_before(branches, commits, forward, j, i)
                    &&& covers(branches[j], commits, met_at(branches[i], commits, forward))
                }
            };
        assert(placed[j].visual.column == Some(column));
    }
}

/// Whether branch `i` is one of a group.
pub open spec fn is_of_group(branches: Seq<BranchState>, group: int, i: int) -> bool {
    0 <= i < branches.len() && branches[i].visual.order_group == group
}

/// The columns of the branches of a group.
pub open spec fn columns_in_use(
    branches: Seq<BranchState>,
    columns: Seq<Option<usize>>,
    group: int,
) -> Set<usize> {
    Set::new(
        |column: usize|
            exists|i: int| #[trigger]
                is_of_group(branches, group, i) && columns[i] == Some(column),
    )
}

/// The branches of a group that are shown at a position.
pub open spec fn shown_at(
    branches: Seq<BranchState>,
    commits: nat,
    group: int,
    position: int,
) -> Set<int> {
    vstd::set_lib::set_int_range(0, branches.len() as int).filter(
        |i: int| is_of_group(branches, group, i) && covers(branches[i], commits, position),
    )
}

/// Whether branch `i` of a group has a column.
spec fn is_placed(
    branches: Seq<BranchState>,
    columns: Seq<Option<usize>>,
    group: int,
    i: int,
) -> bool {
    is_of_group(branches, group, i) && columns[i] is Some
}

/// The rightmost of those of the first `count` branches that belong to a group, if there is one.
proof fn lemma_rightmost(
    branches: Seq<BranchState>,
    columns: Seq<Option<usize>>,
    group: int,
    count: int,
) -> (rightmost: Option<int>)
    requires
        0 <= count <= branches.len(),
    ensures
        match rightmost {
            Some(i) => is_placed(branches, columns, group, i) && forall|k: int|
                k < count && #[trigger] is_placed(branches, columns, group, k) ==> columns[k]->0
                    <= columns[i]->0,
            None => forall|k: int|
                k < count ==> !#[trigger] is_placed(branches, columns, group, k),
        },
    decreases count,
{
    if count == 0 {
        None
    } else {
        let before = lemma_rightmost(branches, columns, group, count - 1);
        if is_placed(branches, columns, group, count - 1) && (before is None || columns[before->0]->0
            < columns[count - 1]->0) {
            Some(count - 1)
        } else {
            before
        }
    }
}

/// First-come first-served scheduling uses as few columns as it can: a group has no more columns
/// than it has branches that are shown at some position.
pub proof fn law_fcfs_spares_columns(
    branches: Seq<BranchState>,
    groups: nat,
    commits: nat,
    forward: bool,
    group: int,
)
    requires
        branches.len() <= usize::MAX,
        unplaced(branches, groups),
        fits(branches, commits),
    ensures
        exists|position: int|
            columns_in_use(
                branches,
                fcfs_columns(branches, groups, commits, forward),
                group,
            ).len() <= (#[trigger] shown_at(branches, commits, group, position)).len(),
{
    let columns = fcfs_columns(branches, groups, commits, forward);
    let used = columns_in_use(branches, columns, group);
    law_fcfs_free_of_overlaps(branches, groups, commits, forward);
    let rightmost = lemma_rightmost(branches, columns, group, branches.len() as int);
    if let Some(i) = rightmost {
        let position = met_at(branches[i], commits, forward);
        let shown = shown_at(branches, commits, group, position);
        let column_of = |j: int| columns[j]->0;
        assert(has_range(branches[i]));
        assert(covers(branches[i], commits, position));
        vstd::set_lib::lemma_int_range(0, branches.len() as int);
        vstd::set_lib::lemma_map_size_bound(shown, shown.map(column_of), column_of);
        assert forall|column: usize| #[trigger] used.contains(column) implies shown.map(
            column_of,
        ).contains(column) by {
            let k = choose|k: int| #[trigger]
                is_of_group(branches, group, k) && columns[k] == Some(column);
            assert(is_placed(branches, columns, group, k));
            let j = if column == columns[i]->0 {
                i
            } else {
                law_fcfs_takes_first_free_lane(branches, groups, commits, forward, i, column);
                choose|j: int|
                    0 <= j < branches.len() && #[trigger] columns[j] == Some(column) && {
                        ||| branches[j].visual.order_group < branches[i].visual.order_group
                        ||| {
                            &&& branches[j].visual.order_group == branches[i].visual.order_group
                            &&& is_met_before(branches, commits, forward, j, i)
                            &&& covers(branches[j], commits, position)
                        }
                    }
            };
            assert(columns[j] == columns[k]);
            assert(is_of_group(branches, group, j));
            assert(shown.contains(j));
            assert(column_of(j) == column);
        }
        vstd::set_lib::lemma_len_subset(used, shown.map(column_of));
    } else {
        assert forall|column: usize| !used.contains(column) by {
            if used.contains(column) {
                let k = choose|k: int| #[trigger]
                    is_of_group(branches, group, k) && columns[k] == Some(column);
                assert(is_placed(branches, columns, group, k));
            }
        }
        assert(used =~= Set::empty());
        assert(used.len() <= shown_at(branches, commits, group, 0).len());
    }
}

} // verus!
