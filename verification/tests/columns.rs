use git_graph::branch::{BranchInfo, BranchVis};
use git_graph::commit::{Commit, CommitInfo};
use git_graph::fcfs::assign_branch_columns_fcfs;
use git_graph::length::assign_branch_columns_branch_length;
use git_graph::oid::{Oid, OidMap};
use git_graph::settings::BranchSettings;
use regex::Regex;

fn oid(number: u32) -> Oid {
    Oid { high: 0, low: number }
}

fn settings(order: usize) -> BranchSettings {
    BranchSettings {
        persistence: vec![],
        order: (0..order).map(|_| Regex::new("^none$").unwrap()).collect(),
        terminal_colors: vec![],
        terminal_colors_unknown: vec![],
        svg_colors: vec![],
        svg_colors_unknown: vec![],
    }
}

fn branch(group: usize, range: (Option<usize>, Option<usize>)) -> BranchInfo {
    let visual = BranchVis::new(group, 0, "gray".to_string());
    let mut info = BranchInfo::new(
        oid(0),
        None,
        "branch".to_string(),
        0,
        false,
        false,
        visual,
        false,
        range.0,
    );
    info.range = range;
    info
}

fn commits(count: u32) -> (Vec<CommitInfo>, OidMap) {
    let mut indices = OidMap::new();
    let mut infos = vec![];
    for number in 0..count {
        let commit = Commit { id: oid(number), parents: vec![], summary: None };
        infos.push(CommitInfo::new(&commit));
        indices.insert(oid(number), number as usize);
    }
    (infos, indices)
}

fn columns(branches: &[BranchInfo]) -> Vec<Option<usize>> {
    branches.iter().map(|branch| branch.visual.column).collect()
}

fn fcfs(
    count: u32,
    groups: usize,
    forward: bool,
    mut branches: Vec<BranchInfo>,
) -> Vec<Option<usize>> {
    let (infos, _) = commits(count);
    assign_branch_columns_fcfs(&infos, &mut branches, &settings(groups - 1), forward);
    columns(&branches)
}

fn by_length(
    count: u32,
    groups: usize,
    shortest_first: bool,
    forward: bool,
    mut branches: Vec<BranchInfo>,
) -> Vec<Option<usize>> {
    let (infos, indices) = commits(count);
    let displaced = assign_branch_columns_branch_length(
        &infos,
        &indices,
        &mut branches,
        &settings(groups - 1),
        shortest_first,
        forward,
    );
    assert!(displaced.is_empty());
    columns(&branches)
}

fn span(first: usize, last: usize) -> (Option<usize>, Option<usize>) {
    (Some(first), Some(last))
}

fn free_of_overlaps(branches: &[(usize, usize)], columns: &[Option<usize>]) -> bool {
    for i in 0..branches.len() {
        for j in 0..i {
            let meet = branches[i].0 <= branches[j].1 && branches[j].0 <= branches[i].1;
            if meet && columns[i] == columns[j] {
                return false;
            }
        }
    }
    true
}

#[test]
fn fcfs_reuses_a_column_that_became_free() {
    let branches = vec![branch(0, span(0, 0)), branch(0, span(1, 1))];
    assert_eq!(fcfs(2, 1, true, branches), vec![Some(0), Some(0)]);
}

#[test]
fn fcfs_keeps_meeting_branches_apart() {
    let branches = vec![branch(0, span(0, 1)), branch(0, span(1, 1))];
    assert_eq!(fcfs(2, 1, true, branches), vec![Some(0), Some(1)]);
}

#[test]
fn fcfs_from_the_first_commit() {
    let branches = vec![branch(0, span(0, 0)), branch(0, span(0, 2)), branch(0, span(1, 2))];
    assert_eq!(fcfs(3, 1, true, branches), vec![Some(0), Some(1), Some(0)]);
}

#[test]
fn fcfs_from_the_last_commit() {
    let branches = vec![branch(0, span(0, 0)), branch(0, span(0, 2)), branch(0, span(1, 2))];
    assert_eq!(fcfs(3, 1, false, branches), vec![Some(1), Some(0), Some(1)]);
}

#[test]
fn fcfs_puts_groups_side_by_side() {
    let branches = vec![
        branch(1, span(0, 3)),
        branch(0, span(0, 3)),
        branch(2, span(1, 2)),
        branch(0, span(1, 2)),
    ];
    assert_eq!(fcfs(4, 3, true, branches), vec![Some(2), Some(0), Some(3), Some(1)]);
}

#[test]
fn fcfs_gives_no_column_without_a_range() {
    let branches = vec![branch(0, (None, None)), branch(0, span(0, 1))];
    assert_eq!(fcfs(2, 1, true, branches), vec![None, Some(0)]);
    assert_eq!(fcfs(2, 1, true, vec![]), vec![]);
}

#[test]
fn fcfs_lets_a_branch_without_known_end_run_to_the_last_commit() {
    let branches = || vec![branch(0, (Some(0), None)), branch(0, span(2, 3))];
    assert_eq!(fcfs(4, 1, true, branches()), vec![Some(0), Some(1)]);
    assert_eq!(fcfs(4, 1, false, branches()), vec![Some(0), Some(1)]);
    let branches = vec![branch(0, span(0, 1)), branch(0, (Some(2), None))];
    assert_eq!(fcfs(4, 1, true, branches), vec![Some(0), Some(0)]);
}

#[test]
fn fcfs_places_all_branches_without_known_end() {
    let branches = || vec![branch(0, (Some(0), None)), branch(0, (Some(0), None))];
    assert_eq!(fcfs(1, 1, true, branches()), vec![Some(0), Some(1)]);
    assert_eq!(fcfs(1, 1, false, branches()), vec![Some(0), Some(1)]);
}

#[test]
fn no_commits_to_run_to() {
    let branches = || vec![branch(0, (Some(0), None)), branch(0, (Some(0), None))];
    assert_eq!(fcfs(0, 1, true, branches()), vec![None, None]);
    assert_eq!(fcfs(0, 1, false, branches()), vec![None, None]);
    assert_eq!(by_length(0, 1, true, true, branches()), vec![Some(0), Some(1)]);
}

#[test]
fn length_lets_a_branch_without_known_end_run_to_the_last_commit() {
    let branches = || vec![branch(0, (Some(0), None)), branch(0, span(2, 3))];
    assert_eq!(by_length(4, 1, true, true, branches()), vec![Some(1), Some(0)]);
    assert_eq!(by_length(4, 1, false, true, branches()), vec![Some(0), Some(1)]);
}

#[test]
fn fcfs_counts_an_unknown_start_as_the_first_commit() {
    let branches = vec![branch(0, (None, Some(1))), branch(0, span(0, 0))];
    assert_eq!(fcfs(2, 1, true, branches), vec![Some(0), Some(1)]);
}

#[test]
fn shortest_branches_come_first() {
    let branches = vec![branch(0, span(0, 3)), branch(0, span(1, 2)), branch(0, span(3, 3))];
    assert_eq!(by_length(4, 1, true, true, branches), vec![Some(1), Some(0), Some(0)]);
}

#[test]
fn longest_branches_come_first() {
    let branches = vec![branch(0, span(1, 2)), branch(0, span(0, 3)), branch(0, span(3, 3))];
    assert_eq!(by_length(4, 1, false, true, branches), vec![Some(1), Some(0), Some(1)]);
}

#[test]
fn branches_of_equal_length_come_by_position() {
    let branches = || vec![branch(0, span(1, 2)), branch(0, span(0, 1)), branch(0, span(2, 3))];
    assert_eq!(by_length(4, 1, true, true, branches()), vec![Some(1), Some(0), Some(0)]);
    assert_eq!(by_length(4, 1, true, false, branches()), vec![Some(1), Some(0), Some(0)]);
    let branches = || vec![branch(0, span(0, 1)), branch(0, span(1, 2))];
    assert_eq!(by_length(3, 1, true, true, branches()), vec![Some(0), Some(1)]);
    assert_eq!(by_length(3, 1, true, false, branches()), vec![Some(1), Some(0)]);
}

#[test]
fn length_puts_groups_side_by_side() {
    let branches = vec![
        branch(1, span(0, 3)),
        branch(0, span(0, 3)),
        branch(2, span(1, 2)),
        branch(0, span(1, 2)),
        branch(1, (None, None)),
    ];
    assert_eq!(
        by_length(4, 3, true, true, branches),
        vec![Some(2), Some(1), Some(3), Some(0), None]
    );
}

#[test]
fn length_keeps_a_branch_out_of_the_lane_it_was_merged_into() {
    let (mut infos, indices) = commits(2);
    infos[0].branch_trace = Some(0);
    let mut branches = vec![branch(0, span(0, 0)), branch(0, span(1, 1))];
    branches[1].merge_target = Some(oid(0));
    let displaced = assign_branch_columns_branch_length(
        &infos,
        &indices,
        &mut branches,
        &settings(0),
        true,
        true,
    );
    assert_eq!(columns(&branches), vec![Some(0), Some(1)]);
    assert_eq!(displaced, vec![1]);
}

#[test]
fn length_lets_a_branch_follow_another_that_it_was_not_merged_into() {
    let branches = vec![branch(0, span(0, 0)), branch(0, span(1, 1))];
    assert_eq!(by_length(2, 1, true, true, branches), vec![Some(0), Some(0)]);
}

#[test]
fn length_ignores_the_branch_merged_into_in_another_group() {
    let (mut infos, indices) = commits(3);
    infos[0].branch_trace = Some(0);
    let mut branches =
        vec![branch(1, span(0, 0)), branch(0, span(1, 1)), branch(0, span(2, 2))];
    branches[2].merge_target = Some(oid(0));
    let displaced = assign_branch_columns_branch_length(
        &infos,
        &indices,
        &mut branches,
        &settings(1),
        true,
        true,
    );
    assert_eq!(columns(&branches), vec![Some(1), Some(0), Some(0)]);
    assert!(displaced.is_empty());
}

#[test]
fn length_displaces_a_branch_even_to_a_new_lane_beyond_others() {
    let (mut infos, indices) = commits(6);
    infos[0].branch_trace = Some(0);
    let mut branches =
        vec![branch(0, span(0, 0)), branch(0, span(3, 4)), branch(0, span(2, 4))];
    branches[2].merge_target = Some(oid(0));
    let displaced = assign_branch_columns_branch_length(
        &infos,
        &indices,
        &mut branches,
        &settings(0),
        true,
        true,
    );
    assert_eq!(columns(&branches), vec![Some(0), Some(0), Some(1)]);
    assert!(displaced.is_empty());
    let mut branches =
        vec![branch(0, span(0, 0)), branch(0, span(0, 1)), branch(0, span(2, 4))];
    branches[2].merge_target = Some(oid(0));
    let displaced = assign_branch_columns_branch_length(
        &infos,
        &indices,
        &mut branches,
        &settings(0),
        true,
        true,
    );
    assert_eq!(columns(&branches), vec![Some(0), Some(1), Some(1)]);
    assert_eq!(displaced, vec![2]);
}

fn filled(columns: &[Option<usize>]) -> bool {
    let used = columns.iter().flatten().max().map_or(0, |last| last + 1);
    (0..used).all(|column| columns.contains(&Some(column)))
}

#[test]
fn no_column_stays_empty() {
    let branches = || {
        vec![
            branch(2, span(0, 3)),
            branch(0, span(1, 2)),
            branch(2, span(2, 3)),
            branch(0, (Some(0), None)),
            branch(1, (None, None)),
        ]
    };
    for forward in [true, false] {
        assert!(filled(&fcfs(4, 3, forward, branches())));
        for shortest_first in [true, false] {
            assert!(filled(&by_length(4, 3, shortest_first, forward, branches())));
        }
    }
}

#[test]
fn no_overlaps_whatever_the_order() {
    let spans = [(0, 4), (1, 2), (2, 6), (3, 3), (5, 7), (0, 0), (6, 7), (4, 5)];
    let branches = || -> Vec<BranchInfo> {
        spans.iter().map(|range| branch(0, span(range.0, range.1))).collect()
    };
    for forward in [true, false] {
        let placed = fcfs(8, 1, forward, branches());
        assert!(placed.iter().all(|column| column.is_some()));
        assert!(free_of_overlaps(&spans, &placed));
        for shortest_first in [true, false] {
            let placed = by_length(8, 1, shortest_first, forward, branches());
            assert!(placed.iter().all(|column| column.is_some()));
            assert!(free_of_overlaps(&spans, &placed));
        }
    }
}

#[test]
fn a_column_of_a_branch_without_range_is_counted_within_its_group() {
    let branches = || {
        let mut branches = vec![branch(0, span(0, 1)), branch(1, (None, None))];
        branches[1].visual.column = Some(2);
        branches
    };
    assert_eq!(fcfs(2, 2, true, branches()), vec![Some(0), Some(3)]);
    assert_eq!(by_length(2, 2, true, true, branches()), vec![Some(0), Some(3)]);
}

#[test]
fn a_column_of_a_branch_with_range_is_given_anew() {
    let branches = || {
        let mut branches = vec![branch(0, span(0, 1)), branch(0, span(0, 0))];
        branches[1].visual.column = Some(7);
        branches
    };
    assert_eq!(fcfs(2, 1, true, branches()), vec![Some(0), Some(1)]);
    assert_eq!(by_length(2, 1, true, true, branches()), vec![Some(1), Some(0)]);
}

#[test]
fn length_needs_no_merge_commit_where_no_lane_is_free() {
    let (infos, mut indices) = commits(2);
    indices.insert(oid(9), 9);
    let mut branches = vec![branch(0, span(0, 1)), branch(0, span(0, 1))];
    branches[1].merge_target = Some(oid(9));
    let displaced = assign_branch_columns_branch_length(
        &infos,
        &indices,
        &mut branches,
        &settings(0),
        true,
        true,
    );
    assert_eq!(columns(&branches), vec![Some(0), Some(1)]);
    assert!(displaced.is_empty());
}
