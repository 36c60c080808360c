use git_graph::branch::{Branch, BranchType};
use git_graph::commit::{Commit, Summary};
use git_graph::graph::{GitGraph, Snapshot};
use git_graph::oid::Oid;
use git_graph::settings::{BranchOrder, BranchSettings, Settings};
use regex::Regex;

fn oid(number: u32) -> Oid {
    Oid { high: 7, low: number }
}

fn re(pattern: &str) -> Regex {
    Regex::new(pattern).unwrap()
}

fn settings(branch_order: BranchOrder, include_remote: bool) -> Settings {
    Settings {
        include_remote,
        branch_order,
        branches: BranchSettings {
            persistence: vec![re("^(master|main)$"), re("^develop$")],
            order: vec![re("^(master|main)$")],
            terminal_colors: vec![(re("^(master|main)$"), vec![Ok(12)])],
            terminal_colors_unknown: vec![Ok(1), Ok(2), Ok(3)],
            svg_colors: vec![(re("^(master|main)$"), vec!["blue".to_string()])],
            svg_colors_unknown: vec!["gray".to_string(), "black".to_string()],
        },
    }
}

fn commit(id: u32, parents: &[u32]) -> Commit {
    Commit { id: oid(id), parents: parents.iter().map(|parent| oid(*parent)).collect(), summary: None }
}

fn merge(id: u32, parents: &[u32], name: &str) -> Commit {
    let mut commit = commit(id, parents);
    commit.summary = Some(Summary { merged_branch: Some(name.to_string()) });
    commit
}

fn local(name: &str, target: u32) -> Branch {
    Branch {
        name: Some(format!("refs/heads/{}", name)),
        target: Some(oid(target)),
        kind: BranchType::Local,
    }
}

fn snapshot(history: fn() -> Vec<Commit>, branches: Vec<Branch>) -> Snapshot {
    Snapshot {
        walk: history().into_iter().map(Ok).collect(),
        lookups: history().into_iter().map(Ok).collect(),
        branches: Ok(branches),
    }
}

fn linear() -> Vec<Commit> {
    vec![commit(3, &[2]), commit(2, &[1]), commit(1, &[])]
}

fn merged() -> Vec<Commit> {
    vec![
        merge(10, &[3, 7], "feature"),
        commit(7, &[2]),
        commit(3, &[2]),
        commit(2, &[]),
    ]
}

fn forked() -> Vec<Commit> {
    vec![commit(5, &[1]), commit(6, &[1]), commit(9, &[1]), commit(1, &[])]
}

fn ids(graph: &GitGraph) -> Vec<u32> {
    graph.commits.iter().map(|info| info.oid.low).collect()
}

fn traces(graph: &GitGraph) -> Vec<Option<usize>> {
    graph.commits.iter().map(|info| info.branch_trace).collect()
}

fn columns(graph: &GitGraph) -> Vec<Option<usize>> {
    graph.branches.iter().map(|branch| branch.visual.column).collect()
}

#[test]
fn linear_history() {
    let snapshot = snapshot(linear, vec![local("master", 3)]);
    let settings = settings(BranchOrder::ShortestFirst(true), false);
    let (graph, displaced) = GitGraph::new(&snapshot, &settings, None).unwrap();
    assert_eq!(ids(&graph), vec![3, 2, 1]);
    assert_eq!(traces(&graph), vec![Some(0), Some(0), Some(0)]);
    assert_eq!(graph.commits[0].branches, vec![0]);
    assert_eq!(graph.commits[1].children, vec![oid(3)]);
    assert_eq!(graph.indices.get(&oid(1)), Some(2));
    assert_eq!(graph.branches.len(), 1);
    assert_eq!(graph.branches[0].name, "master");
    assert_eq!(graph.branches[0].range, (Some(0), Some(2)));
    assert_eq!(graph.branches[0].visual.term_color, 12);
    assert_eq!(graph.branches[0].visual.svg_color, "blue");
    assert_eq!(columns(&graph), vec![Some(0)]);
    assert!(displaced.is_empty());
}

#[test]
fn merged_branch_gets_its_own_column() {
    for order in [
        BranchOrder::ShortestFirst(true),
        BranchOrder::LongestFirst(true),
        BranchOrder::FirstComeFirstServed(false),
    ] {
        let snapshot = snapshot(merged, vec![local("master", 10)]);
        let (graph, displaced) = GitGraph::new(&snapshot, &settings(order, true), None).unwrap();
        assert_eq!(traces(&graph), vec![Some(0), Some(1), Some(0), Some(0)]);
        assert_eq!(graph.branches[0].range, (Some(0), Some(3)));
        assert_eq!(graph.branches[1].name, "feature");
        assert_eq!(graph.branches[1].range, (Some(1), Some(2)));
        assert_eq!(columns(&graph), vec![Some(0), Some(1)]);
        assert!(displaced.is_empty());
    }
}

#[test]
fn order_of_branches_decides_on_columns_within_a_group() {
    let expected = [
        (BranchOrder::ShortestFirst(true), vec![Some(1), Some(0)]),
        (BranchOrder::LongestFirst(true), vec![Some(0), Some(1)]),
        (BranchOrder::FirstComeFirstServed(true), vec![Some(0), Some(1)]),
    ];
    for (order, placed) in expected {
        let snapshot = snapshot(merged, vec![local("master", 10)]);
        let mut settings = settings(order, true);
        settings.branches.order = vec![];
        let (graph, _) = GitGraph::new(&snapshot, &settings, None).unwrap();
        assert_eq!(columns(&graph), placed);
    }
}

#[test]
fn a_branch_stays_out_of_the_column_it_was_merged_into() {
    fn history() -> Vec<Commit> {
        vec![merge(3, &[1, 2], "feature"), commit(2, &[]), commit(1, &[])]
    }
    let snapshot = snapshot(history, vec![local("master", 1), local("develop", 3)]);
    let mut settings = settings(BranchOrder::ShortestFirst(true), true);
    settings.branches.order = vec![];
    let (graph, displaced) = GitGraph::new(&snapshot, &settings, None).unwrap();
    assert_eq!(graph.branches[0].range, (Some(2), Some(2)));
    assert_eq!(graph.branches[1].range, (Some(0), Some(0)));
    assert_eq!(graph.branches[2].range, (Some(1), Some(1)));
    assert_eq!(columns(&graph), vec![Some(0), Some(0), Some(1)]);
    assert_eq!(displaced, vec![2]);
}

#[test]
fn a_branch_that_leaves_the_commits_meets_those_below_it() {
    fn history() -> Vec<Commit> {
        vec![commit(5, &[9]), commit(4, &[1]), commit(3, &[1]), commit(1, &[])]
    }
    for order in orders() {
        for include_remote in [true, false] {
            let snapshot = snapshot(history, vec![local("a", 5), local("b", 4), local("c", 3)]);
            let mut settings = settings(order, include_remote);
            settings.branches.order = vec![];
            let (graph, _) = GitGraph::new(&snapshot, &settings, None).unwrap();
            assert_eq!(graph.branches[0].range, (Some(0), None));
            let open = graph.branches[0].visual.column;
            assert!(open.is_some());
            for branch in &graph.branches[1..] {
                assert!(branch.visual.column.is_some());
                assert_ne!(branch.visual.column, open);
            }
        }
    }
}

#[test]
fn commits_without_branch_are_left_out() {
    let snapshot = snapshot(forked, vec![local("master", 5), local("topic", 6)]);
    let settings = settings(BranchOrder::FirstComeFirstServed(true), false);
    let (graph, _) = GitGraph::new(&snapshot, &settings, None).unwrap();
    assert_eq!(ids(&graph), vec![5, 6, 1]);
    assert_eq!(traces(&graph), vec![Some(0), Some(1), Some(0)]);
    assert_eq!(graph.indices.get(&oid(1)), Some(2));
    assert_eq!(graph.indices.get(&oid(9)), None);
    assert_eq!(graph.branches[0].range, (Some(0), Some(2)));
    assert_eq!(graph.branches[1].range, (Some(1), Some(1)));
    assert_eq!(columns(&graph), vec![Some(0), Some(1)]);
}

#[test]
fn commits_without_branch_stay_with_remote_branches() {
    let snapshot = snapshot(forked, vec![local("master", 5), local("topic", 6)]);
    let settings = settings(BranchOrder::FirstComeFirstServed(true), true);
    let (graph, _) = GitGraph::new(&snapshot, &settings, None).unwrap();
    assert_eq!(ids(&graph), vec![5, 6, 9, 1]);
    assert_eq!(traces(&graph), vec![Some(0), Some(1), None, Some(0)]);
    assert_eq!(graph.branches[1].range, (Some(1), Some(2)));
}

#[test]
fn only_the_commits_asked_for() {
    let snapshot = snapshot(linear, vec![local("master", 3), local("old", 1)]);
    let settings = settings(BranchOrder::ShortestFirst(true), false);
    let (graph, _) = GitGraph::new(&snapshot, &settings, Some(2)).unwrap();
    assert_eq!(ids(&graph), vec![3, 2]);
    assert_eq!(graph.branches.len(), 1);
    assert_eq!(graph.branches[0].range, (Some(0), None));
    let (graph, _) = GitGraph::new(&snapshot, &settings, Some(0)).unwrap();
    assert_eq!(ids(&graph), Vec::<u32>::new());
    assert!(graph.branches.is_empty());
    let (graph, _) = GitGraph::new(&snapshot, &settings, Some(9)).unwrap();
    assert_eq!(ids(&graph), vec![3, 2, 1]);
    assert_eq!(graph.branches.len(), 2);
    assert_eq!(columns(&graph), vec![Some(0), None]);
    assert_eq!(graph.commits[2].branches, vec![1]);
}

#[test]
fn an_error_on_the_walk_is_reported_if_it_is_reached() {
    let mut snapshot = snapshot(linear, vec![local("master", 3)]);
    snapshot.walk[1] = Err("walk failed".to_string());
    let settings = settings(BranchOrder::ShortestFirst(true), false);
    let result = GitGraph::new(&snapshot, &settings, None);
    assert_eq!(result.err(), Some("walk failed".to_string()));
    assert!(GitGraph::new(&snapshot, &settings, Some(1)).is_ok());
}

#[test]
fn an_error_of_the_listing_is_reported() {
    let mut snapshot = snapshot(linear, vec![]);
    snapshot.branches = Err("no refs".to_string());
    let settings = settings(BranchOrder::ShortestFirst(true), false);
    let result = GitGraph::new(&snapshot, &settings, None);
    assert_eq!(result.err(), Some("no refs".to_string()));
}

#[test]
fn no_graph_where_commits_were_not_read_twice() {
    let mut snapshot = snapshot(linear, vec![local("master", 3)]);
    snapshot.lookups.pop();
    let settings = settings(BranchOrder::ShortestFirst(true), false);
    assert!(GitGraph::try_new(&snapshot, &settings, None).is_none());
    assert!(GitGraph::try_new(&snapshot, &settings, Some(2)).is_some());
}

#[test]
fn no_graph_without_a_color_to_choose_from() {
    let snapshot = snapshot(linear, vec![local("topic", 3)]);
    let mut settings = settings(BranchOrder::ShortestFirst(true), false);
    settings.branches.svg_colors_unknown = vec![];
    assert!(GitGraph::try_new(&snapshot, &settings, None).is_none());
}

#[test]
fn no_graph_where_a_branch_is_not_found_among_the_commits_kept() {
    fn history() -> Vec<Commit> {
        vec![commit(1, &[2]), merge(3, &[4, 1], "feature"), commit(8, &[])]
    }
    let snapshot = snapshot(history, vec![]);
    let local_only = settings(BranchOrder::ShortestFirst(true), false);
    assert!(GitGraph::try_new(&snapshot, &local_only, None).is_none());
    let all = settings(BranchOrder::ShortestFirst(true), true);
    let (graph, _) = GitGraph::new(&snapshot, &all, None).unwrap();
    assert_eq!(graph.branches[0].range, (Some(2), None));
    assert_eq!(traces(&graph), vec![Some(0), None, None]);
}

#[test]
fn local_branches_are_listed_without_remote_ones() {
    let local_only = settings(BranchOrder::ShortestFirst(true), false);
    assert_eq!(local_only.branch_filter(), Some(BranchType::Local));
    let all = settings(BranchOrder::ShortestFirst(true), true);
    assert_eq!(all.branch_filter(), None);
}

fn tangled() -> Vec<Commit> {
    vec![
        merge(20, &[19, 18], "develop"),
        commit(19, &[15]),
        merge(18, &[17, 16], "fix"),
        commit(17, &[14]),
        commit(16, &[14]),
        commit(30, &[12]),
        merge(15, &[13, 14], "feature"),
        commit(14, &[12]),
        commit(13, &[12]),
        commit(12, &[11]),
        commit(11, &[]),
    ]
}

fn tangled_branches() -> Vec<Branch> {
    vec![local("topic", 16), local("develop", 17), local("master", 20), local("copy", 20)]
}

fn orders() -> [BranchOrder; 6] {
    [
        BranchOrder::ShortestFirst(true),
        BranchOrder::ShortestFirst(false),
        BranchOrder::LongestFirst(true),
        BranchOrder::LongestFirst(false),
        BranchOrder::FirstComeFirstServed(true),
        BranchOrder::FirstComeFirstServed(false),
    ]
}

fn graphs() -> Vec<GitGraph> {
    let mut graphs = vec![];
    for order in orders() {
        for include_remote in [true, false] {
            for patterns in [true, false] {
                let mut settings = settings(order, include_remote);
                if !patterns {
                    settings.branches.order = vec![];
                }
                let snapshot = snapshot(tangled, tangled_branches());
                graphs.push(GitGraph::new(&snapshot, &settings, None).unwrap().0);
            }
        }
    }
    graphs
}

#[test]
fn graphs_are_indexed() {
    for graph in graphs() {
        for (index, info) in graph.commits.iter().enumerate() {
            assert_eq!(graph.indices.get(&info.oid), Some(index));
        }
    }
}

#[test]
fn graphs_are_free_of_overlaps() {
    for graph in graphs() {
        for (i, branch) in graph.branches.iter().enumerate() {
            for other in &graph.branches[..i] {
                if branch.visual.column.is_some() && branch.visual.column == other.visual.column {
                    assert!(
                        branch.range.1.unwrap() < other.range.0.unwrap()
                            || other.range.1.unwrap() < branch.range.0.unwrap()
                    );
                }
            }
        }
    }
}

#[test]
fn graphs_have_commits_in_the_ranges_of_their_branches() {
    for graph in graphs() {
        for (index, info) in graph.commits.iter().enumerate() {
            if let Some(number) = info.branch_trace {
                let range = graph.branches[number].range;
                assert!(range.0.unwrap() <= index && index <= range.1.unwrap());
            }
        }
        for (number, branch) in graph.branches.iter().enumerate() {
            let bare = graph.commits.iter().all(|info| info.branch_trace != Some(number));
            assert_eq!(branch.range == (None, None), bare);
        }
    }
}

#[test]
fn graphs_have_no_empty_columns() {
    for graph in graphs() {
        let columns = columns(&graph);
        let used = columns.iter().flatten().max().unwrap() + 1;
        assert!((0..used).all(|column| columns.contains(&Some(column))));
    }
}

#[test]
fn graphs_have_ranges_among_their_commits() {
    for graph in graphs() {
        for branch in &graph.branches {
            match branch.range {
                (Some(first), Some(last)) => {
                    assert!(first <= last && last < graph.commits.len());
                    assert!(branch.visual.column.is_some());
                }
                range => {
                    assert_eq!(range, (None, None));
                    assert_eq!(branch.visual.column, None);
                }
            }
        }
    }
}

#[test]
fn graphs_have_groups_side_by_side() {
    for graph in graphs() {
        for branch in &graph.branches {
            for other in &graph.branches {
                if branch.visual.order_group < other.visual.order_group {
                    if let (Some(left), Some(right)) = (branch.visual.column, other.visual.column) {
                        assert!(left < right);
                    }
                }
            }
        }
    }
}

#[test]
fn graphs_have_branches_by_persistence() {
    for graph in graphs() {
        for pair in graph.branches.windows(2) {
            assert!(
                (pair[0].persistence, !pair[0].is_merged)
                    <= (pair[1].persistence, !pair[1].is_merged)
            );
        }
    }
}

#[test]
fn graphs_list_branches_at_their_tips() {
    for graph in graphs() {
        for info in &graph.commits {
            let tips: Vec<usize> = (0..graph.branches.len())
                .filter(|number| {
                    !graph.branches[*number].deleted && graph.branches[*number].target == info.oid
                })
                .collect();
            assert_eq!(info.branches, tips);
        }
    }
}

#[test]
fn graphs_follow_first_parents() {
    for graph in graphs() {
        for info in &graph.commits {
            if let Some(number) = info.branch_trace {
                let at_tip = graph.branches[number].target == info.oid;
                let below = graph.commits.iter().any(|child| {
                    child.branch_trace == Some(number) && child.parents[0] == Some(info.oid)
                });
                assert!(at_tip || below);
                if let Some(parent) = info.parents[0] {
                    let index = graph.indices.get(&parent).unwrap();
                    assert!(graph.commits[index].branch_trace.is_some());
                }
            }
        }
    }
}

#[test]
fn graphs_without_remote_branches_hold_commits_of_branches_only() {
    let snapshot = snapshot(tangled, tangled_branches());
    let local_only = settings(BranchOrder::ShortestFirst(true), false);
    let (graph, _) = GitGraph::new(&snapshot, &local_only, None).unwrap();
    assert_eq!(ids(&graph), vec![20, 19, 18, 17, 16, 15, 14, 13, 12, 11]);
    assert!(traces(&graph).iter().all(|trace| trace.is_some()));
    let all = settings(BranchOrder::ShortestFirst(true), true);
    let (graph, _) = GitGraph::new(&snapshot, &all, None).unwrap();
    assert_eq!(ids(&graph), vec![20, 19, 18, 17, 16, 30, 15, 14, 13, 12, 11]);
    assert_eq!(graph.commits[5].branch_trace, None);
}
