use git_graph::assign::{assign_branches, assign_extracted, try_assign_branches};
use git_graph::branch::{Branch, BranchInfo, BranchType, BranchVis};
use git_graph::children::assign_children;
use git_graph::commit::{Commit, CommitInfo, Summary};
use git_graph::extract::{extract_branches, try_extract_branches};
use git_graph::filter::filter_commits;
use git_graph::oid::{Oid, OidMap};
use git_graph::settings::{BranchOrder, BranchSettings, Settings};
use git_graph::trace::trace_branch;
use regex::Regex;

fn oid(number: u32) -> Oid {
    Oid { high: 7, low: number }
}

fn re(pattern: &str) -> Regex {
    Regex::new(pattern).unwrap()
}

fn settings() -> Settings {
    Settings {
        include_remote: true,
        branch_order: BranchOrder::FirstComeFirstServed(true),
        branches: BranchSettings {
            persistence: vec![re("^(master|main)$"), re("^develop$")],
            order: vec![re("^(master|main)$"), re("^develop$")],
            terminal_colors: vec![
                (re("^(master|main)$"), vec![Ok(12)]),
                (re("^broken$"), vec![Err("no such color".to_string())]),
                (re("^colorless$"), vec![]),
            ],
            terminal_colors_unknown: vec![Ok(1), Ok(2), Ok(3)],
            svg_colors: vec![(re("^(master|main)$"), vec!["blue".to_string()])],
            svg_colors_unknown: vec!["gray".to_string(), "black".to_string()],
        },
    }
}

fn commit(id: u32, parents: &[u32]) -> Commit {
    Commit { id: oid(id), parents: parents.iter().map(|parent| oid(*parent)).collect(), summary: None }
}

fn merge(id: u32, parents: &[u32], name: Option<&str>) -> Commit {
    let mut commit = commit(id, parents);
    commit.summary = Some(Summary { merged_branch: name.map(|name| name.to_string()) });
    commit
}

fn local(name: &str, target: u32) -> Branch {
    Branch {
        name: Some(format!("refs/heads/{}", name)),
        target: Some(oid(target)),
        kind: BranchType::Local,
    }
}

fn remote(name: &str, target: u32) -> Branch {
    Branch {
        name: Some(format!("refs/remotes/{}", name)),
        target: Some(oid(target)),
        kind: BranchType::Remote,
    }
}

fn read(history: Vec<Commit>) -> (Vec<CommitInfo>, OidMap, Vec<Result<Commit, String>>) {
    let mut infos = vec![];
    let mut indices = OidMap::new();
    let mut lookups = vec![];
    for (index, commit) in history.into_iter().enumerate() {
        infos.push(CommitInfo::new(&commit));
        indices.insert(commit.id, index);
        lookups.push(Ok(commit));
    }
    assign_children(&mut infos, &indices);
    (infos, indices, lookups)
}

fn branch(target: u32, start: Option<usize>) -> BranchInfo {
    let visual = BranchVis::new(0, 0, "gray".to_string());
    BranchInfo::new(
        oid(target),
        None,
        "branch".to_string(),
        0,
        false,
        false,
        visual,
        false,
        start,
    )
}

fn numbers(oids: &[Oid]) -> Vec<u32> {
    oids.iter().map(|oid| oid.low).collect()
}

fn traces(infos: &[CommitInfo]) -> Vec<Option<usize>> {
    infos.iter().map(|info| info.branch_trace).collect()
}

#[test]
fn map_tells_ids_apart_by_all_of_their_bytes() {
    let mut map = OidMap::new();
    map.insert(Oid { high: 1, low: 2 }, 10);
    map.insert(Oid { high: 1, low: 3 }, 11);
    map.insert(Oid { high: 2, low: 2 }, 12);
    map.insert(Oid { high: 1, low: 2 }, 13);
    assert_eq!(map.get(&Oid { high: 1, low: 2 }), Some(13));
    assert_eq!(map.get(&Oid { high: 1, low: 3 }), Some(11));
    assert_eq!(map.get(&Oid { high: 2, low: 2 }), Some(12));
    assert_eq!(map.get(&Oid { high: 2, low: 3 }), None);
}

#[test]
fn commit_starts_without_neighbours() {
    let info = CommitInfo::new(&commit(5, &[3, 4, 2]));
    assert_eq!(info.oid, oid(5));
    assert!(info.is_merge);
    assert_eq!(info.parents, [Some(oid(3)), Some(oid(4))]);
    assert!(info.children.is_empty());
    assert!(info.branches.is_empty());
    assert_eq!(info.branch_trace, None);
    let info = CommitInfo::new(&commit(5, &[3]));
    assert!(!info.is_merge);
    assert_eq!(info.parents, [Some(oid(3)), None]);
}

#[test]
fn parent_ids() {
    let commit = commit(5, &[3, 4]);
    assert_eq!(commit.parent_count(), 2);
    assert_eq!(commit.parent_id(1), Ok(oid(4)));
    assert_eq!(commit.parent_id(2), Err("parent index out of bounds".to_string()));
}

#[test]
fn branch_starts_without_column_and_end() {
    let vis = BranchVis::new(3, 14, "red".to_string());
    assert_eq!(vis.order_group, 3);
    assert_eq!(vis.term_color, 14);
    assert_eq!(vis.svg_color, "red");
    assert_eq!(vis.column, None);
    let info = branch(4, Some(2));
    assert_eq!(info.target, oid(4));
    assert_eq!(info.range, (Some(2), None));
}

#[test]
fn children_are_those_whose_parents_say_so() {
    let (infos, _, _) = read(vec![
        commit(5, &[4, 3]),
        commit(4, &[2]),
        commit(3, &[2, 2]),
        commit(2, &[1]),
    ]);
    assert_eq!(numbers(&infos[0].children), Vec::<u32>::new());
    assert_eq!(numbers(&infos[1].children), vec![5]);
    assert_eq!(numbers(&infos[2].children), vec![5]);
    assert_eq!(numbers(&infos[3].children), vec![4, 3, 3]);
}

#[test]
fn third_parents_get_no_children() {
    let (infos, _, _) =
        read(vec![commit(5, &[4, 3, 2]), commit(4, &[]), commit(3, &[]), commit(2, &[])]);
    assert_eq!(numbers(&infos[1].children), vec![5]);
    assert_eq!(numbers(&infos[2].children), vec![5]);
    assert_eq!(numbers(&infos[3].children), Vec::<u32>::new());
}

#[test]
fn trace_down_to_the_root() {
    let (mut infos, indices, lookups) =
        read(vec![commit(3, &[2]), commit(2, &[1]), commit(1, &[])]);
    let mut info = branch(3, Some(0));
    let result = trace_branch(&lookups, &mut infos, &indices, oid(3), &mut info, 4);
    assert_eq!(result, Ok(true));
    assert_eq!(info.range, (Some(0), Some(2)));
    assert_eq!(traces(&infos), vec![Some(4), Some(4), Some(4)]);
}

#[test]
fn trace_beyond_the_commits() {
    let (mut infos, indices, lookups) = read(vec![commit(3, &[2]), commit(2, &[1])]);
    let mut info = branch(3, Some(0));
    let result = trace_branch(&lookups, &mut infos, &indices, oid(3), &mut info, 0);
    assert_eq!(result, Ok(true));
    assert_eq!(info.range, (Some(0), None));
}

#[test]
fn trace_of_an_unknown_commit() {
    let (mut infos, indices, lookups) = read(vec![commit(3, &[])]);
    let mut info = branch(9, None);
    let result = trace_branch(&lookups, &mut infos, &indices, oid(9), &mut info, 0);
    assert_eq!(result, Ok(false));
    assert_eq!(info.range, (None, None));
    assert_eq!(traces(&infos), vec![None]);
}

#[test]
fn trace_up_to_another_branch() {
    let (mut infos, indices, lookups) = read(vec![
        commit(5, &[1]),
        commit(4, &[3]),
        commit(3, &[1]),
        commit(2, &[]),
        commit(1, &[]),
    ]);
    let mut first = branch(5, Some(0));
    assert_eq!(
        trace_branch(&lookups, &mut infos, &indices, oid(5), &mut first, 0),
        Ok(true)
    );
    assert_eq!(first.range, (Some(0), Some(4)));
    let mut second = branch(4, Some(1));
    assert_eq!(
        trace_branch(&lookups, &mut infos, &indices, oid(4), &mut second, 1),
        Ok(true)
    );
    assert_eq!(second.range, (Some(1), Some(3)));
    assert_eq!(traces(&infos), vec![Some(0), Some(1), Some(1), None, Some(0)]);
}

#[test]
fn trace_from_a_merge_ends_at_the_furthest_child() {
    let (mut infos, indices, lookups) = read(vec![
        commit(6, &[1]),
        commit(5, &[1, 4]),
        commit(4, &[1]),
        commit(3, &[]),
        commit(2, &[]),
        commit(1, &[]),
    ]);
    let mut first = branch(6, Some(0));
    assert_eq!(
        trace_branch(&lookups, &mut infos, &indices, oid(6), &mut first, 0),
        Ok(true)
    );
    let mut second = branch(5, Some(1));
    assert_eq!(
        trace_branch(&lookups, &mut infos, &indices, oid(5), &mut second, 1),
        Ok(true)
    );
    assert_eq!(second.range, (Some(1), Some(2)));
}

#[test]
fn trace_of_a_commit_that_belongs_to_another_branch() {
    let (mut infos, indices, lookups) = read(vec![commit(2, &[1]), commit(1, &[])]);
    let mut first = branch(2, Some(0));
    assert_eq!(
        trace_branch(&lookups, &mut infos, &indices, oid(2), &mut first, 0),
        Ok(true)
    );
    let mut second = branch(1, Some(1));
    assert_eq!(
        trace_branch(&lookups, &mut infos, &indices, oid(1), &mut second, 1),
        Ok(false)
    );
    assert_eq!(second.range, (None, None));
    let mut third = branch(1, Some(0));
    assert_eq!(
        trace_branch(&lookups, &mut infos, &indices, oid(1), &mut third, 2),
        Ok(false)
    );
    assert_eq!(third.range, (Some(0), Some(0)));
    assert_eq!(traces(&infos), vec![Some(0), Some(0)]);
}

#[test]
fn trace_of_a_branch_without_start() {
    let (mut infos, indices, lookups) = read(vec![commit(2, &[1]), commit(1, &[])]);
    let mut info = branch(2, None);
    assert_eq!(trace_branch(&lookups, &mut infos, &indices, oid(2), &mut info, 0), Ok(true));
    assert_eq!(info.range, (None, Some(1)));
}

#[test]
fn trace_stops_where_a_commit_cannot_be_read() {
    let (mut infos, indices, mut lookups) =
        read(vec![commit(3, &[2]), commit(2, &[1]), commit(1, &[])]);
    lookups[1] = Err("object not found".to_string());
    let mut info = branch(3, Some(0));
    let result = trace_branch(&lookups, &mut infos, &indices, oid(3), &mut info, 0);
    assert_eq!(result, Err("object not found".to_string()));
    assert_eq!(info.range, (Some(0), None));
    assert_eq!(traces(&infos), vec![Some(0), Some(0), None]);
}

#[test]
fn extract_listed_branches() {
    let (infos, indices, lookups) = read(vec![commit(2, &[1]), commit(1, &[])]);
    let listing = Ok(vec![local("topic", 1), remote("origin/master", 2), local("other", 9)]);
    let branches = extract_branches(&listing, &infos, &lookups, &indices, &settings()).unwrap();
    assert_eq!(branches.len(), 3);
    let master = &branches[0];
    assert_eq!(master.name, "origin/master");
    assert_eq!(master.target, oid(2));
    assert_eq!(master.merge_target, None);
    assert_eq!(master.persistence, 0);
    assert!(master.is_remote);
    assert!(!master.is_merged);
    assert!(!master.deleted);
    assert_eq!(master.visual.order_group, 0);
    assert_eq!(master.visual.term_color, 12);
    assert_eq!(master.visual.svg_color, "blue");
    assert_eq!(master.visual.column, None);
    assert_eq!(master.range, (Some(0), None));
    let topic = &branches[1];
    assert_eq!(topic.name, "topic");
    assert!(!topic.is_remote);
    assert_eq!(topic.persistence, 2);
    assert_eq!(topic.visual.order_group, 2);
    assert_eq!(topic.visual.term_color, 2);
    assert_eq!(topic.visual.svg_color, "black");
    assert_eq!(topic.range, (Some(1), None));
    let other = &branches[2];
    assert_eq!(other.name, "other");
    assert_eq!(other.visual.term_color, 1);
    assert_eq!(other.range, (None, None));
}

#[test]
fn extract_leaves_out_references_without_name_or_target() {
    let (infos, indices, lookups) = read(vec![commit(1, &[])]);
    let mut nameless = local("a", 1);
    nameless.name = None;
    let mut symbolic = local("b", 1);
    symbolic.target = None;
    let listing = Ok(vec![nameless, symbolic, local("c", 1)]);
    let branches = extract_branches(&listing, &infos, &lookups, &indices, &settings()).unwrap();
    assert_eq!(branches.len(), 1);
    assert_eq!(branches[0].name, "c");
    assert_eq!(branches[0].visual.term_color, 2);
}

#[test]
fn extract_merged_branches() {
    let (infos, indices, lookups) = read(vec![
        merge(5, &[3, 4], Some("develop")),
        commit(4, &[1]),
        merge(3, &[1, 2], None),
        commit(2, &[1]),
        commit(1, &[]),
    ]);
    let listing = Ok(vec![local("master", 5)]);
    let branches = extract_branches(&listing, &infos, &lookups, &indices, &settings()).unwrap();
    assert_eq!(branches.len(), 3);
    assert_eq!(branches[0].name, "master");
    let develop = &branches[1];
    assert_eq!(develop.name, "develop");
    assert_eq!(develop.target, oid(4));
    assert_eq!(develop.merge_target, Some(oid(5)));
    assert_eq!(develop.persistence, 1);
    assert!(!develop.is_remote);
    assert!(develop.is_merged);
    assert!(develop.deleted);
    assert_eq!(develop.visual.order_group, 1);
    assert_eq!(develop.visual.term_color, 3);
    assert_eq!(develop.visual.svg_color, "gray");
    assert_eq!(develop.range, (Some(1), None));
    let unknown = &branches[2];
    assert_eq!(unknown.name, "unknown");
    assert_eq!(unknown.target, oid(2));
    assert_eq!(unknown.merge_target, Some(oid(3)));
    assert_eq!(unknown.visual.term_color, 1);
    assert_eq!(unknown.visual.svg_color, "black");
    assert_eq!(unknown.range, (Some(3), None));
}

#[test]
fn extract_takes_merges_with_a_summary_only() {
    let (infos, indices, lookups) = read(vec![
        commit(3, &[1, 2]),
        merge(2, &[1], Some("feature")),
        merge(1, &[], Some("feature")),
    ]);
    let branches =
        extract_branches(&Ok(vec![]), &infos, &lookups, &indices, &settings()).unwrap();
    assert!(branches.is_empty());
}

#[test]
fn extract_sorts_by_persistence_and_puts_merged_branches_first() {
    let (infos, indices, lookups) = read(vec![
        merge(5, &[3, 4], Some("feature")),
        merge(4, &[1, 2], Some("master")),
        commit(3, &[1]),
        commit(2, &[1]),
        commit(1, &[]),
    ]);
    let listing = Ok(vec![
        local("b", 1),
        local("develop", 2),
        local("a", 3),
        local("master", 5),
    ]);
    let branches = extract_branches(&listing, &infos, &lookups, &indices, &settings()).unwrap();
    let order: Vec<(String, bool)> =
        branches.iter().map(|branch| (branch.name.clone(), branch.is_merged)).collect();
    assert_eq!(
        order,
        vec![
            ("master".to_string(), true),
            ("master".to_string(), false),
            ("develop".to_string(), false),
            ("feature".to_string(), true),
            ("b".to_string(), false),
            ("a".to_string(), false),
        ]
    );
}

#[test]
fn persistence_is_counted_in_one_byte() {
    let (infos, indices, lookups) = read(vec![commit(1, &[])]);
    let mut settings = settings();
    settings.branches.persistence = (0..257).map(|_| re("^none$")).collect();
    let listing = Ok(vec![local("a", 1)]);
    let branches = extract_branches(&listing, &infos, &lookups, &indices, &settings).unwrap();
    assert_eq!(branches[0].persistence, 1);
}

#[test]
fn extract_reports_a_failed_listing() {
    let (infos, indices, lookups) = read(vec![commit(1, &[])]);
    let listing = Err("no refs".to_string());
    let result = extract_branches(&listing, &infos, &lookups, &indices, &settings());
    assert_eq!(result.err(), Some("no refs".to_string()));
}

#[test]
fn extract_reports_a_color_that_does_not_resolve() {
    let (infos, indices, lookups) = read(vec![commit(1, &[])]);
    let listing = Ok(vec![local("a", 1), local("broken", 1)]);
    let result = extract_branches(&listing, &infos, &lookups, &indices, &settings());
    assert_eq!(result.err(), Some("no such color".to_string()));
    let (infos, indices, lookups) =
        read(vec![merge(3, &[2, 1], Some("broken")), commit(2, &[]), commit(1, &[])]);
    let result = extract_branches(&Ok(vec![]), &infos, &lookups, &indices, &settings());
    assert_eq!(result.err(), Some("no such color".to_string()));
}

#[test]
fn extract_reports_a_commit_that_cannot_be_read() {
    let (infos, indices, mut lookups) = read(vec![commit(2, &[1]), commit(1, &[])]);
    lookups[1] = Err("object not found".to_string());
    let listing = Ok(vec![local("a", 2)]);
    let result = extract_branches(&listing, &infos, &lookups, &indices, &settings());
    assert_eq!(result.err(), Some("object not found".to_string()));
}

#[test]
fn extract_reports_a_merge_that_lost_a_parent() {
    let (infos, indices, mut lookups) =
        read(vec![merge(3, &[2, 1], None), commit(2, &[]), commit(1, &[])]);
    lookups[0] = Ok(merge(3, &[2], None));
    let result = extract_branches(&Ok(vec![]), &infos, &lookups, &indices, &settings());
    assert_eq!(result.err(), Some("parent index out of bounds".to_string()));
}

#[test]
fn extract_gives_nothing_without_short_name_or_color() {
    let (infos, indices, lookups) = read(vec![commit(1, &[])]);
    let mut short = local("a", 1);
    short.name = Some("refs/heads".to_string());
    let listing = Ok(vec![short]);
    assert!(try_extract_branches(&listing, &infos, &lookups, &indices, &settings()).is_none());
    let mut split = local("a", 1);
    split.name = Some("refs/heads\u{e9}a".to_string());
    let listing = Ok(vec![split]);
    assert!(try_extract_branches(&listing, &infos, &lookups, &indices, &settings()).is_none());
    let listing = Ok(vec![local("colorless", 1)]);
    assert!(try_extract_branches(&listing, &infos, &lookups, &indices, &settings()).is_none());
    let mut bare = local("a", 1);
    bare.name = Some("refs/heads/".to_string());
    let listing = Ok(vec![bare]);
    let found = try_extract_branches(&listing, &infos, &lookups, &indices, &settings());
    assert_eq!(found.unwrap().ok().unwrap()[0].name, "");
}

#[test]
fn assign_gives_commits_to_the_most_persistent_branch() {
    let (mut infos, indices, lookups) = read(vec![
        commit(4, &[2]),
        commit(3, &[2]),
        commit(2, &[1]),
        commit(1, &[]),
    ]);
    let listing = Ok(vec![local("topic", 4), local("master", 3)]);
    let branches =
        assign_branches(&listing, &lookups, &mut infos, &indices, &settings()).unwrap();
    assert_eq!(branches[0].name, "master");
    assert_eq!(branches[0].range, (Some(1), Some(3)));
    assert_eq!(branches[1].name, "topic");
    assert_eq!(branches[1].range, (Some(0), Some(1)));
    assert_eq!(traces(&infos), vec![Some(1), Some(0), Some(0), Some(0)]);
    assert_eq!(infos[0].branches, vec![1]);
    assert_eq!(infos[1].branches, vec![0]);
    assert!(infos[2].branches.is_empty());
}

#[test]
fn assign_keeps_branches_without_commits_only_if_they_exist() {
    let (mut infos, indices, lookups) = read(vec![
        merge(3, &[2, 2], Some("gone")),
        commit(2, &[1]),
        commit(1, &[]),
    ]);
    let listing = Ok(vec![local("master", 3), local("copy", 3), local("far", 9)]);
    let branches =
        assign_branches(&listing, &lookups, &mut infos, &indices, &settings()).unwrap();
    let names: Vec<&str> = branches.iter().map(|branch| branch.name.as_str()).collect();
    assert_eq!(names, vec!["master", "copy"]);
    assert_eq!(branches[1].range, (None, None));
    assert_eq!(infos[0].branches, vec![0, 1]);
    assert_eq!(traces(&infos), vec![Some(0), Some(0), Some(0)]);
}

#[test]
fn assign_leaves_out_a_branch_that_cannot_be_traced() {
    let (mut infos, indices, mut lookups) =
        read(vec![commit(3, &[2]), commit(2, &[1]), commit(1, &[])]);
    lookups[1] = Err("object not found".to_string());
    let extracted = vec![branch(3, Some(0)), branch(1, Some(2))];
    let kept = assign_extracted(extracted, &lookups, &mut infos, &indices);
    assert_eq!(kept.len(), 1);
    assert_eq!(kept[0].target, oid(1));
    assert_eq!(infos[0].branches, vec![0]);
    assert_eq!(infos[2].branches, vec![0]);
    assert_eq!(traces(&infos), vec![Some(0), Some(0), Some(0)]);
}

#[test]
fn assign_passes_on_what_extracting_gives() {
    let (mut infos, indices, lookups) = read(vec![commit(1, &[])]);
    let listing = Err("no refs".to_string());
    let result = assign_branches(&listing, &lookups, &mut infos, &indices, &settings());
    assert_eq!(result.err(), Some("no refs".to_string()));
    let listing = Ok(vec![local("colorless", 1)]);
    assert!(
        try_assign_branches(&listing, &lookups, &mut infos, &indices, &settings()).is_none()
    );
    assert_eq!(traces(&infos), vec![None]);
}

#[test]
fn filter_moves_ranges_to_the_commits_kept() {
    let (mut infos, indices, _) = read(vec![
        commit(5, &[1]),
        commit(4, &[1]),
        commit(3, &[1]),
        commit(2, &[1]),
        commit(1, &[]),
    ]);
    infos[1].branch_trace = Some(0);
    infos[3].branch_trace = Some(1);
    infos[4].branch_trace = Some(0);
    let mut first = branch(4, Some(0));
    first.range = (Some(0), Some(4));
    let mut second = branch(2, Some(2));
    second.range = (Some(2), Some(3));
    let mut third = branch(2, None);
    third.range = (None, Some(2));
    let (kept, kept_indices, moved) =
        filter_commits(infos, &indices, vec![first, second, third]).unwrap();
    let oids: Vec<u32> = kept.iter().map(|info| info.oid.low).collect();
    assert_eq!(oids, vec![4, 2, 1]);
    assert_eq!(kept_indices.get(&oid(4)), Some(0));
    assert_eq!(kept_indices.get(&oid(2)), Some(1));
    assert_eq!(kept_indices.get(&oid(1)), Some(2));
    assert_eq!(kept_indices.get(&oid(3)), None);
    assert_eq!(moved[0].range, (Some(0), Some(2)));
    assert_eq!(moved[1].range, (Some(1), Some(1)));
    assert_eq!(moved[2].range, (None, Some(0)));
}

#[test]
fn filter_gives_nothing_for_a_range_that_is_not_found() {
    let (mut infos, indices, _) = read(vec![commit(2, &[1]), commit(1, &[])]);
    infos[0].branch_trace = Some(0);
    let mut info = branch(2, Some(1));
    info.range = (Some(1), None);
    assert!(filter_commits(infos, &indices, vec![info]).is_none());
    let (mut infos, indices, _) = read(vec![commit(2, &[1]), commit(1, &[])]);
    infos[1].branch_trace = Some(0);
    let mut info = branch(2, None);
    info.range = (None, Some(0));
    assert!(filter_commits(infos, &indices, vec![info]).is_none());
    let (infos, indices, _) = read(vec![commit(2, &[1]), commit(1, &[])]);
    let mut info = branch(2, Some(5));
    info.range = (Some(5), None);
    assert!(filter_commits(infos, &indices, vec![info]).is_none());
}
