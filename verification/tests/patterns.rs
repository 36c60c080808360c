use git_graph::patterns::{branch_color, branch_order, find_color, try_branch_color};
use regex::Regex;

fn re(pattern: &str) -> Regex {
    Regex::new(pattern).unwrap()
}

fn strings(items: &[&str]) -> Vec<String> {
    items.iter().map(|item| item.to_string()).collect()
}

#[test]
fn order_is_that_of_the_first_match() {
    let order = [re("^(master|main)$"), re("^develop$"), re("^d")];
    assert_eq!(branch_order("master", &order), 0);
    assert_eq!(branch_order("develop", &order), 1);
    assert_eq!(branch_order("dev", &order), 2);
}

#[test]
fn order_without_a_match_is_the_number_of_patterns() {
    let order = [re("^(master|main)$"), re("^develop$")];
    assert_eq!(branch_order("feature/a", &order), 2);
    assert_eq!(branch_order("feature/a", &[]), 0);
}

#[test]
fn order_ignores_the_prefix_of_the_default_remote() {
    let order = [re("^(master|main)$"), re("^develop$")];
    assert_eq!(branch_order("origin/develop", &order), 1);
    assert_eq!(branch_order("upstream/develop", &order), 2);
    assert_eq!(branch_order("origin/", &[re("^$")]), 0);
    assert_eq!(branch_order("origin", &[re("^$")]), 1);
    assert_eq!(branch_order("Origin/develop", &order), 2);
}

#[test]
fn order_of_a_name_that_is_matched_with_its_prefix() {
    let order = [re("^origin/x$"), re("^x$")];
    assert_eq!(branch_order("origin/x", &order), 0);
    assert_eq!(branch_order("x", &order), 1);
}

#[test]
fn order_of_names_beyond_ascii() {
    let order = [re("^fé")];
    assert_eq!(branch_order("origin/fée", &order), 0);
    assert_eq!(branch_order("örigin/fé", &order), 1);
}

#[test]
fn origin_ranks_no_later_than_the_short_name() {
    let order = [re("^release/"), re("^feature/"), re("^fix/")];
    for name in ["feature/a", "release/1", "fix/b", "other", ""] {
        let long = format!("origin/{}", name);
        assert!(branch_order(&long, &order) <= branch_order(name, &order));
    }
}

#[test]
fn only_one_prefix_of_the_default_remote_is_ignored() {
    let order = [re("^x$")];
    assert_eq!(branch_order("origin/x", &order), 0);
    assert_eq!(branch_order("origin/origin/x", &order), 1);
}

#[test]
fn color_cycles_with_the_counter() {
    let order = [(re("^feature/"), strings(&["red", "green", "blue"]))];
    let unknown = strings(&["gray", "black"]);
    assert_eq!(branch_color("feature/a", &order, &unknown, 0), "red");
    assert_eq!(branch_color("feature/a", &order, &unknown, 4), "green");
    assert_eq!(branch_color("origin/feature/a", &order, &unknown, 5), "blue");
    assert_eq!(branch_color("other", &order, &unknown, 3), "black");
    assert_eq!(branch_color("other", &order, &unknown, 4), "gray");
}

#[test]
fn color_is_that_of_the_first_match() {
    let order = [(re("^f"), vec![1u8]), (re("^feature/"), vec![2u8])];
    assert_eq!(branch_color("feature/a", &order, &[3u8], 7), 1);
    assert_eq!(find_color("feature/a", &order, &[3u8], 7), Some(&1));
}

#[test]
fn no_color_to_choose_from() {
    let order = [(re("^feature/"), strings(&[])), (re("^f"), strings(&["red"]))];
    let unknown = strings(&["gray"]);
    assert_eq!(try_branch_color("feature/a", &order, &unknown, 1), None);
    assert_eq!(try_branch_color("fix", &order, &unknown, 1), Some("red".to_string()));
    assert_eq!(try_branch_color("other", &order, &unknown, 1), Some("gray".to_string()));
    assert_eq!(try_branch_color("other", &order, &[], 1), None);
    assert_eq!(find_color("other", &order, &[], 1), None);
}
