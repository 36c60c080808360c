//! The branches of a repository: those it lists, and those that the summaries of merge commits
//! speak of.

use crate::branch::{
    branch_states, Branch, BranchInfo, BranchState, BranchType, BranchVis, VisState,
};
use crate::commit::{commit_states, Commit, CommitInfo, CommitState};
use crate::oid::{Oid, OidMap};
use crate::patterns::{branch_order, chosen_color, find_color, first_match, try_branch_color};
use crate::settings::{BranchSettings, Settings};
use crate::sorting::{
    arranged, branch_keys, is_stable_order, precedes, sort_by_cached_key, stable_order,
};
use crate::sorting::{lemma_stable_order, lemma_stable_order_unique};
use vstd::prelude::*;
use vstd::utf8::{decode_utf8, encode_utf8, is_char_boundary};

verus! {

/// The number of bytes before the short name in the full name of a branch reference.
pub open spec fn prefix_len(kind: BranchType) -> int {
    match kind {
        BranchType::Local => 11,
        BranchType::Remote => 13,
    }
}

/// The short name of a branch: its full name without the first bytes. There is none where the
/// name is too short, or a character spans the place of the cut.
pub open spec fn short_name(name: Seq<char>, kind: BranchType) -> Option<Seq<char>> {
    let bytes = encode_utf8(name);
    if is_char_boundary(bytes, prefix_len(kind)) {
        Some(decode_utf8(bytes.skip(prefix_len(kind))))
    } else {
        None
    }
}

/// The short name of a branch, if there is one.
fn find_short_name(name: &str, kind: BranchType) -> (short: Option<&str>)
    ensures
        match short {
            Some(short) => short_name(name@, kind) == Some(short@),
            None => short_name(name@, kind) is None,
        },
{
    let at: usize = match kind {
        BranchType::Local => 11,
        BranchType::Remote => 13,
    };
    if name.is_char_boundary(at) {
        let short = name.split_at(at).1;
        proof {
            broadcast use vstd::utf8::encode_utf8_decode_utf8;
            broadcast use vstd::utf8::is_char_boundary_start_end_of_seq;

            let bytes = encode_utf8(name@);
            assert(encode_utf8(short@) =~= bytes.skip(at as int));
            assert(decode_utf8(encode_utf8(short@)) == short@);
        }
        Some(short)
    } else {
        None
    }
}

/// How a branch ranks and what it looks like.
#[verifier::ext_equal]
pub struct Style {
    pub persistence: u8,
    pub order_group: usize,
    pub term_color: u8,
    pub svg_color: Seq<char>,
}

/// The style of branch number `counter`: an error where its terminal colour does not resolve, none
/// where there is no colour to choose from.
pub open spec fn style(name: Seq<char>, settings: BranchSettings, counter: usize) -> Option<
    Result<Style, Seq<char>>,
> {
    match chosen_color(
        name,
        settings.terminal_colors@,
        settings.terminal_colors_unknown@,
        counter,
    ) {
        None => None,
        Some(Err(message)) => Some(Err(message@)),
        Some(Ok(code)) => match chosen_color(
            name,
            settings.svg_colors@,
            settings.svg_colors_unknown@,
            counter,
        ) {
            None => None,
            Some(svg_color) => Some(
                Ok(
                    Style {
                        persistence: (first_match(settings.persistence@, name, 0) % 256) as u8,
                        order_group: first_match(settings.order@, name, 0) as usize,
                        term_color: code,
                        svg_color: svg_color@,
                    },
                ),
            ),
        },
    }
}

/// The style of a branch: its persistence and its properties for visualization.
fn find_style(name: &str, settings: &BranchSettings, counter: usize) -> (found: Option<
    Result<(u8, BranchVis), String>,
>)
    ensures
        match found {
            None => style(name@, *settings, counter) is None,
            Some(Err(message)) => style(name@, *settings, counter) == Some(
                Err::<Style, Seq<char>>(message@),
            ),
            Some(Ok((persistence, visual))) => visual.column is None && style(
                name@,
                *settings,
                counter,
            ) == Some(
                Ok::<Style, Seq<char>>(
                    Style {
                        persistence,
                        order_group: visual.order_group,
                        term_color: visual.term_color,
                        svg_color: visual.svg_color@,
                    },
                ),
            ),
        },
{
    let term_color = match find_color(
        name,
        &settings.terminal_colors,
        &settings.terminal_colors_unknown,
        counter,
    ) {
        None => {
            return None;
        },
        Some(Err(message)) => {
            return Some(Err(message.clone()));
        },
        Some(Ok(code)) => *code,
    };
    let svg_color = match try_branch_color(
        name,
        &settings.svg_colors,
        &settings.svg_colors_unknown,
        counter,
    ) {
        None => {
            return None;
        },
        Some(color) => color,
    };
    let rank = branch_order(name, &settings.persistence);
    let persistence = rank as u8;
    assert(rank as u8 == rank % 256) by (bit_vector);
    let group = branch_order(name, &settings.order);
    Some(Ok((persistence, BranchVis::new(group, term_color, svg_color))))
}

/// A branch that the repository lists.
pub open spec fn listed_branch(
    target: Oid,
    name: Seq<char>,
    style: Style,
    kind: BranchType,
    indices: Map<Oid, usize>,
) -> BranchState {
    BranchState {
        target,
        merge_target: None,
        name,
        persistence: style.persistence,
        is_remote: kind == BranchType::Remote,
        is_merged: false,
        visual: VisState {
            order_group: style.order_group,
            term_color: style.term_color,
            svg_color: style.svg_color,
            column: None,
        },
        deleted: false,
        range: (
            if indices.contains_key(target) {
                Some(indices[target])
            } else {
                None
            },
            None,
        ),
    }
}

/// A branch that the merge commit at `index` speaks of.
pub open spec fn merged_branch(
    target: Oid,
    merge: Oid,
    name: Seq<char>,
    style: Style,
    index: int,
) -> BranchState {
    BranchState {
        target,
        merge_target: Some(merge),
        name,
        persistence: style.persistence,
        is_remote: false,
        is_merged: true,
        visual: VisState {
            order_group: style.order_group,
            term_color: style.term_color,
            svg_color: style.svg_color,
            column: None,
        },
        deleted: true,
        range: (Some((index + 1) as usize), None),
    }
}

/// Adds to `found` the branches that are listed from number `from` on. References without a name
/// or a target are left out; `counter` counts the others.
pub open spec fn with_listed(
    branches: Seq<Branch>,
    indices: Map<Oid, usize>,
    settings: BranchSettings,
    from: int,
    counter: int,
    found: Seq<BranchState>,
) -> Option<Result<(int, Seq<BranchState>), Seq<char>>>
    decreases branches.len() - from,
{
    if from >= branches.len() {
        Some(Ok((counter, found)))
    } else {
        let branch = branches[from];
        match (branch.name, branch.target) {
            (Some(name), Some(target)) => if counter >= usize::MAX {
                None
            } else {
                match short_name(name@, branch.kind) {
                    None => None,
                    Some(short) => match style(short, settings, (counter + 1) as usize) {
                        None => None,
                        Some(Err(message)) => Some(Err(message)),
                        Some(Ok(style)) => with_listed(
                            branches,
                            indices,
                            settings,
                            from + 1,
                            counter + 1,
                            found.push(listed_branch(target, short, style, branch.kind, indices)),
                        ),
                    },
                }
            },
            _ => with_listed(branches, indices, settings, from + 1, counter, found),
        }
    }
}

/// The name of the branch that a merge commit speaks of.
pub open spec fn merge_name(merged_branch: Option<String>) -> Seq<char> {
    match merged_branch {
        Some(name) => name@,
        None => "unknown"@,
    }
}

/// Adds to `found` the branches that the merge commits from position `from` on speak of. `lookups`
/// holds, for each commit, what reading it gives.
pub open spec fn with_merged(
    commits: Seq<CommitState>,
    lookups: Seq<Result<Commit, String>>,
    settings: BranchSettings,
    from: int,
    counter: int,
    found: Seq<BranchState>,
) -> Option<Result<(int, Seq<BranchState>), Seq<char>>>
    decreases commits.len() - from,
{
    if from >= commits.len() {
        Some(Ok((counter, found)))
    } else {
        match lookups[from] {
            Err(message) => Some(Err(message@)),
            Ok(commit) => match commit.summary {
                Some(summary) if commits[from].is_merge => if counter >= usize::MAX {
                    None
                } else if commit.parents@.len() < 2 {
                    Some(Err("parent index out of bounds"@))
                } else {
                    let name = merge_name(summary.merged_branch);
                    match style(name, settings, (counter + 1) as usize) {
                        None => None,
                        Some(Err(message)) => Some(Err(message)),
                        Some(Ok(style)) => with_merged(
                            commits,
                            lookups,
                            settings,
                            from + 1,
                            counter + 1,
                            found.push(
                                merged_branch(
                                    commit.parents@[1],
                                    commits[from].oid,
                                    name,
                                    style,
                                    from,
                                ),
                            ),
                        ),
                    }
                },
                _ => with_merged(commits, lookups, settings, from + 1, counter, found),
            },
        }
    }
}

/// The keys by which branches are sorted: persistence first, merged branches before others.
pub open spec fn state_keys(branches: Seq<BranchState>) -> Seq<(int, int)> {
    branches.map_values(
        |branch: BranchState|
            (
                branch.persistence as int,
                if branch.is_merged {
                    0int
                } else {
                    1int
                },
            ),
    )
}

/// The branches by persistence.
pub open spec fn by_persistence(branches: Seq<BranchState>) -> Seq<BranchState> {
    arranged(branches, stable_order(state_keys(branches)))
}

/// The branches of a repository by persistence, or the message that says why they cannot be had.
///
/// There is neither where a branch to be shown has no short name or no colour to choose from.
pub open spec fn extracted(
    listing: Result<Vec<Branch>, String>,
    commits: Seq<CommitState>,
    lookups: Seq<Result<Commit, String>>,
    indices: Map<Oid, usize>,
    settings: BranchSettings,
) -> Option<Result<Seq<BranchState>, Seq<char>>> {
    match listing {
        Err(message) => Some(Err(message@)),
        Ok(branches) => match with_listed(branches@, indices, settings, 0, 0, Seq::empty()) {
            None => None,
            Some(Err(message)) => Some(Err(message)),
            Some(Ok((counter, found))) => match with_merged(
                commits,
                lookups,
                settings,
                0,
                counter,
                found,
            ) {
                None => None,
                Some(Err(message)) => Some(Err(message)),
                Some(Ok((_, all))) => Some(Ok(by_persistence(all))),
            },
        },
    }
}

/// What a list of branches, or an error, stands for.
pub open spec fn result_states(result: Result<Vec<BranchInfo>, String>) -> Result<
    Seq<BranchState>,
    Seq<char>,
> {
    match result {
        Ok(branches) => Ok(branch_states(branches@)),
        Err(message) => Err(message@),
    }
}

/// Extracts the listed branches and adds them to none.
///
/// Returns the number of branches with them.
fn extract_listed(branches: &Vec<Branch>, indices: &OidMap, settings: &BranchSettings) -> (result:
    Option<Result<(usize, Vec<BranchInfo>), String>>)
    ensures
        match (
            result,
            with_listed(branches@, indices@, *settings, 0, 0, Seq::empty()),
        ) {
            (None, None) => true,
            (Some(Err(message)), Some(Err(expected))) => message@ == expected,
            (Some(Ok((counter, found))), Some(Ok(expected))) => counter == expected.0
                && branch_states(found@) == expected.1,
            _ => false,
        },
{
    let ghost target = with_listed(branches@, indices@, *settings, 0, 0, Seq::empty());
    let mut counter: usize = 0;
    let mut found: Vec<BranchInfo> = Vec::new();
    assert(branch_states(found@) =~= Seq::empty());
    for i in 0..branches.len()
        invariant
            target == with_listed(branches@, indices@, *settings, 0, 0, Seq::empty()),
            target == with_listed(
                branches@,
                indices@,
                *settings,
                i as int,
                counter as int,
                branch_states(found@),
            ),
    {
        let branch = &branches[i];
        if let Some(full_name) = &branch.name {
            if let Some(oid) = branch.target {
                if counter == usize::MAX {
                    return None;
                }
                counter = counter + 1;
                let name = match find_short_name(full_name.as_str(), branch.kind) {
                    Some(name) => name,
                    None => {
                        return None;
                    },
                };
                match find_style(name, settings, counter) {
                    None => {
                        return None;
                    },
                    Some(Err(message)) => {
                        return Some(Err(message));
                    },
                    Some(Ok((persistence, visual))) => {
                        let ghost before = branch_states(found@);
                        let info = BranchInfo::new(
                            oid,
                            None,
                            name.to_string(),
                            persistence,
                            matches!(branch.kind, BranchType::Remote),
                            false,
                            visual,
                            false,
                            indices.get(&oid),
                        );
                        let ghost state = info@;
                        found.push(info);
                        assert(branch_states(found@) =~= before.push(state));
                    },
                }
            }
        }
    }
    Some(Ok((counter, found)))
}

/// Adds the branches that merge commits speak of.
fn extract_merged(
    commits: &[CommitInfo],
    lookups: &[Result<Commit, String>],
    settings: &BranchSettings,
    counted: usize,
    listed: Vec<BranchInfo>,
) -> (result: Option<Result<Vec<BranchInfo>, String>>)
    requires
        commits@.len() <= lookups@.len(),
    ensures
        match (
            result,
            with_merged(
                commit_states(commits@),
                lookups@,
                *settings,
                0,
                counted as int,
                branch_states(listed@),
            ),
        ) {
            (None, None) => true,
            (Some(Err(message)), Some(Err(expected))) => message@ == expected,
            (Some(Ok(found)), Some(Ok(expected))) => branch_states(found@) == expected.1,
            _ => false,
        },
{
    let ghost states = commit_states(commits@);
    let ghost target = with_merged(
        states,
        lookups@,
        *settings,
        0,
        counted as int,
        branch_states(listed@),
    );
    let mut counter = counted;
    let mut found = listed;
    for i in 0..commits.len()
        invariant
            commits@.len() <= lookups@.len(),
            states == commit_states(commits@),
            target == with_merged(
                states,
                lookups@,
                *settings,
                0,
                counted as int,
                branch_states(listed@),
            ),
            target == with_merged(
                states,
                lookups@,
                *settings,
                i as int,
                counter as int,
                branch_states(found@),
            ),
    {
        let info = &commits[i];
        assert(states[i as int] == info@);
        let commit = match &lookups[i] {
            Ok(commit) => commit,
            Err(message) => {
                return Some(Err(message.clone()));
            },
        };
        if info.is_merge {
            if let Some(summary) = &commit.summary {
                if counter == usize::MAX {
                    return None;
                }
                counter = counter + 1;
                let parent_oid = match commit.parent_id(1) {
                    Ok(oid) => oid,
                    Err(message) => {
                        return Some(Err(message));
                    },
                };
                let branch_name = match &summary.merged_branch {
                    Some(name) => name.clone(),
                    None => "unknown".to_string(),
                };
                match find_style(branch_name.as_str(), settings, counter) {
                    None => {
                        return None;
                    },
                    Some(Err(message)) => {
                        return Some(Err(message));
                    },
                    Some(Ok((persistence, visual))) => {
                        let ghost before = branch_states(found@);
                        let branch_info = BranchInfo::new(
                            parent_oid,
                            Some(info.oid),
                            branch_name,
                            persistence,
                            false,
                            true,
                            visual,
                            true,
                            Some(i + 1),
                        );
                        let ghost state = branch_info@;
                        found.push(branch_info);
                        assert(branch_states(found@) =~= before.push(state));
                    },
                }
            }
        }
    }
    Some(Ok(found))
}

/// Extracts branches (real or derived from merge summary) and assigns basic properties. `lookups`
/// holds, for each of the commits, what reading it gives.
///
/// Returns `None` where a branch to be shown has no short name or no colour to choose from.
pub fn try_extract_branches(
    listing: &Result<Vec<Branch>, String>,
    commits: &[CommitInfo],
    lookups: &[Result<Commit, String>],
    indices: &OidMap,
    settings: &Settings,
) -> (result: Option<Result<Vec<BranchInfo>, String>>)
    requires
        commits@.len() <= lookups@.len(),
    ensures
        match result {
            Some(result) => extracted(
                *listing,
                commit_states(commits@),
                lookups@,
                indices@,
                settings.branches,
            ) == Some(result_states(result)),
            None => extracted(
                *listing,
                commit_states(commits@),
                lookups@,
                indices@,
                settings.branches,
            ) is None,
        },
{
    let branches = match listing {
        Ok(branches) => branches,
        Err(message) => {
            return Some(Err(message.clone()));
        },
    };
    let (counter, listed) = match extract_listed(branches, indices, &settings.branches) {
        None => {
            return None;
        },
        Some(Err(message)) => {
            return Some(Err(message));
        },
        Some(Ok(extracted)) => extracted,
    };
    let mut found = match extract_merged(commits, lookups, &settings.branches, counter, listed) {
        None => {
            return None;
        },
        Some(Err(message)) => {
            return Some(Err(message));
        },
        Some(Ok(found)) => found,
    };
    let ghost all = found@;
    sort_by_cached_key(&mut found);
    proof {
        let keys = branch_keys(all);
        let order = choose|order: Seq<int>| #[trigger]
            is_stable_order(keys, order) && found@ == arranged(all, order);
        lemma_stable_order_unique(keys, order);
        assert(keys =~= state_keys(branch_states(all)));
        assert(branch_states(found@) =~= by_persistence(branch_states(all))) by {
            assert forall|i: int| 0 <= i < found@.len() implies #[trigger] branch_states(found@)[i]
                == by_persistence(branch_states(all))[i] by {
                assert(0 <= order[i] < all.len());
            }
        }
    }
    Some(Ok(found))
}

/// Extracts branches (real or derived from merge summary) and assigns basic properties. `lookups`
/// holds, for each of the commits, what reading it gives.
pub fn extract_branches(
    listing: &Result<Vec<Branch>, String>,
    commits: &[CommitInfo],
    lookups: &[Result<Commit, String>],
    indices: &OidMap,
    settings: &Settings,
) -> (result: Result<Vec<BranchInfo>, String>)
    requires
        commits@.len() <= lookups@.len(),
        extracted(
            *listing,
            commit_states(commits@),
            lookups@,
            indices@,
            settings.branches,
        ) is Some,
    ensures
        extracted(
            *listing,
            commit_states(commits@),
            lookups@,
            indices@,
            settings.branches,
        ) == Some(result_states(result)),
{
    try_extract_branches(listing, commits, lookups, indices, settings).unwrap()
}

/// Whether a branch may come before another: it does not have the greater persistence and, of equal
/// persistence, is merged or the other is not.
pub open spec fn ranks_no_later(branch: BranchState, other: BranchState) -> bool {
    ||| branch.persistence < other.persistence
    ||| branch.persistence == other.persistence && (branch.is_merged || !other.is_merged)
}

/// Branches are extracted by persistence: of two branches, the one that comes later does not have
/// the smaller persistence and, of equal persistence, is not the only merged one.
pub proof fn law_extracted_by_persistence(
    listing: Result<Vec<Branch>, String>,
    commits: Seq<CommitState>,
    lookups: Seq<Result<Commit, String>>,
    indices: Map<Oid, usize>,
    settings: BranchSettings,
    i: int,
    j: int,
)
    requires
        extracted(listing, commits, lookups, indices, settings) matches Some(Ok(branches)) && 0 <= i
            < j < branches.len(),
    ensures
        ({
            let branches = extracted(listing, commits, lookups, indices, settings)->0->Ok_0;
            ranks_no_later(branches[i], branches[j])
        }),
{
    let listed = with_listed(listing->Ok_0@, indices, settings, 0, 0, Seq::empty())->0->Ok_0;
    let all = with_merged(commits, lookups, settings, 0, listed.0, listed.1)->0->Ok_0.1;
    let order = stable_order(state_keys(all));
    lemma_stable_order(state_keys(all));
    assert(precedes(state_keys(all), order[i], order[j]));
}

} // verus!
