//! When the branches of a repository can be had, and what is said where they cannot.

use crate::branch::{Branch, BranchState};
use crate::commit::{Commit, CommitState};
use crate::extract::{extracted, listed_branch, merge_name, merged_branch, short_name, style};
use crate::extract::{with_listed, with_merged};
use crate::matching::{is_color, law_chosen_color};
use crate::oid::Oid;
use crate::patterns::chosen_color;
use crate::settings::BranchSettings;
use crate::sources::{
    is_named, is_rest, is_summarised, named_before, number_of, reference_prefix,
    summarised_before, Source,
};
use crate::sources::lemma_rest;
use vstd::prelude::*;

verus! {

/// What comes of one reference or one commit: all is fine, or a message says why not, or there is
/// no answer.
pub enum Outcome {
    Fine,
    Fails(Seq<char>),
    Stops,
}

/// Whether styling a branch has an outcome: it fails with the message of the terminal colour that
/// is chosen, if that is one, and it stops where there is no colour to choose from.
pub open spec fn styling_gives(
    name: Seq<char>,
    settings: BranchSettings,
    counter: usize,
    outcome: Outcome,
) -> bool {
    let (terminal, unknown) = (settings.terminal_colors@, settings.terminal_colors_unknown@);
    let (svg, svg_unknown) = (settings.svg_colors@, settings.svg_colors_unknown@);
    match outcome {
        Outcome::Fine => {
            &&& exists|code: u8| #[trigger]
                is_color(name, terminal, unknown, counter, Some(Ok::<u8, String>(code)))
            &&& exists|color: String| #[trigger]
                is_color(name, svg, svg_unknown, counter, Some(color))
        },
        Outcome::Fails(message) => exists|error: String| #[trigger]
            is_color(name, terminal, unknown, counter, Some(Err::<u8, String>(error))) && error@
                == message,
        Outcome::Stops => {
            ||| is_color(name, terminal, unknown, counter, None)
            ||| (exists|code: u8| #[trigger]
                is_color(name, terminal, unknown, counter, Some(Ok::<u8, String>(code))))
                && is_color(name, svg, svg_unknown, counter, None)
        },
    }
}

/// Whether a reference has an outcome. One without a name or a target is fine; one whose full name
/// has no rest stops.
pub open spec fn reference_gives(
    listing: Seq<Branch>,
    settings: BranchSettings,
    i: int,
    outcome: Outcome,
) -> bool {
    let branch = listing[i];
    if !is_named(branch) {
        outcome is Fine
    } else {
        ||| outcome is Stops && forall|short: Seq<char>|
            !#[trigger] is_rest(branch.name->0@, reference_prefix(branch.kind), short)
        ||| exists|short: Seq<char>| #[trigger]
            is_rest(branch.name->0@, reference_prefix(branch.kind), short) && styling_gives(
                short,
                settings,
                (named_before(listing, i) + 1) as usize,
                outcome,
            )
    }
}

/// Whether a commit has an outcome. One that cannot be read fails with the message that says why,
/// and a merge with a summary fails where reading it gives no second parent; other commits are
/// fine.
pub open spec fn commit_gives(
    listing: Seq<Branch>,
    commits: Seq<CommitState>,
    lookups: Seq<Result<Commit, String>>,
    settings: BranchSettings,
    k: int,
    outcome: Outcome,
) -> bool {
    let number = number_of(listing, commits, lookups, Source::Merge(k));
    match lookups[k] {
        Err(message) => outcome == Outcome::Fails(message@),
        Ok(commit) => if !is_summarised(commits[k], lookups[k]) {
            outcome is Fine
        } else if number > usize::MAX {
            outcome is Stops
        } else if commit.parents@.len() < 2 {
            outcome == Outcome::Fails("parent index out of bounds"@)
        } else {
            styling_gives(
                match commit.summary->0.merged_branch {
                    Some(name) => name@,
                    None => "unknown"@,
                },
                settings,
                number as usize,
                outcome,
            )
        },
    }
}

/// Whether reference number `i` is the first with an outcome that is not fine.
pub open spec fn reference_decides(
    listing: Seq<Branch>,
    settings: BranchSettings,
    i: int,
    outcome: Outcome,
) -> bool {
    &&& 0 <= i < listing.len()
    &&& outcome !is Fine
    &&& reference_gives(listing, settings, i, outcome)
    &&& forall|j: int| 0 <= j < i ==> #[trigger] reference_gives(listing, settings, j, Outcome::Fine)
}

/// Whether all references are fine.
pub open spec fn references_fine(listing: Seq<Branch>, settings: BranchSettings) -> bool {
    forall|i: int|
        0 <= i < listing.len() ==> #[trigger] reference_gives(listing, settings, i, Outcome::Fine)
}

/// Whether the commit at `k` is the first with an outcome that is not fine.
pub open spec fn commit_decides(
    listing: Seq<Branch>,
    commits: Seq<CommitState>,
    lookups: Seq<Result<Commit, String>>,
    settings: BranchSettings,
    k: int,
    outcome: Outcome,
) -> bool {
    &&& 0 <= k < commits.len()
    &&& outcome !is Fine
    &&& commit_gives(listing, commits, lookups, settings, k, outcome)
    &&& forall|l: int|
        0 <= l < k ==> #[trigger] commit_gives(
            listing,
            commits,
            lookups,
            settings,
            l,
            Outcome::Fine,
        )
}

/// Whether all references and all commits are fine, or an outcome is the first that is not.
pub open spec fn is_outcome(
    listing: Seq<Branch>,
    commits: Seq<CommitState>,
    lookups: Seq<Result<Commit, String>>,
    settings: BranchSettings,
    outcome: Outcome,
) -> bool {
    if outcome is Fine {
        &&& references_fine(listing, settings)
        &&& forall|k: int|
            0 <= k < commits.len() ==> #[trigger] commit_gives(
                listing,
                commits,
                lookups,
                settings,
                k,
                Outcome::Fine,
            )
    } else {
        ||| exists|i: int| #[trigger] reference_decides(listing, settings, i, outcome)
        ||| references_fine(listing, settings) && exists|k: int| #[trigger]
            commit_decides(listing, commits, lookups, settings, k, outcome)
    }
}

/// The outcome that a result is.
pub open spec fn outcome_of<T>(result: Option<Result<T, Seq<char>>>) -> Outcome {
    match result {
        None => Outcome::Stops,
        Some(Err(message)) => Outcome::Fails(message),
        Some(Ok(_)) => Outcome::Fine,
    }
}

proof fn lemma_styling(name: Seq<char>, settings: BranchSettings, counter: usize)
    ensures
        styling_gives(name, settings, counter, outcome_of(style(name, settings, counter))),
{
    let (terminal, unknown) = (settings.terminal_colors@, settings.terminal_colors_unknown@);
    let (svg, svg_unknown) = (settings.svg_colors@, settings.svg_colors_unknown@);
    law_chosen_color(name, terminal, unknown, counter);
    law_chosen_color(name, svg, svg_unknown, counter);
    match chosen_color(name, terminal, unknown, counter) {
        Some(Ok(code)) => {
            assert(is_color(name, terminal, unknown, counter, Some(Ok::<u8, String>(code))));
        },
        Some(Err(error)) => {
            assert(is_color(name, terminal, unknown, counter, Some(Err::<u8, String>(error))));
        },
        None => {},
    }
}

proof fn lemma_named_before(listing: Seq<Branch>, count: int)
    requires
        0 <= count,
    ensures
        0 <= named_before(listing, count) <= count,
    decreases count,
{
    if count > 0 {
        lemma_named_before(listing, count - 1);
    }
}

proof fn lemma_listed_outcome(
    listing: Seq<Branch>,
    indices: Map<Oid, usize>,
    settings: BranchSettings,
    from: int,
    counter: int,
    found: Seq<BranchState>,
)
    requires
        listing.len() <= usize::MAX,
        0 <= from <= listing.len(),
        counter == named_before(listing, from),
        forall|j: int|
            0 <= j < from ==> #[trigger] reference_gives(listing, settings, j, Outcome::Fine),
    ensures
        ({
            let result = with_listed(listing, indices, settings, from, counter, found);
            let outcome = outcome_of(result);
            if outcome is Fine {
                &&& references_fine(listing, settings)
                &&& result->0->Ok_0.0 == named_before(listing, listing.len() as int)
            } else {
                exists|i: int| #[trigger] reference_decides(listing, settings, i, outcome)
            }
        }),
    decreases listing.len() - from,
{
    lemma_named_before(listing, from);
    if from < listing.len() {
        let branch = listing[from];
        let outcome = outcome_of(with_listed(listing, indices, settings, from, counter, found));
        if is_named(branch) {
            let (name, target) = (branch.name->0, branch.target->0);
            lemma_rest(name@, branch.kind);
            match short_name(name@, branch.kind) {
                None => {
                    assert(reference_decides(listing, settings, from, outcome));
                },
                Some(short) => {
                    let styled = style(short, settings, (counter + 1) as usize);
                    lemma_styling(short, settings, (counter + 1) as usize);
                    assert(is_rest(name@, reference_prefix(branch.kind), short));
                    assert(reference_gives(listing, settings, from, outcome_of(styled)));
                    match styled {
                        Some(Ok(chosen)) => {
                            lemma_listed_outcome(
                                listing,
                                indices,
                                settings,
                                from + 1,
                                counter + 1,
                                found.push(
                                    listed_branch(target, short, chosen, branch.kind, indices),
                                ),
                            );
                        },
                        _ => {
                            assert(reference_decides(listing, settings, from, outcome));
                        },
                    }
                },
            }
        } else {
            assert(reference_gives(listing, settings, from, Outcome::Fine));
            lemma_listed_outcome(listing, indices, settings, from + 1, counter, found);
        }
    }
}

proof fn lemma_merged_outcome(
    listing: Seq<Branch>,
    commits: Seq<CommitState>,
    lookups: Seq<Result<Commit, String>>,
    settings: BranchSettings,
    from: int,
    counter: int,
    found: Seq<BranchState>,
)
    requires
        0 <= from <= commits.len(),
        counter == named_before(listing, listing.len() as int) + summarised_before(
            commits,
            lookups,
            from,
        ),
        forall|l: int|
            0 <= l < from ==> #[trigger] commit_gives(
                listing,
                commits,
                lookups,
                settings,
                l,
                Outcome::Fine,
            ),
    ensures
        ({
            let outcome = outcome_of(
                with_merged(commits, lookups, settings, from, counter, found),
            );
            if outcome is Fine {
                forall|l: int|
                    0 <= l < commits.len() ==> #[trigger] commit_gives(
                        listing,
                        commits,
                        lookups,
                        settings,
                        l,
                        Outcome::Fine,
                    )
            } else {
                exists|k: int| #[trigger]
                    commit_decides(listing, commits, lookups, settings, k, outcome)
            }
        }),
    decreases commits.len() - from,
{
    if from < commits.len() {
        let outcome = outcome_of(with_merged(commits, lookups, settings, from, counter, found));
        match lookups[from] {
            Err(_) => {
                assert(commit_decides(listing, commits, lookups, settings, from, outcome));
            },
            Ok(commit) => {
                if is_summarised(commits[from], lookups[from]) {
                    let name = merge_name(commit.summary->0.merged_branch);
                    if counter >= usize::MAX || commit.parents@.len() < 2 {
                        assert(commit_decides(listing, commits, lookups, settings, from, outcome));
                    } else {
                        let styled = style(name, settings, (counter + 1) as usize);
                        lemma_styling(name, settings, (counter + 1) as usize);
                        assert(commit_gives(
                            listing,
                            commits,
                            lookups,
                            settings,
                            from,
                            outcome_of(styled),
                        ));
                        match styled {
                            Some(Ok(chosen)) => {
                                lemma_merged_outcome(
                                    listing,
                                    commits,
                                    lookups,
                                    settings,
                                    from + 1,
                                    counter + 1,
                                    found.push(
                                        merged_branch(
                                            commit.parents@[1],
                                            commits[from].oid,
                                            name,
                                            chosen,
                                            from,
                                        ),
                                    ),
                                );
                            },
                            _ => {
                                assert(commit_decides(
                                    listing,
                                    commits,
                                    lookups,
                                    settings,
                                    from,
                                    outcome,
                                ));
                            },
                        }
                    }
                } else {
                    assert(commit_gives(
                        listing,
                        commits,
                        lookups,
                        settings,
                        from,
                        Outcome::Fine,
                    ));
                    lemma_merged_outcome(
                        listing,
                        commits,
                        lookups,
                        settings,
                        from + 1,
                        counter,
                        found,
                    );
                }
            },
        }
    }
}

/// The branches of a repository can be had if all references and all commits are fine; otherwise
/// the first of these that is not decides, references before commits. A listing that failed is
/// reported as it is.
pub proof fn law_extracted_or_reported(
    listing: Result<Vec<Branch>, String>,
    commits: Seq<CommitState>,
    lookups: Seq<Result<Commit, String>>,
    indices: Map<Oid, usize>,
    settings: BranchSettings,
)
    ensures
        match listing {
            Err(message) => extracted(listing, commits, lookups, indices, settings) == Some(
                Err::<Seq<BranchState>, Seq<char>>(message@),
            ),
            Ok(branches) => is_outcome(
                branches@,
                commits,
                lookups,
                settings,
                outcome_of(extracted(listing, commits, lookups, indices, settings)),
            ),
        },
{
    if let Ok(branches) = listing {
        assert(branches.len() == branches@.len());
        lemma_listed_outcome(branches@, indices, settings, 0, 0, Seq::empty());
        if let Some(Ok((counter, found))) = with_listed(
            branches@,
            indices,
            settings,
            0,
            0,
            Seq::empty(),
        ) {
            lemma_merged_outcome(branches@, commits, lookups, settings, 0, counter, found);
        }
    }
}

} // verus!
