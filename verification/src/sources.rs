//! Where the branches of a repository come from.

use crate::branch::{Branch, BranchState, BranchType};
use crate::commit::{Commit, CommitState};
use crate::extract::{
    by_persistence, extracted, listed_branch, merge_name, merged_branch, prefix_len, short_name,
    state_keys, style, with_listed, with_merged, Style,
};
use crate::matching::{is_color, is_first, law_chosen_color, law_first_match};
use crate::oid::Oid;
use crate::patterns::first_match;
use crate::settings::BranchSettings;
use crate::sorting::{arranged, precedes, stable_order};
use crate::sorting::{
    lemma_stable_order, lemma_stable_order_complete, lemma_stable_order_distinct,
};
use vstd::prelude::*;
use vstd::utf8::{encode_utf8, is_char_boundary};

verus! {

/// What a branch comes from: a reference that the repository lists, or a merge commit.
pub enum Source {
    Listed(int),
    Merge(int),
}

impl Source {
    /// The number of the reference, or the position of the merge commit.
    pub open spec fn index(self) -> int {
        match self {
            Source::Listed(i) => i,
            Source::Merge(k) => k,
        }
    }
}

/// Whether a reference has a name and a target.
pub open spec fn is_named(branch: Branch) -> bool {
    branch.name is Some && branch.target is Some
}

/// Whether a commit is a merge that has a summary.
pub open spec fn is_summarised(commit: CommitState, lookup: Result<Commit, String>) -> bool {
    commit.is_merge && (lookup matches Ok(read) && read.summary is Some)
}

/// Whether a branch comes from a source: from each reference with a name and a target, and from
/// each merge commit with a summary.
pub open spec fn is_source(
    listing: Seq<Branch>,
    commits: Seq<CommitState>,
    lookups: Seq<Result<Commit, String>>,
    source: Source,
) -> bool {
    match source {
        Source::Listed(i) => 0 <= i < listing.len() && is_named(listing[i]),
        Source::Merge(k) => 0 <= k < commits.len() && is_summarised(commits[k], lookups[k]),
    }
}

/// How many of the first `count` references have a name and a target.
pub open spec fn named_before(listing: Seq<Branch>, count: int) -> int
    decreases count,
{
    if count <= 0 {
        0
    } else if is_named(listing[count - 1]) {
        named_before(listing, count - 1) + 1
    } else {
        named_before(listing, count - 1)
    }
}

/// How many of the first `count` commits are merges that have a summary.
pub open spec fn summarised_before(
    commits: Seq<CommitState>,
    lookups: Seq<Result<Commit, String>>,
    count: int,
) -> int
    decreases count,
{
    if count <= 0 {
        0
    } else if is_summarised(commits[count - 1], lookups[count - 1]) {
        summarised_before(commits, lookups, count - 1) + 1
    } else {
        summarised_before(commits, lookups, count - 1)
    }
}

/// The number of a source, counted from one: references first, then merge commits.
pub open spec fn number_of(
    listing: Seq<Branch>,
    commits: Seq<CommitState>,
    lookups: Seq<Result<Commit, String>>,
    source: Source,
) -> int {
    match source {
        Source::Listed(i) => named_before(listing, i) + 1,
        Source::Merge(k) => named_before(listing, listing.len() as int) + summarised_before(
            commits,
            lookups,
            k,
        ) + 1,
    }
}

/// The number of bytes of `refs/heads/`, or of `refs/remotes/` for a remote branch.
pub open spec fn reference_prefix(kind: BranchType) -> int {
    if kind is Remote {
        13
    } else {
        11
    }
}

/// Whether a name is what is left of a full name without its first `cut` bytes.
pub open spec fn is_rest(full: Seq<char>, cut: int, name: Seq<char>) -> bool {
    &&& cut <= encode_utf8(full).len()
    &&& encode_utf8(name) == encode_utf8(full).skip(cut)
}

/// Whether a branch ranks and looks as the settings say for its name and its number: persistence
/// and order group are those of the first patterns that match, the persistence in one byte.
pub open spec fn is_styled(branch: BranchState, settings: BranchSettings, counter: usize) -> bool {
    &&& exists|n: int| #[trigger]
        is_first(settings.persistence@, branch.name, n) && branch.persistence == n % 256
    &&& is_first(settings.order@, branch.name, branch.visual.order_group as int)
    &&& is_color(
        branch.name,
        settings.terminal_colors@,
        settings.terminal_colors_unknown@,
        counter,
        Some(Ok::<u8, String>(branch.visual.term_color)),
    )
    &&& exists|color: String| #[trigger]
        is_color(
            branch.name,
            settings.svg_colors@,
            settings.svg_colors_unknown@,
            counter,
            Some(color),
        ) && color@ == branch.visual.svg_color
    &&& branch.visual.column is None
}

/// Whether a branch is the one that comes from a source.
pub open spec fn comes_from(
    branch: BranchState,
    source: Source,
    listing: Seq<Branch>,
    commits: Seq<CommitState>,
    lookups: Seq<Result<Commit, String>>,
    indices: Map<Oid, usize>,
) -> bool {
    match source {
        Source::Listed(i) => {
            &&& is_rest(
                listing[i].name->0@,
                reference_prefix(listing[i].kind),
                branch.name,
            )
            &&& Some(branch.target) == listing[i].target
            &&& branch.merge_target is None
            &&& branch.is_remote <==> listing[i].kind is Remote
            &&& !branch.is_merged
            &&& !branch.deleted
            &&& branch.range.0 == (if indices.contains_key(branch.target) {
                Some(indices[branch.target])
            } else {
                None
            })
            &&& branch.range.1 is None
        },
        Source::Merge(k) => {
            let commit = lookups[k]->Ok_0;
            &&& branch.name == (match commit.summary->0.merged_branch {
                Some(name) => name@,
                None => "unknown"@,
            })
            &&& commit.parents@.len() >= 2
            &&& branch.target == commit.parents@[1]
            &&& branch.merge_target == Some(commits[k].oid)
            &&& !branch.is_remote
            &&& branch.is_merged
            &&& branch.deleted
            &&& branch.range.0 matches Some(first) && first == k + 1
            &&& branch.range.1 is None
        },
    }
}

/// Whether a branch stands before another: by persistence, of equal persistence merged ones first,
/// and of equal rank in the order of what they come from.
pub open spec fn stands_before(
    branch: BranchState,
    source: Source,
    other: BranchState,
    other_source: Source,
) -> bool {
    ||| branch.persistence < other.persistence
    ||| branch.persistence == other.persistence && branch.is_merged && !other.is_merged
    ||| branch.persistence == other.persistence && branch.is_merged == other.is_merged
        && source.index() < other_source.index()
}

/// Whether branches come from sources, one from each, all styled and in order.
pub open spec fn is_account(
    branches: Seq<BranchState>,
    sources: Seq<Source>,
    listing: Seq<Branch>,
    commits: Seq<CommitState>,
    lookups: Seq<Result<Commit, String>>,
    indices: Map<Oid, usize>,
    settings: BranchSettings,
) -> bool {
    &&& sources.len() == branches.len()
    &&& forall|j: int|
        #![trigger branches[j]]
        #![trigger sources[j]]
        0 <= j < branches.len() ==> {
            &&& is_source(listing, commits, lookups, sources[j])
            &&& comes_from(branches[j], sources[j], listing, commits, lookups, indices)
            &&& is_styled(
                branches[j],
                settings,
                number_of(listing, commits, lookups, sources[j]) as usize,
            )
        }
    &&& sources.no_duplicates()
    &&& forall|source: Source| #[trigger]
        is_source(listing, commits, lookups, source) ==> sources.contains(source)
    &&& forall|i: int, j: int|
        #![trigger branches[i], branches[j]]
        0 <= i < j < branches.len() ==> stands_before(
            branches[i],
            sources[i],
            branches[j],
            sources[j],
        )
}

/// The short name of a branch is what is left of its full name without the first bytes.
pub proof fn lemma_rest(full: Seq<char>, kind: BranchType)
    ensures
        match short_name(full, kind) {
            Some(short) => is_rest(full, reference_prefix(kind), short),
            None => forall|short: Seq<char>|
                !#[trigger] is_rest(full, reference_prefix(kind), short),
        },
{
    broadcast use vstd::utf8::encode_utf8_valid_utf8;
    broadcast use vstd::utf8::encode_utf8_decode_utf8;
    broadcast use vstd::utf8::is_char_boundary_start_end_of_seq;

    let bytes = encode_utf8(full);
    let cut = reference_prefix(kind);
    assert(cut == prefix_len(kind));
    if is_char_boundary(bytes, cut) {
        vstd::utf8::valid_utf8_split(bytes, cut);
        assert(bytes.skip(cut) =~= bytes.subrange(cut, bytes.len() as int));
        vstd::utf8::decode_utf8_encode_utf8(bytes.skip(cut));
    } else {
        assert forall|short: Seq<char>| !#[trigger] is_rest(full, cut, short) by {
            if is_rest(full, cut, short) {
                let rest = encode_utf8(short);
                if cut < bytes.len() {
                    assert(rest[0] == bytes[cut]);
                    assert(is_char_boundary(rest, 0));
                    vstd::utf8::is_char_boundary_iff_not_is_continuation_byte(rest, 0);
                    vstd::utf8::is_char_boundary_iff_not_is_continuation_byte(bytes, cut);
                } else {
                    assert(is_char_boundary(bytes, bytes.len() as int));
                }
            }
        }
    }
}

/// The style of a branch is what the settings say for its name and its number.
proof fn lemma_styled(branch: BranchState, settings: BranchSettings, counter: usize, chosen: Style)
    requires
        style(branch.name, settings, counter) == Some(Ok::<Style, Seq<char>>(chosen)),
        branch.persistence == chosen.persistence,
        branch.visual.order_group == chosen.order_group,
        branch.visual.term_color == chosen.term_color,
        branch.visual.svg_color == chosen.svg_color,
        branch.visual.column is None,
    ensures
        is_styled(branch, settings, counter),
{
    law_first_match(settings.persistence@, branch.name);
    law_first_match(settings.order@, branch.name);
    law_chosen_color(
        branch.name,
        settings.terminal_colors@,
        settings.terminal_colors_unknown@,
        counter,
    );
    law_chosen_color(
        branch.name,
        settings.svg_colors@,
        settings.svg_colors_unknown@,
        counter,
    );
    assert(settings.order.len() == settings.order@.len());
    assert(is_first(
        settings.persistence@,
        branch.name,
        first_match(settings.persistence@, branch.name, 0),
    ));
}

/// Whether a source stands before another.
spec fn ascends(source: Source, other: Source) -> bool {
    match (source, other) {
        (Source::Listed(i), Source::Listed(j)) => i < j,
        (Source::Listed(_), Source::Merge(_)) => true,
        (Source::Merge(_), Source::Listed(_)) => false,
        (Source::Merge(k), Source::Merge(l)) => k < l,
    }
}

/// Whether a source is among the first `from` references or the first `to` commits.
spec fn reaches(source: Source, from: int, to: int) -> bool {
    match source {
        Source::Listed(i) => i < from,
        Source::Merge(k) => k < to,
    }
}

/// What holds of the branches found in the first `from` references and the first `to` commits.
spec fn is_partial(
    found: Seq<BranchState>,
    sources: Seq<Source>,
    listing: Seq<Branch>,
    commits: Seq<CommitState>,
    lookups: Seq<Result<Commit, String>>,
    indices: Map<Oid, usize>,
    settings: BranchSettings,
    from: int,
    to: int,
) -> bool {
    &&& sources.len() == found.len()
    &&& found.len() == named_before(listing, from) + summarised_before(commits, lookups, to)
    &&& forall|j: int|
        #![trigger found[j]]
        #![trigger sources[j]]
        0 <= j < found.len() ==> {
            &&& is_source(listing, commits, lookups, sources[j])
            &&& reaches(sources[j], from, to)
            &&& comes_from(found[j], sources[j], listing, commits, lookups, indices)
            &&& is_styled(
                found[j],
                settings,
                number_of(listing, commits, lookups, sources[j]) as usize,
            )
        }
    &&& forall|i: int, j: int|
        #![trigger sources[i], sources[j]]
        0 <= i < j < sources.len() ==> ascends(sources[i], sources[j])
    &&& forall|source: Source| #[trigger]
        is_source(listing, commits, lookups, source) && reaches(source, from, to)
            ==> sources.contains(source)
}

/// One more branch is found in the next reference or the next commit.
proof fn lemma_found(
    found: Seq<BranchState>,
    sources: Seq<Source>,
    listing: Seq<Branch>,
    commits: Seq<CommitState>,
    lookups: Seq<Result<Commit, String>>,
    indices: Map<Oid, usize>,
    settings: BranchSettings,
    from: int,
    to: int,
    branch: BranchState,
    source: Source,
)
    requires
        0 <= from,
        0 <= to,
        is_partial(
            found,
            sources,
            listing,
            commits,
            lookups,
            indices,
            settings,
            from,
            to,
        ),
        source == Source::Listed(from) && to == 0 || source == Source::Merge(to),
        is_source(listing, commits, lookups, source),
        comes_from(branch, source, listing, commits, lookups, indices),
        is_styled(branch, settings, number_of(listing, commits, lookups, source) as usize),
    ensures
        is_partial(
            found.push(branch),
            sources.push(source),
            listing,
            commits,
            lookups,
            indices,
            settings,
            if source is Listed {
                from + 1
            } else {
                from
            },
            if source is Listed {
                to
            } else {
                to + 1
            },
        ),
{
    let all = sources.push(source);
    let next_from = if source is Listed {
        from + 1
    } else {
        from
    };
    let next_to = if source is Listed {
        to
    } else {
        to + 1
    };
    assert forall|other: Source| #[trigger]
        is_source(listing, commits, lookups, other) && reaches(
            other,
            next_from,
            next_to,
        ) implies all.contains(other) by {
        if other == source {
            assert(all[sources.len() as int] == source);
        } else {
            assert(reaches(other, from, to));
            let j = choose|j: int| 0 <= j < sources.len() && sources[j] == other;
            assert(all[j] == other);
        }
    }
    assert forall|i: int, j: int|
        #![trigger all[i], all[j]]
        0 <= i < j < all.len() implies ascends(all[i], all[j]) by {
        assert(all[i] == sources[i]);
        if j < sources.len() {
            assert(all[j] == sources[j]);
        }
    }
    assert forall|j: int|
        #![trigger found.push(branch)[j]]
        #![trigger all[j]]
        0 <= j < all.len() implies {
        &&& is_source(listing, commits, lookups, all[j])
        &&& reaches(all[j], next_from, next_to)
        &&& comes_from(found.push(branch)[j], all[j], listing, commits, lookups, indices)
        &&& is_styled(
            found.push(branch)[j],
            settings,
            number_of(listing, commits, lookups, all[j]) as usize,
        )
    } by {
        if j < sources.len() {
            assert(all[j] == sources[j]);
            assert(found.push(branch)[j] == found[j]);
        }
    }
}

proof fn lemma_listed(
    listing: Seq<Branch>,
    commits: Seq<CommitState>,
    lookups: Seq<Result<Commit, String>>,
    indices: Map<Oid, usize>,
    settings: BranchSettings,
    from: int,
    counter: int,
    found: Seq<BranchState>,
    sources: Seq<Source>,
) -> (all_sources: Seq<Source>)
    requires
        0 <= from <= listing.len(),
        counter == found.len(),
        is_partial(found, sources, listing, commits, lookups, indices, settings, from, 0),
        with_listed(listing, indices, settings, from, counter, found) matches Some(Ok(_)),
    ensures
        ({
            let (counted, all) = with_listed(
                listing,
                indices,
                settings,
                from,
                counter,
                found,
            )->0->Ok_0;
            &&& counted == all.len()
            &&& is_partial(
                all,
                all_sources,
                listing,
                commits,
                lookups,
                indices,
                settings,
                listing.len() as int,
                0,
            )
        }),
    decreases listing.len() - from,
{
    if from < listing.len() {
        let branch = listing[from];
        if is_named(branch) {
            let (name, target) = (branch.name->0, branch.target->0);
            lemma_rest(name@, branch.kind);
            let short = short_name(name@, branch.kind)->0;
            let chosen = style(short, settings, (counter + 1) as usize)->0->Ok_0;
            let info = listed_branch(target, short, chosen, branch.kind, indices);
            let source = Source::Listed(from);
            lemma_styled(info, settings, (counter + 1) as usize, chosen);
            lemma_found(
                found,
                sources,
                listing,
                commits,
                lookups,
                indices,
                settings,
                from,
                0,
                info,
                source,
            );
            lemma_listed(
                listing,
                commits,
                lookups,
                indices,
                settings,
                from + 1,
                counter + 1,
                found.push(info),
                sources.push(source),
            )
        } else {
            assert forall|other: Source| #[trigger]
                is_source(listing, commits, lookups, other) && reaches(
                    other,
                    from + 1,
                    0,
                ) implies sources.contains(other) by {
                assert(other != Source::Listed(from));
                assert(reaches(other, from, 0));
            }
            lemma_listed(
                listing,
                commits,
                lookups,
                indices,
                settings,
                from + 1,
                counter,
                found,
                sources,
            )
        }
    } else {
        sources
    }
}

proof fn lemma_merged(
    listing: Seq<Branch>,
    commits: Seq<CommitState>,
    lookups: Seq<Result<Commit, String>>,
    indices: Map<Oid, usize>,
    settings: BranchSettings,
    from: int,
    counter: int,
    found: Seq<BranchState>,
    sources: Seq<Source>,
) -> (all_sources: Seq<Source>)
    requires
        0 <= from <= commits.len() < usize::MAX,
        counter == found.len(),
        is_partial(
            found,
            sources,
            listing,
            commits,
            lookups,
            indices,
            settings,
            listing.len() as int,
            from,
        ),
        with_merged(commits, lookups, settings, from, counter, found) matches Some(Ok(_)),
    ensures
        is_partial(
            with_merged(commits, lookups, settings, from, counter, found)->0->Ok_0.1,
            all_sources,
            listing,
            commits,
            lookups,
            indices,
            settings,
            listing.len() as int,
            commits.len() as int,
        ),
    decreases commits.len() - from,
{
    if from < commits.len() {
        let commit = lookups[from]->Ok_0;
        if is_summarised(commits[from], lookups[from]) {
            let name = merge_name(commit.summary->0.merged_branch);
            let chosen = style(name, settings, (counter + 1) as usize)->0->Ok_0;
            let info = merged_branch(commit.parents@[1], commits[from].oid, name, chosen, from);
            let source = Source::Merge(from);
            lemma_styled(info, settings, (counter + 1) as usize, chosen);
            lemma_found(
                found,
                sources,
                listing,
                commits,
                lookups,
                indices,
                settings,
                listing.len() as int,
                from,
                info,
                source,
            );
            lemma_merged(
                listing,
                commits,
                lookups,
                indices,
                settings,
                from + 1,
                counter + 1,
                found.push(info),
                sources.push(source),
            )
        } else {
            assert forall|other: Source| #[trigger]
                is_source(listing, commits, lookups, other) && reaches(
                    other,
                    listing.len() as int,
                    from + 1,
                ) implies sources.contains(other) by {
                assert(other != Source::Merge(from));
                assert(reaches(other, listing.len() as int, from));
            }
            lemma_merged(
                listing,
                commits,
                lookups,
                indices,
                settings,
                from + 1,
                counter,
                found,
                sources,
            )
        }
    } else {
        sources
    }
}

/// Sorting branches keeps what they come from.
proof fn lemma_arranged(
    all: Seq<BranchState>,
    all_sources: Seq<Source>,
    listing: Seq<Branch>,
    commits: Seq<CommitState>,
    lookups: Seq<Result<Commit, String>>,
    indices: Map<Oid, usize>,
    settings: BranchSettings,
)
    requires
        is_partial(
            all,
            all_sources,
            listing,
            commits,
            lookups,
            indices,
            settings,
            listing.len() as int,
            commits.len() as int,
        ),
    ensures
        is_account(
            by_persistence(all),
            arranged(all_sources, stable_order(state_keys(all))),
            listing,
            commits,
            lookups,
            indices,
            settings,
        ),
{
    let keys = state_keys(all);
    let order = stable_order(keys);
    let branches = by_persistence(all);
    let sources = arranged(all_sources, order);
    lemma_stable_order(keys);
    lemma_stable_order_distinct(keys, order);
    assert forall|j: int|
        #![trigger branches[j]]
        #![trigger sources[j]]
        0 <= j < branches.len() implies {
        &&& is_source(listing, commits, lookups, sources[j])
        &&& comes_from(branches[j], sources[j], listing, commits, lookups, indices)
        &&& is_styled(
            branches[j],
            settings,
            number_of(listing, commits, lookups, sources[j]) as usize,
        )
    } by {
        assert(branches[j] == all[order[j]]);
        assert(sources[j] == all_sources[order[j]]);
    }
    assert forall|i: int, j: int|
        0 <= i < sources.len() && 0 <= j < sources.len() && i != j implies sources[i]
        != sources[j] by {
        let (a, b) = (order[i], order[j]);
        assert(a != b);
        if a < b {
            assert(ascends(all_sources[a], all_sources[b]));
        } else {
            assert(ascends(all_sources[b], all_sources[a]));
        }
    }
    assert forall|source: Source| #[trigger]
        is_source(listing, commits, lookups, source) implies sources.contains(source) by {
        assert(reaches(source, listing.len() as int, commits.len() as int));
        let n = choose|n: int| 0 <= n < all_sources.len() && all_sources[n] == source;
        lemma_stable_order_complete(keys, order, n);
        let j = choose|j: int| 0 <= j < order.len() && order[j] == n;
        assert(sources[j] == source);
    }
    assert forall|i: int, j: int|
        #![trigger branches[i], branches[j]]
        0 <= i < j < branches.len() implies stands_before(
        branches[i],
        sources[i],
        branches[j],
        sources[j],
    ) by {
        let (a, b) = (order[i], order[j]);
        assert(precedes(keys, a, b));
        assert(branches[i] == all[a] && branches[j] == all[b]);
        assert(sources[i] == all_sources[a] && sources[j] == all_sources[b]);
        if keys[a] == keys[b] {
            assert(ascends(all_sources[a], all_sources[b]));
        }
    }
}

/// One branch is extracted from each reference that has a name and a target and from each merge
/// commit that has a summary, and no other. Each has the name, the target and the style that its
/// source and the settings say, and they stand in the order of their persistence.
pub proof fn law_extracted_from_sources(
    listing: Vec<Branch>,
    commits: Seq<CommitState>,
    lookups: Seq<Result<Commit, String>>,
    indices: Map<Oid, usize>,
    settings: BranchSettings,
)
    requires
        commits.len() < usize::MAX,
        extracted(
            Ok::<Vec<Branch>, String>(listing),
            commits,
            lookups,
            indices,
            settings,
        ) matches Some(Ok(_)),
    ensures
        exists|sources: Seq<Source>| #[trigger]
            is_account(
                extracted(
                    Ok::<Vec<Branch>, String>(listing),
                    commits,
                    lookups,
                    indices,
                    settings,
                )->0->Ok_0,
                sources,
                listing@,
                commits,
                lookups,
                indices,
                settings,
            ),
{
    let none = Seq::<Source>::empty();
    let (counter, found) = with_listed(
        listing@,
        indices,
        settings,
        0,
        0,
        Seq::empty(),
    )->0->Ok_0;
    let listed_sources = lemma_listed(
        listing@,
        commits,
        lookups,
        indices,
        settings,
        0,
        0,
        Seq::empty(),
        none,
    );
    let all = with_merged(commits, lookups, settings, 0, counter, found)->0->Ok_0.1;
    let all_sources = lemma_merged(
        listing@,
        commits,
        lookups,
        indices,
        settings,
        0,
        counter,
        found,
        listed_sources,
    );
    lemma_arranged(all, all_sources, listing@, commits, lookups, indices, settings);
    let branches = extracted(
        Ok::<Vec<Branch>, String>(listing),
        commits,
        lookups,
        indices,
        settings,
    )->0->Ok_0;
    assert(branches == by_persistence(all));
    let sources = arranged(all_sources, stable_order(state_keys(all)));
    assert(is_account(branches, sources, listing@, commits, lookups, indices, settings));
}

} // verus!
