//! Matching branch names against the patterns of the settings.

use regex::Regex;
use vstd::prelude::*;

verus! {

/// The compiled regular expressions of the `regex` crate, carried as opaque values.
#[verifier::external_type_specification]
#[verifier::external_body]
pub struct ExRegex(Regex);

/// What `Regex::is_match` answers for a compiled expression and a text.
pub uninterp spec fn regex_is_match(re: Regex, text: Seq<char>) -> bool;

/// `regex::Regex::is_match`, which says whether the expression matches anywhere in the text: the
/// answer depends on the compiled expression and the text alone.
pub assume_specification[ Regex::is_match ](re: &Regex, haystack: &str) -> (matched: bool)
    ensures
        matched == regex_is_match(*re, haystack@),
;

/// What the names of branches of the default remote start with.
pub open spec fn origin_prefix() -> Seq<char> {
    seq!['o', 'r', 'i', 'g', 'i', 'n', '/']
}

/// Whether a name starts with the prefix of the default remote.
pub open spec fn has_origin_prefix(name: Seq<char>) -> bool {
    name.len() >= 7 && name.take(7) == origin_prefix()
}

/// Whether a pattern matches the name of a branch, with the prefix of the default remote or
/// without it.
pub open spec fn pattern_matches(pattern: Regex, name: Seq<char>) -> bool {
    ||| regex_is_match(pattern, name)
    ||| has_origin_prefix(name) && regex_is_match(pattern, name.skip(7))
}

/// The number of the first pattern from number `from` on that matches a name, the number of
/// patterns where none does.
pub open spec fn first_match(patterns: Seq<Regex>, name: Seq<char>, from: int) -> int
    decreases patterns.len() - from,
{
    if from >= patterns.len() {
        patterns.len() as int
    } else if pattern_matches(patterns[from], name) {
        from
    } else {
        first_match(patterns, name, from + 1)
    }
}

/// The first match is a match, and no pattern before it is.
pub proof fn lemma_first_match(patterns: Seq<Regex>, name: Seq<char>, from: int)
    requires
        0 <= from <= patterns.len(),
    ensures
        from <= first_match(patterns, name, from) <= patterns.len(),
        first_match(patterns, name, from) < patterns.len() ==> pattern_matches(
            patterns[first_match(patterns, name, from)],
            name,
        ),
        forall|k: int|
            from <= k < first_match(patterns, name, from) ==> !pattern_matches(
                #[trigger] patterns[k],
                name,
            ),
    decreases patterns.len() - from,
{
    if from < patterns.len() && !pattern_matches(patterns[from], name) {
        lemma_first_match(patterns, name, from + 1);
    }
}

/// The name without the prefix of the default remote, if it has that.
fn strip_origin(name: &str) -> (rest: Option<&str>)
    ensures
        match rest {
            Some(rest) => has_origin_prefix(name@) && rest@ == name@.skip(7),
            None => !has_origin_prefix(name@),
        },
{
    let len = name.unicode_len();
    if len >= 7 && name.get_char(0) == 'o' && name.get_char(1) == 'r' && name.get_char(2) == 'i'
        && name.get_char(3) == 'g' && name.get_char(4) == 'i' && name.get_char(5) == 'n'
        && name.get_char(6) == '/' {
        assert(name@.take(7) =~= origin_prefix());
        assert(name@.subrange(7, len as int) =~= name@.skip(7));
        Some(name.substring_char(7, len))
    } else {
        proof {
            if has_origin_prefix(name@) {
                assert forall|k: int| 0 <= k < 7 implies name@[k] == #[trigger] origin_prefix()[k] by {
                    assert(name@.take(7)[k] == name@[k]);
                }
                assert(origin_prefix()[0] == 'o' && origin_prefix()[1] == 'r'
                    && origin_prefix()[2] == 'i' && origin_prefix()[3] == 'g'
                    && origin_prefix()[4] == 'i' && origin_prefix()[5] == 'n'
                    && origin_prefix()[6] == '/');
            }
        }
        None
    }
}

/// Whether a pattern matches the name of a branch.
fn is_pattern_match(pattern: &Regex, name: &str) -> (matched: bool)
    ensures
        matched == pattern_matches(*pattern, name@),
{
    pattern.is_match(name) || match strip_origin(name) {
        Some(rest) => pattern.is_match(rest),
        None => false,
    }
}

/// Finds the index for a branch name from a slice of patterns: that of the first pattern that
/// matches, the number of patterns where none does.
pub fn branch_order(name: &str, order: &[Regex]) -> (index: usize)
    ensures
        index == first_match(order@, name@, 0),
        index <= order@.len(),
        index < order@.len() ==> pattern_matches(order@[index as int], name@),
        forall|k: int| 0 <= k < index ==> !pattern_matches(#[trigger] order@[k], name@),
{
    let mut index: usize = 0;
    while index < order.len()
        invariant
            index <= order@.len(),
            first_match(order@, name@, 0) == first_match(order@, name@, index as int),
        decreases order@.len() - index,
    {
        if is_pattern_match(&order[index], name) {
            proof {
                lemma_first_match(order@, name@, 0);
            }
            return index;
        }
        index = index + 1;
    }
    proof {
        lemma_first_match(order@, name@, 0);
    }
    index
}

/// The patterns of a table of colours.
pub open spec fn color_patterns<T>(order: Seq<(Regex, Vec<T>)>) -> Seq<Regex> {
    order.map_values(|entry: (Regex, Vec<T>)| entry.0)
}

/// The colours among which the colour of a branch is chosen: those of the first pattern that
/// matches its name, `unknown` where none does.
pub open spec fn color_choices<T>(
    name: Seq<char>,
    order: Seq<(Regex, Vec<T>)>,
    unknown: Seq<T>,
) -> Seq<T> {
    let k = first_match(color_patterns(order), name, 0);
    if k < order.len() {
        order[k].1@
    } else {
        unknown
    }
}

/// The colour that branch number `counter` gets, if there is any to choose from.
pub open spec fn chosen_color<T>(
    name: Seq<char>,
    order: Seq<(Regex, Vec<T>)>,
    unknown: Seq<T>,
    counter: usize,
) -> Option<T> {
    let choices = color_choices(name, order, unknown);
    if choices.len() == 0 {
        None
    } else {
        Some(choices[counter as int % choices.len() as int])
    }
}

/// The colour for a branch name, `None` where there is no colour to choose from.
pub fn find_color<'a, T>(
    name: &str,
    order: &'a [(Regex, Vec<T>)],
    unknown: &'a [T],
    counter: usize,
) -> (color: Option<&'a T>)
    ensures
        match color {
            Some(color) => chosen_color(name@, order@, unknown@, counter) == Some(*color),
            None => chosen_color(name@, order@, unknown@, counter) is None,
        },
{
    let ghost patterns = color_patterns(order@);
    let mut index: usize = 0;
    while index < order.len()
        invariant
            index <= order@.len(),
            patterns == color_patterns(order@),
            first_match(patterns, name@, 0) == first_match(patterns, name@, index as int),
        decreases order@.len() - index,
    {
        assert(patterns[index as int] == order@[index as int].0);
        if is_pattern_match(&order[index].0, name) {
            let choices = &order[index].1;
            if choices.len() == 0 {
                return None;
            }
            return Some(&choices[counter % choices.len()]);
        }
        index = index + 1;
    }
    if unknown.len() == 0 {
        None
    } else {
        Some(&unknown[counter % unknown.len()])
    }
}

/// Finds the color for a branch name.
pub fn branch_color<T: Clone>(
    name: &str,
    order: &[(Regex, Vec<T>)],
    unknown: &[T],
    counter: usize,
) -> (color: T)
    requires
        chosen_color(name@, order@, unknown@, counter) is Some,
    ensures
        cloned(chosen_color(name@, order@, unknown@, counter)->0, color),
{
    let choice = find_color(name, order, unknown, counter);
    choice.unwrap().clone()
}

/// Finds the color for a branch name, `None` where there is no color to choose from.
pub fn try_branch_color<T: Clone>(
    name: &str,
    order: &[(Regex, Vec<T>)],
    unknown: &[T],
    counter: usize,
) -> (color: Option<T>)
    ensures
        match color {
            Some(color) => chosen_color(name@, order@, unknown@, counter) matches Some(choice)
                && cloned(choice, color),
            None => chosen_color(name@, order@, unknown@, counter) is None,
        },
{
    if find_color(name, order, unknown, counter).is_some() {
        Some(branch_color(name, order, unknown, counter))
    } else {
        None
    }
}

/// A branch of the default remote ranks no later than the branch of the same name without the
/// prefix of that remote: each pattern that matches the short name matches the long one.
pub proof fn law_origin_ranks_no_later(order: Seq<Regex>, name: Seq<char>)
    requires
        !has_origin_prefix(name),
    ensures
        first_match(order, origin_prefix() + name, 0) <= first_match(order, name, 0),
{
    let long = origin_prefix() + name;
    assert(long.take(7) =~= origin_prefix());
    assert(long.skip(7) =~= name);
    lemma_first_match(order, name, 0);
    lemma_first_match(order, long, 0);
    let k = first_match(order, name, 0);
    if k < order.len() {
        assert(pattern_matches(order[k], long));
    }
}

} // verus!
