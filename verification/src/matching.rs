//! What matching branch names against patterns promises.

use crate::patterns::{
    chosen_color, color_choices, color_patterns, first_match, has_origin_prefix, origin_prefix,
    pattern_matches, regex_is_match,
};
use crate::patterns::lemma_first_match;
use regex::Regex;
use vstd::prelude::*;

verus! {

/// Whether a pattern matches a name, or what follows `origin/` at its start.
pub open spec fn matches_name(pattern: Regex, name: Seq<char>) -> bool {
    ||| regex_is_match(pattern, name)
    ||| exists|rest: Seq<char>|
        name == "origin/"@ + rest && #[trigger] regex_is_match(pattern, rest)
}

/// Whether `n` is the number of the first pattern that matches a name, or the number of patterns
/// where none does.
pub open spec fn is_first(patterns: Seq<Regex>, name: Seq<char>, n: int) -> bool {
    &&& 0 <= n <= patterns.len()
    &&& n < patterns.len() ==> matches_name(patterns[n], name)
    &&& forall|k: int| 0 <= k < n ==> !matches_name(#[trigger] patterns[k], name)
}

/// Whether `n` is the number of the first entry of a table of colours whose pattern matches a name,
/// or the number of entries where none does.
pub open spec fn is_first_entry<T>(
    order: Seq<(Regex, Vec<T>)>,
    name: Seq<char>,
    n: int,
) -> bool {
    &&& 0 <= n <= order.len()
    &&& n < order.len() ==> matches_name(order[n].0, name)
    &&& forall|k: int| 0 <= k < n ==> !matches_name((#[trigger] order[k]).0, name)
}

/// Whether `color` is number `counter` of a list of colours, counted from zero and over again from
/// its start; `None` stands for that of an empty list.
pub open spec fn is_turn<T>(choices: Seq<T>, counter: usize, color: Option<T>) -> bool {
    match color {
        Some(color) => choices.len() > 0 && choices[counter as int % choices.len() as int] == color,
        None => choices.len() == 0,
    }
}

/// Whether `color` is the one that branch number `counter` gets: it is taken in turn from those of
/// the first entry that matches the name, or from `unknown` where none does.
pub open spec fn is_color<T>(
    name: Seq<char>,
    order: Seq<(Regex, Vec<T>)>,
    unknown: Seq<T>,
    counter: usize,
    color: Option<T>,
) -> bool {
    exists|n: int| #[trigger]
        is_first_entry(order, name, n) && is_turn(
            if n < order.len() {
                order[n].1@
            } else {
                unknown
            },
            counter,
            color,
        )
}

/// A pattern matches the name of a branch if it matches the name, or what follows `origin/` at its
/// start.
pub proof fn law_pattern_matches(pattern: Regex, name: Seq<char>)
    ensures
        pattern_matches(pattern, name) <==> matches_name(pattern, name),
{
    reveal_strlit("origin/");
    assert("origin/"@ =~= origin_prefix());
    if has_origin_prefix(name) {
        assert(name =~= "origin/"@ + name.skip(7));
    }
    if exists|rest: Seq<char>|
        name == "origin/"@ + rest && #[trigger] regex_is_match(pattern, rest) {
        let rest = choose|rest: Seq<char>|
            name == "origin/"@ + rest && #[trigger] regex_is_match(pattern, rest);
        assert(name.take(7) =~= origin_prefix());
        assert(name.skip(7) =~= rest);
    }
}

/// The order of a branch is the number of the first pattern that matches its name, or the number of
/// patterns where none does.
pub proof fn law_first_match(patterns: Seq<Regex>, name: Seq<char>)
    ensures
        is_first(patterns, name, first_match(patterns, name, 0)),
{
    let n = first_match(patterns, name, 0);
    lemma_first_match(patterns, name, 0);
    if n < patterns.len() {
        law_pattern_matches(patterns[n], name);
    }
    assert forall|k: int| 0 <= k < n implies !matches_name(#[trigger] patterns[k], name) by {
        law_pattern_matches(patterns[k], name);
    }
}

/// There is only one first pattern that matches a name.
pub proof fn law_first_is_unique(patterns: Seq<Regex>, name: Seq<char>, n: int, m: int)
    requires
        is_first(patterns, name, n),
        is_first(patterns, name, m),
    ensures
        n == m,
{
    if n < m {
        assert(!matches_name(patterns[n], name));
    } else if m < n {
        assert(!matches_name(patterns[m], name));
    }
}

/// The colour of a branch is taken in turn from those of the first entry that matches its name, or
/// from the colours for unknown names where none does.
pub proof fn law_chosen_color<T>(
    name: Seq<char>,
    order: Seq<(Regex, Vec<T>)>,
    unknown: Seq<T>,
    counter: usize,
)
    ensures
        is_color(name, order, unknown, counter, chosen_color(name, order, unknown, counter)),
{
    let patterns = color_patterns(order);
    let n = first_match(patterns, name, 0);
    law_first_match(patterns, name);
    assert(n < order.len() ==> patterns[n] == order[n].0);
    assert forall|k: int| 0 <= k < n implies !matches_name((#[trigger] order[k]).0, name) by {
        assert(patterns[k] == order[k].0);
    }
    assert(is_first_entry(order, name, n));
    assert(color_choices(name, order, unknown) == if n < order.len() {
        order[n].1@
    } else {
        unknown
    });
}

} // verus!
