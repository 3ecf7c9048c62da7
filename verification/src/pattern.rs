//! Matching text against a regular expression and reading what it captured.

use vstd::prelude::*;
use regex::Regex;
use crate::text::{chars_of, parse_u32, parse_usize, u32_of, usize_of};

verus! {

/// What the regular expression `pattern` captures in `text`. `None` where
/// `pattern` is not a regular expression that `regex` accepts, or matches
/// nowhere in `text`. Otherwise one entry for each group of the pattern, in
/// the order of their opening brackets, for the leftmost match: entry 0 is
/// the whole match, and the entry of a group that took no part in the match
/// is `None`.
pub uninterp spec fn pattern_captures(pattern: Seq<char>, text: Seq<char>) -> Option<
    Seq<Option<Seq<char>>>,
>;

/// The characters of a captured group.
pub open spec fn group_view(group: Option<String>) -> Option<Seq<char>> {
    match group {
        Some(part) => Some(part@),
        None => None,
    }
}

/// The characters of each captured group.
pub open spec fn groups_view(groups: Seq<Option<String>>) -> Seq<Option<Seq<char>>> {
    Seq::new(groups.len(), |i: int| group_view(groups[i]))
}

/// The characters of each captured group, where there was a match.
pub open spec fn captures_view(found: Option<Vec<Option<String>>>) -> Option<
    Seq<Option<Seq<char>>>,
> {
    match found {
        Some(groups) => Some(groups_view(groups@)),
        None => None,
    }
}

/// Compiles `pattern` with `Regex::new` and searches `text` with
/// `Regex::captures`; the groups of the match are copied out one for one with
/// `Captures::iter` and `Match::as_str`. A pattern that does not compile gives
/// `None`, as a text without a match does. The contract names the result and
/// claims nothing else of it: the same pattern and text give the same groups.
#[verifier::external_body]
pub(crate) fn captures(pattern: &str, text: &str) -> (found: Option<Vec<Option<String>>>)
    ensures
        captures_view(found) == pattern_captures(pattern@, text@),
{
    let compiled = Regex::new(pattern).ok()?;
    let matched = compiled.captures(text)?;
    Some(matched.iter().map(|group| group.map(|part| part.as_str().to_owned())).collect())
}

/// The text of group `index`, where there is such a group and it took part in
/// the match.
pub open spec fn group_text(groups: Seq<Option<Seq<char>>>, index: int) -> Option<Seq<char>> {
    if 0 <= index < groups.len() {
        groups[index]
    } else {
        None
    }
}

/// The number that group `index` writes, where a `usize` holds it.
pub open spec fn usize_group(groups: Seq<Option<Seq<char>>>, index: int) -> Option<usize> {
    match group_text(groups, index) {
        Some(part) => usize_of(part),
        None => None,
    }
}

/// The number that group `index` writes, where a `u32` holds it.
pub open spec fn u32_group(groups: Seq<Option<Seq<char>>>, index: int) -> Option<u32> {
    match group_text(groups, index) {
        Some(part) => u32_of(part),
        None => None,
    }
}

/// Reads group `index` as a `usize`.
pub fn read_usize_group(groups: &Vec<Option<String>>, index: usize) -> (r: Option<usize>)
    ensures
        r == usize_group(groups_view(groups@), index as int),
{
    if index >= groups.len() {
        return None;
    }
    match &groups[index] {
        Some(part) => {
            let chars: Vec<char> = chars_of(part.as_str());
            parse_usize(chars.as_slice())
        },
        None => None,
    }
}

/// Reads group `index` as a `u32`.
pub fn read_u32_group(groups: &Vec<Option<String>>, index: usize) -> (r: Option<u32>)
    ensures
        r == u32_group(groups_view(groups@), index as int),
{
    if index >= groups.len() {
        return None;
    }
    match &groups[index] {
        Some(part) => {
            let chars: Vec<char> = chars_of(part.as_str());
            parse_u32(chars.as_slice())
        },
        None => None,
    }
}

} // verus!
