//! Searching text for a regular expression.
//!
//! The searching itself is done by the `regex` crate. What it finds is not
//! proved here: it is given a name, and the parsers state what they make of
//! it.
use vstd::prelude::*;

verus! {

/// Whether `regex::Regex::new` accepts `pattern`.
pub uninterp spec fn regex_compiles(pattern: Seq<char>) -> bool;

/// What `regex::Regex::is_match` answers for `text`, the expression being
/// compiled from `pattern`.
pub uninterp spec fn regex_is_match(pattern: Seq<char>, text: Seq<char>) -> bool;

/// What `regex::Regex::captures` finds in `text`, the expression being compiled
/// from `pattern`: nothing, or the groups of the leftmost match. Group 0 is the
/// whole match; a group that took no part in the match is `None`.
pub uninterp spec fn regex_captures(pattern: Seq<char>, text: Seq<char>) -> Option<Seq<Option<Seq<char>>>>;

/// What `regex::Regex::captures_iter` yields for `text`, the expression being
/// compiled from `pattern`: the groups of each of the successive matches that
/// do not overlap, in the order of the text.
pub uninterp spec fn regex_captures_iter(pattern: Seq<char>, text: Seq<char>) -> Seq<Seq<Option<Seq<char>>>>;

/// The groups of one match, as plain values.
pub open spec fn groups_view(groups: Seq<Option<String>>) -> Seq<Option<Seq<char>>> {
    groups.map_values(
        |g: Option<String>|
            match g {
                Some(s) => Some(s@),
                None => None,
            },
    )
}

/// The groups of several matches, as plain values.
pub open spec fn matches_view(found: Seq<Vec<Option<String>>>) -> Seq<Seq<Option<Seq<char>>>> {
    found.map_values(|m: Vec<Option<String>>| groups_view(m@))
}

/// Whether a match is found in `text`; false too where `pattern` is not
/// accepted.
pub open spec fn found_in(pattern: Seq<char>, text: Seq<char>) -> bool {
    regex_compiles(pattern) && regex_is_match(pattern, text)
}

/// The groups of the leftmost match in `text`; none too where `pattern` is not
/// accepted.
pub open spec fn first_match(pattern: Seq<char>, text: Seq<char>) -> Option<
    Seq<Option<Seq<char>>>,
> {
    if regex_compiles(pattern) {
        regex_captures(pattern, text)
    } else {
        None
    }
}

/// The groups of every match in `text`; none too where `pattern` is not
/// accepted.
pub open spec fn all_matches(pattern: Seq<char>, text: Seq<char>) -> Seq<Seq<Option<Seq<char>>>> {
    if regex_compiles(pattern) {
        regex_captures_iter(pattern, text)
    } else {
        Seq::empty()
    }
}

/// The text of group `i` of a match; empty where the match has no such group
/// or the group took no part in it.
pub open spec fn group_text(groups: Seq<Option<Seq<char>>>, i: int) -> Seq<char> {
    if 0 <= i < groups.len() {
        match groups[i] {
            Some(s) => s,
            None => Seq::empty(),
        }
    } else {
        Seq::empty()
    }
}

/// Calls `regex::Regex::new` and, once the expression is compiled,
/// `regex::Regex::is_match`. Trusted: the answer is `None` exactly where the
/// pattern is not accepted, and else what `is_match` tells, which is whether
/// the expression matches anywhere in `text`.
#[verifier::external_body]
pub(crate) fn search(pattern: &str, text: &str) -> (r: Option<bool>)
    ensures
        r.is_some() == regex_compiles(pattern@),
        r matches Some(b) ==> b == regex_is_match(pattern@, text@),
{
    match regex::Regex::new(pattern) {
        Ok(re) => Some(re.is_match(text)),
        Err(_) => None,
    }
}

/// Calls `regex::Regex::new` and, once the expression is compiled,
/// `regex::Regex::captures`. Trusted: the answer is `None` exactly where the
/// pattern is not accepted, and else what `captures` finds, each group copied
/// out as a string.
#[verifier::external_body]
pub(crate) fn capture_first(pattern: &str, text: &str) -> (r: Option<Option<Vec<Option<String>>>>)
    ensures
        r.is_some() == regex_compiles(pattern@),
        r matches Some(found) ==> (match found {
            Some(groups) => Some(groups_view(groups@)),
            None => None,
        }) == regex_captures(pattern@, text@),
{
    match regex::Regex::new(pattern) {
        Ok(re) => Some(
            re.captures(text).map(
                |c| c.iter().map(|g| g.map(|m| m.as_str().to_string())).collect(),
            ),
        ),
        Err(_) => None,
    }
}

/// Calls `regex::Regex::new` and, once the expression is compiled,
/// `regex::Regex::captures_iter`. Trusted: the answer is `None` exactly where
/// the pattern is not accepted, and else all that `captures_iter` yields, in
/// its order, each group copied out as a string.
#[verifier::external_body]
pub(crate) fn capture_all(pattern: &str, text: &str) -> (r: Option<Vec<Vec<Option<String>>>>)
    ensures
        r.is_some() == regex_compiles(pattern@),
        r matches Some(found) ==> matches_view(found@) == regex_captures_iter(pattern@, text@),
{
    match regex::Regex::new(pattern) {
        Ok(re) => Some(
            re.captures_iter(text).map(
                |c| c.iter().map(|g| g.map(|m| m.as_str().to_string())).collect(),
            ).collect(),
        ),
        Err(_) => None,
    }
}

/// Whether the expression `pattern` matches anywhere in `text`.
pub fn is_found(pattern: &str, text: &str) -> (r: bool)
    ensures
        r == found_in(pattern@, text@),
{
    match search(pattern, text) {
        Some(b) => b,
        None => false,
    }
}

/// The groups of the leftmost match of `pattern` in `text`.
pub fn find_first(pattern: &str, text: &str) -> (r: Option<Vec<Option<String>>>)
    ensures
        (match r {
            Some(groups) => Some(groups_view(groups@)),
            None => None,
        }) == first_match(pattern@, text@),
{
    match capture_first(pattern, text) {
        Some(found) => found,
        None => None,
    }
}

/// The groups of every match of `pattern` in `text`, in the order of the text.
pub fn find_all(pattern: &str, text: &str) -> (r: Vec<Vec<Option<String>>>)
    ensures
        matches_view(r@) == all_matches(pattern@, text@),
{
    match capture_all(pattern, text) {
        Some(found) => found,
        None => {
            let none: Vec<Vec<Option<String>>> = Vec::new();
            assert(matches_view(none@) == Seq::<Seq<Option<Seq<char>>>>::empty());
            none
        },
    }
}

/// The text of group `i` of a match; empty where there is none.
pub fn group(groups: &Vec<Option<String>>, i: usize) -> (s: String)
    ensures
        s@ == group_text(groups_view(groups@), i as int),
{
    if i < groups.len() {
        match &groups[i] {
            Some(s) => s.clone(),
            None => String::new(),
        }
    } else {
        String::new()
    }
}

} // verus!
