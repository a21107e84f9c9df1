//! The regular-expression engine of the `regex` crate, as this library sees
//! it.
//!
//! What a pattern matches is the engine's business and is not modelled here:
//! each search has a name for its outcome, and the functions of this module
//! are believed to return what the names say. Everything the library does
//! with an outcome is verified for every value that it can have.
use vstd::prelude::*;
use regex::Regex;

verus! {

/// The outcome of compiling `pattern` with `Regex::new` and walking
/// `Regex::find_iter` over `text`: `None` where the engine refuses the
/// pattern, else the substrings matched, from left to right.
pub uninterp spec fn regex_matches(pattern: Seq<char>, text: Seq<char>) -> Option<Seq<Seq<char>>>;

/// The outcome of compiling `pattern` with `Regex::new` and calling
/// `Regex::captures` on `text`: `None` where the engine refuses the pattern or
/// finds no match, else the capture groups of the leftmost match in the order
/// of their opening parentheses, group 0 being the whole match. A group that
/// took no part in the match is `None`.
pub uninterp spec fn regex_groups(pattern: Seq<char>, text: Seq<char>) -> Option<Seq<Option<Seq<char>>>>;

/// Compiles `pattern` with `regex::Regex::new` and collects the text of every
/// match that `regex::Regex::find_iter` yields on `text`.
///
/// Not verified: that the call returns `regex_matches(pattern, text)`. The
/// engine compiles and searches without reading anything but its two
/// arguments, so equal arguments give equal outcomes.
#[verifier::external_body]
pub(crate) fn find_all(pattern: &str, text: &str) -> (found: Option<Vec<String>>)
    ensures
        found.deep_view() == regex_matches(pattern@, text@),
{
    let re = Regex::new(pattern).ok()?;
    Some(re.find_iter(text).map(|m| m.as_str().to_string()).collect())
}

/// Compiles `pattern` with `regex::Regex::new`, searches `text` with
/// `regex::Regex::captures`, and collects the text of each capture group that
/// `regex::Captures::iter` yields.
///
/// Not verified: that the call returns `regex_groups(pattern, text)`. The
/// engine compiles and searches without reading anything but its two
/// arguments, so equal arguments give equal outcomes.
#[verifier::external_body]
pub(crate) fn capture_groups(pattern: &str, text: &str) -> (groups: Option<Vec<Option<String>>>)
    ensures
        groups.deep_view() == regex_groups(pattern@, text@),
{
    let re = Regex::new(pattern).ok()?;
    let caps = re.captures(text)?;
    Some(caps.iter().map(|group| group.map(|m| m.as_str().to_string())).collect())
}

} // verus!
