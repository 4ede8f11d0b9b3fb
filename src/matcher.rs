//! The regular expressions of the rules, through the `regex` crate.

use vstd::prelude::*;

verus! {

/// Whether `regex::Regex::new` accepts a pattern.
pub uninterp spec fn regex_valid(pattern: Seq<char>) -> bool;

/// The capturing groups of the leftmost match of a pattern in a text, as
/// `regex::Regex::captures` reports them: `None` when there is no match;
/// otherwise one entry per group, group 0 being the whole match, and `None`
/// for a group that took no part in the match.
pub uninterp spec fn regex_captures(pattern: Seq<char>, text: Seq<char>) -> Option<
    Seq<Option<Seq<char>>>,
>;

/// Relies on `regex::Regex::new`: it succeeds exactly on the patterns it can compile.
#[verifier::external_body]
pub(crate) fn is_valid_regex(pattern: &str) -> (r: bool)
    ensures
        r == regex_valid(pattern@),
{
    regex::Regex::new(pattern).is_ok()
}

/// Relies on `regex::Regex::captures` and `Captures::iter` for the groups of
/// the leftmost match (`Regex::new` is only reached on a pattern it accepts).
#[verifier::external_body]
pub(crate) fn captures(pattern: &str, text: &str) -> (r: Option<Vec<Option<String>>>)
    requires
        regex_valid(pattern@),
    ensures
        r.deep_view() == regex_captures(pattern@, text@),
{
    let re = regex::Regex::new(pattern).unwrap();
    re.captures(text).map(|c| c.iter().map(|g| g.map(|m| m.as_str().to_string())).collect())
}

} // verus!
