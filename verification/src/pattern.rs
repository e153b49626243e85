//! The boundary to the `regex` crate: the types it hands out, names for what
//! its searches return, and the contracts under which the library calls it.
//!
//! Nothing in this file is proved. Each contract restates what the crate
//! documents; the results of a search are named, not computed.

use regex::Regex;
use vstd::prelude::*;

verus! {

/// A compiled regular expression. Opaque: only the calls below look inside.
#[verifier::external_type_specification]
#[verifier::external_body]
pub struct ExRegex(Regex);

/// The error that `Regex::new` returns for a pattern it cannot compile.
#[verifier::external_type_specification]
#[verifier::external_body]
pub struct ExRegexError(regex::Error);

/// The pattern that a compiled expression was made from: what
/// `Regex::as_str` returns.
pub uninterp spec fn regex_pattern(re: Regex) -> Seq<char>;

/// Whether `Regex::new` compiles `pattern`, under the crate's default
/// options and size limit.
pub uninterp spec fn regex_compiles(pattern: Seq<char>) -> bool;

/// Whether the expression compiled from `pattern` matches anywhere in
/// `haystack`: what `Regex::is_match` returns.
pub uninterp spec fn regex_matches(pattern: Seq<char>, haystack: Seq<char>) -> bool;

/// The text of capture group `group` in the leftmost match of the expression
/// compiled from `pattern` in `haystack`: what `Regex::captures`, then
/// `Captures::get`, then `Match::as_str` return. `None` where nothing
/// matches, where the expression has no such group, or where the group took
/// no part in the match.
pub uninterp spec fn regex_captured(pattern: Seq<char>, haystack: Seq<char>, group: nat) -> Option<
    Seq<char>,
>;

/// `Regex::new`: compiles a pattern or reports why it cannot. The compiled
/// expression remembers the pattern it was given. Whether a pattern compiles
/// depends on the pattern alone.
pub assume_specification[ Regex::new ](re: &str) -> (r: Result<Regex, regex::Error>)
    ensures
        r is Ok <==> regex_compiles(re@),
        r matches Ok(compiled) ==> regex_pattern(compiled) == re@,
;

/// `Regex::is_match`: whether the expression matches anywhere in the
/// haystack. The answer depends on the pattern and the haystack alone.
pub assume_specification[ Regex::is_match ](re: &Regex, haystack: &str) -> (b: bool)
    ensures
        b == regex_matches(regex_pattern(*re), haystack@),
;

/// `Regex::captures`, `Captures::get` and `Match::as_str`: searches for the
/// leftmost match and copies out the text of one capture group. The answer
/// depends on the pattern, the haystack and the group's number alone.
#[verifier::external_body]
pub(crate) fn capture_group(re: &Regex, haystack: &str, group: usize) -> (r: Option<String>)
    ensures
        match r {
            Some(text) => regex_captured(regex_pattern(*re), haystack@, group as nat) == Some(
                text@,
            ),
            None => regex_captured(regex_pattern(*re), haystack@, group as nat) is None,
        },
{
    match re.captures(haystack) {
        Some(found) => match found.get(group) {
            Some(part) => Some(part.as_str().to_string()),
            None => None,
        },
        None => None,
    }
}

} // verus!
