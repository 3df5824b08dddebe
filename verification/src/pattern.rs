//! Matching a line of input against a regular expression.

use vstd::prelude::*;

verus! {

/// What the `regex` crate finds for `pattern` in `text`: nothing, where the
/// pattern does not compile or matches nowhere; else, for the leftmost match,
/// the text of each capture group by number, group 0 being the whole match,
/// with nothing for a group that took no part.
pub uninterp spec fn regex_captures(pattern: Seq<char>, text: Seq<char>) -> Option<
    Seq<Option<Seq<char>>>,
>;

/// The groups of a match as sequences of characters.
pub open spec fn groups_view(groups: Option<Vec<Option<String>>>) -> Option<Seq<Option<Seq<char>>>> {
    match groups {
        Some(v) => Some(
            v@.map_values(
                |g: Option<String>|
                    match g {
                        Some(s) => Some(s@),
                        None => None,
                    },
            ),
        ),
        None => None,
    }
}

/// Compiles `pattern` with `regex::Regex::new` and searches `text` with
/// `regex::Regex::captures`. The contract only gives the outcome its name,
/// [`regex_captures`]: the same pattern and text give the same groups.
#[verifier::external_body]
pub(crate) fn captures(pattern: &str, text: &str) -> (groups: Option<Vec<Option<String>>>)
    ensures
        groups_view(groups) == regex_captures(pattern@, text@),
{
    let re = regex::Regex::new(pattern).ok()?;
    let found = re.captures(text)?;
    Some(found.iter().map(|g| g.map(|m| m.as_str().to_string())).collect())
}

/// The text of group `i`, where the match has such a group and it took part.
pub open spec fn group_text(groups: Seq<Option<Seq<char>>>, i: int) -> Option<Seq<char>> {
    if 0 <= i < groups.len() {
        groups[i]
    } else {
        None
    }
}

/// The text of group `i`, where the match has such a group and it took part.
pub fn group(groups: &Vec<Option<String>>, i: usize) -> (r: Option<&str>)
    ensures
        match group_text(groups_view(Some(*groups))->0, i as int) {
            Some(t) => r matches Some(s) && s@ == t,
            None => r is None,
        },
{
    if i < groups.len() {
        match &groups[i] {
            Some(s) => Some(s.as_str()),
            None => None,
        }
    } else {
        None
    }
}

} // verus!
