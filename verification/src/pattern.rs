//! Matching a value against a pattern of a query.
use vstd::prelude::*;

verus! {

/// Whether `regex::Regex::new` accepts `pattern`.
pub uninterp spec fn regex_compiles(pattern: Seq<char>) -> bool;

/// Whether the regular expression `pattern` has a match anywhere in `text`:
/// what `regex::Regex::is_match` answers.
pub uninterp spec fn regex_found(pattern: Seq<char>, text: Seq<char>) -> bool;

/// What matching `text` against the regular expression `pattern` gives:
/// whether a match was found, or nothing where the pattern does not compile.
/// The empty pattern is found in every text.
pub open spec fn matched(pattern: Seq<char>, text: Seq<char>) -> Option<bool> {
    if pattern.len() == 0 {
        Some(true)
    } else if regex_compiles(pattern) {
        Some(regex_found(pattern, text))
    } else {
        None
    }
}

/// Compiles `pattern` with `regex::Regex::new` and searches `text` with
/// `regex::Regex::is_match`. The result is `None` exactly where the pattern
/// does not compile; otherwise it says whether the pattern has a match
/// anywhere in the text. For the empty pattern it is `Some(true)`: the
/// crate documents that the empty regex is valid and matches the empty
/// string, which stands at the front of every text. All of this is taken on
/// trust from the `regex` crate.
#[verifier::external_body]
pub(crate) fn regex_is_match(pattern: &str, text: &str) -> (r: Option<bool>)
    ensures
        r is Some <==> regex_compiles(pattern@),
        r matches Some(found) ==> found == regex_found(pattern@, text@),
        pattern@.len() == 0 ==> r == Some(true),
{
    match regex::Regex::new(pattern) {
        Ok(re) => Some(re.is_match(text)),
        Err(_) => None,
    }
}

} // verus!
