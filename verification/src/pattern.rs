//! Regular-expression matching, done by the `regex` crate.

use crate::reference::{DEFAULT_NAMESPACE, PATH_COMPONENT_PATTERN};
use vstd::prelude::*;

verus! {

#[verifier::external_type_specification]
#[verifier::external_body]
pub struct ExRegexError(regex::Error);

/// Whether the regular expression written as `pattern` has a match anywhere
/// in `haystack`, as `regex::Regex::is_match` reports it for the expression
/// that `regex::Regex::new` compiles from `pattern`. Nothing is said here of
/// a pattern that does not compile.
pub uninterp spec fn regex_matches(pattern: Seq<char>, haystack: Seq<char>) -> bool;

/// Compiles `pattern` with `regex::Regex::new` and, if that succeeds,
/// searches `haystack` with `regex::Regex::is_match`.
///
/// Trusted, not proved:
/// - a search that took place returns `regex_matches` of the two texts,
///   that is, the outcome depends on the pattern and the haystack alone;
/// - the path-component pattern compiles: it is well-formed, and the
///   expression it gives is far below the engine's fixed size limit;
/// - the path-component pattern matches the default namespace, a run of
///   lower-case letters.
///
/// Of any other pattern it is left open whether it compiles; the engine's
/// error is handed on as it came.
#[verifier::external_body]
pub(crate) fn is_match(pattern: &str, haystack: &str) -> (r: Result<bool, regex::Error>)
    ensures
        r matches Ok(found) ==> found == regex_matches(pattern@, haystack@),
        pattern@ == PATH_COMPONENT_PATTERN@ ==> r is Ok,
        r matches Ok(found) ==> (pattern@ == PATH_COMPONENT_PATTERN@ && haystack@
            == DEFAULT_NAMESPACE@ ==> found),
{
    match regex::Regex::new(pattern) {
        Ok(re) => Ok(re.is_match(haystack)),
        Err(e) => Err(e),
    }
}

} // verus!
