//! Trusted wrappers around the regex crate's byte-oriented matching.
//!
//! Patterns hold regular expressions as their source strings; compiling and
//! matching happen behind these wrappers.

use vstd::prelude::*;

verus! {

/// Whether a regular expression source compiles: what
/// `regex::bytes::Regex::new` returns depends on the source alone.
pub uninterp spec fn regex_valid(src: Seq<char>) -> bool;

/// Whether the regular expression matches somewhere in the haystack: a
/// function of the pattern source and the haystack alone, with an invalid
/// source matching nothing.
pub uninterp spec fn regex_found(src: Seq<char>, hay: Seq<u8>) -> bool;

/// Relies on `regex::bytes::Regex::new`: whether the source compiles.
#[verifier::external_body]
pub fn regex_compiles(src: &str) -> (r: bool)
    ensures
        r == regex_valid(src@),
{
    regex::bytes::Regex::new(src).is_ok()
}

/// Relies on `regex::bytes::Regex::new` and `Regex::is_match`: whether the
/// pattern matches anywhere in the haystack. A source that does not compile
/// matches nothing.
#[verifier::external_body]
pub fn regex_match_in(src: &str, hay: &[u8]) -> (r: bool)
    ensures
        r == regex_found(src@, hay@),
{
    match regex::bytes::Regex::new(src) {
        Ok(re) => re.is_match(hay),
        Err(_) => false,
    }
}

} // verus!
