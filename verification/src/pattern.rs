//! The regular-expression engine, as far as the library relies on it.
//!
//! Nothing in this file is proved: the engine is the `regex` crate, and what is
//! stated here of it is taken on trust.

use regex::Regex;
use vstd::prelude::*;
use crate::version::opt_text;

verus! {

/// `regex::Regex`, a compiled expression. The library never looks inside.
#[verifier::external_type_specification]
#[verifier::external_body]
pub struct ExRegex(Regex);

/// `regex::Error`, what `Regex::new` gives for a pattern that it turns down. The
/// library never looks inside.
#[verifier::external_type_specification]
#[verifier::external_body]
pub struct ExRegexError(regex::Error);

/// The pattern that an expression was compiled from: what `Regex::as_str` returns
/// for it.
pub uninterp spec fn regex_source(re: Regex) -> Seq<char>;

/// Whether `Regex::new` compiles `pattern`, that is, returns `Ok` for it.
pub uninterp spec fn regex_compiles(pattern: Seq<char>) -> bool;

/// What `Regex::captures` yields when the expression that `Regex::new` compiles from
/// `pattern` is run on `haystack`: nothing where there is no match, else the text of
/// every capture group of the leftmost match, group `0` (the whole match) first, with
/// `None` for a group that took no part in the match.
pub uninterp spec fn regex_captures(pattern: Seq<char>, haystack: Seq<char>) -> Option<
    Seq<Option<Seq<char>>>,
>;

/// An expression that `Regex::new` compiled, with the options that `Regex::new` sets
/// and no others. It does not leave the library, and in the library only [`compile`]
/// makes one, so no expression that was configured otherwise is ever held here.
pub(crate) struct Compiled {
    pub(crate) re: Regex,
}

/// The texts of a list of capture groups.
pub open spec fn groups_view(groups: Vec<Option<String>>) -> Seq<Option<Seq<char>>> {
    Seq::new(groups.len() as nat, |i: int| opt_text(groups[i]))
}

/// The texts of what a search captured, if it matched.
pub open spec fn captures_view(found: Option<Vec<Option<String>>>) -> Option<
    Seq<Option<Seq<char>>>,
> {
    match found {
        Some(groups) => Some(groups_view(groups)),
        None => None,
    }
}

/// Calls `Regex::new`, the one way in which the library makes an expression. Trusted:
/// whether a pattern compiles depends on the pattern alone, and an expression that
/// compiles remembers the pattern it was given.
#[verifier::external_body]
pub(crate) fn compile(pattern: &str) -> (r: Result<Compiled, regex::Error>)
    ensures
        r is Ok <==> regex_compiles(pattern@),
        r matches Ok(c) ==> regex_source(c.re) == pattern@,
{
    match Regex::new(pattern) {
        Ok(re) => Ok(Compiled { re }),
        Err(e) => Err(e),
    }
}

/// Calls `Regex::captures` and copies out the text of each group, in the order of
/// `Captures::iter`. Trusted: for an expression that `Regex::new` compiled, and a
/// [`Compiled`] holds no other, the outcome depends on the pattern and the haystack
/// alone. Nothing is claimed of what matches.
#[verifier::external_body]
pub(crate) fn captures(c: &Compiled, haystack: &str) -> (r: Option<Vec<Option<String>>>)
    ensures
        captures_view(r) == regex_captures(regex_source(c.re), haystack@),
{
    match c.re.captures(haystack) {
        Some(found) => {
            let mut groups = Vec::new();
            for group in found.iter() {
                groups.push(group.map(|m| m.as_str().to_string()));
            }
            Some(groups)
        },
        None => None,
    }
}

} // verus!
