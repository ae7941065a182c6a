//! The engine's calls into outside crates, each behind a trusted shim: the
//! regular-expression engine that executes compiled patterns, and the YAML
//! reader that backs the tag-list field check.

use vstd::prelude::*;

verus! {

/// Whether `regex::Regex::new` accepts this regular-expression source.
pub uninterp spec fn regex_compiles(src: Seq<char>) -> bool;

/// Relies on regex::Regex::new: whether a source compiles depends on the
/// source text alone.
#[verifier::external_body]
pub(crate) fn regex_syntax_ok(src: &str) -> (r: bool)
    ensures
        r == regex_compiles(src@),
{
    regex::Regex::new(src).is_ok()
}

/// The capture groups that a leftmost search of `src` yields on `input`:
/// `None` when the regex does not match at all; otherwise one entry per
/// capturing group in source order (group 0, the whole match, excluded),
/// with `None` for a group that took no part in the match.
pub uninterp spec fn regex_groups_of(src: Seq<char>, input: Seq<char>) -> Option<
    Seq<Option<Seq<char>>>,
>;

/// Relies on regex::Regex::new and regex::Regex::captures: the result of the
/// leftmost search depends on the source and the input alone.
#[verifier::external_body]
pub(crate) fn regex_capture_groups(src: &str, input: &str) -> (r: Option<Vec<Option<String>>>)
    requires
        regex_compiles(src@),
    ensures
        r.deep_view() == regex_groups_of(src@, input@),
{
    let re = regex::Regex::new(src).unwrap();
    re.captures(input).map(|c| c.iter().skip(1).map(|m| m.map(|g| g.as_str().to_string())).collect())
}

/// Whether `serde_yaml::from_str` parses the text as a well-formed document.
pub uninterp spec fn yaml_doc_ok(s: Seq<char>) -> bool;

/// Relies on serde_yaml::from_str: whether the text parses as a YAML value
/// depends on the text alone.
#[verifier::external_body]
pub(crate) fn yaml_parses(s: &str) -> (r: bool)
    ensures
        r == yaml_doc_ok(s@),
{
    serde_yaml::from_str::<serde_yaml::Value>(s).is_ok()
}

} // verus!
