//! Matching text against regular expressions.

use crate::util::text::{
    decimal_i64, decimal_u64, decimal_usize, parse_i64, parse_u64, parse_usize,
};
use vstd::prelude::*;

verus! {

/// What matching `text` against the regular expression `pattern` captures:
/// nothing where the pattern is no regular expression or does not match
/// anywhere in the text, else the text of each capture group of the
/// leftmost match (group zero is the whole match), with nothing for a
/// group that took no part in the match.
pub uninterp spec fn captures_of(pattern: Seq<char>, text: Seq<char>) -> Option<
    Seq<Option<Seq<char>>>,
>;

/// Compiles `pattern` with `regex::Regex::new` and matches `text` with
/// `Regex::captures`. The contract names the result; what it holds is left
/// to the regex crate.
#[verifier::external_body]
pub(crate) fn captures(pattern: &str, text: &str) -> (groups: Option<Vec<Option<String>>>)
    ensures
        groups.deep_view() == captures_of(pattern@, text@),
{
    let re = regex::Regex::new(pattern).ok()?;
    let caps = re.captures(text)?;
    Some(caps.iter().map(|group| group.map(|m| m.as_str().to_string())).collect())
}

/// The text of capture group `index`, where the group took part in the
/// match.
pub open spec fn group_of(groups: Seq<Option<Seq<char>>>, index: int) -> Option<Seq<char>> {
    if 0 <= index < groups.len() {
        groups[index]
    } else {
        None
    }
}

/// The text of capture group `index`, where the group took part in the
/// match.
pub fn group(groups: &Vec<Option<String>>, index: usize) -> (text: Option<&str>)
    ensures
        text.deep_view() == group_of(groups.deep_view(), index as int),
{
    if index < groups.len() {
        match &groups[index] {
            Some(s) => Some(s.as_str()),
            None => None,
        }
    } else {
        None
    }
}

/// The unsigned number that capture group `index` writes.
pub open spec fn number_of(groups: Seq<Option<Seq<char>>>, index: int) -> Option<u64> {
    match group_of(groups, index) {
        Some(text) => decimal_u64(text),
        None => None,
    }
}

/// Reads capture group `index` as an unsigned number.
pub fn number(groups: &Vec<Option<String>>, index: usize) -> (n: Option<u64>)
    ensures
        n == number_of(groups.deep_view(), index as int),
{
    match group(groups, index) {
        Some(text) => parse_u64(text),
        None => None,
    }
}

/// The signed number that capture group `index` writes.
pub open spec fn signed_of(groups: Seq<Option<Seq<char>>>, index: int) -> Option<i64> {
    match group_of(groups, index) {
        Some(text) => decimal_i64(text),
        None => None,
    }
}

/// Reads capture group `index` as a signed number.
pub fn signed(groups: &Vec<Option<String>>, index: usize) -> (n: Option<i64>)
    ensures
        n == signed_of(groups.deep_view(), index as int),
{
    match group(groups, index) {
        Some(text) => parse_i64(text),
        None => None,
    }
}

/// The size that capture group `index` writes.
pub open spec fn size_of(groups: Seq<Option<Seq<char>>>, index: int) -> Option<usize> {
    match group_of(groups, index) {
        Some(text) => decimal_usize(text),
        None => None,
    }
}

/// Reads capture group `index` as a size.
pub fn size(groups: &Vec<Option<String>>, index: usize) -> (n: Option<usize>)
    ensures
        n == size_of(groups.deep_view(), index as int),
{
    match group(groups, index) {
        Some(text) => parse_usize(text),
        None => None,
    }
}

} // verus!
