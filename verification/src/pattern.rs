//! Searches by regular expression, through the `regex` crate. A pattern that does not compile
//! answers `None`.

use crate::text::opt_texts;
use vstd::prelude::*;

verus! {

/// Whether the regular expression `pattern` matches somewhere in `text`.
pub uninterp spec fn regex_found(pattern: Seq<char>, text: Seq<char>) -> Option<bool>;

/// The texts of the successive non-overlapping matches of `pattern` in `text`.
pub uninterp spec fn regex_matches(pattern: Seq<char>, text: Seq<char>) -> Option<Seq<Seq<char>>>;

/// The texts between the successive matches of `pattern` in `text`.
pub uninterp spec fn regex_between(pattern: Seq<char>, text: Seq<char>) -> Option<Seq<Seq<char>>>;

/// The text of the first capture group in each successive match of `pattern` in `text`, empty
/// where the group took no part in the match.
pub uninterp spec fn regex_captures(pattern: Seq<char>, text: Seq<char>) -> Option<Seq<Seq<char>>>;

/// `regex::Regex::is_match`: whether there is a match of the pattern anywhere in the text. The
/// answer is a function of pattern and text, named [`regex_found`].
#[verifier::external_body]
pub(crate) fn regex_is_match(pattern: &str, text: &str) -> (r: Option<bool>)
    ensures
        r == regex_found(pattern@, text@),
{
    match regex::Regex::new(pattern) {
        Ok(re) => Some(re.is_match(text)),
        Err(_) => None,
    }
}

/// `regex::Regex::find_iter`: the matched texts, from left to right. They are a function of
/// pattern and text, named [`regex_matches`].
#[verifier::external_body]
pub(crate) fn regex_find_all(pattern: &str, text: &str) -> (r: Option<Vec<String>>)
    ensures
        opt_texts(r) == regex_matches(pattern@, text@),
{
    match regex::Regex::new(pattern) {
        Ok(re) => Some(re.find_iter(text).map(|m| m.as_str().to_string()).collect()),
        Err(_) => None,
    }
}

/// `regex::Regex::split`: the texts before, between and after the matches. They are a function
/// of pattern and text, named [`regex_between`].
#[verifier::external_body]
pub(crate) fn regex_split_all(pattern: &str, text: &str) -> (r: Option<Vec<String>>)
    ensures
        opt_texts(r) == regex_between(pattern@, text@),
{
    match regex::Regex::new(pattern) {
        Ok(re) => Some(re.split(text).map(|s| s.to_string()).collect()),
        Err(_) => None,
    }
}

/// `regex::Regex::captures_iter`: what the first group captured in each match, from left to
/// right. It is a function of pattern and text, named [`regex_captures`].
#[verifier::external_body]
pub(crate) fn regex_capture_all(pattern: &str, text: &str) -> (r: Option<Vec<String>>)
    ensures
        opt_texts(r) == regex_captures(pattern@, text@),
{
    match regex::Regex::new(pattern) {
        Ok(re) => Some(
            re.captures_iter(text).map(|c| c.get(1).map_or("", |m| m.as_str()).to_string()).collect(),
        ),
        Err(_) => None,
    }
}

} // verus!
