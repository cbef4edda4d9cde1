//! Regular expressions through the `regex` crate.
//!
//! A `Pattern` is a regular expression together with the text it was
//! compiled from.  What `regex` answers for a pattern and a haystack is a
//! function of the two texts alone; the contracts here name those answers
//! and the parsers built on them are verified against the names.
//!
//! A match is described by its capture groups, in the order of their
//! opening parentheses: group 0 is the whole match, and a group that took
//! no part in the match is `None`.

use vstd::prelude::*;
use vstd::string::StringExecFns;
use regex::Regex;

verus! {

#[verifier::external_type_specification]
#[verifier::external_body]
pub struct ExRegex(Regex);

/// Whether `regex::Regex::new` accepts `pattern`.
pub uninterp spec fn regex_accepts(pattern: Seq<char>) -> bool;

/// The capture groups of the first match of `pattern` in `text`, if any,
/// as `regex::Regex::captures` finds it.
pub uninterp spec fn regex_captures(pattern: Seq<char>, text: Seq<char>) -> Option<
    Seq<Option<Seq<char>>>,
>;

/// The capture groups of each successive non-overlapping match of `pattern`
/// in `text`, as `regex::Regex::captures_iter` yields them.
pub uninterp spec fn regex_captures_all(pattern: Seq<char>, text: Seq<char>) -> Seq<
    Seq<Option<Seq<char>>>,
>;

/// A compiled regular expression and the text it was compiled from.
pub struct Pattern {
    source: String,
    re: Regex,
}

impl View for Pattern {
    type V = Seq<char>;

    /// The text the expression was compiled from.
    closed spec fn view(&self) -> Seq<char> {
        self.source@
    }
}

/// Compiles `pattern`.
///
/// Calls `regex::Regex::new`: the contract claims that it succeeds exactly
/// when `regex_accepts` holds of the text, and that the result remembers the
/// text it was compiled from.
#[verifier::external_body]
pub(crate) fn compile(pattern: &str) -> (res: Option<Pattern>)
    ensures
        res is Some <==> regex_accepts(pattern@),
        res matches Some(p) ==> p@ == pattern@,
{
    match Regex::new(pattern) {
        Ok(re) => Some(Pattern { source: pattern.to_string(), re }),
        Err(_) => None,
    }
}

/// The capture groups of the first match of `p` in `text`.
///
/// Calls `regex::Regex::captures` and copies each group of the match
/// (`Captures::iter`) into a string; the contract names the result
/// `regex_captures` of the pattern's text and the haystack.
#[verifier::external_body]
pub(crate) fn captures(p: &Pattern, text: &str) -> (res: Option<Vec<Option<String>>>)
    ensures
        res.deep_view() == regex_captures(p@, text@),
{
    p.re.captures(text).map(|c| c.iter().map(|m| m.map(|m| m.as_str().to_string())).collect())
}

/// The capture groups of every successive match of `p` in `text`.
///
/// Calls `regex::Regex::captures_iter` and copies each group of each match
/// into a string; the contract names the result `regex_captures_all` of the
/// pattern's text and the haystack.
#[verifier::external_body]
pub(crate) fn captures_all(p: &Pattern, text: &str) -> (res: Vec<Vec<Option<String>>>)
    ensures
        res.deep_view() == regex_captures_all(p@, text@),
{
    p.re.captures_iter(text).map(|c| c.iter().map(|m| m.map(|m| m.as_str().to_string())).collect()).collect()
}

/// A copy of group `i` of a match, if the match has such a group and it
/// took part.
pub fn group_text(groups: &Vec<Option<String>>, i: usize) -> (res: Option<String>)
    ensures
        res.deep_view() == (if i < groups.len() { groups.deep_view()[i as int] } else { None }),
{
    if i < groups.len() {
        match &groups[i] {
            Some(s) => Some(String::from_str(s.as_str())),
            None => None,
        }
    } else {
        None
    }
}

/// The characters that have a meaning of their own in a regular expression.
pub open spec fn is_meta(c: char) -> bool {
    c == '\\' || c == '.' || c == '+' || c == '*' || c == '?' || c == '(' || c == ')' || c == '|'
        || c == '[' || c == ']' || c == '{' || c == '}' || c == '^' || c == '$' || c == '#'
        || c == '&' || c == '-' || c == '~'
}

/// `s` with a backslash put before each meta character.
pub open spec fn escaped(s: Seq<char>) -> Seq<char>
    decreases s.len(),
{
    if s.len() == 0 {
        Seq::empty()
    } else if is_meta(s.last()) {
        escaped(s.drop_last()) + seq!['\\', s.last()]
    } else {
        escaped(s.drop_last()).push(s.last())
    }
}

/// A pattern that matches `text` literally.
///
/// Calls `regex::escape`, which (through `regex_syntax::escape_into`) copies
/// each character and puts a backslash before each character for which
/// `is_meta_character` holds; `is_meta` lists the same characters.
#[verifier::external_body]
pub(crate) fn escape(text: &str) -> (res: String)
    ensures
        res@ == escaped(text@),
{
    regex::escape(text)
}

/// The groups that matching `pattern` against `text` gives, when the
/// pattern compiles; no match when it does not.
pub open spec fn match_groups(pattern: Seq<char>, text: Seq<char>) -> Option<Seq<Option<Seq<char>>>> {
    if regex_accepts(pattern) {
        regex_captures(pattern, text)
    } else {
        None
    }
}

/// The groups of every match of `pattern` in `text`, when the pattern
/// compiles; none when it does not.
pub open spec fn match_groups_all(pattern: Seq<char>, text: Seq<char>) -> Seq<Seq<Option<Seq<char>>>> {
    if regex_accepts(pattern) {
        regex_captures_all(pattern, text)
    } else {
        Seq::empty()
    }
}

/// Whether `p` holds the expression compiled from `source`, as it must when
/// `source` compiles, and is empty otherwise.
pub open spec fn compiled_from(p: Option<Pattern>, source: Seq<char>) -> bool {
    match p {
        Some(q) => q@ == source && regex_accepts(source),
        None => !regex_accepts(source),
    }
}

/// The text of the expression held, if any.
pub open spec fn held_source(p: Option<Pattern>) -> Option<Seq<char>> {
    match p {
        Some(q) => Some(q@),
        None => None,
    }
}

/// `source`, if it compiles.
pub open spec fn compiled_source(source: Seq<char>) -> Option<Seq<char>> {
    if regex_accepts(source) {
        Some(source)
    } else {
        None
    }
}

/// The groups of the first match in `text` of the expression held, if any.
pub(crate) fn match_opt(p: &Option<Pattern>, text: &str) -> (res: Option<Vec<Option<String>>>)
    ensures
        forall|s: Seq<char>| compiled_from(*p, s) ==> res.deep_view() == match_groups(s, text@),
{
    match p {
        Some(q) => captures(q, text),
        None => None,
    }
}

/// The groups of each match in `text` of the expression held.
pub(crate) fn match_all_opt(p: &Option<Pattern>, text: &str) -> (res: Vec<Vec<Option<String>>>)
    ensures
        forall|s: Seq<char>| compiled_from(*p, s) ==> res.deep_view() == match_groups_all(s, text@),
{
    match p {
        Some(q) => captures_all(q, text),
        None => Vec::new(),
    }
}

} // verus!
