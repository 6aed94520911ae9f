//! Regular expressions, as the `regex` crate reads and applies them. Each
//! function here compiles its pattern and applies it once; what comes back
//! is named, not described.
use vstd::prelude::*;
use regex::Regex;
use crate::text::texts;

verus! {

/// Whether `regex` finds a match of `pattern` in `text`; nothing where
/// `pattern` is no regular expression.
pub uninterp spec fn regex_is_match(pattern: Seq<char>, text: Seq<char>) -> Option<bool>;

/// `text` with every match of `pattern` replaced by `replacement`, as `regex`
/// does it; nothing where `pattern` is no regular expression.
pub uninterp spec fn regex_replace_all(
    pattern: Seq<char>,
    text: Seq<char>,
    replacement: Seq<char>,
) -> Option<Seq<char>>;

/// The parts of `text` between the matches of `pattern`, as `regex` cuts
/// them; nothing where `pattern` is no regular expression.
pub uninterp spec fn regex_split(pattern: Seq<char>, text: Seq<char>) -> Option<Seq<Seq<char>>>;

/// For each match of `pattern` in `text`, what its capture group `group`
/// matched, if it took part; nothing where `pattern` is no regular
/// expression.
pub uninterp spec fn regex_captures(pattern: Seq<char>, text: Seq<char>, group: usize) -> Option<
    Seq<Option<Seq<char>>>,
>;

/// What a vector of optional strings holds.
pub open spec fn optional_texts(v: Seq<Option<String>>) -> Seq<Option<Seq<char>>> {
    Seq::new(
        v.len(),
        |i: int|
            match v[i] {
                Some(s) => Some(s@),
                None => None,
            },
    )
}

/// `Regex::new` on `pattern`, then `Regex::is_match` on `text`.
#[verifier::external_body]
pub(crate) fn is_match(pattern: &str, text: &str) -> (r: Option<bool>)
    ensures
        r == regex_is_match(pattern@, text@),
{
    Regex::new(pattern).ok().map(|re| re.is_match(text))
}

/// `Regex::new` on `pattern`, then `Regex::replace_all` on `text` with the
/// replacement string `replacement`.
#[verifier::external_body]
pub(crate) fn replace_all(pattern: &str, text: &str, replacement: &str) -> (r: Option<String>)
    ensures
        match r {
            Some(s) => regex_replace_all(pattern@, text@, replacement@) == Some(s@),
            None => regex_replace_all(pattern@, text@, replacement@) is None,
        },
{
    Regex::new(pattern).ok().map(|re| re.replace_all(text, replacement).into_owned())
}

/// `Regex::new` on `pattern`, then `Regex::split` on `text`.
#[verifier::external_body]
pub(crate) fn split(pattern: &str, text: &str) -> (r: Option<Vec<String>>)
    ensures
        match r {
            Some(parts) => regex_split(pattern@, text@) == Some(texts(parts@)),
            None => regex_split(pattern@, text@) is None,
        },
{
    Regex::new(pattern).ok().map(|re| re.split(text).map(|part| part.to_string()).collect())
}

/// `Regex::new` on `pattern`, then `Regex::captures_iter` on `text`, and of
/// each match `Captures::get` for `group`.
#[verifier::external_body]
pub(crate) fn captures(pattern: &str, text: &str, group: usize) -> (r: Option<
    Vec<Option<String>>,
>)
    ensures
        match r {
            Some(found) => regex_captures(pattern@, text@, group) == Some(optional_texts(found@)),
            None => regex_captures(pattern@, text@, group) is None,
        },
{
    Regex::new(pattern).ok().map(
        |re|
            re.captures_iter(text).map(|c| c.get(group).map(|m| m.as_str().to_string())).collect(),
    )
}

} // verus!
