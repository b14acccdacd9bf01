//! Regular expressions, as the `regex` crate matches them. What a pattern
//! matches takes that crate's syntax to say, so each result has a name.

use crate::types::optional_text;
use regex::Regex;
use vstd::prelude::*;

verus! {

/// Why `regex` rejects a pattern: nothing where it accepts it.
pub uninterp spec fn regex_rejection(pattern: Seq<char>) -> Option<Seq<char>>;

/// The first match of a pattern in a text, as far as its first group tells:
/// nothing where there is no match, else the text of the group, if it took part.
pub uninterp spec fn regex_first_match(
    pattern: Seq<char>,
    text: Seq<char>,
) -> Option<Option<Seq<char>>>;

/// The text of the first group, if it took part, in each of the successive
/// matches of a pattern in a text.
pub uninterp spec fn regex_matches(pattern: Seq<char>, text: Seq<char>) -> Seq<Option<Seq<char>>>;

/// The contents of optional strings.
pub open spec fn optional_texts(v: Seq<Option<String>>) -> Seq<Option<Seq<char>>> {
    v.map_values(|s: Option<String>| optional_text(s))
}

/// The content of a first match.
pub open spec fn match_text(m: Option<Option<String>>) -> Option<Option<Seq<char>>> {
    match m {
        Some(group) => Some(optional_text(group)),
        None => None,
    }
}

/// Whether `c` is not among the first `n` characters of `s`.
pub open spec fn lacks(s: Seq<char>, c: char, n: nat) -> bool
    decreases n,
{
    n == 0 || (s[n - 1] != c && lacks(s, c, (n - 1) as nat))
}

/// Whether a pattern is small: short, and without a `{`, so that nothing in it is
/// repeated a counted number of times. Its compiled form then stays far below the
/// size at which `regex` gives up. That size is measured in bytes of memory, so at
/// the limit machines would differ.
pub open spec fn is_small(pattern: Seq<char>) -> bool {
    pattern.len() <= 64 && lacks(pattern, '{', pattern.len())
}

/// `Regex::new` rejects a pattern with an error, whose text the result is, or
/// accepts it. For a small pattern that depends on the pattern alone.
#[verifier::external_body]
pub(crate) fn rejection(pattern: &str) -> (r: Option<String>)
    requires
        is_small(pattern@),
    ensures
        optional_text(r) == regex_rejection(pattern@),
{
    Regex::new(pattern).err().map(|e| e.to_string())
}

/// `Regex::captures` finds the first match of an accepted pattern in `text`;
/// the result is the text of its first group.
#[verifier::external_body]
pub(crate) fn first_match(pattern: &str, text: &str) -> (r: Option<Option<String>>)
    requires
        is_small(pattern@),
        regex_rejection(pattern@) is None,
    ensures
        match_text(r) == regex_first_match(pattern@, text@),
{
    let re = Regex::new(pattern).unwrap();
    re.captures(text).map(|c| c.get(1).map(|m| m.as_str().to_owned()))
}

/// `Regex::captures_iter` finds the successive matches of an accepted pattern in
/// `text`; the result is the text of the first group of each.
#[verifier::external_body]
pub(crate) fn all_matches(pattern: &str, text: &str) -> (r: Vec<Option<String>>)
    requires
        is_small(pattern@),
        regex_rejection(pattern@) is None,
    ensures
        optional_texts(r@) == regex_matches(pattern@, text@),
{
    let re = Regex::new(pattern).unwrap();
    re.captures_iter(text).map(|c| c.get(1).map(|m| m.as_str().to_owned())).collect()
}

} // verus!
