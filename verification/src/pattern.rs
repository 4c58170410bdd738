//! What the library has from `regex`: compiling a pattern and listing what
//! one of its groups captured in a text.

use regex::Regex;
use vstd::prelude::*;

verus! {

/// A compiled regular expression of `regex`.
#[verifier::external_type_specification]
#[verifier::external_body]
pub struct ExRegex(regex::Regex);

/// Why `regex` refused a pattern.
#[verifier::external_type_specification]
#[verifier::external_body]
pub struct ExRegexError(regex::Error);

/// The expression that `regex` compiles `pattern` to, where it compiles it.
pub uninterp spec fn compiled(pattern: Seq<char>) -> Regex;

/// For each successive non-overlapping match of `expression` in `text`,
/// from left to right, the text that the group with index `group` captured,
/// or `None` where the group took no part in the match.
pub uninterp spec fn group_captures(expression: Regex, text: Seq<char>, group: nat) -> Seq<
    Option<Seq<char>>,
>;

/// `Regex::new`: compiles `pattern`. Whether it succeeds is left open, since
/// `regex` also refuses a pattern whose program would grow too large; an
/// expression that comes back is the one that the pattern stands for.
#[verifier::external_body]
pub(crate) fn compile(pattern: &str) -> (r: Result<Regex, regex::Error>)
    ensures
        r matches Ok(expression) ==> expression == compiled(pattern@),
{
    Regex::new(pattern)
}

/// `Regex::captures_iter` with `Captures::get`: lists, match by match, the
/// text that group `group` captured. What matches is for `regex` to say;
/// the same expression finds the same in the same text.
#[verifier::external_body]
pub(crate) fn captures_of(expression: &Regex, text: &str, group: usize) -> (found: Vec<
    Option<String>,
>)
    ensures
        found.deep_view() == group_captures(*expression, text@, group as nat),
{
    expression.captures_iter(text).map(
        |captures| captures.get(group).map(|found| found.as_str().to_string()),
    ).collect()
}

/// `ToString::to_string` of a `regex::Error`: what the error says of itself.
/// Nothing is claimed of the text.
#[verifier::external_body]
pub(crate) fn pattern_error_text(error: &regex::Error) -> String {
    error.to_string()
}

} // verus!
