//! Compiled patterns of regular expressions, each with its text.

use vstd::prelude::*;

verus! {

#[verifier::external_type_specification]
#[verifier::external_body]
pub struct ExRegex(regex::Regex);

#[verifier::external_type_specification]
#[verifier::external_body]
pub struct ExRegexError(regex::Error);

/// Whether `regex::Regex::new` accepts this pattern. It depends on the
/// pattern alone: on its syntax and on the size of what it compiles to.
pub uninterp spec fn regex_compiles(pattern: Seq<char>) -> bool;

/// Whether this pattern, compiled by `regex::Regex::new`, matches somewhere
/// in `text`: what `regex::Regex::is_match` then answers. It depends on the
/// pattern and the text alone.
pub uninterp spec fn regex_matches(pattern: Seq<char>, text: Seq<char>) -> bool;

/// A pattern: its text, and what `regex::Regex::new` compiled that text to.
/// Only `compile` makes one, and nothing changes one, so the two always
/// belong together.
pub struct Pattern {
    text: String,
    compiled: regex::Regex,
}

impl View for Pattern {
    type V = Seq<char>;

    /// The text of the pattern.
    closed spec fn view(&self) -> Seq<char> {
        self.text@
    }
}

/// Compiles a pattern with `regex::Regex::new` and keeps its text beside
/// the result. Of that function this states that whether it succeeds is a
/// matter of the pattern; of the `Pattern` made, that its text is the text
/// that was compiled.
#[verifier::external_body]
pub(crate) fn compile(pattern: &str) -> (r: Result<Pattern, regex::Error>)
    ensures
        r is Ok <==> regex_compiles(pattern@),
        r matches Ok(p) ==> p@ == pattern@,
{
    match regex::Regex::new(pattern) {
        Ok(compiled) => Ok(Pattern { text: pattern.to_string(), compiled }),
        Err(e) => Err(e),
    }
}

/// Whether the pattern matches somewhere in `text`, by
/// `regex::Regex::is_match` on the compiled form. The compiled form is
/// what `regex::Regex::new` made of the pattern's text, so the answer is
/// the one named for that text and `text`.
#[verifier::external_body]
pub(crate) fn is_match(pattern: &Pattern, text: &str) -> (r: bool)
    ensures
        r == regex_matches(pattern@, text@),
{
    pattern.compiled.is_match(text)
}

} // verus!
