//! Regular expressions of the `regex` crate, as the analyzers use them.
//!
//! What a regular expression matches is not restated here: each query is
//! named by a function of the pattern's text and the searched text, and the
//! analyzers' contracts are stated over those names.
use vstd::prelude::*;
use regex::Regex;
use crate::text::trimmed;
use crate::caller::word_call;

verus! {

/// The compiled regular expression type `regex::Regex`, carried through
/// opaquely.
#[verifier::external_type_specification]
#[verifier::external_body]
pub struct ExRegex(Regex);

/// The error type `regex::Error` of `regex::Regex::new`, carried through
/// opaquely.
#[verifier::external_type_specification]
#[verifier::external_body]
pub struct ExRegexError(regex::Error);

/// Whether `regex::Regex::new` accepts `pattern`.
pub uninterp spec fn regex_compiles(pattern: Seq<char>) -> bool;

/// Whether the regular expression `pattern` matches somewhere in `haystack`
/// (`regex::Regex::is_match`).
pub uninterp spec fn regex_is_match(pattern: Seq<char>, haystack: Seq<char>) -> bool;

/// The texts of the successive non-overlapping matches of `pattern` in
/// `haystack`, from left to right (`regex::Regex::captures_iter`, group 0
/// of each).
pub uninterp spec fn regex_match_texts(pattern: Seq<char>, haystack: Seq<char>) -> Seq<Seq<char>>;

/// The leftmost match of `pattern` in `haystack` (`regex::Regex::captures`):
/// `None` where there is no match, else the text of capture group `group`,
/// `None` where that group took no part in the match.
pub uninterp spec fn regex_capture_group(pattern: Seq<char>, haystack: Seq<char>, group: nat) -> Option<Option<Seq<char>>>;

/// An error of the library: a regular expression that does not compile.
pub enum PatternError {
    Invalid,
}

/// A compiled regular expression together with the text it was compiled from.
pub struct Pattern {
    source: String,
    compiled: Regex,
}

impl Pattern {
    /// The text the expression was compiled from.
    pub closed spec fn source(&self) -> Seq<char> {
        self.source@
    }

    /// Calls `regex::Regex::new`. Claims that it succeeds exactly when
    /// `regex_compiles` holds of the pattern, and that the result is
    /// compiled from `pattern` (both fields are filled here, and nowhere
    /// else is a `Pattern` built).
    #[verifier::external_body]
    fn compile(pattern: &str) -> (r: Result<Pattern, regex::Error>)
        ensures
            r is Ok <==> regex_compiles(pattern@),
            r matches Ok(p) ==> p.source() == pattern@,
    {
        Regex::new(pattern).map(|compiled| Pattern { source: pattern.to_string(), compiled })
    }

    /// Compiles `pattern`.
    pub fn new(pattern: &str) -> (r: Result<Pattern, PatternError>)
        ensures
            r is Ok <==> regex_compiles(pattern@),
            r matches Ok(p) ==> p.source() == pattern@,
    {
        match Pattern::compile(pattern) {
            Ok(p) => Ok(p),
            Err(_) => Err(PatternError::Invalid),
        }
    }

    /// Calls `regex::Regex::is_match`. Claims that the answer is
    /// `regex_is_match` of the source text and `haystack`.
    #[verifier::external_body]
    pub(crate) fn is_match(&self, haystack: &str) -> (r: bool)
        ensures
            r == regex_is_match(self.source(), haystack@),
    {
        self.compiled.is_match(haystack)
    }

    /// Calls `regex::Regex::captures_iter` and takes the whole match of each.
    /// Claims that the texts are `regex_match_texts` of the source text and
    /// `haystack`.
    #[verifier::external_body]
    pub(crate) fn match_texts(&self, haystack: &str) -> (r: Vec<String>)
        ensures
            r@.len() == regex_match_texts(self.source(), haystack@).len(),
            forall|i: int|
                0 <= i < r@.len() ==> #[trigger] r@[i]@ == regex_match_texts(
                    self.source(),
                    haystack@,
                )[i],
    {
        self.compiled.captures_iter(haystack).map(|c| c[0].to_string()).collect()
    }

    /// Calls `regex::Regex::captures` and takes capture group `group` of the
    /// match. Claims that the outcome is `regex_capture_group` of the source
    /// text, `haystack` and `group`.
    ///
    /// For the pattern `word_call` (a run of word characters, blanks, then
    /// `(`) it claims as well that the outcome is the same on `haystack`
    /// without its outer blanks. This follows from what the crate documents:
    /// `captures` gives the leftmost-first match; `\w` and `\s` are the
    /// Unicode word and `White_Space` classes, which share no character and
    /// hold neither `(` nor anything a trimmed blank can be. So no match can
    /// begin in a leading blank or reach into a trailing one (each match
    /// begins with a word character and ends with `(`), the pattern has no
    /// anchor or boundary assertion, and the match found at each position
    /// depends only on the text from there to its `(`.
    #[verifier::external_body]
    pub(crate) fn capture_group(&self, haystack: &str, group: usize) -> (r: Option<Option<String>>)
        ensures
            match (r, regex_capture_group(self.source(), haystack@, group as nat)) {
                (None, None) => true,
                (Some(None), Some(None)) => true,
                (Some(Some(s)), Some(Some(t))) => s@ == t,
                _ => false,
            },
            self.source() == word_call() ==> match (
                r,
                regex_capture_group(self.source(), trimmed(haystack@), group as nat),
            ) {
                (None, None) => true,
                (Some(None), Some(None)) => true,
                (Some(Some(s)), Some(Some(t))) => s@ == t,
                _ => false,
            },
    {
        self.compiled.captures(haystack).map(|c| c.get(group).map(|m| m.as_str().to_string()))
    }
}

} // verus!
