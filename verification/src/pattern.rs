//! The pattern that the names of definitions are searched with: a regular
//! expression, compiled and matched by the `regex` crate.

use vstd::prelude::*;

verus! {

/// `regex::Regex`, a compiled regular expression. Nothing of what is
/// inside it is known here.
#[verifier::external_type_specification]
#[verifier::external_body]
pub struct ExRegex(regex::Regex);

/// The message of the error that `regex::Regex::new` gives for the source
/// `pattern`, as the error displays it; `None` where it compiles the
/// source.
pub uninterp spec fn pattern_error(pattern: Seq<char>) -> Option<Seq<char>>;

/// Whether the regular expression with the source `pattern`, compiled by
/// `regex::Regex::new`, matches somewhere in `text` according to
/// `regex::Regex::is_match`.
pub uninterp spec fn pattern_matches(pattern: Seq<char>, text: Seq<char>) -> bool;

/// A compiled search pattern. Its view is the source it was compiled from.
pub struct Pattern {
    source: String,
    regex: regex::Regex,
}

/// A pattern that could not be compiled, with the reason as text.
#[derive(Debug)]
pub struct PatternError {
    pub message: String,
}

/// Calls `regex::Regex::new` on `source`. Where it returns a regular
/// expression, that one is kept together with its source; where it returns
/// an error, the text that the error displays is handed out. Both depend on
/// the source alone.
#[verifier::external_body]
fn compile(source: &str) -> (r: Result<Pattern, String>)
    ensures
        match r {
            Ok(pattern) => pattern@ == source@ && pattern_error(source@) is None,
            Err(message) => pattern_error(source@) == Some(message@),
        },
{
    match regex::Regex::new(source) {
        Ok(regex) => Ok(Pattern { source: source.to_string(), regex }),
        Err(error) => Err(error.to_string()),
    }
}

/// Calls `regex::Regex::is_match` of the compiled pattern on `text`. A
/// pattern is made by `compile` alone, so what it holds is compiled from its
/// source, and the answer depends on that source and on the text alone.
#[verifier::external_body]
fn run_match(pattern: &Pattern, text: &str) -> (b: bool)
    ensures
        b == pattern_matches(pattern@, text@),
{
    pattern.regex.is_match(text)
}

impl Pattern {
    /// The source of the pattern.
    pub closed spec fn view(&self) -> Seq<char> {
        self.source@
    }

    /// Compiles `source`. A source that the `regex` crate takes for a
    /// regular expression gives the pattern; any other gives an error with
    /// the message of that crate.
    pub fn new(source: &str) -> (r: Result<Pattern, PatternError>)
        ensures
            match r {
                Ok(pattern) => pattern@ == source@ && pattern_error(source@) is None,
                Err(error) => pattern_error(source@) == Some(error.message@),
            },
    {
        match compile(source) {
            Ok(pattern) => Ok(pattern),
            Err(message) => Err(PatternError { message }),
        }
    }

    /// The source of the pattern.
    pub fn as_str(&self) -> (s: &str)
        ensures
            s@ == self@,
    {
        self.source.as_str()
    }

    /// Tells whether the pattern matches somewhere in `text`.
    pub fn is_match(&self, text: &str) -> (b: bool)
        ensures
            b == pattern_matches(self@, text@),
    {
        run_match(self, text)
    }
}

} // verus!
