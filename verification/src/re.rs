//! Compiled regular expressions for rule predicates and replacements.
//!
//! A pattern is compiled once, when a rule is built, so that a malformed
//! pattern fails at load time, before any comparison starts. What a
//! pattern accepts or substitutes is left unstated: it is a function of
//! the pattern and the text alone, and the names below stand for it.

use vstd::prelude::*;

verus! {

#[verifier::external_type_specification]
#[verifier::external_body]
pub struct ExRegex(regex::Regex);

#[verifier::external_type_specification]
#[verifier::external_body]
pub struct ExRegexError(regex::Error);

/// Whether a pattern text is a well-formed regular expression.
pub uninterp spec fn regex_valid(pattern: Seq<char>) -> bool;

/// Whether a pattern matches somewhere inside a text.
pub uninterp spec fn regex_match(pattern: Seq<char>, text: Seq<char>) -> bool;

/// The text after every non-overlapping match of a pattern is replaced by
/// the replacement text, with its `$` references expanded.
pub uninterp spec fn regex_replace(pattern: Seq<char>, text: Seq<char>, rep: Seq<char>) -> Seq<
    char,
>;

/// A regular expression together with the pattern text it was compiled
/// from.
pub struct CompiledRegex {
    pattern: String,
    re: regex::Regex,
}

impl CompiledRegex {
    /// The pattern this expression was compiled from.
    pub closed spec fn pattern_view(&self) -> Seq<char> {
        self.pattern@
    }

    /// Relies on `regex::Regex::new`: whether a pattern compiles is a
    /// function of the pattern text alone, and the compiled expression is
    /// the one the pattern denotes.
    #[verifier::external_body]
    fn new_raw(pattern: &str) -> (r: Result<CompiledRegex, regex::Error>)
        ensures
            r is Ok <==> regex_valid(pattern@),
            r is Ok ==> r->Ok_0.pattern_view() == pattern@,
    {
        match regex::Regex::new(pattern) {
            Ok(re) => Ok(CompiledRegex { pattern: pattern.to_string(), re }),
            Err(e) => Err(e),
        }
    }

    /// Compiles a pattern, reporting a malformed one as an error value.
    pub fn compile(pattern: &str) -> (r: Result<CompiledRegex, crate::error::DiffError>)
        ensures
            r is Ok <==> regex_valid(pattern@),
            r is Ok ==> r->Ok_0.pattern_view() == pattern@,
            r is Err ==> r->Err_0@ == crate::error::ErrorV::PatternSyntax(pattern@),
    {
        match Self::new_raw(pattern) {
            Ok(c) => Ok(c),
            Err(_) => Err(crate::error::DiffError::PatternSyntax(pattern.to_owned())),
        }
    }

    /// Relies on `regex::Regex::is_match`: the answer is a function of the
    /// pattern and the text alone.
    #[verifier::external_body]
    pub(crate) fn is_match(&self, text: &str) -> (r: bool)
        ensures
            r == regex_match(self.pattern_view(), text@),
    {
        self.re.is_match(text)
    }

    /// Relies on `regex::Regex::replace_all` with a text replacement: the
    /// result is a function of pattern, text and replacement alone.
    #[verifier::external_body]
    pub(crate) fn replace_all(&self, text: &str, rep: &str) -> (r: String)
        ensures
            r@ == regex_replace(self.pattern_view(), text@, rep@),
    {
        self.re.replace_all(text, rep).into_owned()
    }
}

} // verus!
