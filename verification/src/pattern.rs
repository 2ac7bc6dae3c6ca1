//! Regular expressions (the `regex` crate) as the matching engine sees them.
//!
//! A `CompiledPattern` is only ever made by `compile_pattern`, from the
//! pattern text it keeps beside the compiled automaton; the contracts of the
//! match and replace wrappers speak of that text.

use vstd::prelude::*;

verus! {

#[verifier::external_type_specification]
#[verifier::external_body]
pub struct ExRegex(regex::Regex);

/// `regex::Regex::new` accepts the pattern.
pub uninterp spec fn regex_compiles(pattern: Seq<char>) -> bool;

/// What `regex::Regex::is_match` answers for a regex built from `pattern`.
pub uninterp spec fn regex_is_match(pattern: Seq<char>, haystack: Seq<char>) -> bool;

/// What `regex::Regex::replace_all` yields for a regex built from `pattern`,
/// with `$name` group references in `replacement` expanded.
pub uninterp spec fn regex_replaced(pattern: Seq<char>, haystack: Seq<char>, replacement: Seq<char>) -> Seq<char>;

/// A compiled regular expression together with the text it was compiled from.
pub struct CompiledPattern {
    source: String,
    regex: regex::Regex,
}

impl CompiledPattern {
    /// The pattern text this regex was compiled from.
    pub closed spec fn source(&self) -> Seq<char> {
        self.source@
    }
}

/// `regex::Regex::new`: `Some` exactly when the pattern compiles (named
/// `regex_compiles`); the result remembers the pattern text.
#[verifier::external_body]
pub(crate) fn compile_pattern(pattern: &str) -> (r: Option<CompiledPattern>)
    ensures
        r is Some <==> regex_compiles(pattern@),
        r matches Some(c) ==> c.source() == pattern@,
{
    match regex::Regex::new(pattern) {
        Ok(regex) => Some(CompiledPattern { source: pattern.to_string(), regex }),
        Err(_) => None,
    }
}

/// `regex::Regex::is_match`; its answer is named `regex_is_match`.
#[verifier::external_body]
pub(crate) fn pattern_is_match(p: &CompiledPattern, haystack: &str) -> (b: bool)
    ensures
        b == regex_is_match(p.source(), haystack@),
{
    p.regex.is_match(haystack)
}

/// `regex::Regex::replace_all`; its result is named `regex_replaced`.
#[verifier::external_body]
pub(crate) fn pattern_replace_all(p: &CompiledPattern, haystack: &str, replacement: &str) -> (r: String)
    ensures
        r@ == regex_replaced(p.source(), haystack@, replacement@),
{
    p.regex.replace_all(haystack, replacement).into_owned()
}

} // verus!
