//! Compiled regular expressions from the `regex` crate, seen through the
//! pattern text they were compiled from.
use regex::bytes::Regex;
use vstd::prelude::*;

verus! {

#[verifier::external_type_specification]
#[verifier::external_body]
pub struct ExRegex(Regex);

/// Whether `regex` accepts `pattern` (read as UTF-8, invalid bytes replaced).
pub uninterp spec fn regex_accepts(pattern: Seq<u8>) -> bool;

/// Whether the regex compiled from `pattern` matches somewhere in `text`.
pub uninterp spec fn regex_matches(pattern: Seq<u8>, text: Seq<u8>) -> bool;

/// A regular expression together with the pattern it was compiled from.
/// Only `compile_pattern` builds one.
pub struct CompiledPattern {
    source: Vec<u8>,
    re: Regex,
}

impl CompiledPattern {
    /// The pattern text this expression was compiled from.
    pub closed spec fn source(&self) -> Seq<u8> {
        self.source@
    }
}

/// Relies on `regex::bytes::Regex::new`: it compiles the pattern or returns
/// an error, depending on the pattern alone.
#[verifier::external_body]
pub(crate) fn compile_pattern(source: Vec<u8>) -> (r: Option<CompiledPattern>)
    ensures
        r is Some <==> regex_accepts(source@),
        r matches Some(c) ==> c.source() == source@,
{
    match Regex::new(&String::from_utf8_lossy(&source)) {
        Ok(re) => Some(CompiledPattern { source, re }),
        Err(_) => None,
    }
}

/// Relies on `regex::bytes::Regex::is_match`: whether the expression
/// matches somewhere in `text`.
#[verifier::external_body]
pub(crate) fn pattern_is_match(p: &CompiledPattern, text: &[u8]) -> (r: bool)
    ensures
        r == regex_matches(p.source(), text@),
{
    p.re.is_match(text)
}

} // verus!
