use vstd::prelude::*;

verus! {

/// Whether the regex crate compiles `pattern` (built with the given case
/// sensitivity): a pure function of the pattern and the flag.
pub uninterp spec fn regex_valid(pattern: Seq<char>, case_insensitive: bool) -> bool;

/// Whether the regex built from `pattern` (with the given case
/// sensitivity) matches somewhere in `text`: a pure function of its three
/// arguments. A pattern that does not compile matches no text.
pub uninterp spec fn regex_accepts(
    pattern: Seq<char>,
    case_insensitive: bool,
    text: Seq<char>,
) -> bool;

/// Relies on regex's `RegexBuilder::build`: whether a pattern compiles
/// depends on the pattern and the `case_insensitive` flag alone.
#[verifier::external_body]
pub(crate) fn regex_term_valid(pattern: &str, case_insensitive: bool) -> (r: bool)
    ensures
        r == regex_valid(pattern@, case_insensitive),
{
    regex::RegexBuilder::new(pattern).case_insensitive(case_insensitive).build().is_ok()
}

/// Relies on regex's `RegexBuilder::build` and `Regex::is_match`: both are
/// deterministic, so whether the pattern matches the text depends on the
/// pattern, the case flag and the text alone.
#[verifier::external_body]
pub(crate) fn regex_term_matches(pattern: &str, case_insensitive: bool, text: &str) -> (r: bool)
    ensures
        r == regex_accepts(pattern@, case_insensitive, text@),
{
    match regex::RegexBuilder::new(pattern).case_insensitive(case_insensitive).build() {
        Ok(re) => re.is_match(text),
        Err(_) => false,
    }
}

/// A search pattern as it was last compiled: the term and the case flag it
/// was built with. The store keeps one of these only while the term
/// compiled; searches evaluate against this compiled term, not against the
/// live search term.
pub struct SearchPattern {
    pub term: String,
    pub case_insensitive: bool,
}

} // verus!
