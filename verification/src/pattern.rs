//! Regular expressions, as the `regex` crate reads and applies them.

use vstd::prelude::*;

verus! {

/// Whether the text holds a match of the pattern: `None` where
/// `regex::Regex::new` refuses the pattern, else what `Regex::is_match`
/// returns for the text.
pub uninterp spec fn regex_verdict(pattern: Seq<char>, text: Seq<char>) -> Option<bool>;

/// `regex::Regex::new`, then `Regex::is_match` on the expression it built:
/// whether a match of the pattern stands anywhere in the text. `None` where
/// the pattern is invalid or too large to compile.
#[verifier::external_body]
pub(crate) fn regex_test(pattern: &str, text: &str) -> (r: Option<bool>)
    ensures
        r == regex_verdict(pattern@, text@),
{
    regex::Regex::new(pattern).ok().map(|re| re.is_match(text))
}

} // verus!
