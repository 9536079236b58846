//! Regular expressions, as the `regex` crate compiles and matches them.
use vstd::prelude::*;

verus! {

/// A compiled regular expression.
#[verifier::external_type_specification]
#[verifier::external_body]
pub struct ExRegex(regex::Regex);

/// What `Regex::new` makes of a pattern: the compiled expression, or the text of the
/// error that refuses it.
pub uninterp spec fn compiled(pattern: Seq<char>) -> Result<regex::Regex, Seq<char>>;

/// What `Regex::is_match` says of a text.
pub uninterp spec fn matches(re: regex::Regex, text: Seq<char>) -> bool;

/// What `{:?}` makes of a text: quoted and escaped.
pub uninterp spec fn quoted(s: Seq<char>) -> Seq<char>;

/// `Regex::new`, with the error as its `Display` text. Which patterns compile, and to
/// what, is only named here.
#[verifier::external_body]
pub(crate) fn compile(pattern: &str) -> (r: Result<regex::Regex, String>)
    ensures
        match r {
            Ok(re) => compiled(pattern@) == Ok::<regex::Regex, Seq<char>>(re),
            Err(e) => compiled(pattern@) == Err::<regex::Regex, Seq<char>>(e@),
        },
{
    regex::Regex::new(pattern).map_err(|e| e.to_string())
}

/// `Regex::is_match`: whether the expression matches anywhere in the text. Which texts
/// match is only named here.
#[verifier::external_body]
pub(crate) fn is_match(re: &regex::Regex, text: &str) -> (r: bool)
    ensures
        r == matches(*re, text@),
{
    re.is_match(text)
}

/// The `Debug` form of a `str`. How it quotes and escapes is only named here.
#[verifier::external_body]
pub(crate) fn quote(s: &str) -> (r: String)
    ensures
        r@ == quoted(s@),
{
    format!("{:?}", s)
}

} // verus!
