//! The calls that leave this crate: the regular-expression engine, the link
//! scanner and the Unicode tables of the standard library. Nothing in this
//! file is proved; each contract is taken from the callee's documentation.

use vstd::prelude::*;

verus! {

/// The compiled form of a pattern, as `regex::Regex::new` returns it.
#[verifier::external_type_specification]
#[verifier::external_body]
pub struct ExRegex(regex::Regex);

/// A pattern together with its compiled form. Values are made by
/// `compile_pattern` only, so `compiled` is always what the engine made of
/// `source`.
pub struct Pattern {
    source: String,
    compiled: regex::Regex,
}

impl View for Pattern {
    type V = Seq<char>;

    /// The text of the pattern.
    closed spec fn view(&self) -> Seq<char> {
        self.source@
    }
}

/// Whether `regex::Regex::new` accepts the pattern: its syntax is valid and
/// its compiled form stays within the engine's default size limit.
pub uninterp spec fn compiles(pattern: Seq<char>) -> bool;

/// What `regex::Regex::is_match` returns for a pattern that was compiled with
/// `regex::Regex::new`: whether the pattern matches anywhere in the haystack.
pub uninterp spec fn is_match(pattern: Seq<char>, haystack: Seq<char>) -> bool;

/// What `linkify::LinkFinder`, restricted to `LinkKind::Email`, finds in a
/// text: the texts of the links, in the order in which they occur.
pub uninterp spec fn email_links(text: Seq<char>) -> Seq<Seq<char>>;

/// What `str::to_lowercase` returns.
pub uninterp spec fn lowercase(s: Seq<char>) -> Seq<char>;

/// What `char::is_whitespace` returns: membership in Unicode's `White_Space`.
pub uninterp spec fn is_whitespace(c: char) -> bool;

/// `regex::Regex::new`, with the pattern kept beside its compiled form. The
/// contract names the outcome: whether the engine accepts a pattern is taken
/// to depend on the pattern alone.
#[verifier::external_body]
pub(crate) fn compile_pattern(pattern: &str) -> (r: Option<Pattern>)
    ensures
        r is Some <==> compiles(pattern@),
        r matches Some(p) ==> p@ == pattern@,
{
    match regex::Regex::new(pattern) {
        Ok(compiled) => Some(Pattern { source: pattern.to_string(), compiled }),
        Err(_) => None,
    }
}

/// `regex::Regex::is_match`. The contract names the outcome: whether a
/// compiled pattern matches is taken to depend on the text of the pattern and
/// on the haystack alone.
#[verifier::external_body]
pub(crate) fn pattern_is_match(pattern: &Pattern, haystack: &str) -> (r: bool)
    ensures
        r == is_match(pattern@, haystack@),
{
    pattern.compiled.is_match(haystack)
}

/// Runs `linkify::LinkFinder::links` over `text`, with the finder restricted
/// by `LinkFinder::kinds` to e-mail links, and copies out `Link::as_str` of
/// each link found. The contract only names the outcome.
#[verifier::external_body]
pub(crate) fn double_check_emails(text: &str) -> (r: Vec<String>)
    ensures
        r.deep_view() == email_links(text@),
{
    let mut finder = linkify::LinkFinder::new();
    finder.kinds(&[linkify::LinkKind::Email]);
    finder.links(text).map(|link| link.as_str().to_string()).collect()
}

/// `str::to_lowercase`. The contract only names the outcome.
#[verifier::external_body]
pub(crate) fn to_lowercase(s: &str) -> (r: String)
    ensures
        r@ == lowercase(s@),
{
    s.to_lowercase()
}

/// `char::is_whitespace`. The contract only names the outcome.
#[verifier::external_body]
pub(crate) fn char_is_whitespace(c: char) -> (r: bool)
    ensures
        r == is_whitespace(c),
{
    c.is_whitespace()
}

/// `String::push`: appends one character at the end.
#[verifier::external_body]
pub(crate) fn push_char(s: &mut String, c: char)
    ensures
        final(s)@ == old(s)@.push(c),
{
    s.push(c)
}

} // verus!
