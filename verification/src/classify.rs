//! The two per-token classifiers that the detectors are built on.

use vstd::prelude::*;
use crate::engines::{compile_pattern, compiles, is_match, pattern_is_match, Pattern};
use crate::text::{occurrences, occurs_once};

verus! {

/// The shape of the end of an e-mail address: an `@`, a run of word
/// characters, a dot and a run of word characters that ends the token.
pub const EMAIL_PATTERN: &'static str = r"(?x)
            @
            [[:word:]]+
            \.
            [[:word:]]+$
            ";

/// The shape of a North American phone number, wherever it stands in the token.
pub const PHONE_PATTERN: &'static str = r"(?x)
            (?:\+?1)?                       # Country Code Optional
            [\s\.]?
            (([2-9]\d{2})|\(([2-9]\d{2})\)) # Area Code
            [\s\.\-]?
            ([2-9]\d{2})                    # Exchange Code
            [\s\.\-]?
            (\d{4})                         # Subscriber Number";

/// The outcome of searching `haystack` for `pattern`: a pattern that the
/// engine does not accept is found nowhere.
pub open spec fn found(pattern: Seq<char>, haystack: Seq<char>) -> bool {
    compiles(pattern) && is_match(pattern, haystack)
}

/// A token counts as an e-mail address when it holds one `@`, and no second
/// one, and its end has the shape of `EMAIL_PATTERN`.
pub open spec fn is_strict_email(token: Seq<char>) -> bool {
    occurrences(token, '@') == 1 && found(EMAIL_PATTERN@, token)
}

/// A token counts as a phone number when some part of it has the shape of
/// `PHONE_PATTERN`.
pub open spec fn is_valid_phone(token: Seq<char>) -> bool {
    found(PHONE_PATTERN@, token)
}

/// `slot` is what compiling `pattern` gives: the compiled pattern, or nothing
/// where the engine does not accept it.
pub open spec fn holds_pattern(slot: Option<Pattern>, pattern: Seq<char>) -> bool {
    match slot {
        Some(p) => compiles(pattern) && p@ == pattern,
        None => !compiles(pattern),
    }
}

/// Searches `haystack` for the pattern in `slot`.
fn search(slot: &Option<Pattern>, haystack: &str) -> (r: bool)
    ensures
        r == match *slot {
            Some(p) => is_match(p@, haystack@),
            None => false,
        },
{
    match slot {
        Some(p) => pattern_is_match(p, haystack),
        None => false,
    }
}

/// The strict e-mail predicate on a token, with the pattern compiled beforehand.
pub(crate) fn email_fits(slot: &Option<Pattern>, token: &str) -> (r: bool)
    requires
        holds_pattern(*slot, EMAIL_PATTERN@),
    ensures
        r == is_strict_email(token@),
{
    occurs_once(token, '@') && search(slot, token)
}

/// The phone predicate on a token, with the pattern compiled beforehand.
pub(crate) fn phone_fits(slot: &Option<Pattern>, token: &str) -> (r: bool)
    requires
        holds_pattern(*slot, PHONE_PATTERN@),
    ensures
        r == is_valid_phone(token@),
{
    search(slot, token)
}

/// The strict e-mail predicate. A token with a second `@` is turned down
/// whatever its shape; one without any cannot have the shape, so the pattern
/// is compiled for the others only.
pub fn strict_email(text: &str) -> (r: bool)
    ensures
        r == is_strict_email(text@),
{
    if !occurs_once(text, '@') {
        return false;
    }
    let slot = compile_pattern(EMAIL_PATTERN);
    search(&slot, text)
}

/// The phone predicate.
pub fn valid_phone(text: &str) -> (r: bool)
    ensures
        r == is_valid_phone(text@),
{
    let slot = compile_pattern(PHONE_PATTERN);
    search(&slot, text)
}

/// Both patterns in compiled form, for classifying many tokens without
/// compiling a pattern more than once.
pub struct Classifier {
    email: Option<Pattern>,
    phone: Option<Pattern>,
}

impl Classifier {
    #[verifier::type_invariant]
    spec fn ready(self) -> bool {
        holds_pattern(self.email, EMAIL_PATTERN@) && holds_pattern(self.phone, PHONE_PATTERN@)
    }

    /// What the classifier holds for the e-mail pattern.
    pub closed spec fn compiled_email(&self) -> Option<Pattern> {
        self.email
    }

    /// What the classifier holds for the phone pattern.
    pub closed spec fn compiled_phone(&self) -> Option<Pattern> {
        self.phone
    }

    /// Compiles the two patterns. The classifier holds each in compiled form,
    /// or nothing in the place of one that the engine does not accept.
    pub fn new() -> (r: Classifier)
        ensures
            holds_pattern(r.compiled_email(), EMAIL_PATTERN@),
            holds_pattern(r.compiled_phone(), PHONE_PATTERN@),
    {
        Classifier { email: compile_pattern(EMAIL_PATTERN), phone: compile_pattern(PHONE_PATTERN) }
    }

    /// The compiled e-mail pattern.
    pub(crate) fn email_slot(&self) -> (r: &Option<Pattern>)
        ensures
            *r == self.compiled_email(),
            holds_pattern(*r, EMAIL_PATTERN@),
    {
        proof {
            use_type_invariant(self);
        }
        &self.email
    }

    /// The compiled phone pattern.
    pub(crate) fn phone_slot(&self) -> (r: &Option<Pattern>)
        ensures
            *r == self.compiled_phone(),
            holds_pattern(*r, PHONE_PATTERN@),
    {
        proof {
            use_type_invariant(self);
        }
        &self.phone
    }

    /// Tells whether the engine accepted both patterns. Where it did not, the
    /// pattern that it refused matches no token.
    pub fn is_complete(&self) -> (r: bool)
        ensures
            r == (compiles(EMAIL_PATTERN@) && compiles(PHONE_PATTERN@)),
    {
        proof {
            use_type_invariant(self);
        }
        self.email.is_some() && self.phone.is_some()
    }

    /// The strict e-mail predicate.
    pub fn is_email(&self, token: &str) -> (r: bool)
        ensures
            r == is_strict_email(token@),
    {
        email_fits(self.email_slot(), token)
    }

    /// The phone predicate.
    pub fn is_phone(&self, token: &str) -> (r: bool)
        ensures
            r == is_valid_phone(token@),
    {
        phone_fits(self.phone_slot(), token)
    }
}

/// Classification of a text as a whole: the text itself where it has the
/// shape asked for.
pub trait StringExt {
    /// The characters of the text.
    spec fn text(&self) -> Seq<char>;

    /// Checks if the text is an e-mail address.
    fn is_email(&self) -> (r: Option<String>)
        ensures
            r is Some <==> is_strict_email(self.text()),
            r matches Some(s) ==> s@ == self.text(),
    ;

    /// Checks if the text is a phone number.
    fn is_phone(&self) -> (r: Option<String>)
        ensures
            r is Some <==> is_valid_phone(self.text()),
            r matches Some(s) ==> s@ == self.text(),
    ;
}

impl StringExt for &str {
    open spec fn text(&self) -> Seq<char> {
        self@
    }

    fn is_email(&self) -> (r: Option<String>) {
        if strict_email(self) {
            return Some((*self).to_owned());
        }
        None
    }

    fn is_phone(&self) -> (r: Option<String>) {
        if valid_phone(self) {
            return Some((*self).to_owned());
        }
        None
    }
}

} // verus!
