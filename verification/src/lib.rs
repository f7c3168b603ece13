//! Extraction of probable e-mail addresses and phone numbers from free text.
//!
//! A text is split into whitespace-delimited tokens, each token is classified,
//! and what was found is returned in ascending order, each result once.
//! E-mail addresses are also looked for in the text as a whole and are
//! returned in lowercase.

pub mod classify;
pub mod engines;
pub mod extract;
pub mod normalize;
pub mod order;
pub mod text;

pub use classify::{strict_email, valid_phone, Classifier, StringExt};
pub use extract::{find_emails, find_phone_nums};
