//! The two detectors: what a text holds that looks like an e-mail address or
//! a phone number, in ascending order and each once.

use vstd::prelude::*;
use crate::classify::{
    email_fits, holds_pattern, is_strict_email, is_valid_phone, phone_fits, Classifier,
    EMAIL_PATTERN, PHONE_PATTERN,
};
use crate::engines::{
    compile_pattern, double_check_emails, email_links, lowercase, to_lowercase, Pattern,
};
use crate::normalize::{
    lemma_ascending_no_duplicates, lemma_sorted_set_unique, sort_unique, strictly_ascending,
};
use crate::text::{occurrences, split_whitespace, tokens};

verus! {

/// `c` is a token of `text` that the phone predicate accepts.
pub open spec fn is_phone_candidate(text: Seq<char>, c: Seq<char>) -> bool {
    tokens(text).contains(c) && is_valid_phone(c)
}

/// `c` is proposed as an e-mail address of `text`: a token that the strict
/// predicate accepts, or a link that the scanner finds in the text as a whole.
pub open spec fn is_email_candidate(text: Seq<char>, c: Seq<char>) -> bool {
    (tokens(text).contains(c) && is_strict_email(c)) || email_links(text).contains(c)
}

/// `r` is what `find_phone_nums` returns for `text`: the phone candidates as
/// they stand in the text, ascending, each once.
pub open spec fn is_phone_result(text: Seq<char>, r: Seq<Seq<char>>) -> bool {
    &&& strictly_ascending(r)
    &&& forall|e: Seq<char>| #[trigger] r.contains(e) <==> is_phone_candidate(text, e)
}

/// `r` is what `find_emails` returns for `text`: the lowercase forms of the
/// e-mail candidates, ascending, each once.
pub open spec fn is_email_result(text: Seq<char>, r: Seq<Seq<char>>) -> bool {
    &&& strictly_ascending(r)
    &&& forall|e: Seq<char>| #[trigger]
        r.contains(e) <==> exists|c: Seq<char>|
            is_email_candidate(text, c) && e == #[trigger] lowercase(c)
}

/// Keeps the tokens that the phone predicate accepts.
fn keep_phones(slot: &Option<Pattern>, words: Vec<String>) -> (r: Vec<String>)
    requires
        holds_pattern(*slot, PHONE_PATTERN@),
    ensures
        forall|e: Seq<char>| #[trigger]
            r.deep_view().contains(e) <==> words.deep_view().contains(e) && is_valid_phone(e),
{
    let ghost all = words.deep_view();
    let mut kept: Vec<String> = Vec::new();
    for word in it: words
        invariant
            holds_pattern(*slot, PHONE_PATTERN@),
            it.seq() == words@,
            all == words.deep_view(),
            forall|e: Seq<char>| #[trigger]
                kept.deep_view().contains(e) <==> all.take(it.index()).contains(e)
                    && is_valid_phone(e),
    {
        let ghost k = it.index();
        let ghost before = kept.deep_view();
        assert(word@ == all[k]);
        let keep = phone_fits(slot, word.as_str());
        if keep {
            kept.push(word);
            assert(kept.deep_view() =~= before.push(all[k]));
        }
        proof {
            lemma_filter_step(before, kept.deep_view(), all, k, keep);
        }
    }
    proof {
        assert(all.take(all.len() as int) =~= all);
    }
    kept
}

/// Keeps the tokens that the strict e-mail predicate accepts.
fn keep_emails(slot: &Option<Pattern>, words: Vec<String>) -> (r: Vec<String>)
    requires
        holds_pattern(*slot, EMAIL_PATTERN@),
    ensures
        forall|e: Seq<char>| #[trigger]
            r.deep_view().contains(e) <==> words.deep_view().contains(e) && is_strict_email(e),
{
    let ghost all = words.deep_view();
    let mut kept: Vec<String> = Vec::new();
    for word in it: words
        invariant
            holds_pattern(*slot, EMAIL_PATTERN@),
            it.seq() == words@,
            all == words.deep_view(),
            forall|e: Seq<char>| #[trigger]
                kept.deep_view().contains(e) <==> all.take(it.index()).contains(e)
                    && is_strict_email(e),
    {
        let ghost k = it.index();
        let ghost before = kept.deep_view();
        assert(word@ == all[k]);
        let keep = email_fits(slot, word.as_str());
        if keep {
            kept.push(word);
            assert(kept.deep_view() =~= before.push(all[k]));
        }
        proof {
            lemma_filter_step(before, kept.deep_view(), all, k, keep);
        }
    }
    proof {
        assert(all.take(all.len() as int) =~= all);
    }
    kept
}

/// Puts every text of a list in lowercase.
fn lowercase_all(items: Vec<String>) -> (r: Vec<String>)
    ensures
        r.len() == items.len(),
        forall|i: int| 0 <= i < r.len() ==> #[trigger] r.deep_view()[i] == lowercase(items.deep_view()[i]),
{
    let ghost all = items.deep_view();
    let mut out: Vec<String> = Vec::new();
    for item in it: items
        invariant
            it.seq() == items@,
            all == items.deep_view(),
            out.len() == it.index(),
            forall|i: int| 0 <= i < out.len() ==> #[trigger] out.deep_view()[i] == lowercase(all[i]),
    {
        let ghost k = it.index();
        let ghost before = out.deep_view();
        assert(item@ == all[k]);
        out.push(to_lowercase(item.as_str()));
        assert forall|i: int| 0 <= i < out.len() implies #[trigger] out.deep_view()[i]
            == lowercase(all[i]) by {
            if i < k {
                assert(out.deep_view()[i] == before[i]);
            }
        }
    }
    out
}

/// One step of a filter: the element at `k` joins what was kept, or does not.
proof fn lemma_filter_step(
    before: Seq<Seq<char>>,
    after: Seq<Seq<char>>,
    all: Seq<Seq<char>>,
    k: int,
    keep: bool,
)
    requires
        0 <= k < all.len(),
        after == if keep { before.push(all[k]) } else { before },
    ensures
        forall|e: Seq<char>| #[trigger]
            after.contains(e) <==> before.contains(e) || (keep && e == all[k]),
        forall|e: Seq<char>| #[trigger]
            all.take(k + 1).contains(e) <==> all.take(k).contains(e) || e == all[k],
{
    assert forall|e: Seq<char>| #[trigger]
        after.contains(e) <==> before.contains(e) || (keep && e == all[k]) by {
        if keep {
            if before.contains(e) {
                let i = choose|i: int| 0 <= i < before.len() && before[i] == e;
                assert(after[i] == e);
            }
            if e == all[k] {
                assert(after[before.len() as int] == e);
            }
            if after.contains(e) {
                let i = choose|i: int| 0 <= i < after.len() && after[i] == e;
                if i < before.len() {
                    assert(before[i] == e);
                }
            }
        }
    }
    assert forall|e: Seq<char>| #[trigger]
        all.take(k + 1).contains(e) <==> all.take(k).contains(e) || e == all[k] by {
        let s = all.take(k);
        let t = all.take(k + 1);
        if s.contains(e) {
            let i = choose|i: int| 0 <= i < s.len() && s[i] == e;
            assert(t[i] == e);
        }
        if e == all[k] {
            assert(t[k] == e);
        }
        if t.contains(e) {
            let i = choose|i: int| 0 <= i < t.len() && t[i] == e;
            if i < k {
                assert(s[i] == e);
            }
        }
    }
}

/// The phone detector, with the pattern compiled beforehand.
fn phones_in(slot: &Option<Pattern>, source: &str) -> (r: Vec<String>)
    requires
        holds_pattern(*slot, PHONE_PATTERN@),
    ensures
        is_phone_result(source@, r.deep_view()),
{
    let phone_nums = keep_phones(slot, split_whitespace(source));
    sort_unique(phone_nums)
}

/// Goes through every token of `source` and returns those that look like a
/// phone number, as they stand, in ascending order and each once.
pub fn find_phone_nums(source: &str) -> (r: Vec<String>)
    ensures
        is_phone_result(source@, r.deep_view()),
{
    let slot = compile_pattern(PHONE_PATTERN);
    phones_in(&slot, source)
}

/// The normalizer of the e-mail detector. It takes the tokens that the strict
/// predicate accepted and the links that the scanner found, and returns their
/// lowercase forms in ascending order, each once.
pub fn merge_emails(strict: Vec<String>, links: Vec<String>) -> (r: Vec<String>)
    ensures
        strictly_ascending(r.deep_view()),
        forall|e: Seq<char>| #[trigger]
            r.deep_view().contains(e) <==> exists|c: Seq<char>|
                (strict.deep_view().contains(c) || links.deep_view().contains(c)) && e
                    == #[trigger] lowercase(c),
{
    let ghost sv = strict.deep_view();
    let ghost lv = links.deep_view();
    let mut emails = strict;
    let mut linkify_emails = sort_unique(links);
    let ghost uv = linkify_emails.deep_view();
    emails.append(&mut linkify_emails);
    let ghost merged = emails.deep_view();
    proof {
        assert(merged =~= sv + uv);
    }
    let lowered = lowercase_all(emails);
    let r = sort_unique(lowered);
    proof {
        let low = lowered.deep_view();
        assert forall|e: Seq<char>| #[trigger]
            r.deep_view().contains(e) <==> exists|c: Seq<char>|
                (sv.contains(c) || lv.contains(c)) && e == #[trigger] lowercase(c) by {
            if r.deep_view().contains(e) {
                assert(low.contains(e));
                let i = choose|i: int| 0 <= i < low.len() && low[i] == e;
                let c = merged[i];
                assert(e == lowercase(c));
                if i < sv.len() {
                    assert(sv[i] == c);
                    assert(sv.contains(c));
                } else {
                    assert(uv[i - sv.len()] == c);
                    assert(uv.contains(c));
                    assert(lv.contains(c));
                }
            }
            if exists|c: Seq<char>| (sv.contains(c) || lv.contains(c)) && e == #[trigger] lowercase(c) {
                let c = choose|c: Seq<char>|
                    (sv.contains(c) || lv.contains(c)) && e == #[trigger] lowercase(c);
                if sv.contains(c) {
                    let i = choose|i: int| 0 <= i < sv.len() && sv[i] == c;
                    assert(merged[i] == c);
                    assert(low[i] == e);
                } else {
                    assert(uv.contains(c));
                    let i = choose|i: int| 0 <= i < uv.len() && uv[i] == c;
                    assert(merged[sv.len() + i] == c);
                    assert(low[sv.len() + i] == e);
                }
                assert(low.contains(e));
            }
        }
    }
    r
}

/// The e-mail detector, with the pattern compiled beforehand.
fn emails_in(slot: &Option<Pattern>, source: &str) -> (r: Vec<String>)
    requires
        holds_pattern(*slot, EMAIL_PATTERN@),
    ensures
        is_email_result(source@, r.deep_view()),
{
    let emails = keep_emails(slot, split_whitespace(source));
    let linkify_emails = double_check_emails(source);
    let ghost sv = emails.deep_view();
    let ghost lv = linkify_emails.deep_view();
    let r = merge_emails(emails, linkify_emails);
    proof {
        assert forall|e: Seq<char>| #[trigger]
            r.deep_view().contains(e) <==> exists|c: Seq<char>|
                is_email_candidate(source@, c) && e == #[trigger] lowercase(c) by {
            if r.deep_view().contains(e) {
                let c = choose|c: Seq<char>|
                    (sv.contains(c) || lv.contains(c)) && e == #[trigger] lowercase(c);
                assert(is_email_candidate(source@, c));
            }
            if exists|c: Seq<char>| is_email_candidate(source@, c) && e == #[trigger] lowercase(c) {
                let c = choose|c: Seq<char>|
                    is_email_candidate(source@, c) && e == #[trigger] lowercase(c);
                assert(sv.contains(c) || lv.contains(c));
            }
        }
    }
    r
}

/// Returns what `source` holds that looks like an e-mail address: the tokens
/// that the strict predicate accepts and, as a safety net, the links that the
/// scanner finds in the text as a whole; all in lowercase, in ascending order
/// and each once.
pub fn find_emails(source: &str) -> (r: Vec<String>)
    ensures
        is_email_result(source@, r.deep_view()),
{
    let slot = compile_pattern(EMAIL_PATTERN);
    emails_in(&slot, source)
}

impl Classifier {
    /// What `find_emails` returns, without compiling the pattern again.
    pub fn find_emails(&self, source: &str) -> (r: Vec<String>)
        ensures
            is_email_result(source@, r.deep_view()),
    {
        emails_in(self.email_slot(), source)
    }

    /// What `find_phone_nums` returns, without compiling the pattern again.
    pub fn find_phone_nums(&self, source: &str) -> (r: Vec<String>)
        ensures
            is_phone_result(source@, r.deep_view()),
    {
        phones_in(self.phone_slot(), source)
    }
}

/// `e` is the lowercase form of some text.
pub open spec fn is_lowercased(e: Seq<char>) -> bool {
    exists|c: Seq<char>| e == #[trigger] lowercase(c)
}

/// A text in which the strict predicate accepts no token, and in which the
/// scanner finds no link, holds no e-mail address.
pub proof fn lemma_no_candidate_no_email(text: Seq<char>, r: Seq<Seq<char>>)
    requires
        is_email_result(text, r),
        forall|t: Seq<char>| tokens(text).contains(t) ==> !is_strict_email(t),
        email_links(text).len() == 0,
    ensures
        r.len() == 0,
{
    if r.len() > 0 {
        assert(r.contains(r[0]));
    }
}

/// In particular, a text without `@` in any token, in which the scanner finds
/// no link, holds no e-mail address.
pub proof fn lemma_no_at_sign_no_email(text: Seq<char>, r: Seq<Seq<char>>)
    requires
        is_email_result(text, r),
        forall|t: Seq<char>| tokens(text).contains(t) ==> occurrences(t, '@') == 0,
        email_links(text).len() == 0,
    ensures
        r.len() == 0,
{
    lemma_no_candidate_no_email(text, r);
}

/// Every e-mail address returned is the lowercase form of a candidate.
pub proof fn lemma_emails_lowercased(text: Seq<char>, r: Seq<Seq<char>>, i: int)
    requires
        is_email_result(text, r),
        0 <= i < r.len(),
    ensures
        is_lowercased(r[i]),
        exists|c: Seq<char>| is_email_candidate(text, c) && r[i] == #[trigger] lowercase(c),
{
    assert(r.contains(r[i]));
}

/// No e-mail address is returned twice.
pub proof fn lemma_emails_distinct(text: Seq<char>, r: Seq<Seq<char>>)
    requires
        is_email_result(text, r),
    ensures
        r.no_duplicates(),
{
    lemma_ascending_no_duplicates(r);
}

/// No phone number is returned twice.
pub proof fn lemma_phones_distinct(text: Seq<char>, r: Seq<Seq<char>>)
    requires
        is_phone_result(text, r),
    ensures
        r.no_duplicates(),
{
    lemma_ascending_no_duplicates(r);
}

/// Candidates that differ in case only are returned as one address: their
/// common lowercase form stands at exactly one place of the result.
pub proof fn lemma_case_variants_merged(
    text: Seq<char>,
    r: Seq<Seq<char>>,
    c1: Seq<char>,
    c2: Seq<char>,
) -> (i: int)
    requires
        is_email_result(text, r),
        is_email_candidate(text, c1),
        is_email_candidate(text, c2),
        lowercase(c1) == lowercase(c2),
    ensures
        0 <= i < r.len(),
        r[i] == lowercase(c1),
        forall|j: int| 0 <= j < r.len() && r[j] == lowercase(c2) ==> j == i,
{
    let e = lowercase(c1);
    assert(r.contains(e));
    let i = choose|i: int| 0 <= i < r.len() && r[i] == e;
    lemma_ascending_no_duplicates(r);
    i
}

/// The contract of `find_emails` leaves no choice: two results for one text
/// are equal, so a second run returns what the first one did.
pub proof fn lemma_email_result_unique(text: Seq<char>, r1: Seq<Seq<char>>, r2: Seq<Seq<char>>)
    requires
        is_email_result(text, r1),
        is_email_result(text, r2),
    ensures
        r1 == r2,
{
    assert forall|x: Seq<char>| #[trigger] r1.contains(x) <==> r2.contains(x) by {}
    lemma_sorted_set_unique(r1, r2);
}

/// The contract of `find_phone_nums` leaves no choice: two results for one
/// text are equal, so a second run returns what the first one did.
pub proof fn lemma_phone_result_unique(text: Seq<char>, r1: Seq<Seq<char>>, r2: Seq<Seq<char>>)
    requires
        is_phone_result(text, r1),
        is_phone_result(text, r2),
    ensures
        r1 == r2,
{
    assert forall|x: Seq<char>| #[trigger] r1.contains(x) <==> r2.contains(x) by {}
    lemma_sorted_set_unique(r1, r2);
}

} // verus!
