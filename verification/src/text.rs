//! Texts as sequences of characters: counting a character, and splitting a
//! text into its whitespace-delimited tokens.

use vstd::prelude::*;
use crate::engines::{char_is_whitespace, is_whitespace, push_char};

verus! {

/// Number of positions of `s` that hold `c`.
pub open spec fn occurrences(s: Seq<char>, c: char) -> nat
    decreases s.len(),
{
    if s.len() == 0 {
        0
    } else {
        occurrences(s.drop_last(), c) + if s.last() == c { 1nat } else { 0nat }
    }
}

/// Counting never goes down when the text grows at its end.
pub proof fn lemma_occurrences_prefix(s: Seq<char>, c: char, k: int)
    requires
        0 <= k <= s.len(),
    ensures
        occurrences(s.take(k), c) <= occurrences(s, c),
    decreases s.len() - k,
{
    if k == s.len() {
        assert(s.take(k) =~= s);
    } else {
        lemma_occurrences_prefix(s.drop_last(), c, k);
        assert(s.drop_last().take(k) =~= s.take(k));
    }
}

/// Tells whether `c` occurs exactly once in `text`.
pub fn occurs_once(text: &str, c: char) -> (r: bool)
    ensures
        r == (occurrences(text@, c) == 1),
{
    let mut seen: bool = false;
    for x in it: text.chars()
        invariant
            it.seq() == text@,
            occurrences(text@.take(it.index()), c) == if seen { 1nat } else { 0nat },
    {
        proof {
            let k = it.index();
            assert(text@.take(k + 1).drop_last() =~= text@.take(k));
            lemma_occurrences_prefix(text@, c, k + 1);
        }
        if x == c {
            if seen {
                return false;
            }
            seen = true;
        }
    }
    proof {
        assert(text@.take(text@.len() as int) =~= text@);
    }
    seen
}

/// Length of the run of characters other than whitespace that `s` starts with.
pub open spec fn run_len(s: Seq<char>) -> int
    decreases s.len(),
{
    if s.len() == 0 || is_whitespace(s[0]) {
        0
    } else {
        1 + run_len(s.skip(1))
    }
}

/// The tokens of a text: its maximal runs of characters other than
/// whitespace, from left to right.
pub open spec fn tokens(s: Seq<char>) -> Seq<Seq<char>>
    decreases s.len(),
    via tokens_decreases
{
    if s.len() == 0 {
        Seq::empty()
    } else if is_whitespace(s[0]) {
        tokens(s.skip(1))
    } else {
        seq![s.take(run_len(s))] + tokens(s.skip(run_len(s)))
    }
}

#[via_fn]
proof fn tokens_decreases(s: Seq<char>) {
    if s.len() != 0 && !is_whitespace(s[0]) {
        lemma_run_len_is_maximal(s);
    }
}

/// No character of `s` is whitespace.
pub open spec fn no_whitespace(s: Seq<char>) -> bool {
    forall|i: int| 0 <= i < s.len() ==> !is_whitespace(#[trigger] s[i])
}

/// A run without whitespace that is followed by whitespace, or by nothing,
/// is exactly what the text starts with.
pub proof fn lemma_run_len_of_word(word: Seq<char>, rest: Seq<char>)
    requires
        no_whitespace(word),
        rest.len() == 0 || is_whitespace(rest[0]),
    ensures
        run_len(word + rest) == word.len(),
    decreases word.len(),
{
    let s = word + rest;
    if word.len() == 0 {
        assert(s =~= rest);
    } else {
        assert(s[0] == word[0]);
        assert(s.skip(1) =~= word.skip(1) + rest);
        assert(no_whitespace(word.skip(1))) by {
            assert forall|i: int| 0 <= i < word.skip(1).len() implies !is_whitespace(
                #[trigger] word.skip(1)[i],
            ) by {
                assert(word.skip(1)[i] == word[i + 1]);
            }
        }
        lemma_run_len_of_word(word.skip(1), rest);
    }
}

/// The leading run holds no whitespace and cannot be extended.
pub proof fn lemma_run_len_is_maximal(s: Seq<char>)
    ensures
        0 <= run_len(s) <= s.len(),
        s.len() > 0 && !is_whitespace(s[0]) ==> run_len(s) >= 1,
        forall|i: int| 0 <= i < run_len(s) ==> !is_whitespace(#[trigger] s[i]),
        run_len(s) < s.len() ==> is_whitespace(s[run_len(s)]),
    decreases s.len(),
{
    if s.len() != 0 && !is_whitespace(s[0]) {
        let t = s.skip(1);
        lemma_run_len_is_maximal(t);
        assert forall|i: int| 0 <= i < run_len(s) implies !is_whitespace(#[trigger] s[i]) by {
            if i > 0 {
                assert(s[i] == t[i - 1]);
            }
        }
        if run_len(s) < s.len() {
            assert(s[run_len(s)] == t[run_len(t)]);
        }
    }
}

/// The part of `s` from `a` up to `b` is a maximal run of characters other
/// than whitespace: it is not empty, holds no whitespace, and is bounded on
/// each side by whitespace or by the end of the text.
pub open spec fn is_token_at(s: Seq<char>, a: int, b: int) -> bool {
    &&& 0 <= a < b <= s.len()
    &&& forall|i: int| a <= i < b ==> !is_whitespace(#[trigger] s[i])
    &&& (a == 0 || is_whitespace(s[a - 1]))
    &&& (b == s.len() || is_whitespace(s[b]))
}

/// Every token is a maximal run of characters other than whitespace.
pub proof fn lemma_token_is_maximal_run(s: Seq<char>, t: Seq<char>) -> (place: (int, int))
    requires
        tokens(s).contains(t),
    ensures
        is_token_at(s, place.0, place.1),
        t == s.subrange(place.0, place.1),
    decreases s.len(),
{
    let k = choose|k: int| 0 <= k < tokens(s).len() && tokens(s)[k] == t;
    if is_whitespace(s[0]) {
        let rest = s.skip(1);
        assert(tokens(rest).contains(t));
        let (a, b) = lemma_token_is_maximal_run(rest, t);
        assert forall|i: int| a + 1 <= i < b + 1 implies !is_whitespace(#[trigger] s[i]) by {
            assert(s[i] == rest[i - 1]);
        }
        if a > 0 {
            assert(s[a] == rest[a - 1]);
        }
        if b < rest.len() {
            assert(s[b + 1] == rest[b]);
        }
        assert(s.subrange(a + 1, b + 1) =~= rest.subrange(a, b));
        (a + 1, b + 1)
    } else {
        let n = run_len(s);
        lemma_run_len_is_maximal(s);
        let rest = s.skip(n);
        if k == 0 {
            assert(s.take(n) =~= s.subrange(0, n));
            (0, n)
        } else {
            assert(tokens(rest)[k - 1] == t);
            assert(tokens(rest).contains(t));
            let (a, b) = lemma_token_is_maximal_run(rest, t);
            assert(rest[a] == s[a + n]);
            assert(a > 0) by {
                if a == 0 {
                    assert(!is_whitespace(rest[0]));
                }
            }
            assert forall|i: int| a + n <= i < b + n implies !is_whitespace(#[trigger] s[i]) by {
                assert(s[i] == rest[i - n]);
            }
            assert(s[a + n - 1] == rest[a - 1]);
            if b < rest.len() {
                assert(s[b + n] == rest[b]);
            }
            assert(s.subrange(a + n, b + n) =~= rest.subrange(a, b));
            (a + n, b + n)
        }
    }
}

/// Every maximal run of characters other than whitespace is a token.
pub proof fn lemma_maximal_run_is_token(s: Seq<char>, a: int, b: int)
    requires
        is_token_at(s, a, b),
    ensures
        tokens(s).contains(s.subrange(a, b)),
    decreases s.len(),
{
    let t = s.subrange(a, b);
    if is_whitespace(s[0]) {
        let rest = s.skip(1);
        assert(a > 0);
        assert forall|i: int| a - 1 <= i < b - 1 implies !is_whitespace(#[trigger] rest[i]) by {
            assert(rest[i] == s[i + 1]);
        }
        if a - 1 > 0 {
            assert(rest[a - 2] == s[a - 1]);
        }
        if b - 1 < rest.len() {
            assert(rest[b - 1] == s[b]);
        }
        lemma_maximal_run_is_token(rest, a - 1, b - 1);
        assert(rest.subrange(a - 1, b - 1) =~= t);
    } else {
        let n = run_len(s);
        lemma_run_len_is_maximal(s);
        let rest = s.skip(n);
        if a == 0 {
            assert(n == b) by {
                if n < b {
                    assert(!is_whitespace(s[n]));
                } else if b < n {
                    assert(!is_whitespace(s[b]));
                }
            }
            assert(s.take(n) =~= t);
            assert(tokens(s)[0] == t);
        } else {
            assert(a > n) by {
                if a - 1 < n {
                    assert(!is_whitespace(s[a - 1]));
                }
            }
            assert forall|i: int| a - n <= i < b - n implies !is_whitespace(#[trigger] rest[i]) by {
                assert(rest[i] == s[i + n]);
            }
            assert(rest[a - n - 1] == s[a - 1]);
            if b - n < rest.len() {
                assert(rest[b - n] == s[b]);
            }
            lemma_maximal_run_is_token(rest, a - n, b - n);
            assert(rest.subrange(a - n, b - n) =~= t);
            let j = choose|j: int| 0 <= j < tokens(rest).len() && tokens(rest)[j] == t;
            assert(tokens(s)[j + 1] == t);
        }
    }
}

/// Splits a text into its tokens.
pub fn split_whitespace(text: &str) -> (r: Vec<String>)
    ensures
        r.deep_view() == tokens(text@),
{
    let mut done: Vec<String> = Vec::new();
    let mut word = String::new();
    assert(done.deep_view() =~= Seq::<Seq<char>>::empty());
    assert(word@ + text@.skip(0) =~= text@);
    for c in it: text.chars()
        invariant
            it.seq() == text@,
            no_whitespace(word@),
            done.deep_view() + tokens(word@ + text@.skip(it.index())) == tokens(text@),
    {
        let ghost k = it.index();
        let ghost rest = text@.skip(k);
        let ghost before = done.deep_view();
        assert(rest.len() > 0 && rest[0] == c);
        if char_is_whitespace(c) {
            if !word.as_str().is_empty() {
                let ghost w = word@;
                proof {
                    lemma_run_len_of_word(word@, rest);
                    let s = word@ + rest;
                    assert(s[0] == word@[0]);
                    assert(s.take(word@.len() as int) =~= word@);
                    assert(s.skip(word@.len() as int) =~= rest);
                    assert(tokens(rest) == tokens(rest.skip(1)));
                    assert(rest.skip(1) =~= text@.skip(k + 1));
                }
                done.push(word);
                word = String::new();
                proof {
                    assert(done.deep_view() =~= before + seq![w]);
                    assert(word@ + text@.skip(k + 1) =~= text@.skip(k + 1));
                }
            } else {
                proof {
                    assert(word@ + rest =~= rest);
                    assert(rest.skip(1) =~= text@.skip(k + 1));
                    assert(word@ + text@.skip(k + 1) =~= text@.skip(k + 1));
                }
            }
        } else {
            let ghost old_word = word@;
            push_char(&mut word, c);
            proof {
                assert(word@ + text@.skip(k + 1) =~= old_word + rest);
            }
        }
    }
    proof {
        let rest = text@.skip(text@.len() as int);
        assert(rest =~= Seq::<char>::empty());
        assert(word@ + rest =~= word@);
        assert(done.deep_view() + tokens(word@) == tokens(text@));
    }
    if !word.as_str().is_empty() {
        let ghost before = done.deep_view();
        let ghost w = word@;
        proof {
            lemma_run_len_of_word(w, Seq::<char>::empty());
            assert(w + Seq::<char>::empty() =~= w);
            assert(w.take(w.len() as int) =~= w);
            assert(w.skip(w.len() as int) =~= Seq::<char>::empty());
            assert(!is_whitespace(w[0]));
            assert(tokens(w.skip(w.len() as int)) =~= Seq::<Seq<char>>::empty());
            assert(tokens(w) =~= seq![w]);
        }
        done.push(word);
        assert(done.deep_view() =~= before + seq![w]);
    } else {
        assert(tokens(word@) =~= Seq::<Seq<char>>::empty());
        assert(done.deep_view() + Seq::<Seq<char>>::empty() =~= done.deep_view());
    }
    done
}

} // verus!
