//! Results are returned in ascending order and without duplicates.

use vstd::prelude::*;
use crate::order::{
    compare, lemma_precedes_asymmetric, lemma_precedes_irreflexive, lemma_precedes_transitive,
    precedes, Rank,
};

verus! {

/// Each element stands strictly before every later one.
pub open spec fn strictly_ascending(s: Seq<Seq<char>>) -> bool {
    forall|i: int, j: int| 0 <= i < j < s.len() ==> precedes(#[trigger] s[i], #[trigger] s[j])
}

/// `r` holds exactly the texts that `a` or `b` holds.
pub open spec fn members_of_both(r: Seq<Seq<char>>, a: Seq<Seq<char>>, b: Seq<Seq<char>>) -> bool {
    forall|x: Seq<char>| #[trigger] r.contains(x) <==> a.contains(x) || b.contains(x)
}

/// `r` holds exactly the texts that `s` holds.
pub open spec fn same_members(r: Seq<Seq<char>>, s: Seq<Seq<char>>) -> bool {
    forall|x: Seq<char>| #[trigger] r.contains(x) <==> s.contains(x)
}

/// `r` is `s` put in ascending order, each text kept once.
pub open spec fn is_sorted_set_of(r: Seq<Seq<char>>, s: Seq<Seq<char>>) -> bool {
    strictly_ascending(r) && same_members(r, s)
}

/// What a list holds once a text is added at its end.
proof fn lemma_push_contains(s: Seq<Seq<char>>, v: Seq<char>, x: Seq<char>)
    ensures
        s.push(v).contains(x) <==> s.contains(x) || x == v,
{
    let t = s.push(v);
    if s.contains(x) {
        let i = choose|i: int| 0 <= i < s.len() && s[i] == x;
        assert(t[i] == x);
    }
    if x == v {
        assert(t[s.len() as int] == x);
    }
    if t.contains(x) {
        let i = choose|i: int| 0 <= i < t.len() && t[i] == x;
        if i < s.len() {
            assert(s[i] == x);
        }
    }
}

/// What the end of a list holds once it starts one place earlier.
proof fn lemma_skip_back_contains(s: Seq<Seq<char>>, k: int, x: Seq<char>)
    requires
        0 < k <= s.len(),
    ensures
        s.skip(k - 1).contains(x) <==> s.skip(k).contains(x) || x == s[k - 1],
{
    assert(s.skip(k - 1) =~= seq![s[k - 1]] + s.skip(k));
    lemma_concat_contains(seq![s[k - 1]], s.skip(k), x);
    assert(seq![s[k - 1]][0] == s[k - 1]);
}

/// What two lists hold when put end to end.
proof fn lemma_concat_contains(a: Seq<Seq<char>>, b: Seq<Seq<char>>, x: Seq<char>)
    ensures
        (a + b).contains(x) <==> a.contains(x) || b.contains(x),
{
    let t = a + b;
    if a.contains(x) {
        let i = choose|i: int| 0 <= i < a.len() && a[i] == x;
        assert(t[i] == x);
    }
    if b.contains(x) {
        let i = choose|i: int| 0 <= i < b.len() && b[i] == x;
        assert(t[a.len() + i] == x);
    }
    if t.contains(x) {
        let i = choose|i: int| 0 <= i < t.len() && t[i] == x;
        if i < a.len() {
            assert(a[i] == x);
        } else {
            assert(b[i - a.len()] == x);
        }
    }
}

/// Each element stands strictly after every later one.
pub open spec fn strictly_descending(s: Seq<Seq<char>>) -> bool {
    forall|i: int, j: int| 0 <= i < j < s.len() ==> precedes(#[trigger] s[j], #[trigger] s[i])
}

/// Turns a list round.
fn reversed(v: Vec<String>) -> (r: Vec<String>)
    ensures
        r.deep_view() == v.deep_view().reverse(),
{
    let ghost whole = v.deep_view();
    let mut v = v;
    let mut out: Vec<String> = Vec::new();
    while v.len() > 0
        invariant
            v.len() <= whole.len(),
            v.deep_view() == whole.take(v.len() as int),
            out.len() == whole.len() - v.len(),
            forall|n: int| 0 <= n < out.len() ==> #[trigger] out.deep_view()[n] == whole[whole.len() - 1 - n],
        decreases v.len(),
    {
        let ghost before = v.deep_view();
        let ghost n = v.len() as int;
        let ghost o = out.deep_view();
        let last = v.pop();
        assert(v.deep_view() =~= whole.take(n - 1)) by {
            assert forall|m: int| 0 <= m < n - 1 implies v.deep_view()[m] == whole[m] by {
                assert(before[m] == whole.take(n)[m]);
            }
        }
        match last {
            Some(s) => {
                assert(s@ == whole[n - 1]) by {
                    assert(before[n - 1] == whole.take(n)[n - 1]);
                }
                out.push(s);
                assert forall|m: int| 0 <= m < out.len() implies #[trigger] out.deep_view()[m]
                    == whole[whole.len() - 1 - m] by {
                    if m < o.len() {
                        assert(out.deep_view()[m] == o[m]);
                    }
                }
            },
            None => {},
        }
    }
    assert(out.deep_view() =~= whole.reverse());
    out
}

/// Merges two ascending lists into one, keeping once a text that both hold.
fn merge(a: Vec<String>, b: Vec<String>) -> (r: Vec<String>)
    requires
        strictly_ascending(a.deep_view()),
        strictly_ascending(b.deep_view()),
    ensures
        strictly_ascending(r.deep_view()),
        members_of_both(r.deep_view(), a.deep_view(), b.deep_view()),
{
    let ghost av = a.deep_view();
    let ghost bv = b.deep_view();
    let mut left = a;
    let mut right = b;
    let mut stack: Vec<String> = Vec::new();
    let mut x = left.pop();
    let mut y = right.pop();
    let ghost mut i: int = av.len() as int;
    let ghost mut j: int = bv.len() as int;
    proof {
        assert(av.skip(i) =~= Seq::<Seq<char>>::empty());
        assert(bv.skip(j) =~= Seq::<Seq<char>>::empty());
        assert(stack.deep_view() =~= Seq::<Seq<char>>::empty());
    }
    loop
        invariant
            av == a.deep_view(),
            bv == b.deep_view(),
            strictly_ascending(av),
            strictly_ascending(bv),
            0 <= i <= av.len(),
            0 <= j <= bv.len(),
            i > 0 ==> x is Some && x->0@ == av[i - 1] && left.deep_view() =~= av.take(i - 1),
            i == 0 ==> x is None && left.len() == 0,
            j > 0 ==> y is Some && y->0@ == bv[j - 1] && right.deep_view() =~= bv.take(j - 1),
            j == 0 ==> y is None && right.len() == 0,
            strictly_descending(stack.deep_view()),
            stack.len() > 0 && i > 0 ==> precedes(av[i - 1], stack.deep_view().last()),
            stack.len() > 0 && j > 0 ==> precedes(bv[j - 1], stack.deep_view().last()),
            members_of_both(stack.deep_view(), av.skip(i), bv.skip(j)),
        decreases i + j,
    {
        let ghost before = stack.deep_view();
        let ghost a_before = left.deep_view();
        let ghost b_before = right.deep_view();
        let (from_left, from_right) = match (&x, &y) {
            (None, None) => {
                proof {
                    assert(av.skip(0) =~= av);
                    assert(bv.skip(0) =~= bv);
                    lemma_reverse_descending(before);
                    lemma_reverse_members(before);
                }
                return reversed(stack);
            },
            (Some(_), None) => (true, false),
            (None, Some(_)) => (false, true),
            (Some(s), Some(t)) => match compare(s.as_str(), t.as_str()) {
                Rank::After => (true, false),
                Rank::Before => (false, true),
                Rank::Same => (true, true),
            },
        };
        proof {
            lemma_merge_step(before, av, bv, i, j, from_left, from_right);
        }
        if from_left {
            if let Some(s) = x {
                stack.push(s);
            }
            x = left.pop();
            if from_right {
                y = right.pop();
            }
        } else {
            if let Some(t) = y {
                stack.push(t);
            }
            y = right.pop();
        }
        proof {
            if from_left {
                assert(stack.deep_view() =~= before.push(av[i - 1]));
                lemma_popped(a_before, left.deep_view(), av, i - 1);
                i = i - 1;
            } else {
                assert(stack.deep_view() =~= before.push(bv[j - 1]));
            }
            if from_right {
                lemma_popped(b_before, right.deep_view(), bv, j - 1);
                j = j - 1;
            }
        }
    }
}

/// What is left of a list once its last element is taken, seen through the
/// whole list that it was a prefix of.
proof fn lemma_popped(before: Seq<Seq<char>>, after: Seq<Seq<char>>, whole: Seq<Seq<char>>, n: int)
    requires
        0 <= n <= whole.len(),
        before =~= whole.take(n),
        n > 0 ==> after =~= before.take(n - 1),
    ensures
        n > 0 ==> after =~= whole.take(n - 1) && before[n - 1] == whole[n - 1],
{
}

/// One step of a merge from the top: the head that is emitted keeps what was
/// emitted descending and above what is left of both lists.
proof fn lemma_merge_step(
    stack: Seq<Seq<char>>,
    av: Seq<Seq<char>>,
    bv: Seq<Seq<char>>,
    i: int,
    j: int,
    from_a: bool,
    from_b: bool,
)
    requires
        strictly_ascending(av),
        strictly_ascending(bv),
        strictly_descending(stack),
        0 <= i <= av.len(),
        0 <= j <= bv.len(),
        from_a || from_b,
        from_a ==> i > 0,
        from_b ==> j > 0,
        from_a && from_b ==> av[i - 1] == bv[j - 1],
        from_a && !from_b && j > 0 ==> precedes(bv[j - 1], av[i - 1]),
        from_b && !from_a && i > 0 ==> precedes(av[i - 1], bv[j - 1]),
        stack.len() > 0 && i > 0 ==> precedes(av[i - 1], stack.last()),
        stack.len() > 0 && j > 0 ==> precedes(bv[j - 1], stack.last()),
        members_of_both(stack, av.skip(i), bv.skip(j)),
    ensures
        ({
            let head = if from_a { av[i - 1] } else { bv[j - 1] };
            let i2 = if from_a { i - 1 } else { i };
            let j2 = if from_b { j - 1 } else { j };
            let stack2 = stack.push(head);
            &&& strictly_descending(stack2)
            &&& i2 > 0 ==> precedes(av[i2 - 1], head)
            &&& j2 > 0 ==> precedes(bv[j2 - 1], head)
            &&& members_of_both(stack2, av.skip(i2), bv.skip(j2))
        }),
{
    let head = if from_a { av[i - 1] } else { bv[j - 1] };
    let i2 = if from_a { i - 1 } else { i };
    let j2 = if from_b { j - 1 } else { j };
    let stack2 = stack.push(head);
    assert forall|m: int, n: int| 0 <= m < n < stack2.len() implies precedes(
        #[trigger] stack2[n],
        #[trigger] stack2[m],
    ) by {
        if n == stack.len() {
            if m < stack.len() - 1 {
                assert(precedes(stack[stack.len() - 1], stack[m]));
                lemma_precedes_transitive(head, stack.last(), stack[m]);
            }
        } else {
            assert(precedes(stack[n], stack[m]));
        }
    }
    if i2 > 0 && from_a {
        assert(precedes(av[i2 - 1], av[i - 1]));
    }
    if j2 > 0 && from_b {
        assert(precedes(bv[j2 - 1], bv[j - 1]));
    }
    assert forall|x: Seq<char>| #[trigger] stack2.contains(x) <==> av.skip(i2).contains(x)
        || bv.skip(j2).contains(x) by {
        lemma_push_contains(stack, head, x);
        if from_a {
            lemma_skip_back_contains(av, i, x);
        }
        if from_b {
            lemma_skip_back_contains(bv, j, x);
        }
    }
}

/// A descending list read backwards is ascending.
proof fn lemma_reverse_descending(s: Seq<Seq<char>>)
    requires
        strictly_descending(s),
    ensures
        strictly_ascending(s.reverse()),
{
    let r = s.reverse();
    assert forall|m: int, n: int| 0 <= m < n < r.len() implies precedes(
        #[trigger] r[m],
        #[trigger] r[n],
    ) by {
        assert(r[m] == s[s.len() - 1 - m]);
        assert(r[n] == s[s.len() - 1 - n]);
    }
}

/// A list read backwards holds the same texts.
proof fn lemma_reverse_members(s: Seq<Seq<char>>)
    ensures
        same_members(s.reverse(), s),
{
    let r = s.reverse();
    assert forall|x: Seq<char>| #[trigger] r.contains(x) <==> s.contains(x) by {
        if s.contains(x) {
            let i = choose|i: int| 0 <= i < s.len() && s[i] == x;
            assert(r[s.len() - 1 - i] == x);
        }
        if r.contains(x) {
            let i = choose|i: int| 0 <= i < r.len() && r[i] == x;
            assert(s[s.len() - 1 - i] == x);
        }
    }
}

/// Puts a list in ascending order and keeps each text once.
pub fn sort_unique(v: Vec<String>) -> (r: Vec<String>)
    ensures
        is_sorted_set_of(r.deep_view(), v.deep_view()),
    decreases v.len(),
{
    if v.len() <= 1 {
        return v;
    }
    let ghost whole = v.deep_view();
    let mut left = v;
    let mid = left.len() / 2;
    let right = left.split_off(mid);
    proof {
        assert(whole =~= left.deep_view() + right.deep_view());
    }
    let ghost lv = left.deep_view();
    let ghost rv = right.deep_view();
    let a = sort_unique(left);
    let b = sort_unique(right);
    let r = merge(a, b);
    proof {
        assert forall|x: Seq<char>| #[trigger] r.deep_view().contains(x) <==> whole.contains(x) by {
            lemma_concat_contains(lv, rv, x);
        }
    }
    r
}

/// Two ascending lists that hold the same texts are one list: order and
/// membership leave no choice.
pub proof fn lemma_sorted_set_unique(r: Seq<Seq<char>>, t: Seq<Seq<char>>)
    requires
        strictly_ascending(r),
        strictly_ascending(t),
        same_members(r, t),
    ensures
        r == t,
    decreases r.len(),
{
    if r.len() == 0 {
        if t.len() > 0 {
            assert(t.contains(t[0]));
            assert(r.contains(t[0]));
        }
        assert(r =~= t);
    } else if t.len() == 0 {
        assert(r.contains(r[0]));
    } else {
        let x = r.last();
        let y = t.last();
        assert(r.contains(x));
        assert(t.contains(y));
        assert(r.contains(y));
        let i = choose|i: int| 0 <= i < t.len() && t[i] == x;
        let j = choose|j: int| 0 <= j < r.len() && r[j] == y;
        if i < t.len() - 1 {
            assert(precedes(t[i], t[t.len() - 1]));
            if j < r.len() - 1 {
                assert(precedes(r[j], r[r.len() - 1]));
                lemma_precedes_asymmetric(x, y);
            }
            lemma_precedes_irreflexive(x);
        }
        assert(x == y);
        let r0 = r.drop_last();
        let t0 = t.drop_last();
        assert forall|z: Seq<char>| #[trigger] r0.contains(z) <==> t0.contains(z) by {
            if r0.contains(z) {
                let m = choose|m: int| 0 <= m < r0.len() && r0[m] == z;
                assert(r[m] == z && precedes(r[m], r[r.len() - 1]));
                assert(r.contains(z));
                let n = choose|n: int| 0 <= n < t.len() && t[n] == z;
                if n == t.len() - 1 {
                    lemma_precedes_irreflexive(z);
                }
                assert(t0[n] == z);
            }
            if t0.contains(z) {
                let m = choose|m: int| 0 <= m < t0.len() && t0[m] == z;
                assert(t[m] == z && precedes(t[m], t[t.len() - 1]));
                assert(t.contains(z));
                assert(r.contains(z));
                let n = choose|n: int| 0 <= n < r.len() && r[n] == z;
                if n == r.len() - 1 {
                    lemma_precedes_irreflexive(z);
                }
                assert(r0[n] == z);
            }
        }
        assert(strictly_ascending(r0)) by {
            assert forall|m: int, n: int| 0 <= m < n < r0.len() implies precedes(
                #[trigger] r0[m],
                #[trigger] r0[n],
            ) by {
                assert(precedes(r[m], r[n]));
            }
        }
        assert(strictly_ascending(t0)) by {
            assert forall|m: int, n: int| 0 <= m < n < t0.len() implies precedes(
                #[trigger] t0[m],
                #[trigger] t0[n],
            ) by {
                assert(precedes(t[m], t[n]));
            }
        }
        lemma_sorted_set_unique(r0, t0);
        assert(r =~= r0.push(x));
        assert(t =~= t0.push(y));
    }
}

/// Putting a list in order a second time changes nothing: the result for an
/// ascending list is that list.
pub proof fn lemma_sorted_once_is_enough(r: Seq<Seq<char>>, s: Seq<Seq<char>>)
    requires
        is_sorted_set_of(r, s),
        strictly_ascending(s),
    ensures
        r == s,
{
    lemma_sorted_set_unique(r, s);
}

/// An ascending list holds no text twice.
pub proof fn lemma_ascending_no_duplicates(r: Seq<Seq<char>>)
    requires
        strictly_ascending(r),
    ensures
        r.no_duplicates(),
{
    assert forall|i: int, j: int| 0 <= i < r.len() && 0 <= j < r.len() && i != j implies r[i]
        != r[j] by {
        if i < j {
            assert(precedes(r[i], r[j]));
            lemma_precedes_asymmetric(r[i], r[j]);
        } else {
            assert(precedes(r[j], r[i]));
            lemma_precedes_asymmetric(r[j], r[i]);
        }
    }
}

} // verus!
