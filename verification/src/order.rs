//! The order in which results are returned: texts compared character by
//! character, a shorter text before each of its extensions.

use vstd::prelude::*;
use vstd::std_specs::iter::IteratorSpec;

verus! {

/// `a` and `b` agree on their first `k` characters, and there `a` ends while
/// `b` goes on, or `a` holds the smaller character.
pub open spec fn precedes_at(a: Seq<char>, b: Seq<char>, k: int) -> bool {
    &&& 0 <= k <= a.len()
    &&& k < b.len()
    &&& a.take(k) == b.take(k)
    &&& (k == a.len() || a[k] < b[k])
}

/// `a` stands strictly before `b` in lexicographic order.
pub open spec fn precedes(a: Seq<char>, b: Seq<char>) -> bool {
    exists|k: int| precedes_at(a, b, k)
}

/// How one text stands to another.
#[derive(Clone, Copy, Debug, PartialEq, Eq)]
pub enum Rank {
    Before,
    Same,
    After,
}

/// Two texts that agree on their first `k` characters agree on each of them.
proof fn lemma_common_prefix(a: Seq<char>, b: Seq<char>, k: int, i: int)
    requires
        0 <= i < k <= a.len(),
        k <= b.len(),
        a.take(k) == b.take(k),
    ensures
        a[i] == b[i],
        a.take(i) == b.take(i),
{
    assert(a.take(k)[i] == a[i]);
    assert(b.take(k)[i] == b[i]);
    assert(a.take(i) =~= a.take(k).take(i));
    assert(b.take(i) =~= b.take(k).take(i));
}

/// The place at which one text precedes another is the first place at which
/// the two differ, so there is only one.
pub proof fn lemma_precedes_at_unique(a: Seq<char>, b: Seq<char>, k: int, m: int)
    requires
        precedes_at(a, b, k),
        0 <= m <= a.len(),
        m <= b.len(),
        a.take(m) == b.take(m),
    ensures
        m <= k,
{
    if m > k {
        lemma_common_prefix(a, b, m, k);
    }
}

/// No text precedes itself.
pub proof fn lemma_precedes_irreflexive(a: Seq<char>)
    ensures
        !precedes(a, a),
{
}

/// Of two texts at most one precedes the other.
pub proof fn lemma_precedes_asymmetric(a: Seq<char>, b: Seq<char>)
    requires
        precedes(a, b),
    ensures
        !precedes(b, a),
        a != b,
{
    let k = choose|k: int| precedes_at(a, b, k);
    if precedes(b, a) {
        let m = choose|m: int| precedes_at(b, a, m);
        lemma_precedes_at_unique(a, b, k, m);
        lemma_precedes_at_unique(b, a, m, k);
    }
}

/// Precedence is transitive.
pub proof fn lemma_precedes_transitive(a: Seq<char>, b: Seq<char>, c: Seq<char>)
    requires
        precedes(a, b),
        precedes(b, c),
    ensures
        precedes(a, c),
{
    let k = choose|k: int| precedes_at(a, b, k);
    let m = choose|m: int| precedes_at(b, c, m);
    if k < m {
        lemma_common_prefix(b, c, m, k);
        assert(precedes_at(a, c, k));
    } else if m < k {
        lemma_common_prefix(a, b, k, m);
        assert(precedes_at(a, c, m));
    } else {
        assert(precedes_at(a, c, k));
    }
}

/// Two texts that agree up to `k` are equal, or one precedes the other.
proof fn lemma_total_from(a: Seq<char>, b: Seq<char>, k: int)
    requires
        0 <= k <= a.len(),
        k <= b.len(),
        a.take(k) == b.take(k),
    ensures
        precedes(a, b) || a == b || precedes(b, a),
    decreases a.len() - k,
{
    if k == a.len() {
        if k == b.len() {
            assert(a.take(k) =~= a);
            assert(b.take(k) =~= b);
        } else {
            assert(precedes_at(a, b, k));
        }
    } else if k == b.len() {
        assert(precedes_at(b, a, k));
    } else if a[k] < b[k] {
        assert(precedes_at(a, b, k));
    } else if b[k] < a[k] {
        assert(precedes_at(b, a, k));
    } else {
        assert(a.take(k + 1) =~= a.take(k).push(a[k]));
        assert(b.take(k + 1) =~= b.take(k).push(b[k]));
        lemma_total_from(a, b, k + 1);
    }
}

/// Any two texts are equal, or one precedes the other.
pub proof fn lemma_precedes_total(a: Seq<char>, b: Seq<char>)
    ensures
        precedes(a, b) || a == b || precedes(b, a),
{
    assert(a.take(0) =~= b.take(0));
    lemma_total_from(a, b, 0);
}

/// Compares two texts character by character.
pub fn compare(a: &str, b: &str) -> (r: Rank)
    ensures
        r is Before <==> precedes(a@, b@),
        r is Same <==> a@ == b@,
        r is After <==> precedes(b@, a@),
{
    let mut left = a.chars();
    let mut right = b.chars();
    let ghost mut k: int = 0;
    assert(a@.skip(0) =~= a@ && b@.skip(0) =~= b@);
    assert(a@.take(0) =~= b@.take(0));
    loop
        invariant
            0 <= k <= a@.len(),
            k <= b@.len(),
            left.remaining() == a@.skip(k),
            right.remaining() == b@.skip(k),
            a@.take(k) == b@.take(k),
        decreases a@.len() - k,
    {
        let x = left.next();
        let y = right.next();
        match (x, y) {
            (None, None) => {
                proof {
                    assert(a@.take(k) =~= a@);
                    assert(b@.take(k) =~= b@);
                    lemma_precedes_irreflexive(a@);
                }
                return Rank::Same;
            },
            (None, Some(_)) => {
                proof {
                    assert(precedes_at(a@, b@, k));
                    lemma_precedes_asymmetric(a@, b@);
                }
                return Rank::Before;
            },
            (Some(_), None) => {
                proof {
                    assert(precedes_at(b@, a@, k));
                    lemma_precedes_asymmetric(b@, a@);
                }
                return Rank::After;
            },
            (Some(p), Some(q)) => {
                assert(p == a@[k] && q == b@[k]);
                if p < q {
                    proof {
                        assert(precedes_at(a@, b@, k));
                        lemma_precedes_asymmetric(a@, b@);
                    }
                    return Rank::Before;
                }
                if q < p {
                    proof {
                        assert(precedes_at(b@, a@, k));
                        lemma_precedes_asymmetric(b@, a@);
                    }
                    return Rank::After;
                }
                proof {
                    assert(a@.take(k + 1) =~= a@.take(k).push(a@[k]));
                    assert(b@.take(k + 1) =~= b@.take(k).push(b@[k]));
                    assert(a@.skip(k).drop_first() =~= a@.skip(k + 1));
                    assert(b@.skip(k).drop_first() =~= b@.skip(k + 1));
                    k = k + 1;
                }
            },
        }
    }
}

} // verus!
