//! Strictly sorted lists, and the lexicographic order on byte strings, by
//! which relay URLs are sorted.

use vstd::prelude::*;

verus! {

/// Of two values at most one comes before the other, and none before itself.
pub open spec fn asymmetric<A>(lt: spec_fn(A, A) -> bool) -> bool {
    forall|x: A, y: A| #[trigger] lt(x, y) ==> !lt(y, x)
}

/// Each item of the list comes before those behind it.
pub open spec fn strictly_sorted<A>(s: Seq<A>, lt: spec_fn(A, A) -> bool) -> bool {
    forall|i: int, j: int| 0 <= i < j < s.len() ==> lt(#[trigger] s[i], #[trigger] s[j])
}

/// Two strictly sorted lists of the same items agree up to the length of the
/// shorter one.
proof fn lemma_strictly_sorted_agree<A>(a: Seq<A>, b: Seq<A>, lt: spec_fn(A, A) -> bool, n: int)
    requires
        asymmetric(lt),
        strictly_sorted(a, lt),
        strictly_sorted(b, lt),
        a.to_set() == b.to_set(),
        0 <= n <= a.len(),
        n <= b.len(),
    ensures
        a.take(n) == b.take(n),
    decreases n,
{
    if n == 0 {
        assert(a.take(0) =~= b.take(0));
    } else {
        let m = n - 1;
        lemma_strictly_sorted_agree(a, b, lt, m);
        assert(a.to_set().contains(a[m])) by {
            assert(a.contains(a[m]));
        }
        assert(b.contains(a[m]));
        let j = choose|j: int| 0 <= j < b.len() && b[j] == a[m];
        assert(b.to_set().contains(b[m])) by {
            assert(b.contains(b[m]));
        }
        assert(a.contains(b[m]));
        let i = choose|i: int| 0 <= i < a.len() && a[i] == b[m];
        if j < m {
            assert(a.take(m)[j] == b.take(m)[j]);
            assert(lt(a[j], a[m]));
        }
        if i < m {
            assert(a.take(m)[i] == b.take(m)[i]);
            assert(lt(b[i], b[m]));
        }
        if a[m] != b[m] {
            assert(lt(b[m], b[j]));
            assert(lt(a[m], a[i]));
        }
        assert(a.take(n) =~= a.take(m).push(a[m]));
        assert(b.take(n) =~= b.take(m).push(b[m]));
    }
}

/// A set has one strictly sorted list only.
pub proof fn lemma_strictly_sorted_unique<A>(a: Seq<A>, b: Seq<A>, lt: spec_fn(A, A) -> bool)
    requires
        asymmetric(lt),
        strictly_sorted(a, lt),
        strictly_sorted(b, lt),
        a.to_set() == b.to_set(),
    ensures
        a == b,
{
    let n = if a.len() <= b.len() { a.len() as int } else { b.len() as int };
    lemma_strictly_sorted_agree(a, b, lt, n);
    if a.len() < b.len() {
        assert(b.to_set().contains(b[n])) by {
            assert(b.contains(b[n]));
        }
        assert(a.contains(b[n]));
        let i = choose|i: int| 0 <= i < a.len() && a[i] == b[n];
        assert(a.take(n)[i] == b.take(n)[i]);
        assert(lt(b[i], b[n]));
    } else if b.len() < a.len() {
        assert(a.to_set().contains(a[n])) by {
            assert(a.contains(a[n]));
        }
        assert(b.contains(a[n]));
        let j = choose|j: int| 0 <= j < b.len() && b[j] == a[n];
        assert(a.take(n)[j] == b.take(n)[j]);
        assert(lt(a[j], a[n]));
    } else {
        assert(a.take(n) =~= a);
        assert(b.take(n) =~= b);
    }
}

/// `a` and `b` agree on their first `k` bytes, and at position `k` either `a`
/// ends while `b` goes on, or `a` holds the smaller byte.
pub open spec fn precedes_at(a: Seq<u8>, b: Seq<u8>, k: int) -> bool {
    &&& 0 <= k <= a.len()
    &&& k < b.len()
    &&& a.take(k) == b.take(k)
    &&& (k < a.len() ==> a[k] < b[k])
}

/// `a` comes strictly before `b` in lexicographic order of the byte values.
pub open spec fn lex_lt(a: Seq<u8>, b: Seq<u8>) -> bool {
    exists|k: int| precedes_at(a, b, k)
}

/// No byte string comes before itself.
pub proof fn lemma_lex_lt_irreflexive(a: Seq<u8>)
    ensures
        !lex_lt(a, a),
{
}

/// The order is transitive.
pub proof fn lemma_lex_lt_transitive(a: Seq<u8>, b: Seq<u8>, c: Seq<u8>)
    requires
        lex_lt(a, b),
        lex_lt(b, c),
    ensures
        lex_lt(a, c),
{
    let i = choose|k: int| precedes_at(a, b, k);
    let j = choose|k: int| precedes_at(b, c, k);
    let m = if i <= j { i } else { j };
    assert(a.take(m) =~= a.take(i).take(m));
    assert(b.take(m) =~= b.take(i).take(m));
    assert(b.take(m) =~= b.take(j).take(m));
    assert(c.take(m) =~= c.take(j).take(m));
    assert(a.take(m) == c.take(m));
    if m < a.len() {
        if i < j {
            assert(b[i] == b.take(j)[i]);
            assert(c[i] == c.take(j)[i]);
        } else if j < i {
            assert(a[j] == a.take(i)[j]);
            assert(b[j] == b.take(i)[j]);
        }
    }
    assert(precedes_at(a, c, m));
}

/// Two byte strings that agree on their first `k` bytes are equal, or one
/// comes before the other.
proof fn lemma_lex_total_from(a: Seq<u8>, b: Seq<u8>, k: int)
    requires
        0 <= k <= a.len(),
        k <= b.len(),
        a.take(k) == b.take(k),
    ensures
        a == b || lex_lt(a, b) || lex_lt(b, a),
    decreases a.len() - k,
{
    if k == a.len() {
        if k == b.len() {
            assert(a.take(k) =~= a);
            assert(b.take(k) =~= b);
        } else {
            assert(precedes_at(a, b, k));
        }
    } else if k == b.len() {
        assert(precedes_at(b, a, k));
    } else if a[k] < b[k] {
        assert(precedes_at(a, b, k));
    } else if b[k] < a[k] {
        assert(precedes_at(b, a, k));
    } else {
        assert(a.take(k + 1) =~= a.take(k).push(a[k]));
        assert(b.take(k + 1) =~= b.take(k).push(b[k]));
        lemma_lex_total_from(a, b, k + 1);
    }
}

/// Any two distinct byte strings are ordered one way or the other.
pub proof fn lemma_lex_lt_total(a: Seq<u8>, b: Seq<u8>)
    ensures
        a == b || lex_lt(a, b) || lex_lt(b, a),
{
    assert(a.take(0) =~= b.take(0));
    lemma_lex_total_from(a, b, 0);
}

/// Whether `a` comes strictly before `b` in lexicographic order.
pub fn bytes_precede(a: &[u8], b: &[u8]) -> (r: bool)
    ensures
        r == lex_lt(a@, b@),
{
    let mut i: usize = 0;
    while i < a.len() && i < b.len()
        invariant
            0 <= i <= a@.len(),
            i <= b@.len(),
            a@.take(i as int) == b@.take(i as int),
        decreases a@.len() - i,
    {
        if a[i] != b[i] {
            let r = a[i] < b[i];
            proof {
                if r {
                    assert(precedes_at(a@, b@, i as int));
                } else {
                    assert(precedes_at(b@, a@, i as int));
                    lemma_lex_lt_asymmetric(b@, a@);
                }
            }
            return r;
        }
        proof {
            assert(a@.take(i + 1) =~= a@.take(i as int).push(a@[i as int]));
            assert(b@.take(i + 1) =~= b@.take(i as int).push(b@[i as int]));
        }
        i = i + 1;
    }
    let r = i < b.len();
    proof {
        if r {
            assert(precedes_at(a@, b@, i as int));
        } else {
            assert(b@.take(i as int) =~= b@);
            if lex_lt(a@, b@) {
                let k = choose|k: int| precedes_at(a@, b@, k);
                assert(a@.take(i as int).take(k) =~= a@.take(k));
                assert(b@.take(i as int).take(k) =~= b@.take(k));
                assert(a@.take(i as int)[k] == b@.take(i as int)[k]);
            }
        }
    }
    r
}

/// Of two byte strings at most one comes before the other.
pub proof fn lemma_lex_lt_asymmetric(a: Seq<u8>, b: Seq<u8>)
    requires
        lex_lt(a, b),
    ensures
        !lex_lt(b, a),
{
    if lex_lt(b, a) {
        lemma_lex_lt_transitive(a, b, a);
        lemma_lex_lt_irreflexive(a);
    }
}

} // verus!
