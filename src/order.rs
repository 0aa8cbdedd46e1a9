//! Lexical order on texts, by character code, and sequences kept strictly
//! sorted by an order.

use vstd::prelude::*;

verus! {

/// `a` comes strictly before `b` in lexical order of character codes, the
/// order of `str`'s `Ord`.
pub open spec fn lex_lt(a: Seq<char>, b: Seq<char>) -> bool
    decreases a.len(),
{
    if a.len() == 0 {
        b.len() > 0
    } else if b.len() == 0 {
        false
    } else if (a[0] as int) < (b[0] as int) {
        true
    } else if a[0] == b[0] {
        lex_lt(a.drop_first(), b.drop_first())
    } else {
        false
    }
}

/// No text comes before itself.
pub proof fn lemma_lex_irrefl(a: Seq<char>)
    ensures
        !lex_lt(a, a),
    decreases a.len(),
{
    if a.len() > 0 {
        lemma_lex_irrefl(a.drop_first());
    }
}

/// Lexical order is transitive.
pub proof fn lemma_lex_trans(a: Seq<char>, b: Seq<char>, c: Seq<char>)
    requires
        lex_lt(a, b),
        lex_lt(b, c),
    ensures
        lex_lt(a, c),
    decreases a.len(),
{
    if a.len() > 0 && b.len() > 0 && c.len() > 0 && a[0] == b[0] && b[0] == c[0] {
        lemma_lex_trans(a.drop_first(), b.drop_first(), c.drop_first());
    }
}

/// Of two different texts, one comes before the other.
pub proof fn lemma_lex_total(a: Seq<char>, b: Seq<char>)
    ensures
        a == b || lex_lt(a, b) || lex_lt(b, a),
    decreases a.len(),
{
    if a.len() == 0 && b.len() == 0 {
        assert(a =~= b);
    } else if a.len() > 0 && b.len() > 0 && a[0] == b[0] {
        lemma_lex_total(a.drop_first(), b.drop_first());
        if a.drop_first() == b.drop_first() {
            assert(a =~= seq![a[0]] + a.drop_first());
            assert(b =~= seq![b[0]] + b.drop_first());
        }
    } else if a.len() > 0 && b.len() > 0 {
        assert((a[0] as int) != (b[0] as int));
    }
}

/// Whether `a` comes strictly before `b` in lexical order.
pub fn lex_less(a: &str, b: &str) -> (r: bool)
    ensures
        r == lex_lt(a@, b@),
{
    let na = a.unicode_len();
    let nb = b.unicode_len();
    let mut i: usize = 0;
    assert(a@.skip(0) =~= a@);
    assert(b@.skip(0) =~= b@);
    while i < na && i < nb
        invariant
            na == a@.len(),
            nb == b@.len(),
            i <= na,
            i <= nb,
            lex_lt(a@, b@) == lex_lt(a@.skip(i as int), b@.skip(i as int)),
        decreases na - i,
    {
        let ca = a.get_char(i);
        let cb = b.get_char(i);
        assert(a@.skip(i as int)[0] == ca);
        assert(b@.skip(i as int)[0] == cb);
        if (ca as u32) < (cb as u32) {
            assert((ca as int) < (cb as int));
            return true;
        }
        if ca != cb {
            return false;
        }
        assert(a@.skip(i as int).drop_first() =~= a@.skip(i + 1));
        assert(b@.skip(i as int).drop_first() =~= b@.skip(i + 1));
        i = i + 1;
    }
    i < nb
}

/// `s` is strictly increasing under `lt`.
pub open spec fn sorted_by<K>(s: Seq<K>, lt: spec_fn(K, K) -> bool) -> bool {
    forall|i: int, j: int| 0 <= i < j < s.len() ==> #[trigger] lt(s[i], s[j])
}

/// `lt` is a strict order: irreflexive and transitive.
pub open spec fn strict_order<K>(lt: spec_fn(K, K) -> bool) -> bool {
    &&& forall|x: K| !#[trigger] lt(x, x)
    &&& forall|x: K, y: K, z: K| #[trigger] lt(x, y) && #[trigger] lt(y, z) ==> lt(x, z)
}

/// Inserting an element into a sequence adds it to the sequence's set.
pub proof fn lemma_insert_to_set<K>(s: Seq<K>, k: int, x: K)
    requires
        0 <= k <= s.len(),
    ensures
        s.insert(k, x).to_set() == s.to_set().insert(x),
{
    let r = s.insert(k, x);
    assert forall|y: K| #[trigger] r.to_set().contains(y) == s.to_set().insert(x).contains(y) by {
        if r.contains(y) {
            let i = choose|i: int| 0 <= i < r.len() && r[i] == y;
            if i < k {
                assert(s[i] == y);
            } else if i > k {
                assert(s[i - 1] == y);
            }
        }
        if s.contains(y) {
            let i = choose|i: int| 0 <= i < s.len() && s[i] == y;
            if i < k {
                assert(r[i] == y);
            } else {
                assert(r[i + 1] == y);
            }
        }
        if y == x {
            assert(r[k] == x);
        }
    }
    assert(r.to_set() =~= s.to_set().insert(x));
}

/// Inserting an element between those below and those above it keeps a
/// sequence sorted, and adds the element to its set.
pub proof fn lemma_insert_sorted<K>(s: Seq<K>, k: int, x: K, lt: spec_fn(K, K) -> bool)
    requires
        sorted_by(s, lt),
        0 <= k <= s.len(),
        forall|j: int| 0 <= j < k ==> #[trigger] lt(s[j], x),
        forall|j: int| k <= j < s.len() ==> #[trigger] lt(x, s[j]),
    ensures
        sorted_by(s.insert(k, x), lt),
        s.insert(k, x).to_set() == s.to_set().insert(x),
{
    let r = s.insert(k, x);
    assert forall|i: int, j: int| 0 <= i < j < r.len() implies #[trigger] lt(r[i], r[j]) by {
        if j < k {
            assert(lt(s[i], s[j]));
        } else if j == k {
        } else if i < k {
            assert(lt(s[i], s[j - 1]));
        } else if i == k {
        } else {
            assert(lt(s[i - 1], s[j - 1]));
        }
    }
    lemma_insert_to_set(s, k, x);
}

/// Two sequences sorted strictly by one strict order, with the same
/// elements, are equal.
pub proof fn lemma_sorted_unique<K>(a: Seq<K>, b: Seq<K>, lt: spec_fn(K, K) -> bool)
    requires
        strict_order(lt),
        sorted_by(a, lt),
        sorted_by(b, lt),
        a.to_set() == b.to_set(),
    ensures
        a == b,
    decreases a.len() + b.len(),
{
    if a.len() == 0 || b.len() == 0 {
        if a.len() > 0 {
            assert(a.to_set().contains(a[0]));
        }
        if b.len() > 0 {
            assert(b.to_set().contains(b[0]));
        }
        assert(a =~= b);
    } else {
        assert(a.to_set().contains(a[0]));
        assert(b.to_set().contains(b[0]));
        let j = choose|j: int| 0 <= j < b.len() && b[j] == a[0];
        let i = choose|i: int| 0 <= i < a.len() && a[i] == b[0];
        if j > 0 {
            assert(lt(b[0], b[j]));
            if i > 0 {
                assert(lt(a[0], a[i]));
                assert(lt(a[0], a[0]));
            }
        }
        assert(a[0] == b[0]);
        let a1 = a.drop_first();
        let b1 = b.drop_first();
        assert forall|y: K| #[trigger] a1.to_set().contains(y) == b1.to_set().contains(y) by {
            if a1.contains(y) {
                let p = choose|p: int| 0 <= p < a1.len() && a1[p] == y;
                assert(lt(a[0], a[p + 1]));
                assert(b.to_set().contains(y));
                let q = choose|q: int| 0 <= q < b.len() && b[q] == y;
                if q == 0 {
                    assert(lt(y, y));
                }
                assert(b1[q - 1] == y);
            }
            if b1.contains(y) {
                let p = choose|p: int| 0 <= p < b1.len() && b1[p] == y;
                assert(lt(b[0], b[p + 1]));
                assert(a.to_set().contains(y));
                let q = choose|q: int| 0 <= q < a.len() && a[q] == y;
                if q == 0 {
                    assert(lt(y, y));
                }
                assert(a1[q - 1] == y);
            }
        }
        assert(a1.to_set() =~= b1.to_set());
        assert(sorted_by(a1, lt)) by {
            assert forall|x: int, y: int| 0 <= x < y < a1.len() implies #[trigger] lt(a1[x], a1[y]) by {
                assert(lt(a[x + 1], a[y + 1]));
            }
        }
        assert(sorted_by(b1, lt)) by {
            assert forall|x: int, y: int| 0 <= x < y < b1.len() implies #[trigger] lt(b1[x], b1[y]) by {
                assert(lt(b[x + 1], b[y + 1]));
            }
        }
        lemma_sorted_unique(a1, b1, lt);
        assert(a =~= seq![a[0]] + a1);
        assert(b =~= seq![b[0]] + b1);
    }
}

} // verus!
