//! Strict total orders on sequences: the lexicographic order, and the fact
//! that a strictly increasing sequence is determined by its set of items.

use vstd::prelude::*;

verus! {

/// `lt` is irreflexive and transitive, and any two distinct values are related.
pub open spec fn strict_total<T>(lt: spec_fn(T, T) -> bool) -> bool {
    &&& forall|a: T| !#[trigger] lt(a, a)
    &&& forall|a: T, b: T, c: T| #[trigger] lt(a, b) && #[trigger] lt(b, c) ==> lt(a, c)
    &&& forall|a: T, b: T| a == b || #[trigger] lt(a, b) || lt(b, a)
}

/// Every item of `s` is below each later one.
pub open spec fn increasing<T>(s: Seq<T>, lt: spec_fn(T, T) -> bool) -> bool {
    forall|i: int, j: int| 0 <= i < j < s.len() ==> lt(#[trigger] s[i], #[trigger] s[j])
}

/// The lexicographic order of `a` and `b`, decided from position `i` on.
pub open spec fn lex_lt_from<T>(a: Seq<T>, b: Seq<T>, lt: spec_fn(T, T) -> bool, i: int) -> bool
    decreases a.len() - i,
{
    if i < 0 || i >= b.len() {
        false
    } else if i >= a.len() {
        true
    } else if lt(a[i], b[i]) {
        true
    } else if a[i] == b[i] {
        lex_lt_from(a, b, lt, i + 1)
    } else {
        false
    }
}

/// `a` comes before `b` in the lexicographic order that `lt` induces: at the
/// first position where they differ `a` holds the smaller item, or `a` is a
/// proper prefix of `b`.
pub open spec fn lex_lt<T>(a: Seq<T>, b: Seq<T>, lt: spec_fn(T, T) -> bool) -> bool {
    lex_lt_from(a, b, lt, 0)
}

/// The lexicographic order as a relation.
pub open spec fn lex_order<T>(lt: spec_fn(T, T) -> bool) -> spec_fn(Seq<T>, Seq<T>) -> bool {
    |a: Seq<T>, b: Seq<T>| lex_lt(a, b, lt)
}

/// No sequence comes before itself.
pub proof fn lemma_lex_irreflexive_from<T>(a: Seq<T>, lt: spec_fn(T, T) -> bool, i: int)
    requires
        strict_total(lt),
        0 <= i,
    ensures
        !lex_lt_from(a, a, lt, i),
    decreases a.len() - i,
{
    if i < a.len() {
        lemma_lex_irreflexive_from(a, lt, i + 1);
    }
}

/// A sequence that comes before one that comes before a third comes before the third.
pub proof fn lemma_lex_transitive_from<T>(
    a: Seq<T>,
    b: Seq<T>,
    c: Seq<T>,
    lt: spec_fn(T, T) -> bool,
    i: int,
)
    requires
        strict_total(lt),
        0 <= i,
        lex_lt_from(a, b, lt, i),
        lex_lt_from(b, c, lt, i),
    ensures
        lex_lt_from(a, c, lt, i),
    decreases a.len() - i,
{
    if i < a.len() && i < b.len() && i < c.len() {
        if a[i] == b[i] && b[i] == c[i] {
            lemma_lex_transitive_from(a, b, c, lt, i + 1);
        } else {
            assert(lt(a[i], b[i]) || a[i] == b[i]);
            assert(lt(b[i], c[i]) || b[i] == c[i]);
            assert(lt(a[i], c[i]));
        }
    }
}

/// Where neither sequence is below the other from `i` on, they agree from `i` on.
pub proof fn lemma_lex_connected_from<T>(a: Seq<T>, b: Seq<T>, lt: spec_fn(T, T) -> bool, i: int)
    requires
        strict_total(lt),
        0 <= i,
        !lex_lt_from(a, b, lt, i),
        !lex_lt_from(b, a, lt, i),
    ensures
        a.len() == b.len() || (a.len() <= i && b.len() <= i),
        forall|k: int| i <= k < a.len() ==> a[k] == b[k],
    decreases a.len() - i,
{
    if i < a.len() && i < b.len() {
        assert(a[i] == b[i] || lt(a[i], b[i]) || lt(b[i], a[i]));
        lemma_lex_connected_from(a, b, lt, i + 1);
    }
}

/// The lexicographic order over a strict total order is a strict total order.
pub proof fn lemma_lex_strict_total<T>(lt: spec_fn(T, T) -> bool)
    requires
        strict_total(lt),
    ensures
        strict_total(lex_order(lt)),
{
    let lx = lex_order(lt);
    assert forall|a: Seq<T>| !#[trigger] lx(a, a) by {
        lemma_lex_irreflexive_from(a, lt, 0);
    }
    assert forall|a: Seq<T>, b: Seq<T>, c: Seq<T>| #[trigger] lx(a, b) && #[trigger] lx(b, c)
        implies lx(a, c) by {
        lemma_lex_transitive_from(a, b, c, lt, 0);
    }
    assert forall|a: Seq<T>, b: Seq<T>| a == b || #[trigger] lx(a, b) || lx(b, a) by {
        if !lx(a, b) && !lx(b, a) {
            lemma_lex_connected_from(a, b, lt, 0);
            assert(a =~= b);
        }
    }
}

/// Two strictly increasing sequences that hold the same items are equal.
#[verifier::rlimit(40)]
pub proof fn lemma_increasing_unique<T>(a: Seq<T>, b: Seq<T>, lt: spec_fn(T, T) -> bool)
    requires
        strict_total(lt),
        increasing(a, lt),
        increasing(b, lt),
        forall|x: T| a.contains(x) <==> b.contains(x),
    ensures
        a == b,
    decreases a.len(),
{
    if a.len() == 0 {
        if b.len() > 0 {
            assert(b.contains(b[0]));
        }
        assert(a =~= b);
    } else if b.len() == 0 {
        assert(a.contains(a[0]));
    } else {
        // The two last items are both the largest item.
        let la = a.last();
        let lb = b.last();
        assert(a.contains(la));
        assert(b.contains(lb));
        let ia = choose|k: int| 0 <= k < a.len() && a[k] == lb;
        let ib = choose|k: int| 0 <= k < b.len() && b[k] == la;
        assert(la == lb) by {
            if ia < a.len() - 1 {
                assert(lt(a[ia], a[a.len() - 1]));
            }
            if ib < b.len() - 1 {
                assert(lt(b[ib], b[b.len() - 1]));
            }
        }
        let a1 = a.drop_last();
        let b1 = b.drop_last();
        assert forall|x: T| a1.contains(x) <==> b1.contains(x) by {
            if a1.contains(x) {
                let k = choose|k: int| 0 <= k < a1.len() && a1[k] == x;
                assert(a[k] == x);
                assert(lt(a[k], a[a.len() - 1]));
                assert(a.contains(x));
                let m = choose|m: int| 0 <= m < b.len() && b[m] == x;
                assert(m < b.len() - 1);
                assert(b1[m] == x);
            }
            if b1.contains(x) {
                let k = choose|k: int| 0 <= k < b1.len() && b1[k] == x;
                assert(b[k] == x);
                assert(lt(b[k], b[b.len() - 1]));
                assert(b.contains(x));
                let m = choose|m: int| 0 <= m < a.len() && a[m] == x;
                assert(m < a.len() - 1);
                assert(a1[m] == x);
            }
        }
        assert(increasing(a1, lt)) by {
            assert forall|i: int, j: int| 0 <= i < j < a1.len() implies lt(
                #[trigger] a1[i],
                #[trigger] a1[j],
            ) by {
                assert(lt(a[i], a[j]));
            }
        }
        assert(increasing(b1, lt)) by {
            assert forall|i: int, j: int| 0 <= i < j < b1.len() implies lt(
                #[trigger] b1[i],
                #[trigger] b1[j],
            ) by {
                assert(lt(b[i], b[j]));
            }
        }
        lemma_increasing_unique(a1, b1, lt);
        assert(a =~= a1.push(la));
        assert(b =~= b1.push(lb));
    }
}

/// Restricted to the members of `s`, `lt` is irreflexive and transitive, and
/// any two distinct members are related.
pub open spec fn strict_total_on<T>(lt: spec_fn(T, T) -> bool, s: Set<T>) -> bool {
    &&& forall|a: T| s.contains(a) ==> !#[trigger] lt(a, a)
    &&& forall|a: T, b: T, c: T|
        s.contains(a) && s.contains(b) && s.contains(c) && #[trigger] lt(a, b) && #[trigger] lt(
            b,
            c,
        ) ==> lt(a, c)
    &&& forall|a: T, b: T| s.contains(a) && s.contains(b) ==> a == b || #[trigger] lt(a, b) || lt(b, a)
}

/// Two strictly increasing sequences that hold the same items are equal,
/// where no two of the items are related both ways.
#[verifier::rlimit(40)]
pub proof fn lemma_increasing_unique_on<T>(a: Seq<T>, b: Seq<T>, lt: spec_fn(T, T) -> bool)
    requires
        increasing(a, lt),
        increasing(b, lt),
        forall|x: T| a.contains(x) <==> b.contains(x),
        forall|x: T, y: T| a.contains(x) && a.contains(y) ==> !(#[trigger] lt(x, y) && lt(y, x)),
    ensures
        a == b,
    decreases a.len(),
{
    if a.len() == 0 {
        if b.len() > 0 {
            assert(b.contains(b[0]));
        }
        assert(a =~= b);
    } else if b.len() == 0 {
        assert(a.contains(a[0]));
    } else {
        let la = a.last();
        let lb = b.last();
        assert(a.contains(la));
        assert(b.contains(lb));
        let ia = choose|k: int| 0 <= k < a.len() && a[k] == lb;
        let ib = choose|k: int| 0 <= k < b.len() && b[k] == la;
        assert(la == lb) by {
            if ia < a.len() - 1 && ib < b.len() - 1 {
                assert(lt(a[ia], a[a.len() - 1]));
                assert(lt(b[ib], b[b.len() - 1]));
                assert(lt(lb, la) && lt(la, lb));
            }
        }
        let a1 = a.drop_last();
        let b1 = b.drop_last();
        assert forall|x: T| a1.contains(x) <==> b1.contains(x) by {
            if a1.contains(x) {
                let k = choose|k: int| 0 <= k < a1.len() && a1[k] == x;
                assert(a[k] == x);
                assert(lt(a[k], a[a.len() - 1]));
                assert(a.contains(x));
                let m = choose|m: int| 0 <= m < b.len() && b[m] == x;
                if m == b.len() - 1 {
                    assert(lt(x, x) && lt(x, x));
                }
                assert(b1[m] == x);
            }
            if b1.contains(x) {
                let k = choose|k: int| 0 <= k < b1.len() && b1[k] == x;
                assert(b[k] == x);
                assert(lt(b[k], b[b.len() - 1]));
                assert(b.contains(x));
                let m = choose|m: int| 0 <= m < a.len() && a[m] == x;
                if m == a.len() - 1 {
                    assert(lt(x, x) && lt(x, x));
                }
                assert(a1[m] == x);
            }
        }
        assert(increasing(a1, lt)) by {
            assert forall|i: int, j: int| 0 <= i < j < a1.len() implies lt(
                #[trigger] a1[i],
                #[trigger] a1[j],
            ) by {
                assert(lt(a[i], a[j]));
            }
        }
        assert(increasing(b1, lt)) by {
            assert forall|i: int, j: int| 0 <= i < j < b1.len() implies lt(
                #[trigger] b1[i],
                #[trigger] b1[j],
            ) by {
                assert(lt(b[i], b[j]));
            }
        }
        assert forall|x: T, y: T| a1.contains(x) && a1.contains(y) implies !(#[trigger] lt(x, y)
            && lt(y, x)) by {
            let k = choose|k: int| 0 <= k < a1.len() && a1[k] == x;
            let m = choose|m: int| 0 <= m < a1.len() && a1[m] == y;
            assert(a[k] == x && a[m] == y);
            assert(a.contains(x) && a.contains(y));
        }
        lemma_increasing_unique_on(a1, b1, lt);
        assert(a =~= a1.push(la));
        assert(b =~= b1.push(lb));
    }
}

/// A finite set with a member has a greatest member.
pub proof fn lemma_finite_set_greatest<T>(s: Set<T>, lt: spec_fn(T, T) -> bool) -> (m: T)
    requires
        s.finite(),
        s.len() > 0,
        strict_total_on(lt, s),
    ensures
        s.contains(m),
        forall|x: T| s.contains(x) ==> x == m || lt(x, m),
    decreases s.len(),
{
    broadcast use vstd::set::group_set_axioms;

    let a = s.choose();
    let rest = s.remove(a);
    if rest.len() == 0 {
        assert forall|x: T| s.contains(x) implies x == a by {
            if x != a {
                assert(rest.contains(x));
            }
        }
        a
    } else {
        assert(strict_total_on(lt, rest));
        let m0 = lemma_finite_set_greatest(rest, lt);
        assert(s.contains(m0) && s.contains(a));
        assert(a == m0 || lt(a, m0) || lt(m0, a));
        if lt(m0, a) {
            assert forall|x: T| s.contains(x) implies x == a || lt(x, a) by {
                if x != a {
                    assert(rest.contains(x));
                    if x != m0 {
                        assert(lt(x, m0) && lt(m0, a));
                    }
                }
            }
            a
        } else {
            assert forall|x: T| s.contains(x) implies x == m0 || lt(x, m0) by {
                if x != a {
                    assert(rest.contains(x));
                }
            }
            m0
        }
    }
}

/// The members of a finite set, listed in strictly increasing order.
#[verifier::rlimit(40)]
pub proof fn lemma_finite_set_listing<T>(s: Set<T>, lt: spec_fn(T, T) -> bool) -> (l: Seq<T>)
    requires
        s.finite(),
        strict_total_on(lt, s),
    ensures
        increasing(l, lt),
        forall|x: T| l.contains(x) <==> s.contains(x),
    decreases s.len(),
{
    broadcast use vstd::set::group_set_axioms;

    if s.len() == 0 {
        let l = Seq::<T>::empty();
        assert forall|x: T| l.contains(x) <==> s.contains(x) by {
            if s.contains(x) {
                assert(s.remove(x).len() + 1 == s.len());
            }
        }
        l
    } else {
        let m = lemma_finite_set_greatest(s, lt);
        let rest = s.remove(m);
        assert(strict_total_on(lt, rest));
        let l0 = lemma_finite_set_listing(rest, lt);
        let l = l0.push(m);
        assert forall|i: int, j: int| 0 <= i < j < l.len() implies lt(
            #[trigger] l[i],
            #[trigger] l[j],
        ) by {
            assert(l0.contains(l0[i]));
            assert(rest.contains(l[i]));
            if j < l0.len() {
                assert(lt(l0[i], l0[j]));
            }
        }
        assert forall|x: T| l.contains(x) <==> s.contains(x) by {
            if l.contains(x) {
                let k = choose|k: int| 0 <= k < l.len() && l[k] == x;
                if k < l0.len() {
                    assert(l0.contains(l0[k]));
                }
            }
            if s.contains(x) {
                if x == m {
                    assert(l[l0.len() as int] == x);
                } else {
                    assert(rest.contains(x));
                    let k = choose|k: int| 0 <= k < l0.len() && l0[k] == x;
                    assert(l[k] == x);
                }
            }
        }
        l
    }
}

} // verus!
