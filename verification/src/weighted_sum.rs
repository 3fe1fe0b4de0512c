//! Weighted sums: finite sums of integer-weighted monomials, held as a list
//! of (monomial, weight) terms in the order of the monomials.

use vstd::prelude::*;
use crate::integer::{wrap, wrapping_sum, wrapping_product, wrapping_negation, wrapping_quotient,
    trunc_div, lemma_wrap_add, lemma_wrap_id, lemma_wrap_mul, lemma_wrap_sub, Int};
use crate::order::{lex_lt, strict_total, strict_total_on, increasing, lemma_increasing_unique_on,
    lemma_lex_strict_total, lex_order, lemma_finite_set_listing};
use crate::partial_zero::PartialZero;
use crate::partial_one::PartialOne;
use crate::simplify::Simplify;
use crate::sym::Rank;
use crate::powered_product::{PoweredProduct, Mono, MonoList, mono_lt, mono_is_zero, mono_is_one,
    mono_reduced, mono_canonical, mono_mul, mono_div, entry_order, list_map, names_increasing,
    lemma_entry_order_strict_total, lemma_list_unique, mono_listing, mono_order, lemma_mono_order,
    lemma_mono_finite, lemma_mono_listing};

verus! {

/// The mathematical content of a weighted sum: its terms in order, each a
/// monomial and its weight.
pub type Terms = Seq<(Mono, Int)>;

/// A term is degenerate where its monomial is the additive zero or its
/// weight is 0: it adds nothing to the sum.
pub open spec fn term_degenerate(e: (Mono, Int)) -> bool {
    mono_is_zero(e.0) || e.1 == 0
}

/// What the term `e` adds to the coefficient of the canonical monomial `g`:
/// its weight where its monomial is not the additive zero and has `g` as its
/// canonical form.
pub open spec fn term_part(e: (Mono, Int), g: Mono) -> int {
    if !mono_is_zero(e.0) && mono_reduced(e.0) == g {
        e.1 as int
    } else {
        0
    }
}

/// The coefficient of the canonical monomial `g` in the sum that the terms
/// `t` stand for, as an unbounded integer.
pub open spec fn coeff(t: Terms, g: Mono) -> int
    decreases t.len(),
{
    if t.len() == 0 {
        0
    } else {
        coeff(t.drop_last(), g) + term_part(t.last(), g)
    }
}

/// The terms are in canonical form: every monomial is canonical and not the
/// additive zero, no weight is 0, and no monomial occurs twice.
pub open spec fn terms_canonical(t: Terms) -> bool {
    &&& forall|i: int|
        0 <= i < t.len() ==> !mono_is_zero((#[trigger] t[i]).0) && mono_reduced(t[i].0) == t[i].0
            && t[i].1 != 0
    &&& forall|i: int, j: int| 0 <= i < j < t.len() ==> (#[trigger] t[i]).0 != (#[trigger] t[j]).0
}

/// `r` is the canonical form of the sum that the terms `t` stand for: `r` is
/// canonical, and every coefficient of `r` is that of `t` modulo 2^128.
pub open spec fn canonical_of(r: Terms, t: Terms) -> bool {
    &&& terms_canonical(r)
    &&& forall|g: Mono| #[trigger] coeff(r, g) == wrap(coeff(t, g))
}

/// The terms with every weight negated modulo 2^128.
pub open spec fn terms_neg(t: Terms) -> Terms {
    t.map_values(|e: (Mono, Int)| (e.0, wrap(-e.1)))
}

/// The terms with every weight multiplied by `w` modulo 2^128.
pub open spec fn terms_scaled(t: Terms, w: Int) -> Terms {
    t.map_values(|e: (Mono, Int)| (e.0, wrap(e.1 * w)))
}

/// The terms with every weight divided by `w`, rounding toward zero.
pub open spec fn terms_divided(t: Terms, w: Int) -> Terms {
    t.map_values(|e: (Mono, Int)| (e.0, wrap(trunc_div(e.1 as int, w as int))))
}

/// The products of the term `e` with each term of `b`, in order.
pub open spec fn product_row(e: (Mono, Int), b: Terms) -> Terms {
    b.map_values(|f: (Mono, Int)| (mono_mul(e.0, f.0), wrap(e.1 * f.1)))
}

/// The products of every term of `a` with every term of `b`: the
/// distributive expansion of the product of the two sums.
pub open spec fn products(a: Terms, b: Terms) -> Terms
    decreases a.len(),
{
    if a.len() == 0 {
        Seq::empty()
    } else {
        products(a.drop_last(), b) + product_row(a.last(), b)
    }
}

/// The quotients of the term `e` by each term of `b`, in order.
pub open spec fn quotient_row(e: (Mono, Int), b: Terms) -> Terms {
    b.map_values(
        |f: (Mono, Int)| (mono_div(e.0, f.0), wrap(trunc_div(e.1 as int, f.1 as int))),
    )
}

/// The quotients of every term of `a` by every term of `b`.
pub open spec fn quotients(a: Terms, b: Terms) -> Terms
    decreases a.len(),
{
    if a.len() == 0 {
        Seq::empty()
    } else {
        quotients(a.drop_last(), b) + quotient_row(a.last(), b)
    }
}

/// Appending a term adds its part to every coefficient.
pub proof fn lemma_coeff_push(t: Terms, e: (Mono, Int), g: Mono)
    ensures
        coeff(t.push(e), g) == coeff(t, g) + term_part(e, g),
{
    assert(t.push(e).drop_last() =~= t);
}

/// The coefficients of a concatenation are the sums of the coefficients.
pub proof fn lemma_coeff_concat(s: Terms, t: Terms, g: Mono)
    ensures
        coeff(s + t, g) == coeff(s, g) + coeff(t, g),
    decreases t.len(),
{
    if t.len() == 0 {
        assert(s + t =~= s);
    } else {
        assert((s + t).drop_last() =~= s + t.drop_last());
        lemma_coeff_concat(s, t.drop_last(), g);
    }
}

/// A coefficient splits at any position into what comes before, the term
/// there, and what comes after.
pub proof fn lemma_coeff_split(t: Terms, i: int, g: Mono)
    requires
        0 <= i < t.len(),
    ensures
        coeff(t, g) == coeff(t.take(i), g) + term_part(t[i], g) + coeff(t.skip(i + 1), g),
{
    assert(t =~= t.take(i).push(t[i]) + t.skip(i + 1));
    lemma_coeff_concat(t.take(i).push(t[i]), t.skip(i + 1), g);
    lemma_coeff_push(t.take(i), t[i], g);
}

/// In canonical terms the coefficient of a monomial without a term is 0.
pub proof fn lemma_canonical_coeff_absent(t: Terms, g: Mono)
    requires
        terms_canonical(t),
        forall|i: int| 0 <= i < t.len() ==> (#[trigger] t[i]).0 != g,
    ensures
        coeff(t, g) == 0,
    decreases t.len(),
{
    if t.len() > 0 {
        let s = t.drop_last();
        assert forall|i: int| 0 <= i < s.len() implies (#[trigger] s[i]).0 != g by {
            assert(s[i] == t[i]);
        }
        lemma_canonical_prefix(t, t.len() - 1);
        assert(t.take(t.len() - 1) =~= s);
        lemma_canonical_coeff_absent(s, g);
        assert(t.last() == t[t.len() - 1]);
    }
}

/// A prefix of canonical terms is canonical.
pub proof fn lemma_canonical_prefix(t: Terms, k: int)
    requires
        terms_canonical(t),
        0 <= k <= t.len(),
    ensures
        terms_canonical(t.take(k)),
{
    let s = t.take(k);
    assert forall|i: int| 0 <= i < s.len() implies !mono_is_zero((#[trigger] s[i]).0)
        && mono_reduced(s[i].0) == s[i].0 && s[i].1 != 0 by {
        assert(s[i] == t[i]);
    }
    assert forall|i: int, j: int| 0 <= i < j < s.len() implies (#[trigger] s[i]).0 != (
    #[trigger] s[j]).0 by {
        assert(s[i] == t[i] && s[j] == t[j]);
    }
}

/// In canonical terms the coefficient of the monomial of a term is the
/// weight of that term.
pub proof fn lemma_canonical_coeff_at(t: Terms, i: int)
    requires
        terms_canonical(t),
        0 <= i < t.len(),
    ensures
        coeff(t, t[i].0) == t[i].1,
    decreases t.len(),
{
    let g = t[i].0;
    let s = t.drop_last();
    lemma_canonical_prefix(t, t.len() - 1);
    assert(t.take(t.len() - 1) =~= s);
    assert(t.last() == t[t.len() - 1]);
    if i == t.len() - 1 {
        assert forall|j: int| 0 <= j < s.len() implies (#[trigger] s[j]).0 != g by {
            assert(s[j] == t[j]);
        }
        lemma_canonical_coeff_absent(s, g);
    } else {
        assert(s[i] == t[i]);
        lemma_canonical_coeff_at(s, i);
    }
}

/// In canonical terms a monomial with a nonzero coefficient has a term.
pub proof fn lemma_canonical_coeff_nonzero(t: Terms, g: Mono) -> (i: int)
    requires
        terms_canonical(t),
        coeff(t, g) != 0,
    ensures
        0 <= i < t.len(),
        t[i].0 == g,
        t[i].1 == coeff(t, g),
{
    if forall|j: int| 0 <= j < t.len() ==> (#[trigger] t[j]).0 != g {
        lemma_canonical_coeff_absent(t, g);
    }
    let i = choose|j: int| 0 <= j < t.len() && (#[trigger] t[j]).0 == g;
    lemma_canonical_coeff_at(t, i);
    i
}

/// The terms of a vector of monomials and weights, each monomial as its view.
pub open spec fn terms_of(s: Seq<(PoweredProduct, Int)>) -> Terms {
    s.map_values(|e: (PoweredProduct, Int)| (e.0@, e.1))
}

/// The monomials of `s` are well formed and strictly increasing.
pub open spec fn keys_increasing(s: Seq<(PoweredProduct, Int)>) -> bool {
    &&& forall|i: int| 0 <= i < s.len() ==> (#[trigger] s[i]).0.wf()
    &&& forall|i: int, j: int|
        0 <= i < j < s.len() ==> mono_lt((#[trigger] s[i]).0.listing(), (#[trigger] s[j]).0.listing())
}

/// No monomial comes before itself.
pub proof fn lemma_mono_lt_irreflexive(a: MonoList)
    ensures
        !mono_lt(a, a),
{
    lemma_entry_order_strict_total();
    lemma_lex_strict_total(entry_order());
    assert(!lex_order(entry_order())(a, a));
}

/// The order of monomials is transitive.
pub proof fn lemma_mono_lt_transitive(a: MonoList, b: MonoList, c: MonoList)
    requires
        mono_lt(a, b),
        mono_lt(b, c),
    ensures
        mono_lt(a, c),
{
    lemma_entry_order_strict_total();
    lemma_lex_strict_total(entry_order());
    let lx = lex_order(entry_order());
    assert(lx(a, b) && lx(b, c));
    assert(lx(a, c));
}

/// Strictly increasing monomials have pairwise different views.
pub proof fn lemma_keys_distinct(s: Seq<(PoweredProduct, Int)>)
    requires
        keys_increasing(s),
    ensures
        forall|i: int, j: int|
            0 <= i < j < s.len() ==> (#[trigger] terms_of(s)[i]).0 != (#[trigger] terms_of(s)[j]).0,
{
    assert forall|i: int, j: int| 0 <= i < j < s.len() implies (#[trigger] terms_of(s)[i]).0 != (
    #[trigger] terms_of(s)[j]).0 by {
        if s[i].0@ == s[j].0@ {
            s[i].0.lemma_view_determines_listing(&s[j].0);
            lemma_mono_lt_irreflexive(s[i].0.listing());
            assert(mono_lt(s[i].0.listing(), s[j].0.listing()));
        }
    }
}

/// Replacing the term at `i` takes its part out of every coefficient and
/// puts the part of the new term in.
pub proof fn lemma_coeff_update(t: Terms, i: int, e: (Mono, Int), g: Mono)
    requires
        0 <= i < t.len(),
    ensures
        coeff(t.update(i, e), g) == coeff(t, g) - term_part(t[i], g) + term_part(e, g),
{
    let u = t.update(i, e);
    lemma_coeff_split(t, i, g);
    lemma_coeff_split(u, i, g);
    assert(u.take(i) =~= t.take(i));
    assert(u.skip(i + 1) =~= t.skip(i + 1));
}

/// Inserting a term adds its part to every coefficient.
pub proof fn lemma_coeff_insert(t: Terms, i: int, e: (Mono, Int), g: Mono)
    requires
        0 <= i <= t.len(),
    ensures
        coeff(t.insert(i, e), g) == coeff(t, g) + term_part(e, g),
{
    let u = t.insert(i, e);
    lemma_coeff_split(u, i, g);
    assert(u.take(i) =~= t.take(i));
    assert(u.skip(i + 1) =~= t.skip(i));
    assert(t =~= t.take(i) + t.skip(i));
    lemma_coeff_concat(t.take(i), t.skip(i), g);
}

/// Removing the term at `i` takes its part out of every coefficient.
pub proof fn lemma_coeff_remove(t: Terms, i: int, g: Mono)
    requires
        0 <= i < t.len(),
    ensures
        coeff(t.remove(i), g) == coeff(t, g) - term_part(t[i], g),
{
    let u = t.remove(i);
    lemma_coeff_split(t, i, g);
    assert(u =~= t.take(i) + t.skip(i + 1));
    lemma_coeff_concat(t.take(i), t.skip(i + 1), g);
}

/// Every coefficient of canonical terms is a value of `Int`.
pub proof fn lemma_canonical_coeff_range(t: Terms, g: Mono)
    requires
        terms_canonical(t),
    ensures
        Int::MIN <= coeff(t, g) <= Int::MAX,
        wrap(coeff(t, g)) == coeff(t, g),
{
    if coeff(t, g) != 0 {
        let i = lemma_canonical_coeff_nonzero(t, g);
    }
}

/// What an accumulator of terms holds: well-formed monomials in strictly
/// increasing order, and canonical terms.
pub open spec fn accumulator(s: Seq<(PoweredProduct, Int)>) -> bool {
    keys_increasing(s) && terms_canonical(terms_of(s))
}

/// Adds the term of monomial `raw` and weight `w` to a canonical accumulator:
/// a degenerate term changes nothing; else the weight is added, modulo 2^128,
/// to the weight that the canonical form of `raw` has, and a term whose
/// weight becomes 0 is removed.
#[verifier::rlimit(40)]
fn absorb(v: &mut Vec<(PoweredProduct, Int)>, raw: &PoweredProduct, w: Int)
    requires
        accumulator(old(v)@),
    ensures
        accumulator(final(v)@),
        forall|g: Mono| #[trigger]
            coeff(terms_of(final(v)@), g) == wrap(
                coeff(terms_of(old(v)@), g) + term_part((raw@, w), g),
            ),
{
    let ghost s0 = v@;
    let ghost t0 = terms_of(v@);
    if w.is_zero() || raw.is_zero() {
        proof {
            assert forall|g: Mono| #[trigger]
                coeff(t0, g) == wrap(coeff(t0, g) + term_part((raw@, w), g)) by {
                lemma_canonical_coeff_range(t0, g);
            }
        }
        return ;
    }
    let mut key = raw.clone();
    key.simplify();
    proof {
        use_type_invariant(&key);
        assert(key@ == mono_reduced(raw@));
        assert(mono_reduced(key@) =~= key@);
        assert(!mono_is_zero(key@));
    }
    let n = v.len();
    let mut i: usize = 0;
    let mut found = false;
    while i < n
        invariant_except_break
            !found,
        invariant
            i <= n,
            n == v@.len(),
            v@ == s0,
            keys_increasing(s0),
            key.wf(),
            forall|k: int| 0 <= k < i ==> mono_lt((#[trigger] s0[k]).0.listing(), key.listing()),
        ensures
            i <= n,
            forall|k: int| 0 <= k < i ==> mono_lt((#[trigger] s0[k]).0.listing(), key.listing()),
            found ==> i < n && s0[i as int].0@ == key@,
            !found ==> forall|k: int|
                i <= k < n ==> mono_lt(key.listing(), (#[trigger] s0[k]).0.listing()),
        decreases n - i,
    {
        match v[i].0.rank(&key) {
            Rank::Below => {},
            Rank::Same => {
                found = true;
                break ;
            },
            Rank::Above => {
                proof {
                    assert forall|k: int| i <= k < n implies mono_lt(
                        key.listing(),
                        (#[trigger] s0[k]).0.listing(),
                    ) by {
                        if k > i {
                            lemma_mono_lt_transitive(
                                key.listing(),
                                s0[i as int].0.listing(),
                                s0[k].0.listing(),
                            );
                        }
                    }
                }
                break ;
            },
        }
        i += 1;
    }
    let ghost kv = key@;
    proof {
        lemma_keys_distinct(s0);
        lemma_mono_lt_irreflexive(key.listing());
        // No term but the one found has the monomial of the key.
        assert forall|k: int| 0 <= k < n && !(found && k == i) implies (#[trigger] t0[k]).0
            != kv by {
            if s0[k].0@ == kv {
                s0[k].0.lemma_view_determines_listing(&key);
                if k < i {
                    assert(mono_lt(s0[k].0.listing(), key.listing()));
                } else if !found {
                    assert(mono_lt(key.listing(), s0[k].0.listing()));
                } else {
                    assert(t0[k].0 == t0[i as int].0);
                }
            }
        }
        assert forall|g: Mono| term_part((raw@, w), g) == (if g == kv {
            w as int
        } else {
            0
        }) by {}
    }
    if found {
        let q = wrapping_sum(v[i].1, w);
        proof {
            lemma_canonical_coeff_at(t0, i as int);
        }
        if q.is_zero() {
            let _ = v.remove(i);
            proof {
                let s1 = v@;
                let t1 = terms_of(s1);
                assert(s1 =~= s0.remove(i as int));
                assert(t1 =~= t0.remove(i as int));
                assert(keys_increasing(s1)) by {
                    assert forall|a: int| 0 <= a < s1.len() implies (#[trigger] s1[a]).0.wf() by {
                        if a < i {
                            assert(s1[a] == s0[a]);
                        } else {
                            assert(s1[a] == s0[a + 1]);
                        }
                    }
                    assert forall|a: int, b: int| 0 <= a < b < s1.len() implies mono_lt(
                        (#[trigger] s1[a]).0.listing(),
                        (#[trigger] s1[b]).0.listing(),
                    ) by {
                        let a0 = if a < i { a } else { a + 1 };
                        let b0 = if b < i { b } else { b + 1 };
                        assert(s1[a] == s0[a0] && s1[b] == s0[b0]);
                        assert(mono_lt(s0[a0].0.listing(), s0[b0].0.listing()));
                    }
                }
                lemma_keys_distinct(s1);
                assert(terms_canonical(t1)) by {
                    assert forall|a: int| 0 <= a < t1.len() implies !mono_is_zero(
                        (#[trigger] t1[a]).0,
                    ) && mono_reduced(t1[a].0) == t1[a].0 && t1[a].1 != 0 by {
                        let a0 = if a < i { a } else { a + 1 };
                        assert(t1[a] == t0[a0]);
                    }
                }
                assert forall|g: Mono| #[trigger]
                    coeff(t1, g) == wrap(coeff(t0, g) + term_part((raw@, w), g)) by {
                    lemma_coeff_remove(t0, i as int, g);
                    lemma_canonical_coeff_range(t1, g);
                    if g == kv {
                        assert forall|k: int| 0 <= k < t1.len() implies (#[trigger] t1[k]).0
                            != g by {
                            let k0 = if k < i { k } else { k + 1 };
                            assert(t1[k] == t0[k0]);
                        }
                        lemma_canonical_coeff_absent(t1, g);
                    }
                }
            }
        } else {
            v.set(i, (key, q));
            proof {
                let s1 = v@;
                let t1 = terms_of(s1);
                assert(t1 =~= t0.update(i as int, (kv, q)));
                assert(keys_increasing(s1)) by {
                    assert forall|a: int| 0 <= a < s1.len() implies (#[trigger] s1[a]).0.wf() by {
                        if a != i {
                            assert(s1[a] == s0[a]);
                        }
                    }
                    s0[i as int].0.lemma_view_determines_listing(&s1[i as int].0);
                    assert forall|a: int, b: int| 0 <= a < b < s1.len() implies mono_lt(
                        (#[trigger] s1[a]).0.listing(),
                        (#[trigger] s1[b]).0.listing(),
                    ) by {
                        assert(mono_lt(s0[a].0.listing(), s0[b].0.listing()));
                        assert(s1[a].0.listing() == s0[a].0.listing());
                        assert(s1[b].0.listing() == s0[b].0.listing());
                    }
                }
                lemma_keys_distinct(s1);
                assert(terms_canonical(t1)) by {
                    assert forall|a: int| 0 <= a < t1.len() implies !mono_is_zero(
                        (#[trigger] t1[a]).0,
                    ) && mono_reduced(t1[a].0) == t1[a].0 && t1[a].1 != 0 by {
                        if a != i {
                            assert(t1[a] == t0[a]);
                        }
                    }
                }
                assert forall|g: Mono| #[trigger]
                    coeff(t1, g) == wrap(coeff(t0, g) + term_part((raw@, w), g)) by {
                    lemma_coeff_update(t0, i as int, (kv, q), g);
                    lemma_canonical_coeff_range(t1, g);
                    lemma_canonical_coeff_range(t0, g);
                }
            }
        }
    } else {
        v.insert(i, (key, w));
        proof {
            let s1 = v@;
            let t1 = terms_of(s1);
            assert(s1 =~= s0.insert(i as int, (key, w)));
            assert(t1 =~= t0.insert(i as int, (kv, w)));
            assert(keys_increasing(s1)) by {
                assert forall|a: int| 0 <= a < s1.len() implies (#[trigger] s1[a]).0.wf() by {
                    if a < i {
                        assert(s1[a] == s0[a]);
                    } else if a > i {
                        assert(s1[a] == s0[a - 1]);
                    }
                }
                assert forall|a: int, b: int| 0 <= a < b < s1.len() implies mono_lt(
                    (#[trigger] s1[a]).0.listing(),
                    (#[trigger] s1[b]).0.listing(),
                ) by {
                    if b < i {
                        assert(mono_lt(s0[a].0.listing(), s0[b].0.listing()));
                    } else if b == i {
                        assert(mono_lt(s0[a].0.listing(), key.listing()));
                    } else if a < i {
                        assert(mono_lt(s0[a].0.listing(), s0[b - 1].0.listing()));
                    } else if a == i {
                        assert(mono_lt(key.listing(), s0[b - 1].0.listing()));
                    } else {
                        assert(mono_lt(s0[a - 1].0.listing(), s0[b - 1].0.listing()));
                    }
                }
            }
            lemma_keys_distinct(s1);
            assert(terms_canonical(t1)) by {
                assert forall|a: int| 0 <= a < t1.len() implies !mono_is_zero(
                    (#[trigger] t1[a]).0,
                ) && mono_reduced(t1[a].0) == t1[a].0 && t1[a].1 != 0 by {
                    if a < i {
                        assert(t1[a] == t0[a]);
                    } else if a > i {
                        assert(t1[a] == t0[a - 1]);
                    }
                }
            }
            assert forall|g: Mono| #[trigger]
                coeff(t1, g) == wrap(coeff(t0, g) + term_part((raw@, w), g)) by {
                lemma_coeff_insert(t0, i as int, (kv, w), g);
                lemma_canonical_coeff_range(t1, g);
                lemma_canonical_coeff_range(t0, g);
                if g == kv {
                    lemma_canonical_coeff_absent(t0, g);
                }
            }
        }
    }
}

/// The order of terms: that of their monomials.
pub open spec fn term_order() -> spec_fn((Mono, Int), (Mono, Int)) -> bool {
    |a: (Mono, Int), b: (Mono, Int)| mono_lt(mono_listing(a.0), mono_listing(b.0))
}

/// The terms are in the strict order of their monomials.
pub open spec fn terms_sorted(t: Terms) -> bool {
    increasing(t, term_order())
}

/// Every monomial of the terms has finitely many names.
pub open spec fn terms_finite(t: Terms) -> bool {
    forall|i: int| 0 <= i < t.len() ==> (#[trigger] t[i]).0.dom().finite()
}

/// The canonical form of the sum that the terms `t` stand for: the sorted
/// canonical terms whose coefficients are those of `t` modulo 2^128.
pub open spec fn canonical_form(t: Terms) -> Terms {
    choose|r: Terms| terms_sorted(r) && canonical_of(r, t)
}

/// Sorted canonical terms are determined by their coefficients.
pub proof fn lemma_canonical_unique(a: Terms, b: Terms)
    requires
        terms_sorted(a),
        terms_sorted(b),
        terms_canonical(a),
        terms_canonical(b),
        forall|g: Mono| coeff(a, g) == coeff(b, g),
    ensures
        a == b,
{
    let to = term_order();
    assert forall|x: (Mono, Int)| a.contains(x) <==> b.contains(x) by {
        if a.contains(x) {
            let i = choose|i: int| 0 <= i < a.len() && a[i] == x;
            lemma_canonical_coeff_at(a, i);
            let j = lemma_canonical_coeff_nonzero(b, x.0);
            assert(b[j] == x);
        }
        if b.contains(x) {
            let i = choose|i: int| 0 <= i < b.len() && b[i] == x;
            lemma_canonical_coeff_at(b, i);
            let j = lemma_canonical_coeff_nonzero(a, x.0);
            assert(a[j] == x);
        }
    }
    assert forall|x: (Mono, Int), y: (Mono, Int)| a.contains(x) && a.contains(y) implies !(
    #[trigger] to(x, y) && to(y, x)) by {
        if to(x, y) && to(y, x) {
            lemma_mono_lt_transitive(mono_listing(x.0), mono_listing(y.0), mono_listing(x.0));
            lemma_mono_lt_irreflexive(mono_listing(x.0));
        }
    }
    lemma_increasing_unique_on(a, b, to);
}

/// Sorted terms that are a canonical form of `t` are the canonical form of `t`.
pub proof fn lemma_canonical_form_is(r: Terms, t: Terms)
    requires
        terms_sorted(r),
        canonical_of(r, t),
    ensures
        r == canonical_form(t),
{
    let c = canonical_form(t);
    assert(terms_sorted(c) && canonical_of(c, t));
    assert forall|g: Mono| coeff(r, g) == coeff(c, g) by {
        assert(coeff(r, g) == wrap(coeff(t, g)));
        assert(coeff(c, g) == wrap(coeff(t, g)));
    }
    lemma_canonical_unique(r, c);
}

/// A nonzero coefficient comes from a term.
pub proof fn lemma_coeff_source(t: Terms, g: Mono) -> (i: int)
    requires
        coeff(t, g) != 0,
    ensures
        0 <= i < t.len(),
        !mono_is_zero(t[i].0),
        mono_reduced(t[i].0) == g,
    decreases t.len(),
{
    if term_part(t.last(), g) != 0 {
        t.len() - 1
    } else {
        let i = lemma_coeff_source(t.drop_last(), g);
        assert(t.drop_last()[i] == t[i]);
        i
    }
}

/// Terms over monomials of finitely many names have a canonical form.
#[verifier::rlimit(40)]
pub proof fn lemma_canonical_form_exists(t: Terms)
    requires
        terms_finite(t),
    ensures
        terms_sorted(canonical_form(t)),
        canonical_of(canonical_form(t), t),
        terms_finite(canonical_form(t)),
{
    let gs = Set::<Mono>::new(|g: Mono| wrap(coeff(t, g)) != 0);
    let image = t.map_values(|e: (Mono, Int)| mono_reduced(e.0));
    vstd::seq_lib::seq_to_set_is_finite(image);
    assert forall|g: Mono| gs.contains(g) implies image.to_set().contains(g) by {
        let i = lemma_coeff_source(t, g);
        assert(image[i] == g);
    }
    assert forall|g: Mono| gs.contains(g) implies g.dom().finite() by {
        let i = lemma_coeff_source(t, g);
        lemma_mono_finite(t[i].0, t[i].0);
    }
    assert forall|g: Mono| gs.contains(g) implies !mono_is_zero(g) && mono_reduced(g) == g by {
        let i = lemma_coeff_source(t, g);
        assert(mono_reduced(g) =~= g);
    }
    assert(gs.subset_of(image.to_set()));
    vstd::set_lib::lemma_set_subset_finite(image.to_set(), gs);
    lemma_mono_order(gs);
    let mo = mono_order();
    let keys = lemma_finite_set_listing(gs, mo);
    let r = keys.map_values(|g: Mono| (g, wrap(coeff(t, g))));
    let to = term_order();
    assert(terms_sorted(r)) by {
        assert forall|i: int, j: int| 0 <= i < j < r.len() implies to(
            #[trigger] r[i],
            #[trigger] r[j],
        ) by {
            assert(mo(keys[i], keys[j]));
        }
    }
    assert(terms_canonical(r)) by {
        assert forall|i: int| 0 <= i < r.len() implies !mono_is_zero((#[trigger] r[i]).0)
            && mono_reduced(r[i].0) == r[i].0 && r[i].1 != 0 by {
            assert(keys.contains(keys[i]));
        }
        assert forall|i: int, j: int| 0 <= i < j < r.len() implies (#[trigger] r[i]).0 != (
        #[trigger] r[j]).0 by {
            assert(mo(keys[i], keys[j]));
            lemma_mono_lt_irreflexive(mono_listing(keys[i]));
        }
    }
    assert forall|g: Mono| #[trigger] coeff(r, g) == wrap(coeff(t, g)) by {
        if gs.contains(g) {
            assert(keys.contains(g));
            let k = choose|k: int| 0 <= k < keys.len() && keys[k] == g;
            assert(r[k] == (g, wrap(coeff(t, g))));
            lemma_canonical_coeff_at(r, k);
        } else {
            assert forall|k: int| 0 <= k < r.len() implies (#[trigger] r[k]).0 != g by {
                assert(keys.contains(keys[k]));
            }
            lemma_canonical_coeff_absent(r, g);
        }
    }
    assert(terms_finite(r)) by {
        assert forall|i: int| 0 <= i < r.len() implies (#[trigger] r[i]).0.dom().finite() by {
            assert(keys.contains(keys[i]));
        }
    }
    lemma_canonical_form_is(r, t);
}

/// Well-formed monomials in strictly increasing order give sorted terms
/// over monomials of finitely many names.
pub proof fn lemma_terms_sorted(s: Seq<(PoweredProduct, Int)>)
    requires
        keys_increasing(s),
    ensures
        terms_sorted(terms_of(s)),
        terms_finite(terms_of(s)),
{
    let t = terms_of(s);
    let to = term_order();
    assert forall|i: int| 0 <= i < t.len() implies (#[trigger] t[i]).0.dom().finite() by {
        assert(s[i].0.wf());
        s[i].0.lemma_finite();
    }
    assert forall|i: int, j: int| 0 <= i < j < t.len() implies to(#[trigger] t[i], #[trigger] t[j]) by {
        assert(s[i].0.wf() && s[j].0.wf());
        s[i].0.lemma_finite();
        s[j].0.lemma_finite();
        assert(mono_lt(s[i].0.listing(), s[j].0.listing()));
    }
}

/// A finite sum of integer-weighted monomials.
#[derive(Debug, PartialEq, Eq, PartialOrd, Ord)]
pub struct WeightedSum {
    entries: Vec<(PoweredProduct, Int)>,
}

impl View for WeightedSum {
    type V = Terms;

    closed spec fn view(&self) -> Terms {
        terms_of(self.entries@)
    }
}

impl WeightedSum {
    /// The monomials are well formed and in strictly increasing order.
    #[verifier::type_invariant]
    pub closed spec fn wf(&self) -> bool {
        keys_increasing(self.entries@)
    }

    /// The listing of the monomial of the term at position `i`.
    pub closed spec fn key_listing(&self, i: int) -> MonoList {
        self.entries@[i].0.listing()
    }

    /// The terms of a well-formed sum are sorted, over monomials of
    /// finitely many names.
    pub proof fn lemma_valid(&self)
        requires
            self.wf(),
        ensures
            terms_sorted(self@),
            terms_finite(self@),
    {
        lemma_terms_sorted(self.entries@);
    }

    /// The sum without terms.
    pub fn new() -> (r: Self)
        ensures
            r@ == Seq::<(Mono, Int)>::empty(),
    {
        let r = WeightedSum { entries: Vec::new() };
        proof {
            assert(r@ =~= Seq::<(Mono, Int)>::empty());
        }
        r
    }

    /// The sum of the one term `key` with weight 1.
    pub fn from(key: PoweredProduct) -> (r: Self)
        ensures
            r@ == seq![(key@, 1 as Int)],
    {
        proof {
            use_type_invariant(&key);
        }
        let ghost kv = key@;
        let mut v: Vec<(PoweredProduct, Int)> = Vec::new();
        let one: Int = PartialOne::one();
        v.push((key, one));
        proof {
            assert(terms_of(v@) =~= seq![(kv, 1 as Int)]);
        }
        WeightedSum { entries: v }
    }

    /// The sum of the one term `key` with weight `w`, as it is.
    pub fn term(key: PoweredProduct, w: Int) -> (r: Self)
        ensures
            r@ == seq![(key@, w)],
    {
        proof {
            use_type_invariant(&key);
        }
        let ghost kv = key@;
        let mut v: Vec<(PoweredProduct, Int)> = Vec::new();
        v.push((key, w));
        proof {
            assert(terms_of(v@) =~= seq![(kv, w)]);
        }
        WeightedSum { entries: v }
    }

    /// The number of terms.
    pub fn len(&self) -> (r: usize)
        ensures
            r == self@.len(),
    {
        self.entries.len()
    }

    /// The monomial of the term at position `i`.
    pub fn key(&self, i: usize) -> (r: &PoweredProduct)
        requires
            i < self@.len(),
        ensures
            r@ == self@[i as int].0,
            r.wf(),
            r.listing() == self.key_listing(i as int),
    {
        proof {
            use_type_invariant(self);
        }
        &self.entries[i].0
    }

    /// The weight of the term at position `i`.
    pub fn weight(&self, i: usize) -> (r: Int)
        requires
            i < self@.len(),
        ensures
            r == self@[i as int].1,
    {
        self.entries[i].1
    }

    /// Whether `self` and `other` have the same terms.
    pub fn same(&self, other: &WeightedSum) -> (r: bool)
        ensures
            r == (self@ == other@),
    {
        let n = self.entries.len();
        if n != other.entries.len() {
            proof {
                assert(self@.len() == self.entries@.len());
                assert(other@.len() == other.entries@.len());
            }
            return false;
        }
        let mut i: usize = 0;
        while i < n
            invariant
                i <= n,
                n == self.entries@.len(),
                n == other.entries@.len(),
                forall|k: int| 0 <= k < i ==> self@[k] == other@[k],
            decreases n - i,
        {
            if !self.entries[i].0.same(&other.entries[i].0) || self.entries[i].1
                != other.entries[i].1 {
                proof {
                    assert(self@[i as int] != other@[i as int]);
                }
                return false;
            }
            i += 1;
        }
        proof {
            assert(self@ =~= other@);
        }
        true
    }

    /// The canonical form of the terms of `self` followed by those of `rhs`,
    /// the weights of `rhs` negated where `minus` is set.
    #[verifier::rlimit(40)]
    fn combined(&self, rhs: &WeightedSum, minus: bool) -> (r: Self)
        ensures
            canonical_of(r@, self@ + (if minus {
                terms_neg(rhs@)
            } else {
                rhs@
            })),
            r@ == canonical_form(self@ + (if minus {
                terms_neg(rhs@)
            } else {
                rhs@
            })),
    {
        let ghost a = self@;
        let ghost b = if minus {
            terms_neg(rhs@)
        } else {
            rhs@
        };
        let mut v: Vec<(PoweredProduct, Int)> = Vec::new();
        proof {
            assert(terms_of(v@) =~= Seq::<(Mono, Int)>::empty());
            assert(a.take(0) =~= Seq::<(Mono, Int)>::empty());
        }
        let na = self.entries.len();
        let mut i: usize = 0;
        while i < na
            invariant
                i <= na,
                na == self.entries@.len(),
                a == self@,
                accumulator(v@),
                forall|g: Mono| #[trigger] coeff(terms_of(v@), g) == wrap(coeff(a.take(i as int), g)),
            decreases na - i,
        {
            let ghost t0 = terms_of(v@);
            absorb(&mut v, &self.entries[i].0, self.entries[i].1);
            proof {
                assert(a.take(i + 1) =~= a.take(i as int).push(a[i as int]));
                assert forall|g: Mono| #[trigger]
                    coeff(terms_of(v@), g) == wrap(coeff(a.take(i + 1), g)) by {
                    lemma_coeff_push(a.take(i as int), a[i as int], g);
                    assert(coeff(t0, g) == wrap(coeff(a.take(i as int), g)));
                    lemma_wrap_add(coeff(a.take(i as int), g), term_part(a[i as int], g));
                }
            }
            i += 1;
        }
        proof {
            assert(a.take(na as int) =~= a);
            assert(b.take(0) =~= Seq::<(Mono, Int)>::empty());
            assert(a + b.take(0) =~= a);
        }
        let nb = rhs.entries.len();
        let mut j: usize = 0;
        while j < nb
            invariant
                j <= nb,
                nb == rhs.entries@.len(),
                nb == b.len(),
                b == (if minus {
                    terms_neg(rhs@)
                } else {
                    rhs@
                }),
                accumulator(v@),
                forall|g: Mono| #[trigger]
                    coeff(terms_of(v@), g) == wrap(coeff(a + b.take(j as int), g)),
            decreases nb - j,
        {
            let ghost t0 = terms_of(v@);
            let w = if minus {
                wrapping_negation(rhs.entries[j].1)
            } else {
                rhs.entries[j].1
            };
            absorb(&mut v, &rhs.entries[j].0, w);
            proof {
                assert(b[j as int] == (rhs@[j as int].0, w));
                assert(a + b.take(j + 1) =~= (a + b.take(j as int)).push(b[j as int]));
                assert forall|g: Mono| #[trigger]
                    coeff(terms_of(v@), g) == wrap(coeff(a + b.take(j + 1), g)) by {
                    lemma_coeff_push(a + b.take(j as int), b[j as int], g);
                    assert(coeff(t0, g) == wrap(coeff(a + b.take(j as int), g)));
                    lemma_wrap_add(coeff(a + b.take(j as int), g), term_part(b[j as int], g));
                }
            }
            j += 1;
        }
        proof {
            assert(b.take(nb as int) =~= b);
            lemma_terms_sorted(v@);
            lemma_canonical_form_is(terms_of(v@), a + b);
        }
        WeightedSum { entries: v }
    }

    /// Adds `rhs` to `self`: the terms are merged and the result is
    /// canonical, so every coefficient is the sum of the two modulo 2^128.
    pub fn add_assign(&mut self, rhs: &WeightedSum)
        ensures
            canonical_of(final(self)@, old(self)@ + rhs@),
            final(self)@ == ws_add(old(self)@, rhs@),
    {
        let r = self.combined(rhs, false);
        *self = r;
    }

    /// The sum of `self` and `rhs` in canonical form.
    pub fn add(&self, rhs: &WeightedSum) -> (r: Self)
        ensures
            canonical_of(r@, self@ + rhs@),
            r@ == ws_add(self@, rhs@),
    {
        self.combined(rhs, false)
    }

    /// Subtracts `rhs` from `self`: the terms are merged with the weights of
    /// `rhs` negated, and the result is canonical.
    pub fn sub_assign(&mut self, rhs: &WeightedSum)
        ensures
            canonical_of(final(self)@, old(self)@ + terms_neg(rhs@)),
            final(self)@ == ws_sub(old(self)@, rhs@),
    {
        let r = self.combined(rhs, true);
        *self = r;
    }

    /// The difference of `self` and `rhs` in canonical form.
    pub fn sub(&self, rhs: &WeightedSum) -> (r: Self)
        ensures
            canonical_of(r@, self@ + terms_neg(rhs@)),
            r@ == ws_sub(self@, rhs@),
    {
        self.combined(rhs, true)
    }

    /// Adds the monomial `key` with weight 1.
    pub fn add_assign_key(&mut self, key: PoweredProduct)
        ensures
            canonical_of(final(self)@, old(self)@ + seq![(key@, 1 as Int)]),
            final(self)@ == ws_add(old(self)@, seq![(key@, 1 as Int)]),
    {
        let rhs = WeightedSum::from(key);
        let r = self.combined(&rhs, false);
        *self = r;
    }

    /// Subtracts the monomial `key` with weight 1.
    pub fn sub_assign_key(&mut self, key: PoweredProduct)
        ensures
            canonical_of(final(self)@, old(self)@ + terms_neg(seq![(key@, 1 as Int)])),
            final(self)@ == ws_sub(old(self)@, seq![(key@, 1 as Int)]),
    {
        let rhs = WeightedSum::from(key);
        let r = self.combined(&rhs, true);
        *self = r;
    }
}

/// The sum of two weighted sums: the canonical form of the terms of both.
pub open spec fn ws_add(a: Terms, b: Terms) -> Terms {
    canonical_form(a + b)
}

/// The difference of two weighted sums: the canonical form of the terms of
/// the first and the negated terms of the second.
pub open spec fn ws_sub(a: Terms, b: Terms) -> Terms {
    canonical_form(a + terms_neg(b))
}

/// The product of two weighted sums: the canonical form of the products of
/// every term of the first with every term of the second.
pub open spec fn ws_mul(a: Terms, b: Terms) -> Terms {
    canonical_form(products(a, b))
}

/// The termwise quotient of two weighted sums in canonical form.
pub open spec fn ws_div(a: Terms, b: Terms) -> Terms {
    canonical_form(quotients(a, b))
}

/// A weighted sum with every weight multiplied by `w`, in canonical form.
pub open spec fn ws_scale(a: Terms, w: Int) -> Terms {
    canonical_form(terms_scaled(a, w))
}

/// A weighted sum with every weight divided by `w`, in canonical form.
pub open spec fn ws_unscale(a: Terms, w: Int) -> Terms {
    canonical_form(terms_divided(a, w))
}

/// The monomials of the terms, in order.
pub open spec fn terms_keys(t: Terms) -> Seq<Mono> {
    t.map_values(|e: (Mono, Int)| e.0)
}

/// No weight of the terms is 0.
pub open spec fn weights_nonzero(t: Terms) -> bool {
    forall|j: int| 0 <= j < t.len() ==> (#[trigger] t[j]).1 != 0
}

/// The sum is the additive zero where every term is degenerate.
pub open spec fn terms_is_zero(t: Terms) -> bool {
    forall|i: int| 0 <= i < t.len() ==> term_degenerate(#[trigger] t[i])
}

/// The sum is the multiplicative one where exactly one term is not
/// degenerate, and that term has a monomial that is the multiplicative one
/// and the weight 1.
pub open spec fn terms_is_one(t: Terms) -> bool {
    exists|i: int|
        0 <= i < t.len() && !term_degenerate(#[trigger] t[i]) && mono_is_one(t[i].0) && t[i].1 == 1
            && forall|j: int| 0 <= j < t.len() && j != i ==> term_degenerate(#[trigger] t[j])
}

/// The products of the first `i` terms of `a` with all of `b`, followed by
/// the products of the term at `i` with the first `j` terms of `b`.
pub open spec fn products_upto(a: Terms, b: Terms, i: int, j: int) -> Terms {
    products(a.take(i), b) + product_row(a[i], b).take(j)
}

/// The quotients of the first `i` terms of `a` by all of `b`, followed by
/// the quotients of the term at `i` by the first `j` terms of `b`.
pub open spec fn quotients_upto(a: Terms, b: Terms, i: int, j: int) -> Terms {
    quotients(a.take(i), b) + quotient_row(a[i], b).take(j)
}

impl Clone for WeightedSum {
    fn clone(&self) -> (r: Self)
        ensures
            r@ == self@,
    {
        proof {
            use_type_invariant(self);
        }
        let mut v: Vec<(PoweredProduct, Int)> = Vec::new();
        let n = self.entries.len();
        let mut k: usize = 0;
        while k < n
            invariant
                k <= n,
                n == self.entries@.len(),
                keys_increasing(self.entries@),
                v@.len() == k,
                forall|i: int|
                    0 <= i < k ==> (#[trigger] v@[i]).0.wf() && v@[i].0.listing()
                        == self.entries@[i].0.listing() && v@[i].0@ == self.entries@[i].0@
                        && v@[i].1 == self.entries@[i].1,
            decreases n - k,
        {
            let key = self.entries[k].0.clone();
            proof {
                use_type_invariant(&key);
            }
            v.push((key, self.entries[k].1));
            k += 1;
        }
        proof {
            assert forall|i: int, j: int| 0 <= i < j < v@.len() implies mono_lt(
                (#[trigger] v@[i]).0.listing(),
                (#[trigger] v@[j]).0.listing(),
            ) by {
                assert(mono_lt(self.entries@[i].0.listing(), self.entries@[j].0.listing()));
            }
            assert(terms_of(v@) =~= self@);
        }
        WeightedSum { entries: v }
    }
}

impl WeightedSum {
    /// The negation: every weight negated modulo 2^128, the terms otherwise
    /// as they are.
    pub fn neg(&self) -> (r: Self)
        ensures
            r@ == terms_neg(self@),
    {
        proof {
            use_type_invariant(self);
        }
        let mut v: Vec<(PoweredProduct, Int)> = Vec::new();
        let n = self.entries.len();
        let mut k: usize = 0;
        while k < n
            invariant
                k <= n,
                n == self.entries@.len(),
                keys_increasing(self.entries@),
                v@.len() == k,
                forall|i: int|
                    0 <= i < k ==> (#[trigger] v@[i]).0.wf() && v@[i].0.listing()
                        == self.entries@[i].0.listing() && v@[i].0@ == self.entries@[i].0@
                        && v@[i].1 == wrap(-self.entries@[i].1),
            decreases n - k,
        {
            let key = self.entries[k].0.clone();
            proof {
                use_type_invariant(&key);
            }
            v.push((key, wrapping_negation(self.entries[k].1)));
            k += 1;
        }
        proof {
            assert forall|i: int, j: int| 0 <= i < j < v@.len() implies mono_lt(
                (#[trigger] v@[i]).0.listing(),
                (#[trigger] v@[j]).0.listing(),
            ) by {
                assert(mono_lt(self.entries@[i].0.listing(), self.entries@[j].0.listing()));
            }
            assert(terms_of(v@) =~= terms_neg(self@));
        }
        WeightedSum { entries: v }
    }

    /// Multiplies every weight by `w` modulo 2^128, and brings the result
    /// into canonical form.
    pub fn mul_assign_scalar(&mut self, w: Int)
        ensures
            canonical_of(final(self)@, terms_scaled(old(self)@, w)),
            final(self)@ == ws_scale(old(self)@, w),
    {
        let ghost raw = terms_scaled(self@, w);
        let mut v: Vec<(PoweredProduct, Int)> = Vec::new();
        proof {
            assert(terms_of(v@) =~= Seq::<(Mono, Int)>::empty());
            assert(raw.take(0) =~= Seq::<(Mono, Int)>::empty());
        }
        let n = self.entries.len();
        let mut i: usize = 0;
        while i < n
            invariant
                i <= n,
                n == self.entries@.len(),
                raw == terms_scaled(self@, w),
                accumulator(v@),
                forall|g: Mono| #[trigger]
                    coeff(terms_of(v@), g) == wrap(coeff(raw.take(i as int), g)),
            decreases n - i,
        {
            let ghost t0 = terms_of(v@);
            let q = wrapping_product(self.entries[i].1, w);
            absorb(&mut v, &self.entries[i].0, q);
            proof {
                assert(raw[i as int] == (self@[i as int].0, q));
                assert(raw.take(i + 1) =~= raw.take(i as int).push(raw[i as int]));
                assert forall|g: Mono| #[trigger]
                    coeff(terms_of(v@), g) == wrap(coeff(raw.take(i + 1), g)) by {
                    lemma_coeff_push(raw.take(i as int), raw[i as int], g);
                    assert(coeff(t0, g) == wrap(coeff(raw.take(i as int), g)));
                    lemma_wrap_add(coeff(raw.take(i as int), g), term_part(raw[i as int], g));
                }
            }
            i += 1;
        }
        proof {
            assert(raw.take(n as int) =~= raw);
            lemma_terms_sorted(v@);
            lemma_canonical_form_is(terms_of(v@), raw);
        }
        self.entries = v;
    }

    /// Divides every weight by `w`, rounding toward zero, and brings the
    /// result into canonical form.
    pub fn div_assign_scalar(&mut self, w: Int)
        requires
            w != 0,
        ensures
            canonical_of(final(self)@, terms_divided(old(self)@, w)),
            final(self)@ == ws_unscale(old(self)@, w),
    {
        let ghost raw = terms_divided(self@, w);
        let mut v: Vec<(PoweredProduct, Int)> = Vec::new();
        proof {
            assert(terms_of(v@) =~= Seq::<(Mono, Int)>::empty());
            assert(raw.take(0) =~= Seq::<(Mono, Int)>::empty());
        }
        let n = self.entries.len();
        let mut i: usize = 0;
        while i < n
            invariant
                i <= n,
                w != 0,
                n == self.entries@.len(),
                raw == terms_divided(self@, w),
                accumulator(v@),
                forall|g: Mono| #[trigger]
                    coeff(terms_of(v@), g) == wrap(coeff(raw.take(i as int), g)),
            decreases n - i,
        {
            let ghost t0 = terms_of(v@);
            let q = wrapping_quotient(self.entries[i].1, w);
            absorb(&mut v, &self.entries[i].0, q);
            proof {
                assert(raw[i as int] == (self@[i as int].0, q));
                assert(raw.take(i + 1) =~= raw.take(i as int).push(raw[i as int]));
                assert forall|g: Mono| #[trigger]
                    coeff(terms_of(v@), g) == wrap(coeff(raw.take(i + 1), g)) by {
                    lemma_coeff_push(raw.take(i as int), raw[i as int], g);
                    assert(coeff(t0, g) == wrap(coeff(raw.take(i as int), g)));
                    lemma_wrap_add(coeff(raw.take(i as int), g), term_part(raw[i as int], g));
                }
            }
            i += 1;
        }
        proof {
            assert(raw.take(n as int) =~= raw);
            lemma_terms_sorted(v@);
            lemma_canonical_form_is(terms_of(v@), raw);
        }
        self.entries = v;
    }

    /// The product of two sums: every term of `self` is multiplied with
    /// every term of `rhs` (monomials multiplied, weights multiplied modulo
    /// 2^128), and the products are gathered into canonical form.
    #[verifier::rlimit(40)]
    pub fn mul(&self, rhs: &WeightedSum) -> (r: Self)
        ensures
            canonical_of(r@, products(self@, rhs@)),
            r@ == ws_mul(self@, rhs@),
    {
        let ghost a = self@;
        let ghost b = rhs@;
        let mut v: Vec<(PoweredProduct, Int)> = Vec::new();
        proof {
            assert(terms_of(v@) =~= Seq::<(Mono, Int)>::empty());
            assert(a.take(0) =~= Seq::<(Mono, Int)>::empty());
            assert(products(a.take(0), b) =~= Seq::<(Mono, Int)>::empty());
        }
        let na = self.entries.len();
        let nb = rhs.entries.len();
        let mut i: usize = 0;
        while i < na
            invariant
                i <= na,
                na == self.entries@.len(),
                nb == rhs.entries@.len(),
                a == self@,
                b == rhs@,
                accumulator(v@),
                forall|g: Mono| #[trigger]
                    coeff(terms_of(v@), g) == wrap(coeff(products(a.take(i as int), b), g)),
            decreases na - i,
        {
            let ghost row = product_row(a[i as int], b);
            proof {
                assert(row.take(0) =~= Seq::<(Mono, Int)>::empty());
                assert(products_upto(a, b, i as int, 0) =~= products(a.take(i as int), b));
            }
            let mut j: usize = 0;
            while j < nb
                invariant
                    j <= nb,
                    i < na,
                    na == self.entries@.len(),
                    nb == rhs.entries@.len(),
                    a == self@,
                    b == rhs@,
                    row == product_row(a[i as int], b),
                    accumulator(v@),
                    forall|g: Mono| #[trigger]
                        coeff(terms_of(v@), g) == wrap(
                            coeff(products_upto(a, b, i as int, j as int), g),
                        ),
                decreases nb - j,
            {
                let ghost t0 = terms_of(v@);
                let key = self.entries[i].0.mul(&rhs.entries[j].0);
                let w = wrapping_product(self.entries[i].1, rhs.entries[j].1);
                absorb(&mut v, &key, w);
                proof {
                    let so_far = products_upto(a, b, i as int, j as int);
                    let further = products_upto(a, b, i as int, j + 1);
                    assert(row[j as int] == (key@, w));
                    assert(row.take(j + 1) =~= row.take(j as int).push(row[j as int]));
                    assert(further =~= so_far.push(row[j as int]));
                    assert forall|g: Mono| #[trigger] coeff(terms_of(v@), g) == wrap(coeff(further, g)) by {
                        lemma_coeff_push(so_far, row[j as int], g);
                        assert(coeff(t0, g) == wrap(coeff(so_far, g)));
                        lemma_wrap_add(coeff(so_far, g), term_part(row[j as int], g));
                    }
                }
                j += 1;
            }
            proof {
                assert(row.take(nb as int) =~= row);
                assert(a.take(i + 1).drop_last() =~= a.take(i as int));
                assert(a.take(i + 1).last() == a[i as int]);
                assert(products(a.take(i + 1), b) =~= products_upto(a, b, i as int, nb as int));
            }
            i += 1;
        }
        proof {
            assert(a.take(na as int) =~= a);
            lemma_terms_sorted(v@);
            lemma_canonical_form_is(terms_of(v@), products(a, b));
        }
        WeightedSum { entries: v }
    }

    /// The termwise quotient of two sums: every term of `self` is divided by
    /// every term of `rhs` (monomials divided, weights divided rounding
    /// toward zero), and the quotients are gathered into canonical form.
    #[verifier::rlimit(40)]
    pub fn div(&self, rhs: &WeightedSum) -> (r: Self)
        requires
            self@.len() > 0 ==> weights_nonzero(rhs@),
        ensures
            canonical_of(r@, quotients(self@, rhs@)),
            r@ == ws_div(self@, rhs@),
    {
        let ghost a = self@;
        let ghost b = rhs@;
        let mut v: Vec<(PoweredProduct, Int)> = Vec::new();
        proof {
            assert(terms_of(v@) =~= Seq::<(Mono, Int)>::empty());
            assert(a.take(0) =~= Seq::<(Mono, Int)>::empty());
            assert(quotients(a.take(0), b) =~= Seq::<(Mono, Int)>::empty());
        }
        let na = self.entries.len();
        let nb = rhs.entries.len();
        let mut i: usize = 0;
        while i < na
            invariant
                i <= na,
                na == self.entries@.len(),
                nb == rhs.entries@.len(),
                a == self@,
                b == rhs@,
                a.len() > 0 ==> forall|j: int| 0 <= j < b.len() ==> (#[trigger] b[j]).1 != 0,
                accumulator(v@),
                forall|g: Mono| #[trigger]
                    coeff(terms_of(v@), g) == wrap(coeff(quotients(a.take(i as int), b), g)),
            decreases na - i,
        {
            let ghost row = quotient_row(a[i as int], b);
            proof {
                assert(row.take(0) =~= Seq::<(Mono, Int)>::empty());
                assert(quotients_upto(a, b, i as int, 0) =~= quotients(a.take(i as int), b));
            }
            let mut j: usize = 0;
            while j < nb
                invariant
                    j <= nb,
                    i < na,
                    na == self.entries@.len(),
                    nb == rhs.entries@.len(),
                    a == self@,
                    b == rhs@,
                    forall|j: int| 0 <= j < b.len() ==> (#[trigger] b[j]).1 != 0,
                    row == quotient_row(a[i as int], b),
                    accumulator(v@),
                    forall|g: Mono| #[trigger]
                        coeff(terms_of(v@), g) == wrap(
                            coeff(quotients_upto(a, b, i as int, j as int), g),
                        ),
                decreases nb - j,
            {
                let ghost t0 = terms_of(v@);
                let key = self.entries[i].0.div(&rhs.entries[j].0);
                proof {
                    assert(b[j as int].1 != 0);
                }
                let w = wrapping_quotient(self.entries[i].1, rhs.entries[j].1);
                absorb(&mut v, &key, w);
                proof {
                    let so_far = quotients_upto(a, b, i as int, j as int);
                    let further = quotients_upto(a, b, i as int, j + 1);
                    assert(row[j as int] == (key@, w));
                    assert(row.take(j + 1) =~= row.take(j as int).push(row[j as int]));
                    assert(further =~= so_far.push(row[j as int]));
                    assert forall|g: Mono| #[trigger] coeff(terms_of(v@), g) == wrap(coeff(further, g)) by {
                        lemma_coeff_push(so_far, row[j as int], g);
                        assert(coeff(t0, g) == wrap(coeff(so_far, g)));
                        lemma_wrap_add(coeff(so_far, g), term_part(row[j as int], g));
                    }
                }
                j += 1;
            }
            proof {
                assert(row.take(nb as int) =~= row);
                assert(a.take(i + 1).drop_last() =~= a.take(i as int));
                assert(a.take(i + 1).last() == a[i as int]);
                assert(quotients(a.take(i + 1), b) =~= quotients_upto(a, b, i as int, nb as int));
            }
            i += 1;
        }
        proof {
            assert(a.take(na as int) =~= a);
            lemma_terms_sorted(v@);
            lemma_canonical_form_is(terms_of(v@), quotients(a, b));
        }
        WeightedSum { entries: v }
    }
}

impl PartialZero for WeightedSum {
    open spec fn is_zero_spec(&self) -> bool {
        terms_is_zero(self@)
    }

    /// The additive zero: the sum without terms.
    fn zero() -> (r: Self)
        ensures
            r@ == Seq::<(Mono, Int)>::empty(),
    {
        Self::new()
    }

    fn set_zero(&mut self)
        ensures
            final(self)@ == Seq::<(Mono, Int)>::empty(),
    {
        *self = Self::new();
    }

    fn is_zero(&self) -> (r: bool) {
        let n = self.entries.len();
        let mut i: usize = 0;
        while i < n
            invariant
                i <= n,
                n == self.entries@.len(),
                forall|k: int| 0 <= k < i ==> term_degenerate(#[trigger] self@[k]),
            decreases n - i,
        {
            if !self.entries[i].0.is_zero() && !self.entries[i].1.is_zero() {
                proof {
                    assert(!term_degenerate(self@[i as int]));
                }
                return false;
            }
            i += 1;
        }
        true
    }
}

impl PartialOne for WeightedSum {
    open spec fn is_one_spec(&self) -> bool {
        terms_is_one(self@)
    }

    /// The multiplicative one: the monomial without entries, with weight 1.
    fn one() -> (r: Self)
        ensures
            r@ == seq![(Map::<Seq<char>, Int>::empty(), 1 as Int)],
    {
        let r = Self::from(PoweredProduct::one());
        proof {
            let t = r@;
            assert(!term_degenerate(t[0]) && mono_is_one(t[0].0) && t[0].1 == 1);
        }
        r
    }

    fn set_one(&mut self)
        ensures
            final(self)@ == seq![(Map::<Seq<char>, Int>::empty(), 1 as Int)],
    {
        *self = Self::one();
    }

    fn is_one(&self) -> (r: bool) {
        let ghost t = self@;
        let n = self.entries.len();
        let mut seen = false;
        let ghost mut at: int = 0;
        let mut i: usize = 0;
        while i < n
            invariant
                i <= n,
                n == self.entries@.len(),
                t == self@,
                !seen ==> forall|k: int| 0 <= k < i ==> term_degenerate(#[trigger] t[k]),
                seen ==> 0 <= at < i && !term_degenerate(t[at]) && mono_is_one(t[at].0) && t[at].1
                    == 1 && forall|k: int| 0 <= k < i && k != at ==> term_degenerate(#[trigger] t[k]),
            decreases n - i,
        {
            let degenerate = self.entries[i].0.is_zero() || self.entries[i].1.is_zero();
            if !degenerate {
                if self.entries[i].0.is_one() && self.entries[i].1.is_one() {
                    if seen {
                        proof {
                            assert(!term_degenerate(t[i as int]));
                            assert(!term_degenerate(t[at]));
                        }
                        return false;
                    }
                    seen = true;
                    proof {
                        at = i as int;
                    }
                } else {
                    proof {
                        assert(!term_degenerate(t[i as int]));
                    }
                    return false;
                }
            }
            i += 1;
        }
        proof {
            if seen {
                assert(terms_is_one(t));
            }
        }
        seen
    }
}

impl Simplify for WeightedSum {
    open spec fn is_simplified_spec(&self) -> bool {
        terms_canonical(self@)
    }

    open spec fn simplified_from(&self, before: &Self) -> bool {
        canonical_of(self@, before@) && self@ == canonical_form(before@)
    }

    /// Brings the sum into canonical form: degenerate terms are removed,
    /// every monomial is replaced by its canonical form, and terms whose
    /// monomials then agree are merged, their weights added modulo 2^128.
    fn simplify(&mut self) {
        let zero = WeightedSum::new();
        let r = self.combined(&zero, false);
        proof {
            assert(self@ + zero@ =~= self@);
        }
        *self = r;
    }

    fn is_simplified(&self) -> (r: bool) {
        proof {
            use_type_invariant(self);
            lemma_keys_distinct(self.entries@);
        }
        let ghost t = self@;
        let n = self.entries.len();
        let mut i: usize = 0;
        while i < n
            invariant
                i <= n,
                n == self.entries@.len(),
                t == self@,
                forall|k: int|
                    0 <= k < i ==> !mono_is_zero((#[trigger] t[k]).0) && mono_reduced(t[k].0)
                        == t[k].0 && t[k].1 != 0,
            decreases n - i,
        {
            let key = &self.entries[i].0;
            if key.is_zero() || !key.is_simplified() || self.entries[i].1.is_zero() {
                proof {
                    assert(t[i as int] == (key@, self.entries@[i as int].1));
                }
                return false;
            }
            proof {
                assert(t[i as int].0 == key@);
                assert(mono_canonical(key@) == mono_reduced(key@));
            }
            i += 1;
        }
        true
    }
}

/// The canonical form of a single term: nothing where the term is
/// degenerate, else the term with its monomial in canonical form.
pub proof fn lemma_canonical_form_single(e: (Mono, Int))
    ensures
        canonical_form(seq![e]) == (if term_degenerate(e) {
            Seq::<(Mono, Int)>::empty()
        } else {
            seq![(mono_reduced(e.0), e.1)]
        }),
{
    let t = seq![e];
    let r = if term_degenerate(e) {
        Seq::<(Mono, Int)>::empty()
    } else {
        seq![(mono_reduced(e.0), e.1)]
    };
    assert(terms_sorted(r));
    assert(mono_reduced(mono_reduced(e.0)) =~= mono_reduced(e.0));
    assert(terms_canonical(r));
    assert forall|g: Mono| #[trigger] coeff(r, g) == wrap(coeff(t, g)) by {
        assert(t.drop_last() =~= Seq::<(Mono, Int)>::empty());
        assert(coeff(t.drop_last(), g) == 0);
        assert(t.last() == e);
        lemma_wrap_id(e.1);
        if !term_degenerate(e) {
            assert(r.drop_last() =~= Seq::<(Mono, Int)>::empty());
            assert(coeff(r.drop_last(), g) == 0);
            assert(r.last() == (mono_reduced(e.0), e.1));
        }
    }
    lemma_canonical_form_is(r, t);
}

/// No monomial of the terms is the additive zero.
pub open spec fn terms_nonzero(t: Terms) -> bool {
    forall|i: int| 0 <= i < t.len() ==> !mono_is_zero((#[trigger] t[i]).0)
}

/// Terms with the same coefficients modulo 2^128 have the same canonical form.
pub proof fn lemma_canonical_form_congruent(s: Terms, t: Terms)
    requires
        terms_finite(s),
        forall|g: Mono| wrap(coeff(s, g)) == wrap(coeff(t, g)),
    ensures
        canonical_form(s) == canonical_form(t),
{
    lemma_canonical_form_exists(s);
    let r = canonical_form(s);
    assert forall|g: Mono| #[trigger] coeff(r, g) == wrap(coeff(t, g)) by {
        assert(coeff(r, g) == wrap(coeff(s, g)));
    }
    lemma_canonical_form_is(r, t);
}

/// The concatenation of terms over monomials of finitely many names is such.
pub proof fn lemma_concat_finite(s: Terms, t: Terms)
    requires
        terms_finite(s),
        terms_finite(t),
    ensures
        terms_finite(s + t),
{
    assert forall|i: int| 0 <= i < (s + t).len() implies (#[trigger] (s + t)[i]).0.dom().finite() by {
        if i < s.len() {
            assert((s + t)[i] == s[i]);
        } else {
            assert((s + t)[i] == t[i - s.len()]);
        }
    }
}

/// The coefficients of negated terms are the negated coefficients, modulo 2^128.
pub proof fn lemma_coeff_neg(t: Terms, g: Mono)
    ensures
        wrap(coeff(terms_neg(t), g)) == wrap(-coeff(t, g)),
    decreases t.len(),
{
    if t.len() > 0 {
        let t0 = t.drop_last();
        let e = t.last();
        assert(terms_neg(t).drop_last() =~= terms_neg(t0));
        assert(terms_neg(t).last() == (e.0, wrap(-e.1)));
        lemma_coeff_neg(t0, g);
        let a = coeff(terms_neg(t0), g);
        let b = term_part(terms_neg(t).last(), g);
        lemma_wrap_add(a, b);
        lemma_wrap_add(-coeff(t0, g), -term_part(e, g));
        if b != 0 {
            lemma_wrap_add(wrap(a) as int, -(e.1 as int));
        }
    }
}

/// Addition of weighted sums is commutative.
pub proof fn lemma_add_commutative(x: WeightedSum, y: WeightedSum)
    requires
        x.wf(),
        y.wf(),
    ensures
        ws_add(x@, y@) == ws_add(y@, x@),
{
    x.lemma_valid();
    y.lemma_valid();
    lemma_concat_finite(x@, y@);
    assert forall|g: Mono| wrap(coeff(x@ + y@, g)) == wrap(coeff(y@ + x@, g)) by {
        lemma_coeff_concat(x@, y@, g);
        lemma_coeff_concat(y@, x@, g);
    }
    lemma_canonical_form_congruent(x@ + y@, y@ + x@);
}

/// Addition of weighted sums is associative.
pub proof fn lemma_add_associative(x: WeightedSum, y: WeightedSum, z: WeightedSum)
    requires
        x.wf(),
        y.wf(),
        z.wf(),
    ensures
        ws_add(ws_add(x@, y@), z@) == ws_add(x@, ws_add(y@, z@)),
{
    x.lemma_valid();
    y.lemma_valid();
    z.lemma_valid();
    lemma_concat_finite(x@, y@);
    lemma_concat_finite(y@, z@);
    lemma_canonical_form_exists(x@ + y@);
    lemma_canonical_form_exists(y@ + z@);
    let xy = ws_add(x@, y@);
    let yz = ws_add(y@, z@);
    lemma_concat_finite(xy, z@);
    assert forall|g: Mono| wrap(coeff(xy + z@, g)) == wrap(coeff(x@ + yz, g)) by {
        lemma_coeff_concat(xy, z@, g);
        lemma_coeff_concat(x@, yz, g);
        lemma_coeff_concat(x@, y@, g);
        lemma_coeff_concat(y@, z@, g);
        assert(coeff(xy, g) == wrap(coeff(x@ + y@, g)));
        assert(coeff(yz, g) == wrap(coeff(y@ + z@, g)));
        lemma_wrap_add(coeff(x@, g) + coeff(y@, g), coeff(z@, g));
        lemma_wrap_add(coeff(x@, g), coeff(y@, g) + coeff(z@, g));
    }
    lemma_canonical_form_congruent(xy + z@, x@ + yz);
}

/// A weighted sum minus itself is the sum without terms, the additive zero.
pub proof fn lemma_sub_self(x: WeightedSum)
    requires
        x.wf(),
    ensures
        ws_sub(x@, x@) == Seq::<(Mono, Int)>::empty(),
        terms_is_zero(ws_sub(x@, x@)),
{
    x.lemma_valid();
    let e = Seq::<(Mono, Int)>::empty();
    let raw = x@ + terms_neg(x@);
    assert(terms_sorted(e));
    assert(terms_canonical(e));
    assert forall|g: Mono| #[trigger] coeff(e, g) == wrap(coeff(raw, g)) by {
        lemma_coeff_concat(x@, terms_neg(x@), g);
        lemma_coeff_neg(x@, g);
        lemma_wrap_add(coeff(x@, g), coeff(terms_neg(x@), g));
        lemma_wrap_add(coeff(x@, g), -coeff(x@, g));
    }
    lemma_canonical_form_is(e, raw);
}

/// The coefficient of `g` in the product of `x` with a sum whose
/// coefficients are given by the terms `b`: every term of `x` whose monomial
/// is not the additive zero contributes its weight times the coefficient
/// that `b` gives to the canonical quotient of `g` by the monomial.
pub open spec fn convolution(x: Terms, b: Terms, g: Mono) -> int
    decreases x.len(),
{
    if x.len() == 0 {
        0
    } else {
        convolution(x.drop_last(), b, g) + (if mono_is_zero(x.last().0) {
            0
        } else {
            x.last().1 * coeff(b, mono_reduced(mono_div(g, x.last().0)))
        })
    }
}

/// For canonical `g`, a monomial times `f` has canonical form `g` exactly
/// where `f` has the canonical form of the quotient of `g` by the monomial.
#[verifier::rlimit(40)]
pub proof fn lemma_product_target(a: Mono, f: Mono, g: Mono)
    requires
        mono_reduced(g) == g,
    ensures
        (mono_reduced(mono_mul(a, f)) == g) == (mono_reduced(f) == mono_reduced(mono_div(g, a))),
{
    let one = crate::sym::one_name();
    let h = mono_reduced(mono_div(g, a));
    if mono_reduced(mono_mul(a, f)) == g {
        assert forall|n: Seq<char>| mono_reduced(f).dom().contains(n) == h.dom().contains(n) && (
        mono_reduced(f).dom().contains(n) ==> mono_reduced(f)[n] == h[n]) by {
            lemma_exponent_shift(a, f, g, n);
            lemma_exponent_shift(a, mono_mul(a, f), g, n);
            lemma_exponent_shift(a, mono_div(g, a), g, n);
            lemma_exponent_shift(a, g, g, n);
        }
        assert(mono_reduced(f) =~= h);
    }
    if mono_reduced(f) == h {
        let p = mono_reduced(mono_mul(a, f));
        assert forall|n: Seq<char>| #[trigger] p.dom().contains(n) == g.dom().contains(n) by {
            lemma_exponent_shift(a, f, g, n);
            lemma_exponent_shift(a, mono_mul(a, f), g, n);
            lemma_exponent_shift(a, mono_div(g, a), g, n);
            lemma_exponent_shift(a, g, g, n);
            assert(effective(mono_reduced(f), n) == effective(h, n));
        }
        assert forall|n: Seq<char>| p.dom().contains(n) implies #[trigger] p[n] == g[n] by {
            lemma_exponent_shift(a, f, g, n);
            lemma_exponent_shift(a, mono_mul(a, f), g, n);
            lemma_exponent_shift(a, mono_div(g, a), g, n);
            lemma_exponent_shift(a, g, g, n);
            assert(effective(mono_reduced(f), n) == effective(h, n));
            assert(g.dom().contains(n));
            assert(mono_reduced(g)[n] == effective(g, n));
        }
        assert(p =~= g);
    }
}

/// The exponent that the canonical form of `m` gives to `n`: 0 for the one
/// name and for a name without entry.
pub open spec fn effective(m: Mono, n: Seq<char>) -> Int {
    if n == crate::sym::one_name() {
        0
    } else {
        crate::powered_product::exp(m, n)
    }
}

/// Exponents modulo 2^128: the sum of those of `a` and `f` is that of `g`
/// exactly where that of `f` is the difference of those of `g` and `a`.
pub proof fn lemma_exponent_shift(a: Mono, f: Mono, g: Mono, n: Seq<char>)
    ensures
        (wrap(effective(a, n) + effective(f, n)) == effective(g, n)) == (effective(f, n) == wrap(
            effective(g, n) - effective(a, n),
        )),
        effective(mono_mul(a, f), n) == wrap(effective(a, n) + effective(f, n)),
        effective(mono_div(g, a), n) == wrap(effective(g, n) - effective(a, n)),
        effective(mono_reduced(f), n) == effective(f, n),
        mono_reduced(f).dom().contains(n) == (effective(f, n) != 0),
        mono_reduced(f).dom().contains(n) ==> mono_reduced(f)[n] == effective(f, n),
{
    let ea = effective(a, n) as int;
    let ef = effective(f, n) as int;
    let eg = effective(g, n) as int;
    lemma_wrap_id(effective(f, n));
    lemma_wrap_id(effective(g, n));
    if wrap(ea + ef) == eg {
        lemma_wrap_sub(ea + ef, ea);
        assert(wrap(wrap(ea + ef) - ea) == wrap(ea + ef - ea));
    }
    if ef == wrap(eg - ea) {
        lemma_wrap_add(ea, eg - ea);
        assert(wrap(ea + wrap(eg - ea)) == wrap(ea + (eg - ea)));
    }
    assert(wrap(0int) == 0);
}

/// Whether the product of a monomial with one that is not the additive
/// zero is the additive zero depends on the first alone.
pub proof fn lemma_product_zero(a: Mono, f: Mono)
    requires
        !mono_is_zero(f),
    ensures
        mono_is_zero(mono_mul(a, f)) == mono_is_zero(a),
{
    let z = crate::sym::zero_name();
    lemma_wrap_id(crate::powered_product::exp(a, z));
}

/// The coefficients of the products of one term with terms that are free of
/// the additive zero: the weight times a coefficient of those terms.
#[verifier::rlimit(40)]
pub proof fn lemma_row_coeff(e: (Mono, Int), b: Terms, g: Mono)
    requires
        terms_nonzero(b),
        mono_reduced(g) == g,
    ensures
        wrap(coeff(product_row(e, b), g)) == wrap(
            if mono_is_zero(e.0) {
                0
            } else {
                e.1 * coeff(b, mono_reduced(mono_div(g, e.0)))
            },
        ),
    decreases b.len(),
{
    if b.len() > 0 {
        let b0 = b.drop_last();
        let f = b.last();
        assert(terms_nonzero(b0)) by {
            assert forall|i: int| 0 <= i < b0.len() implies !mono_is_zero((#[trigger] b0[i]).0) by {
                assert(b0[i] == b[i]);
            }
        }
        assert(f == b[b.len() - 1]);
        lemma_row_coeff(e, b0, g);
        assert(product_row(e, b).drop_last() =~= product_row(e, b0));
        let p = (mono_mul(e.0, f.0), wrap(e.1 * f.1));
        assert(product_row(e, b).last() == p);
        lemma_product_zero(e.0, f.0);
        lemma_product_target(e.0, f.0, g);
        let h = mono_reduced(mono_div(g, e.0));
        let c0 = coeff(product_row(e, b0), g);
        if mono_is_zero(e.0) {
            assert(term_part(p, g) == 0);
        } else {
            assert(coeff(b, h) == coeff(b0, h) + term_part(f, h));
            lemma_wrap_add(c0, term_part(p, g));
            lemma_wrap_add(e.1 * coeff(b0, h), term_part(p, g));
            if mono_reduced(f.0) == h {
                lemma_wrap_id(f.1);
                lemma_wrap_add(e.1 * coeff(b0, h), e.1 * f.1);
                assert(e.1 * coeff(b, h) == e.1 * coeff(b0, h) + e.1 * f.1) by (nonlinear_arith)
                    requires
                        coeff(b, h) == coeff(b0, h) + f.1,
                ;
            }
        }
    }
}

/// The coefficients of the products of two sums, the second free of the
/// additive zero, are the convolution of the first with the coefficients of
/// the second, modulo 2^128.
pub proof fn lemma_products_coeff(x: Terms, b: Terms, g: Mono)
    requires
        terms_nonzero(b),
        mono_reduced(g) == g,
    ensures
        wrap(coeff(products(x, b), g)) == wrap(convolution(x, b, g)),
    decreases x.len(),
{
    if x.len() > 0 {
        let x0 = x.drop_last();
        let e = x.last();
        lemma_products_coeff(x0, b, g);
        lemma_row_coeff(e, b, g);
        lemma_coeff_concat(products(x0, b), product_row(e, b), g);
        let part = if mono_is_zero(e.0) {
            0
        } else {
            e.1 * coeff(b, mono_reduced(mono_div(g, e.0)))
        };
        lemma_wrap_add(coeff(products(x0, b), g), coeff(product_row(e, b), g));
        lemma_wrap_add(convolution(x0, b, g), part);
    }
}

/// A coefficient of a monomial that is not canonical is 0.
pub proof fn lemma_coeff_not_reduced(t: Terms, g: Mono)
    requires
        mono_reduced(g) != g,
    ensures
        coeff(t, g) == 0,
    decreases t.len(),
{
    if t.len() > 0 {
        lemma_coeff_not_reduced(t.drop_last(), g);
        assert(mono_reduced(mono_reduced(t.last().0)) =~= mono_reduced(t.last().0));
    }
}

/// The convolution is additive, modulo 2^128, in the coefficients of its
/// second argument.
pub proof fn lemma_convolution_additive(x: Terms, c: Terms, y: Terms, z: Terms, g: Mono)
    requires
        forall|h: Mono| wrap(coeff(c, h)) == wrap(coeff(y, h) + coeff(z, h)),
    ensures
        wrap(convolution(x, c, g)) == wrap(convolution(x, y, g) + convolution(x, z, g)),
    decreases x.len(),
{
    if x.len() > 0 {
        let x0 = x.drop_last();
        let e = x.last();
        lemma_convolution_additive(x0, c, y, z, g);
        let h = mono_reduced(mono_div(g, e.0));
        let w = e.1 as int;
        if mono_is_zero(e.0) {
        } else {
            let cc = coeff(c, h);
            let cy = coeff(y, h);
            let cz = coeff(z, h);
            assert(wrap(cc) == wrap(cy + cz));
            lemma_wrap_mul(w, cc);
            lemma_wrap_mul(w, cy + cz);
            assert(wrap(w * cc) == wrap(w * (cy + cz)));
            assert(w * (cy + cz) == w * cy + w * cz) by (nonlinear_arith);
            lemma_wrap_add(convolution(x0, c, g), w * cc);
            lemma_wrap_add(convolution(x0, y, g) + convolution(x0, z, g), w * cy + w * cz);
            lemma_wrap_add(convolution(x0, c, g), w * cy + w * cz);
        }
    }
}

/// The products of terms over monomials of finitely many names are such.
pub proof fn lemma_products_finite(a: Terms, b: Terms)
    requires
        terms_finite(a),
        terms_finite(b),
    ensures
        terms_finite(products(a, b)),
    decreases a.len(),
{
    if a.len() > 0 {
        let a0 = a.drop_last();
        assert(terms_finite(a0)) by {
            assert forall|i: int| 0 <= i < a0.len() implies (#[trigger] a0[i]).0.dom().finite() by {
                assert(a0[i] == a[i]);
            }
        }
        lemma_products_finite(a0, b);
        let row = product_row(a.last(), b);
        assert(a.last() == a[a.len() - 1]);
        assert(terms_finite(row)) by {
            assert forall|j: int| 0 <= j < row.len() implies (#[trigger] row[j]).0.dom().finite() by {
                assert(b[j].0.dom().finite());
                lemma_mono_finite(a.last().0, b[j].0);
            }
        }
        lemma_concat_finite(products(a0, b), row);
    }
}

/// Multiplication of weighted sums distributes over addition, for summands
/// free of the additive zero.
#[verifier::rlimit(40)]
pub proof fn lemma_mul_distributive(x: WeightedSum, y: WeightedSum, z: WeightedSum)
    requires
        x.wf(),
        y.wf(),
        z.wf(),
        terms_nonzero(y@),
        terms_nonzero(z@),
    ensures
        ws_mul(x@, ws_add(y@, z@)) == ws_add(ws_mul(x@, y@), ws_mul(x@, z@)),
{
    x.lemma_valid();
    y.lemma_valid();
    z.lemma_valid();
    lemma_concat_finite(y@, z@);
    lemma_canonical_form_exists(y@ + z@);
    let c = ws_add(y@, z@);
    lemma_products_finite(x@, c);
    lemma_products_finite(x@, y@);
    lemma_products_finite(x@, z@);
    lemma_canonical_form_exists(products(x@, y@));
    lemma_canonical_form_exists(products(x@, z@));
    let xy = ws_mul(x@, y@);
    let xz = ws_mul(x@, z@);
    lemma_concat_finite(xy, xz);
    assert forall|h: Mono| wrap(coeff(c, h)) == wrap(coeff(y@, h) + coeff(z@, h)) by {
        lemma_coeff_concat(y@, z@, h);
        assert(coeff(c, h) == wrap(coeff(y@ + z@, h)));
        lemma_canonical_coeff_range(c, h);
    }
    assert forall|g: Mono| wrap(coeff(products(x@, c), g)) == wrap(coeff(xy + xz, g)) by {
        lemma_coeff_concat(xy, xz, g);
        assert(coeff(xy, g) == wrap(coeff(products(x@, y@), g)));
        assert(coeff(xz, g) == wrap(coeff(products(x@, z@), g)));
        if mono_reduced(g) == g {
            lemma_products_coeff(x@, c, g);
            lemma_products_coeff(x@, y@, g);
            lemma_products_coeff(x@, z@, g);
            lemma_convolution_additive(x@, c, y@, z@, g);
            lemma_wrap_add(convolution(x@, y@, g), convolution(x@, z@, g));
            lemma_wrap_add(coeff(products(x@, y@), g), coeff(products(x@, z@), g));
        } else {
            lemma_coeff_not_reduced(products(x@, c), g);
            lemma_coeff_not_reduced(products(x@, y@), g);
            lemma_coeff_not_reduced(products(x@, z@), g);
        }
    }
    lemma_canonical_form_congruent(products(x@, c), xy + xz);
}

/// Sorted canonical terms are their own canonical form.
pub proof fn lemma_canonical_form_fixed(t: Terms)
    requires
        terms_sorted(t),
        terms_canonical(t),
    ensures
        canonical_form(t) == t,
{
    assert forall|g: Mono| #[trigger] coeff(t, g) == wrap(coeff(t, g)) by {
        lemma_canonical_coeff_range(t, g);
    }
    lemma_canonical_form_is(t, t);
}

/// Bringing a weighted sum into canonical form twice gives what doing it
/// once gives.
pub proof fn lemma_canonical_form_idempotent(x: WeightedSum)
    requires
        x.wf(),
    ensures
        canonical_form(canonical_form(x@)) == canonical_form(x@),
{
    x.lemma_valid();
    lemma_canonical_form_exists(x@);
    lemma_canonical_form_fixed(canonical_form(x@));
}

impl core::ops::Add<WeightedSum> for WeightedSum {
    type Output = WeightedSum;

    /// The sum of two weighted sums.
    fn add(self, rhs: WeightedSum) -> (r: WeightedSum)
        ensures
            r@ == ws_add(self@, rhs@),
    {
        WeightedSum::add(&self, &rhs)
    }
}

impl vstd::std_specs::ops::AddSpecImpl<WeightedSum> for WeightedSum {
    open spec fn obeys_add_spec() -> bool {
        false
    }

    open spec fn add_req(self, rhs: WeightedSum) -> bool {
        true
    }

    open spec fn add_spec(self, rhs: WeightedSum) -> WeightedSum {
        arbitrary()
    }
}

impl core::ops::AddAssign<WeightedSum> for WeightedSum {
    /// Adds the weighted sum `rhs`.
    fn add_assign(&mut self, rhs: WeightedSum)
        ensures
            final(self)@ == ws_add(old(self)@, rhs@),
    {
        WeightedSum::add_assign(self, &rhs);
    }
}

impl core::ops::Add<PoweredProduct> for WeightedSum {
    type Output = WeightedSum;

    /// The sum of a weighted sum and a monomial.
    fn add(self, rhs: PoweredProduct) -> (r: WeightedSum)
        ensures
            r@ == ws_add(self@, seq![(rhs@, 1 as Int)]),
    {
        let mut r = self;
        r.add_assign_key(rhs);
        r
    }
}

impl vstd::std_specs::ops::AddSpecImpl<PoweredProduct> for WeightedSum {
    open spec fn obeys_add_spec() -> bool {
        false
    }

    open spec fn add_req(self, rhs: PoweredProduct) -> bool {
        true
    }

    open spec fn add_spec(self, rhs: PoweredProduct) -> WeightedSum {
        arbitrary()
    }
}

impl core::ops::AddAssign<PoweredProduct> for WeightedSum {
    /// Adds the monomial `rhs` with weight 1.
    fn add_assign(&mut self, rhs: PoweredProduct)
        ensures
            final(self)@ == ws_add(old(self)@, seq![(rhs@, 1 as Int)]),
    {
        self.add_assign_key(rhs);
    }
}

impl core::ops::Sub<WeightedSum> for WeightedSum {
    type Output = WeightedSum;

    /// The difference of two weighted sums.
    fn sub(self, rhs: WeightedSum) -> (r: WeightedSum)
        ensures
            r@ == ws_sub(self@, rhs@),
    {
        WeightedSum::sub(&self, &rhs)
    }
}

impl vstd::std_specs::ops::SubSpecImpl<WeightedSum> for WeightedSum {
    open spec fn obeys_sub_spec() -> bool {
        false
    }

    open spec fn sub_req(self, rhs: WeightedSum) -> bool {
        true
    }

    open spec fn sub_spec(self, rhs: WeightedSum) -> WeightedSum {
        arbitrary()
    }
}

impl core::ops::SubAssign<WeightedSum> for WeightedSum {
    /// Subtracts the weighted sum `rhs`.
    fn sub_assign(&mut self, rhs: WeightedSum)
        ensures
            final(self)@ == ws_sub(old(self)@, rhs@),
    {
        WeightedSum::sub_assign(self, &rhs);
    }
}

impl core::ops::Sub<PoweredProduct> for WeightedSum {
    type Output = WeightedSum;

    /// The difference of a weighted sum and a monomial.
    fn sub(self, rhs: PoweredProduct) -> (r: WeightedSum)
        ensures
            r@ == ws_sub(self@, seq![(rhs@, 1 as Int)]),
    {
        let mut r = self;
        r.sub_assign_key(rhs);
        r
    }
}

impl vstd::std_specs::ops::SubSpecImpl<PoweredProduct> for WeightedSum {
    open spec fn obeys_sub_spec() -> bool {
        false
    }

    open spec fn sub_req(self, rhs: PoweredProduct) -> bool {
        true
    }

    open spec fn sub_spec(self, rhs: PoweredProduct) -> WeightedSum {
        arbitrary()
    }
}

impl core::ops::SubAssign<PoweredProduct> for WeightedSum {
    /// Subtracts the monomial `rhs` with weight 1.
    fn sub_assign(&mut self, rhs: PoweredProduct)
        ensures
            final(self)@ == ws_sub(old(self)@, seq![(rhs@, 1 as Int)]),
    {
        self.sub_assign_key(rhs);
    }
}

impl core::ops::MulAssign<Int> for WeightedSum {
    /// Multiplies every weight by `rhs`.
    fn mul_assign(&mut self, rhs: Int)
        ensures
            final(self)@ == ws_scale(old(self)@, rhs),
    {
        self.mul_assign_scalar(rhs);
    }
}

impl core::ops::Neg for WeightedSum {
    type Output = WeightedSum;

    /// The negation of a weighted sum.
    fn neg(self) -> (r: WeightedSum)
        ensures
            r@ == terms_neg(self@),
    {
        WeightedSum::neg(&self)
    }
}

impl vstd::std_specs::ops::NegSpecImpl for WeightedSum {
    open spec fn obeys_neg_spec() -> bool {
        false
    }

    open spec fn neg_req(self) -> bool {
        true
    }

    open spec fn neg_spec(self) -> WeightedSum {
        arbitrary()
    }
}

impl core::ops::Mul<WeightedSum> for WeightedSum {
    type Output = WeightedSum;

    /// The product of two weighted sums.
    fn mul(self, rhs: WeightedSum) -> (r: WeightedSum)
        ensures
            r@ == ws_mul(self@, rhs@),
    {
        WeightedSum::mul(&self, &rhs)
    }
}

impl vstd::std_specs::ops::MulSpecImpl<WeightedSum> for WeightedSum {
    open spec fn obeys_mul_spec() -> bool {
        false
    }

    open spec fn mul_req(self, rhs: WeightedSum) -> bool {
        true
    }

    open spec fn mul_spec(self, rhs: WeightedSum) -> WeightedSum {
        arbitrary()
    }
}

impl<'a, 'b> core::ops::Mul<&'b WeightedSum> for &'a WeightedSum {
    type Output = WeightedSum;

    /// The product of two weighted sums.
    fn mul(self, rhs: &'b WeightedSum) -> (r: WeightedSum)
        ensures
            r@ == ws_mul(self@, rhs@),
    {
        WeightedSum::mul(self, rhs)
    }
}

impl<'a, 'b> vstd::std_specs::ops::MulSpecImpl<&'b WeightedSum> for &'a WeightedSum {
    open spec fn obeys_mul_spec() -> bool {
        false
    }

    open spec fn mul_req(self, rhs: &'b WeightedSum) -> bool {
        true
    }

    open spec fn mul_spec(self, rhs: &'b WeightedSum) -> WeightedSum {
        arbitrary()
    }
}

impl core::ops::Div<WeightedSum> for WeightedSum {
    type Output = WeightedSum;

    /// The termwise quotient of two weighted sums.
    fn div(self, rhs: WeightedSum) -> (r: WeightedSum)
        ensures
            r@ == ws_div(self@, rhs@),
    {
        WeightedSum::div(&self, &rhs)
    }
}

impl vstd::std_specs::ops::DivSpecImpl<WeightedSum> for WeightedSum {
    open spec fn obeys_div_spec() -> bool {
        false
    }

    open spec fn div_req(self, rhs: WeightedSum) -> bool {
        self@.len() > 0 ==> weights_nonzero(rhs@)
    }

    open spec fn div_spec(self, rhs: WeightedSum) -> WeightedSum {
        arbitrary()
    }
}

impl<'a, 'b> core::ops::Div<&'b WeightedSum> for &'a WeightedSum {
    type Output = WeightedSum;

    /// The termwise quotient of two weighted sums.
    fn div(self, rhs: &'b WeightedSum) -> (r: WeightedSum)
        ensures
            r@ == ws_div(self@, rhs@),
    {
        WeightedSum::div(self, rhs)
    }
}

impl<'a, 'b> vstd::std_specs::ops::DivSpecImpl<&'b WeightedSum> for &'a WeightedSum {
    open spec fn obeys_div_spec() -> bool {
        false
    }

    open spec fn div_req(self, rhs: &'b WeightedSum) -> bool {
        self@.len() > 0 ==> weights_nonzero(rhs@)
    }

    open spec fn div_spec(self, rhs: &'b WeightedSum) -> WeightedSum {
        arbitrary()
    }
}

} // verus!
