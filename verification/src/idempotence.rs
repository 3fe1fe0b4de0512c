//! Simplifying a transfer function twice gives what simplifying it once
//! gives, for transfer functions whose coefficients are in canonical form.

use vstd::prelude::*;
use crate::integer::{wrap, trunc_div, lemma_wrap_add, lemma_wrap_id, Int};
use crate::sym::{zero_name, one_name};
use crate::powered_product::{Mono, common_factor, mono_common, mono_is_one, mono_is_zero,
    mono_reduced, mono_div, exp, lemma_common_factor, lemma_mono_finite};
use crate::weighted_sum::{Terms, terms_keys, terms_sorted, terms_finite, terms_canonical,
    terms_is_zero, term_degenerate, term_part, coeff, canonical_form, canonical_of, quotients,
    quotient_row, ws_div, effective, lemma_exponent_shift, lemma_coeff_concat,
    lemma_canonical_form_exists, lemma_canonical_form_fixed, lemma_canonical_coeff_nonzero,
    lemma_canonical_coeff_at, lemma_canonical_coeff_range, lemma_concat_finite};
use crate::polynomial::{Coeffs, poly_unscale, poly_is_zero};
use crate::transfer_function::{Ratio, Tf, poly_keys, tf_keys, factor_terms, factor_removed,
    origin_cancels, origin_cancelled, poly_tail, poly_canonical, poly_is_canonical, tf_simplified,
    tf_is_simplified};

verus! {

/// The terms are sorted and canonical, over monomials of finitely many names.
pub open spec fn terms_good(t: Terms) -> bool {
    terms_sorted(t) && terms_finite(t) && terms_canonical(t)
}

/// Every coefficient of the polynomial is sorted and canonical.
pub open spec fn poly_good(p: Coeffs) -> bool {
    forall|i: int| 0 <= i < p.len() ==> terms_good(#[trigger] p[i])
}

/// Some coefficient of the polynomial has a term with the monomial `m`.
pub open spec fn poly_has_key(p: Coeffs, m: Mono) -> bool {
    exists|i: int, j: int| 0 <= i < p.len() && 0 <= j < p[i].len() && (#[trigger] p[i][j]).0 == m
}

/// The monomials of a polynomial are those of the terms of its coefficients.
#[verifier::rlimit(40)]
pub proof fn lemma_poly_keys(p: Coeffs, m: Mono)
    ensures
        poly_keys(p).contains(m) == poly_has_key(p, m),
    decreases p.len(),
{
    if p.len() > 0 {
        let front = p.drop_last();
        let t = p.last();
        lemma_poly_keys(front, m);
        let ks = poly_keys(front) + terms_keys(t);
        if poly_keys(p).contains(m) {
            let k = choose|k: int| 0 <= k < ks.len() && ks[k] == m;
            if k < poly_keys(front).len() {
                assert(poly_keys(front)[k] == m);
                assert(poly_keys(front).contains(m));
                let (i, j) = choose|i: int, j: int|
                    0 <= i < front.len() && 0 <= j < front[i].len() && (#[trigger] front[i][j]).0 == m;
                assert(p[i][j].0 == m);
            } else {
                let j = k - poly_keys(front).len();
                assert(terms_keys(t)[j] == m);
                assert(p[p.len() - 1][j].0 == m);
            }
        }
        if poly_has_key(p, m) {
            let (i, j) = choose|i: int, j: int|
                0 <= i < p.len() && 0 <= j < p[i].len() && (#[trigger] p[i][j]).0 == m;
            if i < front.len() {
                assert(front[i][j].0 == m);
                assert(poly_has_key(front, m));
                let k = choose|k: int| 0 <= k < poly_keys(front).len() && poly_keys(front)[k] == m;
                assert(ks[k] == m);
            } else {
                assert(terms_keys(t)[j] == m);
                assert(ks[poly_keys(front).len() + j] == m);
            }
        }
    }
}

/// The monomials of a transfer function are those of its two polynomials.
pub proof fn lemma_tf_keys(a: Ratio, m: Mono)
    ensures
        tf_keys(a).contains(m) == (poly_has_key(a.0, m) || poly_has_key(a.1, m)),
{
    lemma_poly_keys(a.0, m);
    lemma_poly_keys(a.1, m);
    let ks = tf_keys(a);
    if ks.contains(m) {
        let k = choose|k: int| 0 <= k < ks.len() && ks[k] == m;
        if k < poly_keys(a.0).len() {
            assert(poly_keys(a.0)[k] == m);
        } else {
            assert(poly_keys(a.1)[k - poly_keys(a.0).len()] == m);
        }
    }
    if poly_keys(a.0).contains(m) {
        let k = choose|k: int| 0 <= k < poly_keys(a.0).len() && poly_keys(a.0)[k] == m;
        assert(ks[k] == m);
    }
    if poly_keys(a.1).contains(m) {
        let k = choose|k: int| 0 <= k < poly_keys(a.1).len() && poly_keys(a.1)[k] == m;
        assert(ks[poly_keys(a.0).len() + k] == m);
    }
}

/// The canonical quotient of the monomial `k` by `c`.
pub open spec fn shifted(k: Mono, c: Mono) -> Mono {
    mono_reduced(mono_div(k, c))
}

/// Canonical monomials with the same canonical quotient by `c` are equal.
pub proof fn lemma_shifted_injective(k1: Mono, k2: Mono, c: Mono)
    requires
        mono_reduced(k1) == k1,
        mono_reduced(k2) == k2,
        shifted(k1, c) == shifted(k2, c),
    ensures
        k1 == k2,
{
    assert forall|n: Seq<char>| effective(k1, n) == effective(k2, n) by {
        lemma_exponent_shift(c, mono_div(k1, c), k1, n);
        lemma_exponent_shift(c, mono_div(k2, c), k2, n);
        let e1 = effective(k1, n) as int;
        let e2 = effective(k2, n) as int;
        let ec = effective(c, n) as int;
        assert(effective(shifted(k1, c), n) == wrap(e1 - ec));
        assert(effective(shifted(k2, c), n) == wrap(e2 - ec));
        lemma_wrap_add(e1 - ec, ec);
        lemma_wrap_add(e2 - ec, ec);
        lemma_wrap_id(effective(k1, n));
        lemma_wrap_id(effective(k2, n));
    }
    assert forall|n: Seq<char>| #[trigger] k1.dom().contains(n) == k2.dom().contains(n) by {
        lemma_exponent_shift(c, k1, k1, n);
        lemma_exponent_shift(c, k2, k2, n);
        assert(effective(k1, n) == effective(k2, n));
    }
    assert forall|n: Seq<char>| k1.dom().contains(n) implies #[trigger] k1[n] == k2[n] by {
        lemma_exponent_shift(c, k1, k1, n);
        lemma_exponent_shift(c, k2, k2, n);
        assert(effective(k1, n) == effective(k2, n));
    }
    assert(k1 =~= k2);
}

/// The quotient of a monomial without an entry for the zero name by
/// another such monomial is not the additive zero.
pub proof fn lemma_quotient_not_zero(k: Mono, c: Mono)
    requires
        !k.dom().contains(zero_name()),
        !c.dom().contains(zero_name()),
    ensures
        !mono_is_zero(mono_div(k, c)),
{
}

/// A canonical monomial that is not the additive zero has no entry for the
/// zero name, none for the one name, and no exponent 0.
pub proof fn lemma_canonical_key(k: Mono)
    requires
        mono_reduced(k) == k,
        !mono_is_zero(k),
    ensures
        !k.dom().contains(zero_name()),
        !k.dom().contains(one_name()),
        forall|n: Seq<char>| k.dom().contains(n) ==> #[trigger] k[n] != 0,
{
    assert forall|n: Seq<char>| k.dom().contains(n) implies #[trigger] k[n] != 0 && n
        != one_name() by {
        assert(mono_reduced(k).dom().contains(n));
    }
}

/// The terms of `t` divided by the monomial `c` with weight 1.
pub open spec fn divided_terms(t: Terms, c: Mono) -> Terms {
    quotients(t, factor_terms(c))
}

/// Dividing by a monomial with weight 1 keeps the part of a term for its
/// canonical quotient.
pub proof fn lemma_divided_row(e: (Mono, Int), c: Mono, g: Mono)
    requires
        !e.0.dom().contains(zero_name()),
        !c.dom().contains(zero_name()),
    ensures
        coeff(quotient_row(e, factor_terms(c)), g) == (if shifted(e.0, c) == g {
            e.1 as int
        } else {
            0
        }),
{
    let row = quotient_row(e, factor_terms(c));
    assert(row.len() == 1);
    assert(row.drop_last() =~= Seq::<(Mono, Int)>::empty());
    assert(coeff(row.drop_last(), g) == 0);
    assert(trunc_div(e.1 as int, 1) == e.1);
    lemma_wrap_id(e.1);
    assert(row.last() == (mono_div(e.0, c), e.1));
    lemma_quotient_not_zero(e.0, c);
}

/// The coefficients of canonical terms divided by `c`: the weight of a term
/// for its canonical quotient.
pub proof fn lemma_divided_coeff_at(t: Terms, c: Mono, j: int)
    requires
        terms_canonical(t),
        !c.dom().contains(zero_name()),
        0 <= j < t.len(),
    ensures
        coeff(divided_terms(t, c), shifted(t[j].0, c)) == t[j].1,
    decreases t.len(),
{
    let g = shifted(t[j].0, c);
    let t0 = t.drop_last();
    let e = t.last();
    assert(e == t[t.len() - 1]);
    crate::weighted_sum::lemma_canonical_prefix(t, t.len() - 1);
    assert(t.take(t.len() - 1) =~= t0);
    lemma_canonical_key(e.0);
    lemma_divided_row(e, c, g);
    lemma_coeff_concat(divided_terms(t0, c), quotient_row(e, factor_terms(c)), g);
    if j == t.len() - 1 {
        assert forall|i: int| 0 <= i < t0.len() implies shifted((#[trigger] t0[i]).0, c) != g by {
            assert(t0[i] == t[i]);
            if shifted(t0[i].0, c) == g {
                lemma_shifted_injective(t[i].0, t[j].0, c);
            }
        }
        lemma_divided_coeff_absent(t0, c, g);
    } else {
        assert(t0[j] == t[j]);
        lemma_divided_coeff_at(t0, c, j);
        if shifted(e.0, c) == g {
            lemma_shifted_injective(e.0, t[j].0, c);
        }
    }
}

/// The coefficients of canonical terms divided by `c`: 0 for a monomial
/// that is the canonical quotient of none of them.
pub proof fn lemma_divided_coeff_absent(t: Terms, c: Mono, g: Mono)
    requires
        terms_canonical(t),
        !c.dom().contains(zero_name()),
        forall|i: int| 0 <= i < t.len() ==> shifted((#[trigger] t[i]).0, c) != g,
    ensures
        coeff(divided_terms(t, c), g) == 0,
    decreases t.len(),
{
    if t.len() > 0 {
        let t0 = t.drop_last();
        let e = t.last();
        assert(e == t[t.len() - 1]);
        crate::weighted_sum::lemma_canonical_prefix(t, t.len() - 1);
        assert(t.take(t.len() - 1) =~= t0);
        lemma_canonical_key(e.0);
        lemma_divided_row(e, c, g);
        lemma_coeff_concat(divided_terms(t0, c), quotient_row(e, factor_terms(c)), g);
        assert forall|i: int| 0 <= i < t0.len() implies shifted((#[trigger] t0[i]).0, c) != g by {
            assert(t0[i] == t[i]);
        }
        lemma_divided_coeff_absent(t0, c, g);
    }
}

/// The terms divided by a monomial are over monomials of finitely many names.
pub proof fn lemma_divided_finite(t: Terms, c: Mono)
    requires
        terms_finite(t),
        c.dom().finite(),
    ensures
        terms_finite(divided_terms(t, c)),
    decreases t.len(),
{
    if t.len() > 0 {
        let t0 = t.drop_last();
        assert(terms_finite(t0)) by {
            assert forall|i: int| 0 <= i < t0.len() implies (#[trigger] t0[i]).0.dom().finite() by {
                assert(t0[i] == t[i]);
            }
        }
        lemma_divided_finite(t0, c);
        let row = quotient_row(t.last(), factor_terms(c));
        assert(t.last() == t[t.len() - 1]);
        assert(terms_finite(row)) by {
            assert forall|j: int| 0 <= j < row.len() implies (#[trigger] row[j]).0.dom().finite() by {
                lemma_mono_finite(t.last().0, c);
            }
        }
        lemma_concat_finite(divided_terms(t0, c), row);
    }
}

/// Canonical terms are the additive zero exactly where there are none.
pub proof fn lemma_canonical_zero(t: Terms)
    requires
        terms_canonical(t),
    ensures
        terms_is_zero(t) == (t.len() == 0),
{
    if t.len() > 0 {
        assert(!term_degenerate(t[0]));
    }
}

/// Cancelling the roots at the origin keeps sorted canonical coefficients,
/// and leaves nothing to cancel.
pub proof fn lemma_cancelled_good(a: Ratio)
    requires
        poly_good(a.0),
        poly_good(a.1),
    ensures
        poly_good(origin_cancelled(a).0),
        poly_good(origin_cancelled(a).1),
        !origin_cancels(origin_cancelled(a)),
    decreases a.0.len() + a.1.len(),
{
    if origin_cancels(a) {
        let b = (poly_tail(a.0), poly_tail(a.1));
        assert forall|i: int| 0 <= i < b.0.len() implies terms_good(#[trigger] b.0[i]) by {
            assert(b.0[i] == a.0[i + 1]);
        }
        assert forall|i: int| 0 <= i < b.1.len() implies terms_good(#[trigger] b.1[i]) by {
            assert(b.1[i] == a.1[i + 1]);
        }
        lemma_cancelled_good(b);
    }
}

/// What dividing sorted canonical terms by a monomial with weight 1 gives:
/// sorted canonical terms, one for the canonical quotient of each
/// monomial, and none where there was none.
#[verifier::rlimit(40)]
pub proof fn lemma_divided(t: Terms, c: Mono)
    requires
        terms_good(t),
        c.dom().finite(),
        !c.dom().contains(zero_name()),
    ensures
        terms_good(ws_div(t, factor_terms(c))),
        (ws_div(t, factor_terms(c)).len() == 0) == (t.len() == 0),
        forall|j: int|
            0 <= j < t.len() ==> terms_keys(ws_div(t, factor_terms(c))).contains(
                shifted((#[trigger] t[j]).0, c),
            ),
{
    let q = divided_terms(t, c);
    let d = ws_div(t, factor_terms(c));
    lemma_divided_finite(t, c);
    lemma_canonical_form_exists(q);
    assert(d == canonical_form(q));
    assert forall|j: int| 0 <= j < t.len() implies terms_keys(d).contains(
        shifted((#[trigger] t[j]).0, c),
    ) by {
        let g = shifted(t[j].0, c);
        lemma_divided_coeff_at(t, c, j);
        assert(coeff(d, g) == wrap(coeff(q, g)));
        lemma_wrap_id(t[j].1);
        let i = lemma_canonical_coeff_nonzero(d, g);
        assert(terms_keys(d)[i] == g);
    }
    if t.len() == 0 {
        if d.len() > 0 {
            lemma_canonical_coeff_at(d, 0);
            let g = d[0].0;
            lemma_divided_coeff_absent(t, c, g);
            assert(coeff(d, g) == wrap(coeff(q, g)));
        }
    } else {
        assert(terms_keys(d).contains(shifted(t[0].0, c)));
    }
}

/// The common factor of monomials of finitely many names that have no
/// entry for the zero name is such a monomial.
pub proof fn lemma_common_clean(ms: Seq<Mono>)
    requires
        forall|i: int|
            0 <= i < ms.len() ==> (#[trigger] ms[i]).dom().finite() && !ms[i].dom().contains(
                zero_name(),
            ),
    ensures
        common_factor(ms).dom().finite(),
        !common_factor(ms).dom().contains(zero_name()),
    decreases ms.len(),
{
    if ms.len() == 0 {
    } else if ms.len() == 1 {
    } else {
        let m0 = ms.drop_last();
        assert forall|i: int| 0 <= i < m0.len() implies (#[trigger] m0[i]).dom().finite()
            && !m0[i].dom().contains(zero_name()) by {
            assert(m0[i] == ms[i]);
        }
        lemma_common_clean(m0);
        let c0 = common_factor(m0);
        let c = mono_common(c0, ms.last());
        assert(c.dom().subset_of(c0.dom()));
        vstd::set_lib::lemma_set_subset_finite(c0.dom(), c.dom());
    }
}

/// The monomials of sorted canonical coefficients have finitely many
/// names, no entry for the zero or the one name, and no exponent 0.
pub proof fn lemma_good_keys(a: Ratio, k: Mono)
    requires
        poly_good(a.0),
        poly_good(a.1),
        tf_keys(a).contains(k),
    ensures
        k.dom().finite(),
        mono_reduced(k) == k,
        !k.dom().contains(zero_name()),
        !k.dom().contains(one_name()),
        forall|n: Seq<char>| k.dom().contains(n) ==> #[trigger] k[n] != 0,
{
    lemma_tf_keys(a, k);
    if poly_has_key(a.0, k) {
        let (i, j) = choose|i: int, j: int|
            0 <= i < a.0.len() && 0 <= j < a.0[i].len() && (#[trigger] a.0[i][j]).0 == k;
        assert(terms_good(a.0[i]));
        lemma_canonical_key(k);
    } else {
        let (i, j) = choose|i: int, j: int|
            0 <= i < a.1.len() && 0 <= j < a.1[i].len() && (#[trigger] a.1[i][j]).0 == k;
        assert(terms_good(a.1[i]));
        lemma_canonical_key(k);
    }
}

/// A polynomial of sorted canonical coefficients divided by a monomial:
/// sorted canonical coefficients, each the additive zero exactly where it
/// was, holding the canonical quotient of every monomial.
pub proof fn lemma_poly_divided(p: Coeffs, c: Mono)
    requires
        poly_good(p),
        c.dom().finite(),
        !c.dom().contains(zero_name()),
    ensures
        poly_good(poly_unscale(p, factor_terms(c))),
        poly_unscale(p, factor_terms(c)).len() == p.len(),
        forall|i: int|
            0 <= i < p.len() ==> terms_is_zero(#[trigger] poly_unscale(p, factor_terms(c))[i])
                == terms_is_zero(p[i]),
        forall|k: Mono|
            poly_has_key(p, k) ==> #[trigger] poly_has_key(
                poly_unscale(p, factor_terms(c)),
                shifted(k, c),
            ),
{
    let y = poly_unscale(p, factor_terms(c));
    assert forall|i: int| 0 <= i < p.len() implies terms_good(#[trigger] y[i]) && terms_is_zero(
        y[i],
    ) == terms_is_zero(p[i]) by {
        assert(terms_good(p[i]));
        lemma_divided(p[i], c);
        lemma_canonical_zero(p[i]);
        lemma_canonical_zero(y[i]);
    }
    assert forall|k: Mono| poly_has_key(p, k) implies #[trigger] poly_has_key(y, shifted(k, c)) by {
        let (i, j) = choose|i: int, j: int|
            0 <= i < p.len() && 0 <= j < p[i].len() && (#[trigger] p[i][j]).0 == k;
        assert(terms_good(p[i]));
        lemma_divided(p[i], c);
        let ks = terms_keys(y[i]);
        assert(ks.contains(shifted(p[i][j].0, c)));
        let m = choose|m: int| 0 <= m < ks.len() && ks[m] == shifted(k, c);
        assert(y[i][m].0 == shifted(k, c));
    }
}

/// A polynomial of sorted canonical coefficients is its own canonical form.
pub proof fn lemma_poly_canonical_fixed(p: Coeffs)
    requires
        poly_good(p),
    ensures
        poly_canonical(p) == p,
        poly_is_canonical(p),
{
    assert forall|i: int| 0 <= i < p.len() implies #[trigger] poly_canonical(p)[i] == p[i] by {
        assert(terms_good(p[i]));
        lemma_canonical_form_fixed(p[i]);
    }
    assert(poly_canonical(p) =~= p);
    assert forall|i: int| 0 <= i < p.len() implies terms_canonical(#[trigger] p[i]) by {
        assert(terms_good(p[i]));
    }
}

/// After the common factor `c` of the monomials of `a` has been divided
/// out, the common factor of the monomials is the multiplicative one.
#[verifier::rlimit(40)]
pub proof fn lemma_no_common_factor_left(a: Ratio, y: Ratio)
    requires
        poly_good(a.0),
        poly_good(a.1),
        tf_keys(a).len() > 0,
        forall|k: Mono|
            tf_keys(a).contains(k) ==> #[trigger] tf_keys(y).contains(
                shifted(k, common_factor(tf_keys(a))),
            ),
    ensures
        mono_is_one(common_factor(tf_keys(y))),
{
    let old = tf_keys(a);
    let new = tf_keys(y);
    let c = common_factor(old);
    let c2 = common_factor(new);
    assert(old.contains(old[0]));
    assert(new.contains(shifted(old[0], c)));
    assert(new.len() > 0);
    assert forall|n: Seq<char>| c2.dom().contains(n) implies n == one_name() || #[trigger] c2[n]
        == 0 by {
        lemma_common_factor(new, n);
        lemma_common_factor(old, n);
        if c.dom().contains(n) {
            let i0 = choose|i: int| 0 <= i < old.len() && (#[trigger] old[i])[n] == c[n];
            let k = old[i0];
            assert(old.contains(k));
            lemma_good_keys(a, k);
            let m = shifted(k, c);
            assert(new.contains(m));
            let i1 = choose|i: int| 0 <= i < new.len() && new[i] == m;
            assert(new[i1].dom().contains(n));
            lemma_exponent_shift(c, mono_div(k, c), k, n);
            assert(k.dom().contains(n));
            lemma_wrap_id(0);
            assert(false);
        } else {
            if exists|i: int| 0 <= i < old.len() && !(#[trigger] old[i]).dom().contains(n) {
                let i0 = choose|i: int| 0 <= i < old.len() && !(#[trigger] old[i]).dom().contains(n);
                let k = old[i0];
                assert(old.contains(k));
                let m = shifted(k, c);
                assert(new.contains(m));
                let i1 = choose|i: int| 0 <= i < new.len() && new[i] == m;
                assert(new[i1].dom().contains(n));
                lemma_exponent_shift(c, mono_div(k, c), k, n);
                lemma_wrap_id(0);
                assert(false);
            } else {
                assert(forall|i: int| 0 <= i < old.len() ==> (#[trigger] old[i]).dom().contains(n));
                let i1 = choose|i: int| 0 <= i < old.len() && !((#[trigger] old[i])[n] >= 0);
                let i2 = choose|i: int| 0 <= i < old.len() && !((#[trigger] old[i])[n] < 0);
                assert(old[i1][n] < 0 && old[i2][n] >= 0);
                let k1 = old[i1];
                let k2 = old[i2];
                assert(old.contains(k1) && old.contains(k2));
                lemma_good_keys(a, k1);
                lemma_good_keys(a, k2);
                let m1 = shifted(k1, c);
                let m2 = shifted(k2, c);
                assert(new.contains(m1) && new.contains(m2));
                let j1 = choose|i: int| 0 <= i < new.len() && new[i] == m1;
                let j2 = choose|i: int| 0 <= i < new.len() && new[i] == m2;
                lemma_exponent_shift(c, mono_div(k1, c), k1, n);
                lemma_exponent_shift(c, mono_div(k2, c), k2, n);
                lemma_wrap_id(k1[n]);
                lemma_wrap_id(k2[n]);
                assert(new[j1].dom().contains(n) && new[j2].dom().contains(n));
                assert(new[j1][n] < 0);
                assert(new[j2][n] > 0);
                assert(false);
            }
        }
    }
}

/// The simplified form of a transfer function with sorted canonical
/// coefficients counts as simplified: the common factor of its monomials
/// is the multiplicative one, and every coefficient is in canonical form.
#[verifier::rlimit(40)]
pub proof fn lemma_simplified_is_simplified(a: Ratio)
    requires
        poly_good(a.0),
        poly_good(a.1),
    ensures
        tf_is_simplified(tf_simplified(a)),
{
    lemma_cancelled_good(a);
    let b = origin_cancelled(a);
    let keys = tf_keys(b);
    let c = common_factor(keys);
    assert forall|i: int| 0 <= i < keys.len() implies (#[trigger] keys[i]).dom().finite()
        && !keys[i].dom().contains(zero_name()) by {
        assert(keys.contains(keys[i]));
        lemma_good_keys(b, keys[i]);
    }
    lemma_common_clean(keys);
    let f = factor_removed(b);
    let y = tf_simplified(a);
    if mono_is_one(c) {
        lemma_poly_canonical_fixed(b.0);
        lemma_poly_canonical_fixed(b.1);
        assert(y == b);
    } else {
        lemma_poly_divided(b.0, c);
        lemma_poly_divided(b.1, c);
        lemma_poly_canonical_fixed(f.0);
        lemma_poly_canonical_fixed(f.1);
        assert(y == f);
        assert(keys.len() > 0) by {
            if keys.len() == 0 {
                assert(c =~= Map::<Seq<char>, Int>::empty());
            }
        }
        assert forall|k: Mono| keys.contains(k) implies #[trigger] tf_keys(y).contains(
            shifted(k, c),
        ) by {
            lemma_tf_keys(b, k);
            lemma_tf_keys(y, shifted(k, c));
        }
        lemma_no_common_factor_left(b, y);
    }
}

/// Simplifying the simplified form of a transfer function with sorted
/// canonical coefficients changes nothing.
#[verifier::rlimit(40)]
pub proof fn lemma_simplified_fixed(a: Ratio)
    requires
        poly_good(a.0),
        poly_good(a.1),
    ensures
        tf_simplified(tf_simplified(a)) == tf_simplified(a),
{
    lemma_cancelled_good(a);
    let b = origin_cancelled(a);
    let keys = tf_keys(b);
    let c = common_factor(keys);
    assert forall|i: int| 0 <= i < keys.len() implies (#[trigger] keys[i]).dom().finite()
        && !keys[i].dom().contains(zero_name()) by {
        assert(keys.contains(keys[i]));
        lemma_good_keys(b, keys[i]);
    }
    lemma_common_clean(keys);
    let f = factor_removed(b);
    if mono_is_one(c) {
        lemma_poly_canonical_fixed(b.0);
        lemma_poly_canonical_fixed(b.1);
        let y = tf_simplified(a);
        assert(y == b);
        assert(origin_cancelled(y) == y);
    } else {
        lemma_poly_divided(b.0, c);
        lemma_poly_divided(b.1, c);
        lemma_poly_canonical_fixed(f.0);
        lemma_poly_canonical_fixed(f.1);
        let y = tf_simplified(a);
        assert(y == f);
        assert(!origin_cancels(y)) by {
            if b.0.len() > 0 {
                assert(terms_is_zero(f.0[0]) == terms_is_zero(b.0[0]));
            }
            if b.1.len() > 0 {
                assert(terms_is_zero(f.1[0]) == terms_is_zero(b.1[0]));
            }
        }
        assert(origin_cancelled(y) == y);
        assert(keys.len() > 0) by {
            if keys.len() == 0 {
                assert(c =~= Map::<Seq<char>, Int>::empty());
            }
        }
        assert forall|k: Mono| keys.contains(k) implies #[trigger] tf_keys(y).contains(
            shifted(k, c),
        ) by {
            lemma_tf_keys(b, k);
            lemma_tf_keys(y, shifted(k, c));
        }
        lemma_no_common_factor_left(b, y);
    }
}

impl<const Z: bool> Tf<Z> {
    /// Every coefficient is well formed.
    pub open spec fn coefficients_wf(&self) -> bool {
        &&& forall|i: int| 0 <= i < self.0.0@.len() ==> (#[trigger] self.0.0@[i]).0.wf()
        &&& forall|i: int| 0 <= i < self.1.0@.len() ==> (#[trigger] self.1.0@[i]).0.wf()
    }
}

/// Simplifying a transfer function whose coefficients are in canonical
/// form gives one that counts as simplified.
pub proof fn lemma_simplify_gives_simplified<const Z: bool>(x: Tf<Z>)
    requires
        x.coefficients_wf(),
        poly_is_canonical(x@.0),
        poly_is_canonical(x@.1),
    ensures
        tf_is_simplified(tf_simplified(x@)),
{
    assert forall|i: int| 0 <= i < x@.0.len() implies terms_good(#[trigger] x@.0[i]) by {
        assert(x.0.0@[i].0.wf());
        x.0.0@[i].0.lemma_valid();
    }
    assert forall|i: int| 0 <= i < x@.1.len() implies terms_good(#[trigger] x@.1[i]) by {
        assert(x.1.0@[i].0.wf());
        x.1.0@[i].0.lemma_valid();
    }
    lemma_simplified_is_simplified(x@);
}

/// Simplifying a transfer function twice gives what simplifying it once
/// gives, where every coefficient is in canonical form.
pub proof fn lemma_simplify_idempotent<const Z: bool>(x: Tf<Z>)
    requires
        x.coefficients_wf(),
        poly_is_canonical(x@.0),
        poly_is_canonical(x@.1),
    ensures
        tf_simplified(tf_simplified(x@)) == tf_simplified(x@),
{
    assert forall|i: int| 0 <= i < x@.0.len() implies terms_good(#[trigger] x@.0[i]) by {
        assert(x.0.0@[i].0.wf());
        x.0.0@[i].0.lemma_valid();
    }
    assert forall|i: int| 0 <= i < x@.1.len() implies terms_good(#[trigger] x@.1[i]) by {
        assert(x.1.0@[i].0.wf());
        x.1.0@[i].0.lemma_valid();
    }
    lemma_simplified_fixed(x@);
}

} // verus!
