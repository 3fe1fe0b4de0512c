//! Long division of polynomials gives back the dividend: where every
//! leading ratio is exact, the quotient times the divisor plus the
//! remainder equals the dividend, up to leading zero coefficients.

use vstd::prelude::*;
use crate::integer::{wrap, lemma_wrap_add, lemma_wrap_sub, lemma_wrap_id, Int};
use crate::powered_product::{Mono, mono_mul, mono_reduced, mono_is_zero, lemma_mono_finite};
use crate::weighted_sum::{Terms, terms_sorted, terms_finite, terms_canonical, terms_nonzero,
    terms_neg, term_part, coeff, canonical_form, canonical_of, products, product_row, quotients,
    quotient_row, ws_add, ws_sub, ws_mul, ws_div, convolution, terms_is_zero, lemma_coeff_concat,
    lemma_coeff_push, lemma_products_coeff, lemma_convolution_additive, lemma_coeff_not_reduced,
    lemma_coeff_neg, lemma_canonical_form_exists, lemma_canonical_unique, lemma_concat_finite,
    lemma_products_finite, lemma_canonical_coeff_range};
use crate::polynomial::{Coeffs, Polynomial, poly_add, poly_sub, poly_mul, poly_shl, longer,
    convolution_sum, convolution_low, convolution_high, division, division_ratio, division_scale};
use crate::idempotence::{terms_good, poly_good, lemma_canonical_zero};
use crate::transfer_function::poly_is_canonical;
use crate::weighted_sum::lemma_canonical_coeff_at;

verus! {

/// The coefficient of the power `i`: the sum without terms beyond the end.
pub open spec fn at(p: Coeffs, i: int) -> Terms {
    if 0 <= i < p.len() {
        p[i]
    } else {
        Seq::empty()
    }
}

/// Two polynomials have the same coefficient at every power, coefficients
/// beyond the end counting as the additive zero.
pub open spec fn poly_equivalent(x: Coeffs, y: Coeffs) -> bool {
    forall|i: int| 0 <= i ==> #[trigger] at(x, i) == at(y, i)
}

/// The coefficient of `g` in the products of the terms of `s` and `t`.
pub open spec fn pair_coeff(s: Terms, t: Terms, g: Mono) -> int {
    coeff(products(s, t), g)
}

/// The products of a concatenation are the concatenation of the products.
pub proof fn lemma_products_concat(u: Terms, v: Terms, t: Terms)
    ensures
        products(u + v, t) == products(u, t) + products(v, t),
    decreases v.len(),
{
    if v.len() == 0 {
        assert(u + v =~= u);
        assert(products(u, t) + products(v, t) =~= products(u, t));
    } else {
        let v0 = v.drop_last();
        assert((u + v).drop_last() =~= u + v0);
        assert((u + v).last() == v.last());
        lemma_products_concat(u, v0, t);
        assert(products(u + v, t) =~= products(u, t) + products(v, t));
    }
}

/// The products with no terms are none.
pub proof fn lemma_products_empty(s: Terms)
    ensures
        products(s, Seq::empty()) == Seq::<(Mono, Int)>::empty(),
        products(Seq::empty(), s) == Seq::<(Mono, Int)>::empty(),
    decreases s.len(),
{
    if s.len() > 0 {
        lemma_products_empty(s.drop_last());
        assert(product_row(s.last(), Seq::empty()) =~= Seq::<(Mono, Int)>::empty());
        assert(products(s, Seq::empty()) =~= Seq::<(Mono, Int)>::empty());
    }
}

/// The product of two terms, in either order, adds the same to every coefficient.
pub proof fn lemma_term_product_commutes(e: (Mono, Int), f: (Mono, Int), g: Mono)
    ensures
        term_part((mono_mul(e.0, f.0), wrap(e.1 * f.1)), g) == term_part(
            (mono_mul(f.0, e.0), wrap(f.1 * e.1)),
            g,
        ),
{
    assert(mono_mul(e.0, f.0) =~= mono_mul(f.0, e.0));
    assert(e.1 * f.1 == f.1 * e.1) by (nonlinear_arith);
}

/// Appending a term to the second factor adds the products of that term
/// with the first factor.
pub proof fn lemma_products_push(s: Terms, t: Terms, f: (Mono, Int), g: Mono)
    ensures
        pair_coeff(s, t.push(f), g) == pair_coeff(s, t, g) + coeff(product_row(f, s), g),
    decreases s.len(),
{
    if s.len() == 0 {
        assert(product_row(f, s) =~= Seq::<(Mono, Int)>::empty());
    } else {
        let s0 = s.drop_last();
        let e = s.last();
        lemma_products_push(s0, t, f, g);
        lemma_coeff_concat(products(s0, t.push(f)), product_row(e, t.push(f)), g);
        lemma_coeff_concat(products(s0, t), product_row(e, t), g);
        let ef = (mono_mul(e.0, f.0), wrap(e.1 * f.1));
        let fe = (mono_mul(f.0, e.0), wrap(f.1 * e.1));
        assert(product_row(e, t.push(f)) =~= product_row(e, t).push(ef));
        lemma_coeff_push(product_row(e, t), ef, g);
        assert(product_row(f, s) =~= product_row(f, s0).push(fe));
        lemma_coeff_push(product_row(f, s0), fe, g);
        lemma_term_product_commutes(e, f, g);
    }
}

/// The coefficients of the products do not depend on the order of the factors.
pub proof fn lemma_products_commute(s: Terms, t: Terms, g: Mono)
    ensures
        pair_coeff(s, t, g) == pair_coeff(t, s, g),
    decreases t.len(),
{
    if t.len() == 0 {
        lemma_products_empty(s);
        assert(t =~= Seq::<(Mono, Int)>::empty());
    } else {
        let t0 = t.drop_last();
        let f = t.last();
        assert(t =~= t0.push(f));
        lemma_products_push(s, t0, f, g);
        lemma_products_commute(s, t0, g);
        lemma_coeff_concat(products(t0, s), product_row(f, s), g);
    }
}

/// The convolution with no terms is 0.
pub proof fn lemma_convolution_empty(x: Terms, g: Mono)
    ensures
        convolution(x, Seq::empty(), g) == 0,
    decreases x.len(),
{
    if x.len() > 0 {
        lemma_convolution_empty(x.drop_last(), g);
        let h = mono_reduced(crate::powered_product::mono_div(g, x.last().0));
        assert(coeff(Seq::<(Mono, Int)>::empty(), h) == 0);
        assert(x.last().1 * 0 == 0);
    }
}

/// Terms with the same coefficients modulo 2^128, both free of the
/// additive zero, give products with the same coefficients modulo 2^128.
pub proof fn lemma_products_congruent(c: Terms, w: Terms, t: Terms, g: Mono)
    requires
        terms_nonzero(c),
        terms_nonzero(w),
        forall|h: Mono| wrap(coeff(c, h)) == wrap(coeff(w, h)),
    ensures
        wrap(pair_coeff(c, t, g)) == wrap(pair_coeff(w, t, g)),
{
    lemma_products_commute(c, t, g);
    lemma_products_commute(w, t, g);
    if mono_reduced(g) == g {
        lemma_products_coeff(t, c, g);
        lemma_products_coeff(t, w, g);
        let e = Seq::<(Mono, Int)>::empty();
        assert forall|h: Mono| wrap(coeff(c, h)) == wrap(coeff(w, h) + coeff(e, h)) by {
            assert(coeff(e, h) == 0);
        }
        lemma_convolution_additive(t, c, w, e, g);
        lemma_convolution_empty(t, g);
    } else {
        lemma_coeff_not_reduced(products(t, c), g);
        lemma_coeff_not_reduced(products(t, w), g);
    }
}

/// The sum of two sorted canonical sums: sorted and canonical, with the
/// sums of the coefficients modulo 2^128.
pub proof fn lemma_add_good(u: Terms, v: Terms)
    requires
        terms_good(u),
        terms_good(v),
    ensures
        terms_good(ws_add(u, v)),
        forall|g: Mono| #[trigger] coeff(ws_add(u, v), g) == wrap(coeff(u, g) + coeff(v, g)),
{
    lemma_concat_finite(u, v);
    lemma_canonical_form_exists(u + v);
    assert forall|g: Mono| #[trigger] coeff(ws_add(u, v), g) == wrap(coeff(u, g) + coeff(v, g)) by {
        lemma_coeff_concat(u, v, g);
        assert(coeff(ws_add(u, v), g) == wrap(coeff(u + v, g)));
    }
}

/// The negated terms of terms over monomials of finitely many names are such.
pub proof fn lemma_neg_finite(v: Terms)
    requires
        terms_finite(v),
    ensures
        terms_finite(terms_neg(v)),
{
    assert forall|i: int| 0 <= i < terms_neg(v).len() implies (#[trigger] terms_neg(
        v,
    )[i]).0.dom().finite() by {
        assert(terms_neg(v)[i].0 == v[i].0);
    }
}

/// The difference of two sorted canonical sums: sorted and canonical, with
/// the differences of the coefficients modulo 2^128.
pub proof fn lemma_sub_good(u: Terms, v: Terms)
    requires
        terms_good(u),
        terms_good(v),
    ensures
        terms_good(ws_sub(u, v)),
        forall|g: Mono| #[trigger] coeff(ws_sub(u, v), g) == wrap(coeff(u, g) - coeff(v, g)),
{
    lemma_neg_finite(v);
    lemma_concat_finite(u, terms_neg(v));
    lemma_canonical_form_exists(u + terms_neg(v));
    assert forall|g: Mono| #[trigger] coeff(ws_sub(u, v), g) == wrap(coeff(u, g) - coeff(v, g)) by {
        lemma_coeff_concat(u, terms_neg(v), g);
        lemma_coeff_neg(v, g);
        assert(coeff(ws_sub(u, v), g) == wrap(coeff(u + terms_neg(v), g)));
        lemma_wrap_add(coeff(u, g), coeff(terms_neg(v), g));
        lemma_wrap_add(coeff(u, g), -coeff(v, g));
    }
}

/// The product of two sorted canonical sums: sorted and canonical, with the
/// coefficients of the products modulo 2^128.
pub proof fn lemma_mul_good(u: Terms, v: Terms)
    requires
        terms_finite(u),
        terms_finite(v),
    ensures
        terms_good(ws_mul(u, v)),
        forall|g: Mono| #[trigger] coeff(ws_mul(u, v), g) == wrap(pair_coeff(u, v, g)),
{
    lemma_products_finite(u, v);
    lemma_canonical_form_exists(products(u, v));
}

/// The products of a sum of two sorted canonical sums with `t` have the
/// sums of the coefficients of the two products, modulo 2^128.
pub proof fn lemma_products_additive(u: Terms, v: Terms, t: Terms, g: Mono)
    requires
        terms_good(u),
        terms_good(v),
    ensures
        wrap(pair_coeff(ws_add(u, v), t, g)) == wrap(pair_coeff(u, t, g) + pair_coeff(v, t, g)),
{
    lemma_add_good(u, v);
    let c = ws_add(u, v);
    let w = u + v;
    assert(terms_nonzero(w)) by {
        assert forall|i: int| 0 <= i < w.len() implies !mono_is_zero((#[trigger] w[i]).0) by {
            if i < u.len() {
                assert(w[i] == u[i]);
            } else {
                assert(w[i] == v[i - u.len()]);
            }
        }
    }
    assert forall|h: Mono| wrap(coeff(c, h)) == wrap(coeff(w, h)) by {
        lemma_coeff_concat(u, v, h);
        assert(coeff(c, h) == wrap(coeff(u, h) + coeff(v, h)));
        lemma_canonical_coeff_range(c, h);
    }
    lemma_products_congruent(c, w, t, g);
    lemma_products_concat(u, v, t);
    lemma_coeff_concat(products(u, t), products(v, t), g);
}

/// The sum of the coefficients of `g` in the products of `x[i]` and
/// `y[n - i]` for `lo <= i < hi`.
pub open spec fn range_sum(x: Coeffs, y: Coeffs, n: int, g: Mono, lo: int, hi: int) -> int
    decreases hi - lo,
{
    if hi <= lo {
        0
    } else {
        range_sum(x, y, n, g, lo, hi - 1) + pair_coeff(x[hi - 1], y[n - (hi - 1)], g)
    }
}

/// The sum of the coefficients of `g` in the products of the coefficients
/// of the powers `i` of `x` and `n - i` of `y`, for `i` below `k`.
pub open spec fn full_sum(x: Coeffs, y: Coeffs, n: int, g: Mono, k: int) -> int
    decreases k,
{
    if k <= 0 {
        0
    } else {
        full_sum(x, y, n, g, k - 1) + pair_coeff(at(x, k - 1), at(y, n - (k - 1)), g)
    }
}

/// Powers at which one of the two coefficients is missing add nothing.
pub proof fn lemma_full_sum_skip(x: Coeffs, y: Coeffs, n: int, g: Mono, k1: int, k2: int)
    requires
        0 <= k1 <= k2,
        forall|i: int| k1 <= i < k2 ==> at(x, i).len() == 0 || #[trigger] at(y, n - i).len() == 0,
    ensures
        full_sum(x, y, n, g, k2) == full_sum(x, y, n, g, k1),
    decreases k2 - k1,
{
    if k2 > k1 {
        lemma_full_sum_skip(x, y, n, g, k1, k2 - 1);
        let i = k2 - 1;
        assert(at(x, i).len() == 0 || at(y, n - i).len() == 0);
        if at(x, i).len() == 0 {
            assert(at(x, i) =~= Seq::<(Mono, Int)>::empty());
            lemma_products_empty(at(y, n - i));
        } else {
            assert(at(y, n - i) =~= Seq::<(Mono, Int)>::empty());
            lemma_products_empty(at(x, i));
        }
    }
}

/// Over powers at which both coefficients exist, the sum over a range is
/// the difference of the sums up to its ends.
pub proof fn lemma_range_sum(x: Coeffs, y: Coeffs, n: int, g: Mono, lo: int, hi: int)
    requires
        0 <= lo <= hi <= x.len(),
        hi > lo ==> 0 <= n - (hi - 1),
        n - lo < y.len(),
    ensures
        range_sum(x, y, n, g, lo, hi) == full_sum(x, y, n, g, hi) - full_sum(x, y, n, g, lo),
    decreases hi - lo,
{
    if hi > lo {
        lemma_range_sum(x, y, n, g, lo, hi - 1);
    }
}

/// A sum of products of sorted canonical coefficients is sorted and
/// canonical, with the sum of the coefficients of the products modulo 2^128.
pub proof fn lemma_convolution_sum(x: Coeffs, y: Coeffs, n: int, lo: int, hi: int)
    requires
        poly_good(x),
        poly_good(y),
        0 <= lo < hi <= x.len(),
        0 <= n - (hi - 1),
        n - lo < y.len(),
    ensures
        terms_good(convolution_sum(x, y, n, lo, hi)),
        forall|g: Mono| #[trigger]
            coeff(convolution_sum(x, y, n, lo, hi), g) == wrap(range_sum(x, y, n, g, lo, hi)),
    decreases hi - lo,
{
    let last = ws_mul(x[hi - 1], y[n - (hi - 1)]);
    assert(terms_good(x[hi - 1]) && terms_good(y[n - (hi - 1)]));
    lemma_mul_good(x[hi - 1], y[n - (hi - 1)]);
    if hi == lo + 1 {
        assert forall|g: Mono| #[trigger]
            coeff(convolution_sum(x, y, n, lo, hi), g) == wrap(range_sum(x, y, n, g, lo, hi)) by {
            assert(range_sum(x, y, n, g, lo, hi - 1) == 0);
        }
    } else {
        lemma_convolution_sum(x, y, n, lo, hi - 1);
        let prev = convolution_sum(x, y, n, lo, hi - 1);
        lemma_add_good(prev, last);
        assert forall|g: Mono| #[trigger]
            coeff(convolution_sum(x, y, n, lo, hi), g) == wrap(range_sum(x, y, n, g, lo, hi)) by {
            assert(coeff(prev, g) == wrap(range_sum(x, y, n, g, lo, hi - 1)));
            assert(coeff(last, g) == wrap(pair_coeff(x[hi - 1], y[n - (hi - 1)], g)));
            lemma_wrap_add(
                range_sum(x, y, n, g, lo, hi - 1),
                pair_coeff(x[hi - 1], y[n - (hi - 1)], g),
            );
        }
    }
}

/// The product of two polynomials of sorted canonical coefficients: sorted
/// canonical coefficients, that of each power with the coefficients of the
/// sum of the products of the coefficients whose powers add up to it.
#[verifier::rlimit(40)]
pub proof fn lemma_poly_mul(x: Coeffs, y: Coeffs, n: int)
    requires
        poly_good(x),
        poly_good(y),
        0 <= n,
    ensures
        terms_good(at(poly_mul(x, y), n)),
        forall|g: Mono| #[trigger]
            coeff(at(poly_mul(x, y), n), g) == wrap(full_sum(x, y, n, g, n + 1)),
{
    let la = x.len() as int;
    let lb = y.len() as int;
    if la == 0 || lb == 0 || n >= la + lb - 1 {
        assert(at(poly_mul(x, y), n) =~= Seq::<(Mono, Int)>::empty());
        assert forall|g: Mono| #[trigger]
            coeff(at(poly_mul(x, y), n), g) == wrap(full_sum(x, y, n, g, n + 1)) by {
            lemma_full_sum_skip(x, y, n, g, 0, n + 1);
        }
    } else {
        let lo = convolution_low(y, n);
        let hi = convolution_high(x, n);
        lemma_convolution_sum(x, y, n, lo, hi);
        assert(at(poly_mul(x, y), n) == convolution_sum(x, y, n, lo, hi));
        assert forall|g: Mono| #[trigger]
            coeff(at(poly_mul(x, y), n), g) == wrap(full_sum(x, y, n, g, n + 1)) by {
            lemma_full_sum_skip(x, y, n, g, 0, lo);
            lemma_full_sum_skip(x, y, n, g, hi, n + 1);
            lemma_range_sum(x, y, n, g, lo, hi);
        }
    }
}

/// The product of polynomials of sorted canonical coefficients has such coefficients.
pub proof fn lemma_poly_mul_good(x: Coeffs, y: Coeffs)
    requires
        poly_good(x),
        poly_good(y),
    ensures
        poly_good(poly_mul(x, y)),
{
    let p = poly_mul(x, y);
    assert forall|i: int| 0 <= i < p.len() implies terms_good(#[trigger] p[i]) by {
        lemma_poly_mul(x, y, i);
        assert(at(p, i) == p[i]);
    }
}

/// The sum of two polynomials of sorted canonical coefficients: such
/// coefficients, with the sums of the coefficients modulo 2^128.
pub proof fn lemma_poly_add(x: Coeffs, y: Coeffs, n: int)
    requires
        poly_good(x),
        poly_good(y),
        0 <= n,
    ensures
        terms_good(at(poly_add(x, y), n)),
        forall|g: Mono| #[trigger]
            coeff(at(poly_add(x, y), n), g) == wrap(coeff(at(x, n), g) + coeff(at(y, n), g)),
{
    let r = at(poly_add(x, y), n);
    if n < x.len() && n < y.len() {
        assert(terms_good(x[n]) && terms_good(y[n]));
        lemma_add_good(x[n], y[n]);
    } else if n < x.len() {
        assert(terms_good(x[n]));
        assert forall|g: Mono| #[trigger] coeff(r, g) == wrap(coeff(at(x, n), g) + coeff(at(y, n), g)) by {
            lemma_canonical_coeff_range(r, g);
        }
    } else if n < y.len() {
        assert(terms_good(y[n]));
        assert forall|g: Mono| #[trigger] coeff(r, g) == wrap(coeff(at(x, n), g) + coeff(at(y, n), g)) by {
            lemma_canonical_coeff_range(r, g);
        }
    } else {
        assert(r =~= Seq::<(Mono, Int)>::empty());
    }
}

/// The sum of polynomials of sorted canonical coefficients has such coefficients.
pub proof fn lemma_poly_add_good(x: Coeffs, y: Coeffs)
    requires
        poly_good(x),
        poly_good(y),
    ensures
        poly_good(poly_add(x, y)),
{
    let p = poly_add(x, y);
    assert forall|i: int| 0 <= i < p.len() implies terms_good(#[trigger] p[i]) by {
        lemma_poly_add(x, y, i);
        assert(at(p, i) == p[i]);
    }
}

/// The difference of two polynomials of sorted canonical coefficients, the
/// second no longer than the first: such coefficients, with the
/// differences of the coefficients modulo 2^128.
pub proof fn lemma_poly_sub(x: Coeffs, y: Coeffs, n: int)
    requires
        poly_good(x),
        poly_good(y),
        y.len() <= x.len(),
        0 <= n,
    ensures
        terms_good(at(poly_sub(x, y), n)),
        forall|g: Mono| #[trigger]
            coeff(at(poly_sub(x, y), n), g) == wrap(coeff(at(x, n), g) - coeff(at(y, n), g)),
{
    let r = at(poly_sub(x, y), n);
    if n < y.len() {
        assert(terms_good(x[n]) && terms_good(y[n]));
        lemma_sub_good(x[n], y[n]);
    } else if n < x.len() {
        assert(terms_good(x[n]));
        assert forall|g: Mono| #[trigger] coeff(r, g) == wrap(coeff(at(x, n), g) - coeff(at(y, n), g)) by {
            lemma_canonical_coeff_range(r, g);
        }
    } else {
        assert(r =~= Seq::<(Mono, Int)>::empty());
    }
}

/// The sums of products are additive, modulo 2^128, in the first polynomial.
#[verifier::rlimit(40)]
pub proof fn lemma_full_sum_additive(x: Coeffs, s: Coeffs, y: Coeffs, n: int, g: Mono, k: int)
    requires
        poly_good(x),
        poly_good(s),
        0 <= k,
    ensures
        wrap(full_sum(poly_add(x, s), y, n, g, k)) == wrap(
            full_sum(x, y, n, g, k) + full_sum(s, y, n, g, k),
        ),
    decreases k,
{
    if k > 0 {
        lemma_full_sum_additive(x, s, y, n, g, k - 1);
        let i = k - 1;
        let t = at(y, n - i);
        let both = pair_coeff(at(poly_add(x, s), i), t, g);
        let one = pair_coeff(at(x, i), t, g);
        let two = pair_coeff(at(s, i), t, g);
        assert(wrap(both) == wrap(one + two)) by {
            if i < x.len() && i < s.len() {
                assert(terms_good(x[i]) && terms_good(s[i]));
                lemma_products_additive(x[i], s[i], t, g);
            } else if i < x.len() {
                lemma_products_empty(t);
            } else if i < s.len() {
                lemma_products_empty(t);
            } else {
                assert(at(poly_add(x, s), i) =~= Seq::<(Mono, Int)>::empty());
                lemma_products_empty(t);
            }
        }
        lemma_wrap_add(full_sum(poly_add(x, s), y, n, g, k - 1), both);
        lemma_wrap_add(full_sum(x, y, n, g, k - 1) + full_sum(s, y, n, g, k - 1), one + two);
        lemma_wrap_add(full_sum(poly_add(x, s), y, n, g, k - 1), one + two);
    }
}

/// The sums of products of a single coefficient `c` at the power `dn` with
/// a polynomial: the products of `c` with the coefficient `dn` powers below.
pub proof fn lemma_full_sum_single(c: Terms, dn: nat, b: Coeffs, n: int, g: Mono, k: int)
    requires
        0 <= k,
    ensures
        full_sum(poly_shl(seq![c], dn), b, n, g, k) == (if k > dn {
            pair_coeff(c, at(b, n - dn), g)
        } else {
            0
        }),
    decreases k,
{
    if k > 0 {
        lemma_full_sum_single(c, dn, b, n, g, k - 1);
        let scale = poly_shl(seq![c], dn);
        let i = k - 1;
        if i == dn {
            assert(at(scale, i) == c);
        } else {
            assert(at(scale, i) =~= Seq::<(Mono, Int)>::empty());
            lemma_products_empty(at(b, n - i));
        }
    }
}

/// Every leading ratio of the long division of `rem` by `b` is exact: the
/// ratio times the leading coefficient of the divisor is the leading
/// coefficient of the remainder.
pub open spec fn division_exact(rem: Coeffs, b: Coeffs) -> bool
    decreases rem.len(),
{
    if b.len() == 0 || rem.len() < b.len() || rem.len() == 0 {
        true
    } else {
        &&& ws_mul(division_ratio(rem, b), b.last()) == rem.last()
        &&& if terms_is_zero(division_ratio(rem, b)) {
            division_exact(rem.drop_last(), b)
        } else {
            division_exact(
                poly_sub(rem, poly_mul(division_scale(rem, b), b)).take(rem.len() - 1),
                b,
            )
        }
    }
}

/// The quotients of terms over monomials of finitely many names are such.
pub proof fn lemma_quotients_finite(a: Terms, b: Terms)
    requires
        terms_finite(a),
        terms_finite(b),
    ensures
        terms_finite(quotients(a, b)),
    decreases a.len(),
{
    if a.len() > 0 {
        let a0 = a.drop_last();
        assert(terms_finite(a0)) by {
            assert forall|i: int| 0 <= i < a0.len() implies (#[trigger] a0[i]).0.dom().finite() by {
                assert(a0[i] == a[i]);
            }
        }
        lemma_quotients_finite(a0, b);
        let row = quotient_row(a.last(), b);
        assert(a.last() == a[a.len() - 1]);
        assert(terms_finite(row)) by {
            assert forall|j: int| 0 <= j < row.len() implies (#[trigger] row[j]).0.dom().finite() by {
                assert(b[j].0.dom().finite());
                lemma_mono_finite(a.last().0, b[j].0);
            }
        }
        lemma_concat_finite(quotients(a0, b), row);
    }
}

/// Canonical terms whose coefficients are all 0 are none.
pub proof fn lemma_zero_coefficients(t: Terms)
    requires
        terms_canonical(t),
        forall|g: Mono| coeff(t, g) == 0,
    ensures
        t.len() == 0,
{
    if t.len() > 0 {
        lemma_canonical_coeff_at(t, 0);
    }
}

/// The remainder after a step of long division with a ratio that is not
/// the additive zero.
pub open spec fn step_remainder(rem: Coeffs, b: Coeffs) -> Coeffs {
    poly_sub(rem, poly_mul(division_scale(rem, b), b)).take(rem.len() - 1)
}

/// The quotient after a step of long division with a ratio that is not the
/// additive zero.
pub open spec fn step_quotient(rem: Coeffs, quo: Coeffs, b: Coeffs) -> Coeffs {
    poly_add(quo, division_scale(rem, b))
}

/// The ratio of the leading coefficients is sorted and canonical.
pub proof fn lemma_ratio_good(rem: Coeffs, b: Coeffs)
    requires
        poly_good(rem),
        poly_good(b),
        0 < b.len() <= rem.len(),
    ensures
        terms_good(division_ratio(rem, b)),
        terms_good(rem.last()),
        terms_good(b.last()),
{
    assert(rem.last() == rem[rem.len() - 1]);
    assert(b.last() == b[b.len() - 1]);
    assert(terms_good(rem.last()) && terms_good(b.last()));
    lemma_quotients_finite(rem.last(), b.last());
    lemma_canonical_form_exists(quotients(rem.last(), b.last()));
}

/// The ratio as a shifted polynomial has sorted canonical coefficients, and
/// its product with the divisor is as long as the remainder.
pub proof fn lemma_scale_good(rem: Coeffs, b: Coeffs)
    requires
        poly_good(rem),
        poly_good(b),
        0 < b.len() <= rem.len(),
    ensures
        poly_good(division_scale(rem, b)),
        poly_good(poly_mul(division_scale(rem, b), b)),
        poly_mul(division_scale(rem, b), b).len() == rem.len(),
{
    lemma_ratio_good(rem, b);
    let c = division_ratio(rem, b);
    let dn = (rem.len() - b.len()) as nat;
    let scale = division_scale(rem, b);
    assert forall|i: int| 0 <= i < scale.len() implies terms_good(#[trigger] scale[i]) by {
        if i < dn {
            assert(scale[i] =~= Seq::<(Mono, Int)>::empty());
        } else {
            assert(scale[i] == c);
        }
    }
    lemma_poly_mul_good(scale, b);
}

/// A step of long division keeps sorted canonical coefficients.
pub proof fn lemma_step_good(rem: Coeffs, quo: Coeffs, b: Coeffs)
    requires
        poly_good(rem),
        poly_good(quo),
        poly_good(b),
        0 < b.len() <= rem.len(),
    ensures
        poly_good(step_remainder(rem, b)),
        poly_good(step_quotient(rem, quo, b)),
        step_remainder(rem, b).len() == rem.len() - 1,
{
    lemma_scale_good(rem, b);
    let scale = division_scale(rem, b);
    let sub = poly_mul(scale, b);
    let d = poly_sub(rem, sub);
    let next = step_remainder(rem, b);
    assert forall|i: int| 0 <= i < next.len() implies terms_good(#[trigger] next[i]) by {
        lemma_poly_sub(rem, sub, i);
        assert(at(d, i) == d[i]);
        assert(next[i] == d[i]);
    }
    lemma_poly_add_good(quo, scale);
}

/// The coefficients of the product of the shifted ratio with the divisor.
pub proof fn lemma_scale_product(rem: Coeffs, b: Coeffs, n: int, g: Mono)
    requires
        poly_good(rem),
        poly_good(b),
        0 < b.len() <= rem.len(),
        0 <= n,
    ensures
        coeff(at(poly_mul(division_scale(rem, b), b), n), g) == wrap(
            full_sum(division_scale(rem, b), b, n, g, n + 1),
        ),
        n == rem.len() - 1 ==> coeff(at(poly_mul(division_scale(rem, b), b), n), g) == coeff(
            ws_mul(division_ratio(rem, b), b.last()),
            g,
        ),
{
    lemma_scale_good(rem, b);
    lemma_ratio_good(rem, b);
    let c = division_ratio(rem, b);
    let dn = (rem.len() - b.len()) as nat;
    let scale = division_scale(rem, b);
    lemma_poly_mul(scale, b, n);
    if n == rem.len() - 1 {
        lemma_full_sum_single(c, dn, b, n, g, n + 1);
        assert(at(b, n - dn) == b.last());
        lemma_mul_good(c, b.last());
    }
}

/// With an exact ratio the leading coefficient of the difference is the
/// additive zero, so that dropping it changes no coefficient.
pub proof fn lemma_step_remainder(rem: Coeffs, b: Coeffs, n: int, g: Mono)
    requires
        poly_good(rem),
        poly_good(b),
        0 < b.len() <= rem.len(),
        ws_mul(division_ratio(rem, b), b.last()) == rem.last(),
        0 <= n,
    ensures
        coeff(at(step_remainder(rem, b), n), g) == wrap(
            coeff(at(rem, n), g) - coeff(at(poly_mul(division_scale(rem, b), b), n), g),
        ),
{
    lemma_scale_good(rem, b);
    let nr = rem.len() as int;
    let scale = division_scale(rem, b);
    let sub = poly_mul(scale, b);
    let d = poly_sub(rem, sub);
    let next = step_remainder(rem, b);
    lemma_poly_sub(rem, sub, n);
    if n < nr - 1 {
        assert(next[n] == d[n]);
    } else if n == nr - 1 {
        lemma_scale_product(rem, b, n, g);
        assert(at(rem, n) == rem.last());
        assert(coeff(at(sub, n), g) == coeff(at(rem, n), g));
    }
}

/// A step of long division with an exact ratio keeps, at every power, the
/// coefficients of the quotient times the divisor plus the remainder,
/// modulo 2^128.
#[verifier::rlimit(40)]
pub proof fn lemma_step_value(rem: Coeffs, quo: Coeffs, b: Coeffs, n: int, g: Mono)
    requires
        poly_good(rem),
        poly_good(quo),
        poly_good(b),
        0 < b.len() <= rem.len(),
        ws_mul(division_ratio(rem, b), b.last()) == rem.last(),
        0 <= n,
    ensures
        wrap(
            coeff(at(poly_mul(step_quotient(rem, quo, b), b), n), g) + coeff(
                at(step_remainder(rem, b), n),
                g,
            ),
        ) == wrap(coeff(at(poly_mul(quo, b), n), g) + coeff(at(rem, n), g)),
{
    lemma_scale_good(rem, b);
    lemma_step_good(rem, quo, b);
    let scale = division_scale(rem, b);
    let quo1 = step_quotient(rem, quo, b);
    lemma_poly_mul(quo1, b, n);
    lemma_poly_mul(quo, b, n);
    lemma_scale_product(rem, b, n, g);
    lemma_step_remainder(rem, b, n, g);
    lemma_full_sum_additive(quo, scale, b, n, g, n + 1);
    let fq = full_sum(quo, b, n, g, n + 1);
    let fs = full_sum(scale, b, n, g, n + 1);
    let vr = coeff(at(rem, n), g);
    let vn = coeff(at(step_remainder(rem, b), n), g);
    assert(vn == wrap(vr - wrap(fs)));
    assert(coeff(at(poly_mul(quo1, b), n), g) == wrap(fq + fs));
    assert(coeff(at(poly_mul(quo, b), n), g) == wrap(fq));
    lemma_wrap_sub(vr, fs);
    lemma_wrap_add(fq + fs, vn);
    lemma_wrap_add(fq + fs, vr - fs);
    lemma_wrap_add(fq, vr);
}

/// Where the exact ratio is the additive zero, the leading coefficient of
/// the remainder is, and dropping it changes no coefficient.
pub proof fn lemma_drop_value(rem: Coeffs, b: Coeffs)
    requires
        poly_good(rem),
        poly_good(b),
        0 < b.len() <= rem.len(),
        ws_mul(division_ratio(rem, b), b.last()) == rem.last(),
        terms_is_zero(division_ratio(rem, b)),
    ensures
        poly_good(rem.drop_last()),
        forall|n: int| 0 <= n ==> #[trigger] at(rem.drop_last(), n) == at(rem, n),
{
    lemma_ratio_good(rem, b);
    let c = division_ratio(rem, b);
    lemma_canonical_zero(c);
    assert(c =~= Seq::<(Mono, Int)>::empty());
    lemma_products_empty(b.last());
    lemma_mul_good(c, b.last());
    assert forall|g: Mono| coeff(rem.last(), g) == 0 by {
        assert(coeff(ws_mul(c, b.last()), g) == wrap(pair_coeff(c, b.last(), g)));
    }
    lemma_zero_coefficients(rem.last());
    let next = rem.drop_last();
    assert forall|i: int| 0 <= i < next.len() implies terms_good(#[trigger] next[i]) by {
        assert(next[i] == rem[i]);
    }
    assert forall|n: int| 0 <= n implies #[trigger] at(next, n) == at(rem, n) by {
        if n < rem.len() - 1 {
            assert(next[n] == rem[n]);
        } else if n == rem.len() - 1 {
            assert(at(rem, n) == rem.last());
            assert(rem.last() =~= Seq::<(Mono, Int)>::empty());
        }
    }
}

/// What long division keeps: with sorted canonical coefficients and exact
/// leading ratios, the quotient times the divisor plus the remainder has,
/// at every power, the coefficients that the gathered quotient times the
/// divisor plus the running remainder had, modulo 2^128.
#[verifier::rlimit(40)]
pub proof fn lemma_division_invariant(rem: Coeffs, quo: Coeffs, b: Coeffs)
    requires
        poly_good(rem),
        poly_good(quo),
        poly_good(b),
        b.len() > 0,
        division_exact(rem, b),
    ensures
        poly_good(division(rem, quo, b).0),
        poly_good(division(rem, quo, b).1),
        forall|n: int, g: Mono|
            0 <= n ==> wrap(
                coeff(at(poly_mul(division(rem, quo, b).0, b), n), g) + #[trigger] coeff(
                    at(division(rem, quo, b).1, n),
                    g,
                ),
            ) == wrap(coeff(at(poly_mul(quo, b), n), g) + coeff(at(rem, n), g)),
    decreases rem.len(),
{
    if rem.len() < b.len() || rem.len() == 0 {
    } else if terms_is_zero(division_ratio(rem, b)) {
        lemma_drop_value(rem, b);
        let next = rem.drop_last();
        lemma_division_invariant(next, quo, b);
        let r = division(rem, quo, b).1;
        let q = division(rem, quo, b).0;
        assert forall|n: int, g: Mono| 0 <= n implies wrap(
            coeff(at(poly_mul(q, b), n), g) + #[trigger] coeff(at(r, n), g),
        ) == wrap(coeff(at(poly_mul(quo, b), n), g) + coeff(at(rem, n), g)) by {
            assert(at(next, n) == at(rem, n));
        }
    } else {
        lemma_step_good(rem, quo, b);
        let next = step_remainder(rem, b);
        let quo1 = step_quotient(rem, quo, b);
        lemma_division_invariant(next, quo1, b);
        let r = division(rem, quo, b).1;
        let q = division(rem, quo, b).0;
        assert forall|n: int, g: Mono| 0 <= n implies wrap(
            coeff(at(poly_mul(q, b), n), g) + #[trigger] coeff(at(r, n), g),
        ) == wrap(coeff(at(poly_mul(quo, b), n), g) + coeff(at(rem, n), g)) by {
            lemma_step_value(rem, quo, b, n, g);
        }
    }
}

impl Polynomial {
    /// Every coefficient is well formed.
    pub open spec fn coefficients_wf(&self) -> bool {
        forall|i: int| 0 <= i < self.0@.len() ==> (#[trigger] self.0@[i]).0.wf()
    }
}

/// Long division gives back the dividend: for polynomials with
/// coefficients in canonical form, a divisor that is not empty and leading
/// ratios that are all exact, the quotient times the divisor plus the
/// remainder has the coefficients of the dividend at every power.
#[verifier::rlimit(40)]
pub proof fn lemma_division_round_trip(a: Polynomial, b: Polynomial)
    requires
        a.coefficients_wf(),
        b.coefficients_wf(),
        poly_is_canonical(a@),
        poly_is_canonical(b@),
        b@.len() > 0,
        division_exact(a@, b@),
    ensures
        poly_equivalent(
            a@,
            poly_add(
                poly_mul(division(a@, Seq::empty(), b@).0, b@),
                division(a@, Seq::empty(), b@).1,
            ),
        ),
{
    let empty = Seq::<Terms>::empty();
    assert forall|i: int| 0 <= i < a@.len() implies terms_good(#[trigger] a@[i]) by {
        assert(a.0@[i].0.wf());
        a.0@[i].0.lemma_valid();
    }
    assert forall|i: int| 0 <= i < b@.len() implies terms_good(#[trigger] b@[i]) by {
        assert(b.0@[i].0.wf());
        b.0@[i].0.lemma_valid();
    }
    assert(poly_good(empty));
    lemma_division_invariant(a@, empty, b@);
    let q = division(a@, empty, b@).0;
    let r = division(a@, empty, b@).1;
    let qb = poly_mul(q, b@);
    lemma_poly_mul_good(q, b@);
    let total = poly_add(qb, r);
    assert forall|n: int| 0 <= n implies #[trigger] at(a@, n) == at(total, n) by {
        lemma_poly_add(qb, r, n);
        assert(at(poly_mul(empty, b@), n) =~= Seq::<(Mono, Int)>::empty());
        assert(terms_good(at(a@, n)));
        assert forall|g: Mono| coeff(at(total, n), g) == coeff(at(a@, n), g) by {
            lemma_canonical_coeff_range(at(a@, n), g);
            assert(wrap(coeff(at(qb, n), g) + coeff(at(r, n), g)) == wrap(
                coeff(at(poly_mul(empty, b@), n), g) + coeff(at(a@, n), g),
            ));
        }
        lemma_canonical_unique(at(total, n), at(a@, n));
    }
}

} // verus!
