//! Rational transfer functions: a numerator and a denominator polynomial in
//! a transform variable, tagged with the domain of that variable.

use vstd::prelude::*;
use crate::integer::Int;
use crate::text::{decimal, push_str, push_decimal, push_chars, string_of};
use crate::polynomial::polynomial_text;
use crate::partial_zero::PartialZero;
use crate::partial_one::PartialOne;
use crate::simplify::Simplify;
use crate::sym::Sym;
use crate::powered_product::{PoweredProduct, Mono, common_factor, mono_is_one};
use crate::coefficient::{Coefficient, monos_of, symbol_terms, integer_terms};
use crate::weighted_sum::{WeightedSum, Terms, terms_is_zero, terms_canonical, canonical_form,
    ws_mul, ws_div, weights_nonzero, terms_keys};
use crate::polynomial::{Polynomial, Coeffs, coeffs_of, poly_add, poly_sub, poly_mul, poly_neg,
    poly_shl, poly_scale, poly_unscale, poly_is_zero, poly_is_one, poly_order, longer, push_coeff};

verus! {

/// The transform variable of a transfer function: that of the Laplace
/// domain or that of the Z domain.
#[derive(Clone, Copy, Debug, PartialEq, Eq, Structural)]
pub enum TfVar {
    S,
    Z,
}

/// The text of the power `k` of the variable: nothing for 0, the
/// variable's letter for 1, and the letter, `^` and `k` beyond.
pub open spec fn var_text(var: TfVar, k: nat) -> Seq<char> {
    if k == 0 {
        Seq::empty()
    } else {
        (match var {
            TfVar::S => "s"@,
            TfVar::Z => "z"@,
        }) + (if k > 1 {
            "^"@ + decimal(k)
        } else {
            Seq::empty()
        })
    }
}

impl TfVar {
    /// Appends the text of the power `k` of the variable to `out`.
    pub fn write(&self, out: &mut Vec<char>, k: usize)
        ensures
            final(out)@ == old(out)@ + var_text(*self, k as nat),
    {
        let ghost start = out@;
        if k != 0 {
            match self {
                TfVar::S => {
                    push_str(out, "s");
                },
                TfVar::Z => {
                    push_str(out, "z");
                },
            }
            if k > 1 {
                push_str(out, "^");
                push_decimal(out, k as u128);
            }
        }
        proof {
            assert(out@ =~= start + var_text(*self, k as nat));
        }
    }

    /// The text of the power `k` of the variable.
    pub fn fmt(&self, k: usize) -> (r: String)
        ensures
            r@ == var_text(*self, k as nat),
    {
        let mut out: Vec<char> = Vec::new();
        self.write(&mut out, k);
        proof {
            assert(Seq::<char>::empty() + var_text(*self, k as nat) =~= var_text(*self, k as nat));
        }
        string_of(&out)
    }
}

/// The mathematical content of a transfer function: the coefficients of its
/// numerator and of its denominator.
pub type Ratio = (Coeffs, Coeffs);

/// The multiplicative one as a polynomial.
pub open spec fn one_poly() -> Coeffs {
    seq![seq![(Map::<Seq<char>, Int>::empty(), 1 as Int)]]
}

/// The order of a transfer function: the larger of the orders of its two polynomials.
pub open spec fn tf_order(a: Ratio) -> nat {
    longer(poly_order(a.0), poly_order(a.1))
}

/// A transfer function is the additive zero where its numerator is and its
/// denominator is not.
pub open spec fn tf_is_zero(a: Ratio) -> bool {
    poly_is_zero(a.0) && !poly_is_zero(a.1)
}

/// A transfer function is the multiplicative one where its numerator
/// equals its denominator.
pub open spec fn tf_is_one(a: Ratio) -> bool {
    a.0 == a.1
}

/// The additive zero: the empty numerator over the denominator one.
pub open spec fn tf_zero() -> Ratio {
    (Seq::empty(), one_poly())
}

/// The variable to the power `p`: the numerator `var^p` over one for `p >= 0`,
/// one over the denominator `var^-p` otherwise.
pub open spec fn tf_var(p: int) -> Ratio {
    if p >= 0 {
        (poly_shl(one_poly(), p as nat), one_poly())
    } else {
        (one_poly(), poly_shl(one_poly(), (-p) as nat))
    }
}

/// The monomials of all coefficients of a polynomial, in order.
pub open spec fn poly_keys(p: Coeffs) -> Seq<Mono>
    decreases p.len(),
{
    if p.len() == 0 {
        Seq::empty()
    } else {
        poly_keys(p.drop_last()) + terms_keys(p.last())
    }
}

/// The monomials of all coefficients of the numerator, then of the denominator.
pub open spec fn tf_keys(a: Ratio) -> Seq<Mono> {
    poly_keys(a.0) + poly_keys(a.1)
}

/// Whether the lowest-order terms of both polynomials can be dropped: both
/// are the additive zero, or one polynomial is empty and the lowest-order
/// term of the other is the additive zero.
pub open spec fn origin_cancels(a: Ratio) -> bool {
    if a.0.len() > 0 && a.1.len() > 0 {
        terms_is_zero(a.0[0]) && terms_is_zero(a.1[0])
    } else if a.0.len() > 0 {
        terms_is_zero(a.0[0])
    } else if a.1.len() > 0 {
        terms_is_zero(a.1[0])
    } else {
        false
    }
}

/// A polynomial without its lowest-order term; the empty polynomial stays empty.
pub open spec fn poly_tail(p: Coeffs) -> Coeffs {
    if p.len() > 0 {
        p.skip(1)
    } else {
        p
    }
}

/// The transfer function with its shared roots at the origin cancelled:
/// the lowest-order terms of both polynomials are dropped while they can be.
pub open spec fn origin_cancelled(a: Ratio) -> Ratio
    decreases a.0.len() + a.1.len(),
{
    if origin_cancels(a) {
        origin_cancelled((poly_tail(a.0), poly_tail(a.1)))
    } else {
        a
    }
}

/// The coefficient that is the monomial `m` with weight 1.
pub open spec fn factor_terms(m: Mono) -> Terms {
    seq![(m, 1 as Int)]
}

/// The transfer function with every coefficient divided by the common
/// factor of all its monomials, where that factor is not the multiplicative one.
pub open spec fn factor_removed(a: Ratio) -> Ratio {
    let common = common_factor(tf_keys(a));
    if mono_is_one(common) {
        a
    } else {
        (poly_unscale(a.0, factor_terms(common)), poly_unscale(a.1, factor_terms(common)))
    }
}

/// A polynomial with every coefficient in canonical form.
pub open spec fn poly_canonical(p: Coeffs) -> Coeffs {
    p.map_values(|c: Terms| canonical_form(c))
}

/// Every coefficient of the polynomial is in canonical form.
pub open spec fn poly_is_canonical(p: Coeffs) -> bool {
    forall|i: int| 0 <= i < p.len() ==> terms_canonical(#[trigger] p[i])
}

/// The simplified transfer function: shared roots at the origin cancelled,
/// then the common factor of all monomials divided out, then every
/// coefficient brought into canonical form.
pub open spec fn tf_simplified(a: Ratio) -> Ratio {
    let b = factor_removed(origin_cancelled(a));
    (poly_canonical(b.0), poly_canonical(b.1))
}

/// A transfer function counts as simplified where the common factor of
/// all its monomials is the multiplicative one and every coefficient is in
/// canonical form. Shared roots at the origin are not looked at.
pub open spec fn tf_is_simplified(a: Ratio) -> bool {
    mono_is_one(common_factor(tf_keys(a))) && poly_is_canonical(a.0) && poly_is_canonical(a.1)
}

/// The lengths of the polynomials of two transfer functions are small
/// enough for their products to be held.
pub open spec fn tf_fits(a: Ratio, b: Ratio) -> bool {
    &&& a.0.len() + b.0.len() <= usize::MAX
    &&& a.0.len() + b.1.len() <= usize::MAX
    &&& a.1.len() + b.0.len() <= usize::MAX
    &&& a.1.len() + b.1.len() <= usize::MAX
}

/// The sum of two transfer functions: where either is the additive zero,
/// the other one as it is; over identical denominators the sum of the
/// numerators; else the cross-multiplied sum, simplified.
pub open spec fn tf_add(a: Ratio, b: Ratio) -> Ratio {
    if tf_is_zero(b) {
        a
    } else if tf_is_zero(a) {
        b
    } else if a.1 == b.1 {
        (poly_add(a.0, b.0), a.1)
    } else {
        tf_simplified(
            (poly_add(poly_mul(a.0, b.1), poly_mul(b.0, a.1)), poly_mul(a.1, b.1)),
        )
    }
}

/// The negation: the numerator negated.
pub open spec fn tf_neg(a: Ratio) -> Ratio {
    (poly_neg(a.0), a.1)
}

/// The inverse: numerator and denominator swapped.
pub open spec fn tf_inv(a: Ratio) -> Ratio {
    (a.1, a.0)
}

/// The difference of two transfer functions: where the second is the
/// additive zero, the first as it is; where the first is, the negated
/// second; over identical denominators the difference of the numerators;
/// else the cross-multiplied difference, simplified.
pub open spec fn tf_sub(a: Ratio, b: Ratio) -> Ratio {
    if tf_is_zero(b) {
        a
    } else if tf_is_zero(a) {
        tf_neg(b)
    } else if a.1 == b.1 {
        (poly_sub(a.0, b.0), a.1)
    } else {
        tf_simplified(
            (poly_sub(poly_mul(a.0, b.1), poly_mul(b.0, a.1)), poly_mul(a.1, b.1)),
        )
    }
}

/// The product of two transfer functions: the additive zero where either
/// is; where either is the multiplicative one, the other one as it is;
/// else numerators and denominators multiplied pairwise, simplified.
pub open spec fn tf_mul(a: Ratio, b: Ratio) -> Ratio {
    if tf_is_zero(b) || tf_is_zero(a) {
        tf_zero()
    } else if tf_is_one(a) {
        b
    } else if tf_is_one(b) {
        a
    } else {
        tf_simplified((poly_mul(a.0, b.0), poly_mul(a.1, b.1)))
    }
}

/// The quotient of two transfer functions: the empty polynomials where
/// both are the additive zero; the inverse of the additive zero where the
/// divisor is; the additive zero where the dividend is; the inverse of the
/// divisor where the dividend is the multiplicative one; the dividend where
/// the divisor is; else the cross-multiplied quotient, simplified.
pub open spec fn tf_div(a: Ratio, b: Ratio) -> Ratio {
    if tf_is_zero(a) && tf_is_zero(b) {
        (Seq::empty(), Seq::empty())
    } else if tf_is_zero(b) {
        tf_inv(tf_zero())
    } else if tf_is_zero(a) {
        tf_zero()
    } else if tf_is_one(a) {
        tf_inv(b)
    } else if tf_is_one(b) {
        a
    } else {
        tf_simplified((poly_mul(a.0, b.1), poly_mul(a.1, b.0)))
    }
}

/// The name of the symbolic sample rate.
pub open spec fn rate_name() -> Seq<char> {
    seq!['r', 'a', 't', 'e']
}

/// Twice the sample rate, as a coefficient.
pub open spec fn double_rate() -> Terms {
    ws_mul(integer_terms(2), symbol_terms(rate_name()))
}

/// Minus twice the sample rate, as a coefficient.
pub open spec fn minus_double_rate() -> Terms {
    ws_mul(integer_terms(-2i128), symbol_terms(rate_name()))
}

/// The polynomial `2*rate*z - 2*rate`.
pub open spec fn rate_factor() -> Coeffs {
    seq![minus_double_rate(), double_rate()]
}

/// The polynomial `z + 1`.
pub open spec fn unit_factor() -> Coeffs {
    seq![integer_terms(1), integer_terms(1)]
}

/// The polynomial one times `k` factors `2*rate*z - 2*rate`.
pub open spec fn rate_power(k: nat) -> Coeffs
    decreases k,
{
    if k == 0 {
        seq![integer_terms(1)]
    } else {
        poly_mul(rate_power((k - 1) as nat), rate_factor())
    }
}

/// The polynomial `p` times `k` factors `z + 1`.
pub open spec fn unit_power(p: Coeffs, k: nat) -> Coeffs
    decreases k,
{
    if k == 0 {
        p
    } else {
        poly_mul(unit_power(p, (k - 1) as nat), unit_factor())
    }
}

/// The weighting polynomial of the power `i` of `s` for the order `n`:
/// `(2*rate*z - 2*rate)^i * (z + 1)^(n - i)`.
pub open spec fn weighting(i: nat, n: nat) -> Coeffs {
    unit_power(rate_power(i), (n - i) as nat)
}

/// The sum of the weighting polynomials of the first `k` powers, each
/// multiplied by the coefficient of its power in `p`, added to the
/// polynomial of `n + 1` coefficients that are all the additive zero: the
/// sum has `n + 1` coefficients also where `p` has none.
pub open spec fn weighted_total(p: Coeffs, n: nat, k: nat) -> Coeffs
    decreases k,
{
    if k == 0 {
        Seq::new(n + 1, |i: int| Seq::<(Mono, Int)>::empty())
    } else {
        poly_add(
            weighted_total(p, n, (k - 1) as nat),
            poly_scale(weighting((k - 1) as nat, n), p[k - 1]),
        )
    }
}

/// The bilinear transform of a transfer function of the Laplace domain:
/// `s` is replaced by `2*rate*(z - 1)/(z + 1)`, and the denominators
/// `(z + 1)^n` are cleared, `n` being the order. Numerator and denominator
/// have `n + 1` coefficients each. The result is not simplified.
pub open spec fn tf_bilinear(a: Ratio) -> Ratio {
    let n = tf_order(a);
    (weighted_total(a.0, n, a.0.len()), weighted_total(a.1, n, a.1.len()))
}

/// A rational transfer function; `Z` tells whether its variable is that of
/// the Z domain or that of the Laplace domain.
#[derive(Debug, PartialEq, Eq)]
pub struct Tf<const Z: bool>(pub Polynomial, pub Polynomial);

impl<const Z: bool> View for Tf<Z> {
    type V = Ratio;

    open spec fn view(&self) -> Ratio {
        (self.0@, self.1@)
    }
}

impl<const Z: bool> Clone for Tf<Z> {
    fn clone(&self) -> (r: Self)
        ensures
            r@ == self@,
    {
        Tf(self.0.clone(), self.1.clone())
    }
}

impl<const Z: bool> Tf<Z> {
    /// The transform variable of this domain.
    pub fn var() -> (r: TfVar)
        ensures
            r == (if Z {
                TfVar::Z
            } else {
                TfVar::S
            }),
    {
        if Z {
            TfVar::Z
        } else {
            TfVar::S
        }
    }

    /// The order: the larger of the orders of numerator and denominator.
    pub fn order(&self) -> (r: usize)
        ensures
            r == tf_order(self@),
    {
        let a = self.0.order();
        let b = self.1.order();
        if a >= b {
            a
        } else {
            b
        }
    }

    /// The inverse: numerator and denominator swapped.
    pub fn inv(self) -> (r: Self)
        ensures
            r@ == tf_inv(self@),
    {
        Tf(self.1, self.0)
    }

    /// The negation: the numerator negated.
    pub fn neg(&self) -> (r: Self)
        ensures
            r@ == tf_neg(self@),
    {
        Tf(self.0.neg(), self.1.clone())
    }

    /// The transfer function that is the symbol `name`.
    pub fn from_name(name: &'static str) -> (r: Self)
        ensures
            r@ == (seq![symbol_terms(name@)], one_poly()),
    {
        Tf(Polynomial::from(Coefficient::from_sym(Sym(name))), Polynomial::one())
    }

    /// The transfer function that is the integer `value`.
    pub fn from_int(value: Int) -> (r: Self)
        ensures
            r@ == (seq![integer_terms(value)], one_poly()),
    {
        Tf(Polynomial::from(Coefficient::from_int(value)), Polynomial::one())
    }

    /// The monomials of all coefficients of a polynomial.
    #[verifier::rlimit(40)]
    fn collect_keys(p: &Polynomial, v: &mut Vec<PoweredProduct>)
        ensures
            monos_of(final(v)@) == monos_of(old(v)@) + poly_keys(p@),
    {
        let ghost start = monos_of(v@);
        let n = p.0.len();
        let mut i: usize = 0;
        proof {
            assert(p@.take(0) =~= Seq::<Terms>::empty());
            assert(start + poly_keys(p@.take(0)) =~= start);
        }
        while i < n
            invariant
                i <= n,
                n == p.0@.len(),
                monos_of(v@) == start + poly_keys(p@.take(i as int)),
            decreases n - i,
        {
            let c = &p.0[i].0;
            let ghost t = p@[i as int];
            let ghost base = monos_of(v@);
            let m = c.len();
            let mut j: usize = 0;
            proof {
                assert(t == c@);
                assert(terms_keys(t).take(0) =~= Seq::<Mono>::empty());
                assert(base + terms_keys(t).take(0) =~= base);
            }
            while j < m
                invariant
                    j <= m,
                    m == c@.len(),
                    t == c@,
                    monos_of(v@) == base + terms_keys(t).take(j as int),
                decreases m - j,
            {
                let ghost before = monos_of(v@);
                let key = c.key(j).clone();
                v.push(key);
                proof {
                    assert(monos_of(v@) =~= before.push(t[j as int].0));
                    assert(terms_keys(t).take(j + 1) =~= terms_keys(t).take(j as int).push(
                        t[j as int].0,
                    ));
                    assert(monos_of(v@) =~= base + terms_keys(t).take(j + 1));
                }
                j += 1;
            }
            proof {
                assert(terms_keys(t).take(m as int) =~= terms_keys(t));
                assert(p@.take(i + 1).drop_last() =~= p@.take(i as int));
                assert(p@.take(i + 1).last() == t);
                assert(start + poly_keys(p@.take(i + 1)) =~= base + terms_keys(t));
            }
            i += 1;
        }
        proof {
            assert(p@.take(n as int) =~= p@);
        }
    }

    /// The common factor of the monomials of all coefficients.
    fn common(&self) -> (r: PoweredProduct)
        ensures
            r@ == common_factor(tf_keys(self@)),
    {
        let mut keys: Vec<PoweredProduct> = Vec::new();
        proof {
            assert(monos_of(keys@) =~= Seq::<Mono>::empty());
        }
        Self::collect_keys(&self.0, &mut keys);
        Self::collect_keys(&self.1, &mut keys);
        proof {
            assert(monos_of(keys@) =~= tf_keys(self@));
        }
        Coefficient::common_coeffs(&keys)
    }

    /// The polynomial without its lowest-order term.
    fn tail(p: &Polynomial) -> (r: Polynomial)
        ensures
            r@ == poly_tail(p@),
    {
        let ghost goal = poly_tail(p@);
        let mut v: Vec<Coefficient> = Vec::new();
        let n = p.0.len();
        proof {
            assert(coeffs_of(v@) =~= goal.take(0));
        }
        if n == 0 {
            proof {
                assert(coeffs_of(v@) =~= goal);
            }
            return Polynomial(v);
        }
        let mut i: usize = 1;
        while i < n
            invariant
                1 <= i <= n,
                n == p.0@.len(),
                goal == p@.skip(1),
                coeffs_of(v@) == goal.take(i - 1),
            decreases n - i,
        {
            push_coeff(&mut v, p.0[i].clone());
            proof {
                assert(coeffs_of(v@) =~= goal.take(i as int));
            }
            i += 1;
        }
        proof {
            assert(goal.take(n - 1) =~= goal);
        }
        Polynomial(v)
    }

    /// Every coefficient of the polynomial brought into canonical form.
    fn canonical(p: &Polynomial) -> (r: Polynomial)
        ensures
            r@ == poly_canonical(p@),
            poly_is_canonical(r@),
    {
        let ghost goal = poly_canonical(p@);
        let mut v: Vec<Coefficient> = Vec::new();
        let n = p.0.len();
        let mut i: usize = 0;
        proof {
            assert(coeffs_of(v@) =~= goal.take(0));
        }
        while i < n
            invariant
                i <= n,
                n == p.0@.len(),
                goal == poly_canonical(p@),
                coeffs_of(v@) == goal.take(i as int),
                forall|k: int| 0 <= k < i ==> terms_canonical(#[trigger] goal[k]),
            decreases n - i,
        {
            let mut c = p.0[i].clone();
            c.simplify();
            push_coeff(&mut v, c);
            proof {
                assert(coeffs_of(v@) =~= goal.take(i + 1));
            }
            i += 1;
        }
        proof {
            assert(goal.take(n as int) =~= goal);
        }
        Polynomial(v)
    }
}

impl<const Z: bool> PartialZero for Tf<Z> {
    open spec fn is_zero_spec(&self) -> bool {
        tf_is_zero(self@)
    }

    /// The additive zero: the empty numerator over the denominator one.
    fn zero() -> (r: Self)
        ensures
            r@ == tf_zero(),
    {
        let r = Tf(Polynomial::zero(), Polynomial::one());
        proof {
            lemma_one_poly();
        }
        r
    }

    fn set_zero(&mut self)
        ensures
            final(self)@ == tf_zero(),
    {
        *self = Self::zero();
    }

    fn is_zero(&self) -> (r: bool) {
        self.0.is_zero() && !self.1.is_zero()
    }
}

impl<const Z: bool> PartialOne for Tf<Z> {
    open spec fn is_one_spec(&self) -> bool {
        tf_is_one(self@)
    }

    /// The multiplicative one: one over one.
    fn one() -> (r: Self)
        ensures
            r@ == (one_poly(), one_poly()),
    {
        Tf(Polynomial::one(), Polynomial::one())
    }

    fn set_one(&mut self)
        ensures
            final(self)@ == (one_poly(), one_poly()),
    {
        *self = Self::one();
    }

    fn is_one(&self) -> (r: bool) {
        self.0.same(&self.1)
    }
}

impl<const Z: bool> Tf<Z> {
    /// Whether the products of the polynomials of `self` and `rhs` can be
    /// held: no two of their lengths add up to more than `usize::MAX`.
    pub fn fits(&self, rhs: &Tf<Z>) -> (r: bool)
        ensures
            r == tf_fits(self@, rhs@),
    {
        let a0 = self.0.0.len();
        let a1 = self.1.0.len();
        let b0 = rhs.0.0.len();
        let b1 = rhs.1.0.len();
        proof {
            assert(self@.0.len() == a0 && self@.1.len() == a1);
            assert(rhs@.0.len() == b0 && rhs@.1.len() == b1);
        }
        let limit = usize::MAX;
        a0 <= limit - b0 && a0 <= limit - b1 && a1 <= limit - b0 && a1 <= limit - b1
    }

    /// The sum of `self` and `rhs`.
    pub fn add(&self, rhs: &Tf<Z>) -> (r: Self)
        requires
            tf_fits(self@, rhs@),
        ensures
            r@ == tf_add(self@, rhs@),
    {
        if rhs.is_zero() {
            return self.clone();
        }
        if self.is_zero() {
            return rhs.clone();
        }
        if self.1.same(&rhs.1) {
            return Tf(self.0.add(&rhs.0), self.1.clone());
        }
        let mut y = Tf::<Z>(self.0.mul(&rhs.1).add(&rhs.0.mul(&self.1)), self.1.mul(&rhs.1));
        y.simplify();
        y
    }

    /// The difference of `self` and `rhs`.
    pub fn sub(&self, rhs: &Tf<Z>) -> (r: Self)
        requires
            tf_fits(self@, rhs@),
        ensures
            r@ == tf_sub(self@, rhs@),
    {
        if rhs.is_zero() {
            return self.clone();
        }
        if self.is_zero() {
            return rhs.neg();
        }
        if self.1.same(&rhs.1) {
            return Tf(self.0.sub(&rhs.0), self.1.clone());
        }
        let mut y = Tf::<Z>(self.0.mul(&rhs.1).sub(&rhs.0.mul(&self.1)), self.1.mul(&rhs.1));
        y.simplify();
        y
    }

    /// The product of `self` and `rhs`.
    pub fn mul(&self, rhs: &Tf<Z>) -> (r: Self)
        requires
            tf_fits(self@, rhs@),
        ensures
            r@ == tf_mul(self@, rhs@),
    {
        if rhs.is_zero() || self.is_zero() {
            return Self::zero();
        }
        if self.is_one() {
            return rhs.clone();
        }
        if rhs.is_one() {
            return self.clone();
        }
        let mut y = Tf::<Z>(self.0.mul(&rhs.0), self.1.mul(&rhs.1));
        y.simplify();
        y
    }

    /// The quotient of `self` by `rhs`.
    pub fn div(&self, rhs: &Tf<Z>) -> (r: Self)
        requires
            tf_fits(self@, rhs@),
        ensures
            r@ == tf_div(self@, rhs@),
    {
        if self.is_zero() && rhs.is_zero() {
            return Tf(Polynomial::zero(), Polynomial::zero());
        }
        if rhs.is_zero() {
            return Self::zero().inv();
        }
        if self.is_zero() {
            return Self::zero();
        }
        if self.is_one() {
            return rhs.clone().inv();
        }
        if rhs.is_one() {
            return self.clone();
        }
        let mut y = Tf::<Z>(self.0.mul(&rhs.1), self.1.mul(&rhs.0));
        y.simplify();
        y
    }
}

/// The polynomial `2*rate*z - 2*rate`.
fn rate_polynomial() -> (r: Polynomial)
    ensures
        r@ == rate_factor(),
{
    proof {
        reveal_strlit("rate");
        assert("rate"@ =~= rate_name());
    }
    let rate = Coefficient::from_sym(Sym("rate"));
    let plus = Coefficient::from_int(2).mul(&rate);
    let minus = Coefficient::from_int(-2).mul(&rate);
    let mut v: Vec<Coefficient> = Vec::new();
    proof {
        assert(coeffs_of(v@) =~= Seq::<Terms>::empty());
    }
    push_coeff(&mut v, minus);
    push_coeff(&mut v, plus);
    proof {
        assert(coeffs_of(v@) =~= rate_factor());
    }
    Polynomial(v)
}

/// The polynomial `z + 1`.
fn unit_polynomial() -> (r: Polynomial)
    ensures
        r@ == unit_factor(),
{
    let mut v: Vec<Coefficient> = Vec::new();
    proof {
        assert(coeffs_of(v@) =~= Seq::<Terms>::empty());
    }
    push_coeff(&mut v, Coefficient::from_int(1));
    push_coeff(&mut v, Coefficient::from_int(1));
    proof {
        assert(coeffs_of(v@) =~= unit_factor());
    }
    Polynomial(v)
}

/// The length of the polynomial one times `k` factors `2*rate*z - 2*rate`.
pub proof fn lemma_rate_power_len(k: nat)
    ensures
        rate_power(k).len() == k + 1,
    decreases k,
{
    if k > 0 {
        lemma_rate_power_len((k - 1) as nat);
    }
}

/// The length of a nonempty polynomial times `k` factors `z + 1`.
pub proof fn lemma_unit_power_len(p: Coeffs, k: nat)
    requires
        p.len() > 0,
    ensures
        unit_power(p, k).len() == p.len() + k,
    decreases k,
{
    if k > 0 {
        lemma_unit_power_len(p, (k - 1) as nat);
    }
}

/// The weighting polynomial of the power `i` of `s` for the order `n`.
fn weighting_polynomial(i: usize, n: usize) -> (r: Polynomial)
    requires
        i <= n < usize::MAX,
    ensures
        r@ == weighting(i as nat, n as nat),
        r@.len() == n + 1,
{
    let rate = rate_polynomial();
    let unit = unit_polynomial();
    let mut p = Polynomial::from(Coefficient::from_int(1));
    let mut k: usize = 0;
    while k < i
        invariant
            k <= i <= n < usize::MAX,
            rate@ == rate_factor(),
            p@ == rate_power(k as nat),
        decreases i - k,
    {
        proof {
            lemma_rate_power_len(k as nat);
        }
        p = p.mul(&rate);
        k += 1;
    }
    proof {
        lemma_rate_power_len(i as nat);
    }
    let ghost base = p@;
    let mut m: usize = 0;
    while m < n - i
        invariant
            m <= n - i,
            i <= n < usize::MAX,
            unit@ == unit_factor(),
            base.len() == i + 1,
            p@ == unit_power(base, m as nat),
        decreases n - i - m,
    {
        proof {
            lemma_unit_power_len(base, m as nat);
        }
        p = p.mul(&unit);
        m += 1;
    }
    proof {
        lemma_unit_power_len(base, (n - i) as nat);
    }
    p
}

/// The sum of the weighting polynomials, each multiplied by the coefficient
/// of its power in `p`.
fn weighted_polynomial(p: &Polynomial, n: usize) -> (r: Polynomial)
    requires
        p@.len() <= n + 1,
        n < usize::MAX,
    ensures
        r@ == weighted_total(p@, n as nat, p@.len()),
        r@.len() == n + 1,
{
    let mut total = Polynomial::zero().shl(n + 1);
    proof {
        assert(total@ =~= weighted_total(p@, n as nat, 0));
        lemma_weighted_total_len(p@, n as nat, p@.len());
    }
    let len = p.0.len();
    let mut k: usize = 0;
    while k < len
        invariant
            k <= len,
            len == p.0@.len(),
            len <= n + 1,
            n < usize::MAX,
            total@ == weighted_total(p@, n as nat, k as nat),
        decreases len - k,
    {
        let w = weighting_polynomial(k, n);
        proof {
            assert(p@[k as int] == p.0@[k as int]@);
        }
        let scaled = w.mul_value(&p.0[k]);
        total = total.add(&scaled);
        k += 1;
    }
    total
}

impl Tf<false> {
    /// The variable `s` to the power `p`.
    pub fn s(p: isize) -> (r: Self)
        ensures
            r@ == tf_var(p as int),
    {
        if p >= 0 {
            Tf(Polynomial::one().shl(p as usize), Polynomial::one())
        } else {
            let q: usize = ((-(p + 1)) as usize) + 1;
            Tf(Polynomial::one(), Polynomial::one().shl(q))
        }
    }

    /// The bilinear transform into the Z domain at the symbolic sample
    /// rate `rate`: numerator and denominator of the result have one
    /// coefficient more than the order of `self`. The result is not simplified.
    pub fn bilinear_transform(self) -> (r: Tf<true>)
        ensures
            r@ == tf_bilinear(self@),
            r@.0.len() == tf_order(self@) + 1,
            r@.1.len() == tf_order(self@) + 1,
    {
        let order = self.order();
        let ln = self.0.0.len();
        let ld = self.1.0.len();
        proof {
            assert(self@.0.len() == ln);
            assert(self@.1.len() == ld);
        }
        let num = weighted_polynomial(&self.0, order);
        let den = weighted_polynomial(&self.1, order);
        Tf(num, den)
    }
}

/// The number of coefficients of the polynomial that are not the additive zero.
pub open spec fn count_nonzero(p: Coeffs) -> nat
    decreases p.len(),
{
    if p.len() == 0 {
        0
    } else {
        count_nonzero(p.drop_last()) + (if terms_is_zero(p.last()) {
            0nat
        } else {
            1nat
        })
    }
}

/// The text of a polynomial inside a transfer function: in parentheses
/// where more than one of its coefficients is not the additive zero.
pub open spec fn side_text(p: Coeffs, var: TfVar) -> Seq<char> {
    if count_nonzero(p) > 1 {
        "("@ + polynomial_text(p, var) + ")"@
    } else {
        polynomial_text(p, var)
    }
}

/// The text of a transfer function: the numerator, and, where the
/// denominator is not the multiplicative one, `/` and the denominator.
pub open spec fn tf_text(a: Ratio, var: TfVar) -> Seq<char> {
    side_text(a.0, var) + (if !poly_is_one(a.1) {
        "/"@ + side_text(a.1, var)
    } else {
        Seq::empty()
    })
}

/// Appends the text of a polynomial inside a transfer function to `out`.
fn write_side(p: &Polynomial, var: TfVar, out: &mut Vec<char>)
    ensures
        final(out)@ == old(out)@ + side_text(p@, var),
{
    let ghost start = out@;
    let n = p.0.len();
    let mut count: usize = 0;
    let mut i: usize = 0;
    proof {
        assert(p@.take(0) =~= Seq::<Terms>::empty());
    }
    while i < n
        invariant
            i <= n,
            n == p.0@.len(),
            count <= i,
            count == count_nonzero(p@.take(i as int)),
        decreases n - i,
    {
        proof {
            assert(p@.take(i + 1).drop_last() =~= p@.take(i as int));
            assert(p@.take(i + 1).last() == p.0@[i as int]@);
        }
        if !p.0[i].is_zero() {
            count += 1;
        }
        i += 1;
    }
    proof {
        assert(p@.take(n as int) =~= p@);
    }
    if count > 1 {
        push_str(out, "(");
        p.write(out, var);
        push_str(out, ")");
        proof {
            assert(out@ =~= start + ("("@ + polynomial_text(p@, var) + ")"@));
        }
    } else {
        p.write(out, var);
    }
}

impl<const Z: bool> Tf<Z> {
    /// The text of the transfer function.
    pub fn fmt(&self) -> (r: String)
        ensures
            r@ == tf_text(self@, if Z {
                TfVar::Z
            } else {
                TfVar::S
            }),
    {
        let var = Self::var();
        let mut out: Vec<char> = Vec::new();
        write_side(&self.0, var, &mut out);
        let ghost head = out@;
        if !self.1.is_one() {
            push_str(&mut out, "/");
            write_side(&self.1, var, &mut out);
            proof {
                assert(out@ =~= head + ("/"@ + side_text(self@.1, var)));
            }
        }
        proof {
            assert(head =~= side_text(self@.0, var));
            assert(out@ =~= tf_text(self@, var));
        }
        string_of(&out)
    }
}

impl<const Z: bool> core::ops::Add<Tf<Z>> for Tf<Z> {
    type Output = Tf<Z>;

    /// The sum of two transfer functions.
    fn add(self, rhs: Tf<Z>) -> (r: Tf<Z>)
        ensures
            r@ == tf_add(self@, rhs@),
    {
        let a = &self;
        a.add(&rhs)
    }
}

impl<const Z: bool> vstd::std_specs::ops::AddSpecImpl<Tf<Z>> for Tf<Z> {
    open spec fn obeys_add_spec() -> bool {
        false
    }

    open spec fn add_req(self, rhs: Tf<Z>) -> bool {
        tf_fits(self@, rhs@)
    }

    open spec fn add_spec(self, rhs: Tf<Z>) -> Tf<Z> {
        arbitrary()
    }
}

impl<'a, const Z: bool> core::ops::Add<&'a Tf<Z>> for Tf<Z> {
    type Output = Tf<Z>;

    /// The sum of two transfer functions.
    fn add(self, rhs: &'a Tf<Z>) -> (r: Tf<Z>)
        ensures
            r@ == tf_add(self@, rhs@),
    {
        let a = &self;
        a.add(rhs)
    }
}

impl<'a, const Z: bool> vstd::std_specs::ops::AddSpecImpl<&'a Tf<Z>> for Tf<Z> {
    open spec fn obeys_add_spec() -> bool {
        false
    }

    open spec fn add_req(self, rhs: &'a Tf<Z>) -> bool {
        tf_fits(self@, rhs@)
    }

    open spec fn add_spec(self, rhs: &'a Tf<Z>) -> Tf<Z> {
        arbitrary()
    }
}

impl<'a, 'b, const Z: bool> core::ops::Add<&'b Tf<Z>> for &'a Tf<Z> {
    type Output = Tf<Z>;

    /// The sum of two transfer functions.
    fn add(self, rhs: &'b Tf<Z>) -> (r: Tf<Z>)
        ensures
            r@ == tf_add(self@, rhs@),
    {
        Tf::add(self, rhs)
    }
}

impl<'a, 'b, const Z: bool> vstd::std_specs::ops::AddSpecImpl<&'b Tf<Z>> for &'a Tf<Z> {
    open spec fn obeys_add_spec() -> bool {
        false
    }

    open spec fn add_req(self, rhs: &'b Tf<Z>) -> bool {
        tf_fits(self@, rhs@)
    }

    open spec fn add_spec(self, rhs: &'b Tf<Z>) -> Tf<Z> {
        arbitrary()
    }
}

impl<const Z: bool> core::ops::Add<Int> for Tf<Z> {
    type Output = Tf<Z>;

    /// The sum of a transfer function and an integer.
    fn add(self, rhs: Int) -> (r: Tf<Z>)
        ensures
            r@ == tf_add(self@, (seq![integer_terms(rhs)], one_poly())),
    {
        let a = &self;
        a.add(&Tf::from_int(rhs))
    }
}

impl<const Z: bool> vstd::std_specs::ops::AddSpecImpl<Int> for Tf<Z> {
    open spec fn obeys_add_spec() -> bool {
        false
    }

    open spec fn add_req(self, rhs: Int) -> bool {
        self@.0.len() < usize::MAX && self@.1.len() < usize::MAX
    }

    open spec fn add_spec(self, rhs: Int) -> Tf<Z> {
        arbitrary()
    }
}

impl<const Z: bool> core::ops::Add<&'static str> for Tf<Z> {
    type Output = Tf<Z>;

    /// The sum of a transfer function and a symbol.
    fn add(self, rhs: &'static str) -> (r: Tf<Z>)
        ensures
            r@ == tf_add(self@, (seq![symbol_terms(rhs@)], one_poly())),
    {
        let a = &self;
        a.add(&Tf::from_name(rhs))
    }
}

impl<const Z: bool> vstd::std_specs::ops::AddSpecImpl<&'static str> for Tf<Z> {
    open spec fn obeys_add_spec() -> bool {
        false
    }

    open spec fn add_req(self, rhs: &'static str) -> bool {
        self@.0.len() < usize::MAX && self@.1.len() < usize::MAX
    }

    open spec fn add_spec(self, rhs: &'static str) -> Tf<Z> {
        arbitrary()
    }
}

impl<const Z: bool> core::ops::Sub<Tf<Z>> for Tf<Z> {
    type Output = Tf<Z>;

    /// The difference of two transfer functions.
    fn sub(self, rhs: Tf<Z>) -> (r: Tf<Z>)
        ensures
            r@ == tf_sub(self@, rhs@),
    {
        let a = &self;
        a.sub(&rhs)
    }
}

impl<const Z: bool> vstd::std_specs::ops::SubSpecImpl<Tf<Z>> for Tf<Z> {
    open spec fn obeys_sub_spec() -> bool {
        false
    }

    open spec fn sub_req(self, rhs: Tf<Z>) -> bool {
        tf_fits(self@, rhs@)
    }

    open spec fn sub_spec(self, rhs: Tf<Z>) -> Tf<Z> {
        arbitrary()
    }
}

impl<'a, const Z: bool> core::ops::Sub<&'a Tf<Z>> for Tf<Z> {
    type Output = Tf<Z>;

    /// The difference of two transfer functions.
    fn sub(self, rhs: &'a Tf<Z>) -> (r: Tf<Z>)
        ensures
            r@ == tf_sub(self@, rhs@),
    {
        let a = &self;
        a.sub(rhs)
    }
}

impl<'a, const Z: bool> vstd::std_specs::ops::SubSpecImpl<&'a Tf<Z>> for Tf<Z> {
    open spec fn obeys_sub_spec() -> bool {
        false
    }

    open spec fn sub_req(self, rhs: &'a Tf<Z>) -> bool {
        tf_fits(self@, rhs@)
    }

    open spec fn sub_spec(self, rhs: &'a Tf<Z>) -> Tf<Z> {
        arbitrary()
    }
}

impl<'a, 'b, const Z: bool> core::ops::Sub<&'b Tf<Z>> for &'a Tf<Z> {
    type Output = Tf<Z>;

    /// The difference of two transfer functions.
    fn sub(self, rhs: &'b Tf<Z>) -> (r: Tf<Z>)
        ensures
            r@ == tf_sub(self@, rhs@),
    {
        Tf::sub(self, rhs)
    }
}

impl<'a, 'b, const Z: bool> vstd::std_specs::ops::SubSpecImpl<&'b Tf<Z>> for &'a Tf<Z> {
    open spec fn obeys_sub_spec() -> bool {
        false
    }

    open spec fn sub_req(self, rhs: &'b Tf<Z>) -> bool {
        tf_fits(self@, rhs@)
    }

    open spec fn sub_spec(self, rhs: &'b Tf<Z>) -> Tf<Z> {
        arbitrary()
    }
}

impl<const Z: bool> core::ops::Sub<Int> for Tf<Z> {
    type Output = Tf<Z>;

    /// The difference of a transfer function and an integer.
    fn sub(self, rhs: Int) -> (r: Tf<Z>)
        ensures
            r@ == tf_sub(self@, (seq![integer_terms(rhs)], one_poly())),
    {
        let a = &self;
        a.sub(&Tf::from_int(rhs))
    }
}

impl<const Z: bool> vstd::std_specs::ops::SubSpecImpl<Int> for Tf<Z> {
    open spec fn obeys_sub_spec() -> bool {
        false
    }

    open spec fn sub_req(self, rhs: Int) -> bool {
        self@.0.len() < usize::MAX && self@.1.len() < usize::MAX
    }

    open spec fn sub_spec(self, rhs: Int) -> Tf<Z> {
        arbitrary()
    }
}

impl<const Z: bool> core::ops::Sub<&'static str> for Tf<Z> {
    type Output = Tf<Z>;

    /// The difference of a transfer function and a symbol.
    fn sub(self, rhs: &'static str) -> (r: Tf<Z>)
        ensures
            r@ == tf_sub(self@, (seq![symbol_terms(rhs@)], one_poly())),
    {
        let a = &self;
        a.sub(&Tf::from_name(rhs))
    }
}

impl<const Z: bool> vstd::std_specs::ops::SubSpecImpl<&'static str> for Tf<Z> {
    open spec fn obeys_sub_spec() -> bool {
        false
    }

    open spec fn sub_req(self, rhs: &'static str) -> bool {
        self@.0.len() < usize::MAX && self@.1.len() < usize::MAX
    }

    open spec fn sub_spec(self, rhs: &'static str) -> Tf<Z> {
        arbitrary()
    }
}

impl<const Z: bool> core::ops::Mul<Tf<Z>> for Tf<Z> {
    type Output = Tf<Z>;

    /// The product of two transfer functions.
    fn mul(self, rhs: Tf<Z>) -> (r: Tf<Z>)
        ensures
            r@ == tf_mul(self@, rhs@),
    {
        let a = &self;
        a.mul(&rhs)
    }
}

impl<const Z: bool> vstd::std_specs::ops::MulSpecImpl<Tf<Z>> for Tf<Z> {
    open spec fn obeys_mul_spec() -> bool {
        false
    }

    open spec fn mul_req(self, rhs: Tf<Z>) -> bool {
        tf_fits(self@, rhs@)
    }

    open spec fn mul_spec(self, rhs: Tf<Z>) -> Tf<Z> {
        arbitrary()
    }
}

impl<'a, const Z: bool> core::ops::Mul<&'a Tf<Z>> for Tf<Z> {
    type Output = Tf<Z>;

    /// The product of two transfer functions.
    fn mul(self, rhs: &'a Tf<Z>) -> (r: Tf<Z>)
        ensures
            r@ == tf_mul(self@, rhs@),
    {
        let a = &self;
        a.mul(rhs)
    }
}

impl<'a, const Z: bool> vstd::std_specs::ops::MulSpecImpl<&'a Tf<Z>> for Tf<Z> {
    open spec fn obeys_mul_spec() -> bool {
        false
    }

    open spec fn mul_req(self, rhs: &'a Tf<Z>) -> bool {
        tf_fits(self@, rhs@)
    }

    open spec fn mul_spec(self, rhs: &'a Tf<Z>) -> Tf<Z> {
        arbitrary()
    }
}

impl<'a, 'b, const Z: bool> core::ops::Mul<&'b Tf<Z>> for &'a Tf<Z> {
    type Output = Tf<Z>;

    /// The product of two transfer functions.
    fn mul(self, rhs: &'b Tf<Z>) -> (r: Tf<Z>)
        ensures
            r@ == tf_mul(self@, rhs@),
    {
        Tf::mul(self, rhs)
    }
}

impl<'a, 'b, const Z: bool> vstd::std_specs::ops::MulSpecImpl<&'b Tf<Z>> for &'a Tf<Z> {
    open spec fn obeys_mul_spec() -> bool {
        false
    }

    open spec fn mul_req(self, rhs: &'b Tf<Z>) -> bool {
        tf_fits(self@, rhs@)
    }

    open spec fn mul_spec(self, rhs: &'b Tf<Z>) -> Tf<Z> {
        arbitrary()
    }
}

impl<const Z: bool> core::ops::Mul<Int> for Tf<Z> {
    type Output = Tf<Z>;

    /// The product of a transfer function and an integer.
    fn mul(self, rhs: Int) -> (r: Tf<Z>)
        ensures
            r@ == tf_mul(self@, (seq![integer_terms(rhs)], one_poly())),
    {
        let a = &self;
        a.mul(&Tf::from_int(rhs))
    }
}

impl<const Z: bool> vstd::std_specs::ops::MulSpecImpl<Int> for Tf<Z> {
    open spec fn obeys_mul_spec() -> bool {
        false
    }

    open spec fn mul_req(self, rhs: Int) -> bool {
        self@.0.len() < usize::MAX && self@.1.len() < usize::MAX
    }

    open spec fn mul_spec(self, rhs: Int) -> Tf<Z> {
        arbitrary()
    }
}

impl<const Z: bool> core::ops::Mul<&'static str> for Tf<Z> {
    type Output = Tf<Z>;

    /// The product of a transfer function and a symbol.
    fn mul(self, rhs: &'static str) -> (r: Tf<Z>)
        ensures
            r@ == tf_mul(self@, (seq![symbol_terms(rhs@)], one_poly())),
    {
        let a = &self;
        a.mul(&Tf::from_name(rhs))
    }
}

impl<const Z: bool> vstd::std_specs::ops::MulSpecImpl<&'static str> for Tf<Z> {
    open spec fn obeys_mul_spec() -> bool {
        false
    }

    open spec fn mul_req(self, rhs: &'static str) -> bool {
        self@.0.len() < usize::MAX && self@.1.len() < usize::MAX
    }

    open spec fn mul_spec(self, rhs: &'static str) -> Tf<Z> {
        arbitrary()
    }
}

impl<const Z: bool> core::ops::Div<Tf<Z>> for Tf<Z> {
    type Output = Tf<Z>;

    /// The quotient of two transfer functions.
    fn div(self, rhs: Tf<Z>) -> (r: Tf<Z>)
        ensures
            r@ == tf_div(self@, rhs@),
    {
        let a = &self;
        a.div(&rhs)
    }
}

impl<const Z: bool> vstd::std_specs::ops::DivSpecImpl<Tf<Z>> for Tf<Z> {
    open spec fn obeys_div_spec() -> bool {
        false
    }

    open spec fn div_req(self, rhs: Tf<Z>) -> bool {
        tf_fits(self@, rhs@)
    }

    open spec fn div_spec(self, rhs: Tf<Z>) -> Tf<Z> {
        arbitrary()
    }
}

impl<'a, const Z: bool> core::ops::Div<&'a Tf<Z>> for Tf<Z> {
    type Output = Tf<Z>;

    /// The quotient of two transfer functions.
    fn div(self, rhs: &'a Tf<Z>) -> (r: Tf<Z>)
        ensures
            r@ == tf_div(self@, rhs@),
    {
        let a = &self;
        a.div(rhs)
    }
}

impl<'a, const Z: bool> vstd::std_specs::ops::DivSpecImpl<&'a Tf<Z>> for Tf<Z> {
    open spec fn obeys_div_spec() -> bool {
        false
    }

    open spec fn div_req(self, rhs: &'a Tf<Z>) -> bool {
        tf_fits(self@, rhs@)
    }

    open spec fn div_spec(self, rhs: &'a Tf<Z>) -> Tf<Z> {
        arbitrary()
    }
}

impl<'a, 'b, const Z: bool> core::ops::Div<&'b Tf<Z>> for &'a Tf<Z> {
    type Output = Tf<Z>;

    /// The quotient of two transfer functions.
    fn div(self, rhs: &'b Tf<Z>) -> (r: Tf<Z>)
        ensures
            r@ == tf_div(self@, rhs@),
    {
        Tf::div(self, rhs)
    }
}

impl<'a, 'b, const Z: bool> vstd::std_specs::ops::DivSpecImpl<&'b Tf<Z>> for &'a Tf<Z> {
    open spec fn obeys_div_spec() -> bool {
        false
    }

    open spec fn div_req(self, rhs: &'b Tf<Z>) -> bool {
        tf_fits(self@, rhs@)
    }

    open spec fn div_spec(self, rhs: &'b Tf<Z>) -> Tf<Z> {
        arbitrary()
    }
}

impl<const Z: bool> core::ops::Div<Int> for Tf<Z> {
    type Output = Tf<Z>;

    /// The quotient of a transfer function and an integer.
    fn div(self, rhs: Int) -> (r: Tf<Z>)
        ensures
            r@ == tf_div(self@, (seq![integer_terms(rhs)], one_poly())),
    {
        let a = &self;
        a.div(&Tf::from_int(rhs))
    }
}

impl<const Z: bool> vstd::std_specs::ops::DivSpecImpl<Int> for Tf<Z> {
    open spec fn obeys_div_spec() -> bool {
        false
    }

    open spec fn div_req(self, rhs: Int) -> bool {
        self@.0.len() < usize::MAX && self@.1.len() < usize::MAX
    }

    open spec fn div_spec(self, rhs: Int) -> Tf<Z> {
        arbitrary()
    }
}

impl<const Z: bool> core::ops::Div<&'static str> for Tf<Z> {
    type Output = Tf<Z>;

    /// The quotient of a transfer function and a symbol.
    fn div(self, rhs: &'static str) -> (r: Tf<Z>)
        ensures
            r@ == tf_div(self@, (seq![symbol_terms(rhs@)], one_poly())),
    {
        let a = &self;
        a.div(&Tf::from_name(rhs))
    }
}

impl<const Z: bool> vstd::std_specs::ops::DivSpecImpl<&'static str> for Tf<Z> {
    open spec fn obeys_div_spec() -> bool {
        false
    }

    open spec fn div_req(self, rhs: &'static str) -> bool {
        self@.0.len() < usize::MAX && self@.1.len() < usize::MAX
    }

    open spec fn div_spec(self, rhs: &'static str) -> Tf<Z> {
        arbitrary()
    }
}

impl<const Z: bool> core::ops::Neg for Tf<Z> {
    type Output = Tf<Z>;

    /// The negation of a transfer function.
    fn neg(self) -> (r: Tf<Z>)
        ensures
            r@ == tf_neg(self@),
    {
        let a = &self;
        a.neg()
    }
}

impl<const Z: bool> vstd::std_specs::ops::NegSpecImpl for Tf<Z> {
    open spec fn obeys_neg_spec() -> bool {
        false
    }

    open spec fn neg_req(self) -> bool {
        true
    }

    open spec fn neg_spec(self) -> Tf<Z> {
        arbitrary()
    }
}

impl<const Z: bool> From<&'static str> for Tf<Z> {
    fn from(name: &'static str) -> (r: Self)
        ensures
            r@ == (seq![symbol_terms(name@)], one_poly()),
    {
        Tf::from_name(name)
    }
}

impl<const Z: bool> vstd::std_specs::convert::FromSpecImpl<&'static str> for Tf<Z> {
    open spec fn obeys_from_spec() -> bool {
        false
    }

    open spec fn from_spec(name: &'static str) -> Self {
        arbitrary()
    }
}

impl<const Z: bool> From<Int> for Tf<Z> {
    fn from(value: Int) -> (r: Self)
        ensures
            r@ == (seq![integer_terms(value)], one_poly()),
    {
        Tf::from_int(value)
    }
}

impl<const Z: bool> vstd::std_specs::convert::FromSpecImpl<Int> for Tf<Z> {
    open spec fn obeys_from_spec() -> bool {
        false
    }

    open spec fn from_spec(value: Int) -> Self {
        arbitrary()
    }
}

/// The polynomial one is not the additive zero.
pub proof fn lemma_one_poly()
    ensures
        !poly_is_zero(one_poly()),
        poly_is_one(one_poly()),
{
    let t = one_poly()[0];
    assert(!crate::weighted_sum::term_degenerate(t[0]));
    assert(mono_is_one(t[0].0));
    assert(crate::weighted_sum::terms_is_one(t));
}

impl<const Z: bool> Simplify for Tf<Z> {
    open spec fn is_simplified_spec(&self) -> bool {
        tf_is_simplified(self@)
    }

    open spec fn simplified_from(&self, before: &Self) -> bool {
        self@ == tf_simplified(before@)
    }

    /// Simplifies: cancels the shared roots at the origin, divides every
    /// coefficient by the common factor of all monomials, and brings every
    /// coefficient into canonical form.
    #[verifier::rlimit(40)]
    fn simplify(&mut self) {
        let ghost start = self@;
        let mut num = self.0.clone();
        let mut den = self.1.clone();
        loop
            invariant
                origin_cancelled((num@, den@)) == origin_cancelled(start),
            ensures
                (num@, den@) == origin_cancelled(start),
            decreases num@.len() + den@.len(),
        {
            let nn = num.0.len();
            let nd = den.0.len();
            proof {
                assert(num@.len() == nn && den@.len() == nd);
                if nn > 0 {
                    assert(num@[0] == num.0@[0]@);
                }
                if nd > 0 {
                    assert(den@[0] == den.0@[0]@);
                }
            }
            let cancels = if nn > 0 && nd > 0 {
                num.0[0].is_zero() && den.0[0].is_zero()
            } else if nn > 0 {
                num.0[0].is_zero()
            } else if nd > 0 {
                den.0[0].is_zero()
            } else {
                false
            };
            if !cancels {
                break ;
            }
            num = Self::tail(&num);
            den = Self::tail(&den);
        }
        let stripped = Tf::<Z>(num, den);
        let common = stripped.common();
        let Tf(num, den) = stripped;
        if !common.is_one() {
            let factor = Coefficient(WeightedSum::from(common));
            proof {
                assert(factor@ == factor_terms(common@));
                assert(weights_nonzero(factor@));
            }
            let n1 = num.div_value(&factor);
            let d1 = den.div_value(&factor);
            self.0 = Self::canonical(&n1);
            self.1 = Self::canonical(&d1);
        } else {
            self.0 = Self::canonical(&num);
            self.1 = Self::canonical(&den);
        }
    }

    fn is_simplified(&self) -> (r: bool) {
        let common = self.common();
        if !common.is_one() {
            return false;
        }
        let nn = self.0.0.len();
        let mut i: usize = 0;
        while i < nn
            invariant
                i <= nn,
                nn == self.0.0@.len(),
                forall|k: int| 0 <= k < i ==> terms_canonical(#[trigger] self@.0[k]),
            decreases nn - i,
        {
            proof {
                assert(self@.0[i as int] == self.0.0@[i as int]@);
            }
            if !self.0.0[i].is_simplified() {
                return false;
            }
            i += 1;
        }
        let nd = self.1.0.len();
        let mut j: usize = 0;
        while j < nd
            invariant
                j <= nd,
                nd == self.1.0@.len(),
                poly_is_canonical(self@.0),
                forall|k: int| 0 <= k < j ==> terms_canonical(#[trigger] self@.1[k]),
            decreases nd - j,
        {
            proof {
                assert(self@.1[j as int] == self.1.0@[j as int]@);
            }
            if !self.1.0[j].is_simplified() {
                return false;
            }
            j += 1;
        }
        true
    }
}

/// The length of the weighting polynomial of the power `i` for the order `n`.
pub proof fn lemma_weighting_len(i: nat, n: nat)
    requires
        i <= n,
    ensures
        weighting(i, n).len() == n + 1,
{
    lemma_rate_power_len(i);
    lemma_unit_power_len(rate_power(i), (n - i) as nat);
}

/// The sum of the first `k` weighted polynomials has `n + 1` coefficients.
pub proof fn lemma_weighted_total_len(p: Coeffs, n: nat, k: nat)
    requires
        k <= n + 1,
    ensures
        weighted_total(p, n, k).len() == n + 1,
    decreases k,
{
    if k > 0 {
        lemma_weighted_total_len(p, n, (k - 1) as nat);
        lemma_weighting_len((k - 1) as nat, n);
    }
}

/// The bilinear transform of a transfer function of order `n` has a
/// numerator and a denominator of exactly `n + 1` coefficients each.
pub proof fn lemma_bilinear_length(x: Tf<false>)
    ensures
        tf_bilinear(x@).0.len() == tf_order(x@) + 1,
        tf_bilinear(x@).1.len() == tf_order(x@) + 1,
{
    let n = tf_order(x@);
    lemma_weighted_total_len(x@.0, n, x@.0.len());
    lemma_weighted_total_len(x@.1, n, x@.1.len());
}

} // verus!
