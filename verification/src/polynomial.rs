//! Univariate polynomials: sequences of coefficients indexed by ascending
//! power of the transform variable.

use vstd::prelude::*;
use crate::integer::Int;
use crate::partial_zero::PartialZero;
use crate::partial_one::PartialOne;
use crate::powered_product::Mono;
use crate::coefficient::{Coefficient, coefficient_text};
use crate::text::{push_str, push_chars, string_of, holds, without_first};
use crate::transfer_function::{TfVar, var_text};
use crate::weighted_sum::{Terms, terms_neg, ws_add, ws_sub, ws_mul, ws_div, terms_is_zero,
    terms_is_one, weights_nonzero};

verus! {

/// The mathematical content of a polynomial: its coefficients, that of the
/// constant term first.
pub type Coeffs = Seq<Terms>;

/// The views of a vector of coefficients.
pub open spec fn coeffs_of(s: Seq<Coefficient>) -> Coeffs {
    s.map_values(|c: Coefficient| c@)
}

/// The larger of two lengths.
pub open spec fn longer(a: nat, b: nat) -> nat {
    if a >= b {
        a
    } else {
        b
    }
}

/// The sum of two polynomials: coefficients of the same power are added,
/// and the longer polynomial's further coefficients stay as they are.
pub open spec fn poly_add(a: Coeffs, b: Coeffs) -> Coeffs {
    Seq::new(
        longer(a.len(), b.len()),
        |i: int|
            if i < a.len() && i < b.len() {
                ws_add(a[i], b[i])
            } else if i < a.len() {
                a[i]
            } else {
                b[i]
            },
    )
}

/// The difference of two polynomials: coefficients of the same power are
/// subtracted, further coefficients of the first stay as they are, and
/// further coefficients of the second are negated.
pub open spec fn poly_sub(a: Coeffs, b: Coeffs) -> Coeffs {
    Seq::new(
        longer(a.len(), b.len()),
        |i: int|
            if i < a.len() && i < b.len() {
                ws_sub(a[i], b[i])
            } else if i < a.len() {
                a[i]
            } else {
                terms_neg(b[i])
            },
    )
}

/// A polynomial plus a value: the value is added to the constant term, or
/// becomes it.
pub open spec fn poly_add_value(a: Coeffs, c: Terms) -> Coeffs {
    if a.len() == 0 {
        seq![c]
    } else {
        a.update(0, ws_add(a[0], c))
    }
}

/// A polynomial minus a value: the value is subtracted from the constant
/// term, or its negation becomes it.
pub open spec fn poly_sub_value(a: Coeffs, c: Terms) -> Coeffs {
    if a.len() == 0 {
        seq![terms_neg(c)]
    } else {
        a.update(0, ws_sub(a[0], c))
    }
}

/// The negation of a polynomial: every coefficient negated.
pub open spec fn poly_neg(a: Coeffs) -> Coeffs {
    a.map_values(|c: Terms| terms_neg(c))
}

/// A polynomial times the `n`-th power of the variable: `n` zero
/// coefficients come before its own.
pub open spec fn poly_shl(a: Coeffs, n: nat) -> Coeffs {
    Seq::new(n, |i: int| Seq::<(Mono, Int)>::empty()) + a
}

/// The sum of the products `a[i] * b[n - i]` for `lo <= i < hi`, added from
/// the first on; the sum without terms for an empty range.
pub open spec fn convolution_sum(a: Coeffs, b: Coeffs, n: int, lo: int, hi: int) -> Terms
    decreases hi - lo,
{
    if hi <= lo {
        Seq::empty()
    } else if hi == lo + 1 {
        ws_mul(a[lo], b[n - lo])
    } else {
        ws_add(convolution_sum(a, b, n, lo, hi - 1), ws_mul(a[hi - 1], b[n - (hi - 1)]))
    }
}

/// The first index of `a` that pairs with an index of `b` for the power `n`.
pub open spec fn convolution_low(b: Coeffs, n: int) -> int {
    if n >= b.len() {
        n - (b.len() - 1)
    } else {
        0
    }
}

/// The end of the indices of `a` that pair with an index of `b` for the power `n`.
pub open spec fn convolution_high(a: Coeffs, n: int) -> int {
    if n + 1 <= a.len() {
        n + 1
    } else {
        a.len() as int
    }
}

/// The product of two polynomials: their discrete convolution, of length
/// `a.len() + b.len() - 1`, and the empty polynomial where either is empty.
pub open spec fn poly_mul(a: Coeffs, b: Coeffs) -> Coeffs {
    if a.len() == 0 || b.len() == 0 {
        Seq::empty()
    } else {
        Seq::new(
            (a.len() + b.len() - 1) as nat,
            |n: int| convolution_sum(a, b, n, convolution_low(b, n), convolution_high(a, n)),
        )
    }
}

/// A polynomial with every coefficient multiplied by `c`.
pub open spec fn poly_scale(a: Coeffs, c: Terms) -> Coeffs {
    a.map_values(|x: Terms| ws_mul(x, c))
}

/// A polynomial with every coefficient divided by `c`.
pub open spec fn poly_unscale(a: Coeffs, c: Terms) -> Coeffs {
    a.map_values(|x: Terms| ws_div(x, c))
}

/// A polynomial is the additive zero where every coefficient is.
pub open spec fn poly_is_zero(a: Coeffs) -> bool {
    forall|i: int| 0 <= i < a.len() ==> terms_is_zero(#[trigger] a[i])
}

/// A polynomial is the multiplicative one where its constant term is and
/// every other coefficient is the additive zero.
pub open spec fn poly_is_one(a: Coeffs) -> bool {
    forall|i: int|
        0 <= i < a.len() ==> if i == 0 {
            terms_is_one(#[trigger] a[i])
        } else {
            terms_is_zero(a[i])
        }
}

/// The order of a polynomial: one less than its length, and 0 for the empty one.
pub open spec fn poly_order(a: Coeffs) -> nat {
    if a.len() == 0 {
        0
    } else {
        (a.len() - 1) as nat
    }
}

/// One step of long division: the ratio of the leading coefficients, and,
/// where it is not the additive zero, the divisor scaled by it and shifted
/// by the gap of the lengths.
pub open spec fn division_ratio(rem: Coeffs, b: Coeffs) -> Terms {
    ws_div(rem.last(), b.last())
}

/// The ratio as a polynomial, shifted by the gap of the lengths.
pub open spec fn division_scale(rem: Coeffs, b: Coeffs) -> Coeffs {
    poly_shl(seq![division_ratio(rem, b)], (rem.len() - b.len()) as nat)
}

/// Long division of the remainder `rem` by `b`, with the quotient `quo`
/// gathered so far: while the remainder is no shorter than the divisor, the
/// ratio of the leading coefficients is taken; where it is the additive
/// zero the leading term of the remainder is dropped; else the ratio, as a
/// polynomial shifted by the gap of the lengths, joins the quotient, its
/// product with the divisor is subtracted from the remainder, and the
/// leading term of the remainder is dropped. The result is the quotient and
/// the remainder.
pub open spec fn division(rem: Coeffs, quo: Coeffs, b: Coeffs) -> (Coeffs, Coeffs)
    decreases rem.len(),
{
    if b.len() == 0 || rem.len() < b.len() || rem.len() == 0 {
        (quo, rem)
    } else if terms_is_zero(division_ratio(rem, b)) {
        division(rem.drop_last(), quo, b)
    } else {
        let scale = division_scale(rem, b);
        division(
            poly_sub(rem, poly_mul(scale, b)).take(rem.len() - 1),
            poly_add(quo, scale),
            b,
        )
    }
}

/// The powers of `x`: the multiplicative one for the power 0, and each
/// further power the one before times `x`.
pub open spec fn power_of(x: Terms, k: nat) -> Terms
    decreases k,
{
    if k == 0 {
        seq![(Map::empty(), 1 as Int)]
    } else {
        ws_mul(power_of(x, (k - 1) as nat), x)
    }
}

/// The value of the first `k` terms of the polynomial at `x`: the sum of
/// `x^i * a[i]`, added from the constant term on.
pub open spec fn evaluation(a: Coeffs, x: Terms, k: nat) -> Terms
    decreases k,
{
    if k == 0 {
        Seq::empty()
    } else {
        ws_add(evaluation(a, x, (k - 1) as nat), ws_mul(power_of(x, (k - 1) as nat), a[k - 1]))
    }
}

/// Appends a coefficient to a vector of coefficients.
pub fn push_coeff(v: &mut Vec<Coefficient>, c: Coefficient)
    ensures
        final(v)@.len() == old(v)@.len() + 1,
        coeffs_of(final(v)@) == coeffs_of(old(v)@).push(c@),
{
    let ghost before = coeffs_of(v@);
    let ghost cv = c@;
    v.push(c);
    proof {
        assert(coeffs_of(v@) =~= before.push(cv));
    }
}

/// A polynomial in the transform variable with symbolic coefficients.
#[derive(PartialEq, Eq, Debug)]
pub struct Polynomial(pub Vec<Coefficient>);

impl View for Polynomial {
    type V = Coeffs;

    open spec fn view(&self) -> Coeffs {
        coeffs_of(self.0@)
    }
}

impl Clone for Polynomial {
    fn clone(&self) -> (r: Self)
        ensures
            r@ == self@,
    {
        let mut v: Vec<Coefficient> = Vec::new();
        let n = self.0.len();
        let mut i: usize = 0;
        while i < n
            invariant
                i <= n,
                n == self.0@.len(),
                coeffs_of(v@) == self@.take(i as int),
            decreases n - i,
        {
            push_coeff(&mut v, self.0[i].clone());
            proof {
                assert(coeffs_of(v@) =~= self@.take(i + 1));
            }
            i += 1;
        }
        proof {
            assert(self@.take(n as int) =~= self@);
        }
        Polynomial(v)
    }
}

impl Polynomial {
    /// The order: one less than the number of coefficients, 0 for none.
    pub fn order(&self) -> (r: usize)
        ensures
            r == poly_order(self@),
    {
        let n = self.0.len();
        if n == 0 {
            0
        } else {
            n - 1
        }
    }

    /// The polynomial of order 0 with the constant term `value`.
    pub fn from(value: Coefficient) -> (r: Self)
        ensures
            r@ == seq![value@],
    {
        let ghost c = value@;
        let mut v: Vec<Coefficient> = Vec::new();
        proof {
            assert(coeffs_of(v@) =~= Seq::<Terms>::empty());
        }
        push_coeff(&mut v, value);
        proof {
            assert(coeffs_of(v@) =~= seq![c]);
        }
        Polynomial(v)
    }

    /// Whether `self` and `other` have the same coefficients.
    pub fn same(&self, other: &Polynomial) -> (r: bool)
        ensures
            r == (self@ == other@),
    {
        let n = self.0.len();
        if n != other.0.len() {
            proof {
                assert(self@.len() == n);
                assert(other@.len() == other.0@.len());
            }
            return false;
        }
        let mut i: usize = 0;
        while i < n
            invariant
                i <= n,
                n == self.0@.len(),
                n == other.0@.len(),
                forall|k: int| 0 <= k < i ==> self@[k] == other@[k],
            decreases n - i,
        {
            proof {
                assert(self@[i as int] == self.0@[i as int]@);
                assert(other@[i as int] == other.0@[i as int]@);
            }
            if !self.0[i].same(&other.0[i]) {
                return false;
            }
            i += 1;
        }
        proof {
            assert(self@ =~= other@);
        }
        true
    }

    /// The negation.
    pub fn neg(&self) -> (r: Self)
        ensures
            r@ == poly_neg(self@),
    {
        let mut v: Vec<Coefficient> = Vec::new();
        let n = self.0.len();
        let mut i: usize = 0;
        while i < n
            invariant
                i <= n,
                n == self.0@.len(),
                coeffs_of(v@) == poly_neg(self@).take(i as int),
            decreases n - i,
        {
            push_coeff(&mut v, self.0[i].neg());
            proof {
                assert(coeffs_of(v@) =~= poly_neg(self@).take(i + 1));
            }
            i += 1;
        }
        proof {
            assert(poly_neg(self@).take(n as int) =~= poly_neg(self@));
        }
        Polynomial(v)
    }

    /// The sum of `self` and `rhs`.
    pub fn add(&self, rhs: &Polynomial) -> (r: Self)
        ensures
            r@ == poly_add(self@, rhs@),
    {
        let ghost goal = poly_add(self@, rhs@);
        let mut v: Vec<Coefficient> = Vec::new();
        let na = self.0.len();
        let nb = rhs.0.len();
        let n = if na >= nb {
            na
        } else {
            nb
        };
        let mut i: usize = 0;
        while i < n
            invariant
                i <= n,
                na == self.0@.len(),
                nb == rhs.0@.len(),
                n == longer(na as nat, nb as nat),
                goal == poly_add(self@, rhs@),
                coeffs_of(v@) == goal.take(i as int),
            decreases n - i,
        {
            if i < na && i < nb {
                push_coeff(&mut v, self.0[i].add(&rhs.0[i]));
            } else if i < na {
                push_coeff(&mut v, self.0[i].clone());
            } else {
                push_coeff(&mut v, rhs.0[i].clone());
            }
            proof {
                assert(coeffs_of(v@) =~= goal.take(i + 1));
            }
            i += 1;
        }
        proof {
            assert(goal.take(n as int) =~= goal);
        }
        Polynomial(v)
    }

    /// Adds `rhs`.
    pub fn add_assign(&mut self, rhs: &Polynomial)
        ensures
            final(self)@ == poly_add(old(self)@, rhs@),
    {
        let r = self.add(rhs);
        *self = r;
    }

    /// The difference of `self` and `rhs`.
    pub fn sub(&self, rhs: &Polynomial) -> (r: Self)
        ensures
            r@ == poly_sub(self@, rhs@),
    {
        let ghost goal = poly_sub(self@, rhs@);
        let mut v: Vec<Coefficient> = Vec::new();
        let na = self.0.len();
        let nb = rhs.0.len();
        let n = if na >= nb {
            na
        } else {
            nb
        };
        let mut i: usize = 0;
        while i < n
            invariant
                i <= n,
                na == self.0@.len(),
                nb == rhs.0@.len(),
                n == longer(na as nat, nb as nat),
                goal == poly_sub(self@, rhs@),
                coeffs_of(v@) == goal.take(i as int),
            decreases n - i,
        {
            if i < na && i < nb {
                push_coeff(&mut v, self.0[i].sub(&rhs.0[i]));
            } else if i < na {
                push_coeff(&mut v, self.0[i].clone());
            } else {
                push_coeff(&mut v, rhs.0[i].neg());
            }
            proof {
                assert(coeffs_of(v@) =~= goal.take(i + 1));
            }
            i += 1;
        }
        proof {
            assert(goal.take(n as int) =~= goal);
        }
        Polynomial(v)
    }

    /// Subtracts `rhs`.
    pub fn sub_assign(&mut self, rhs: &Polynomial)
        ensures
            final(self)@ == poly_sub(old(self)@, rhs@),
    {
        let r = self.sub(rhs);
        *self = r;
    }

    /// The coefficients from position 1 on, after the given first one.
    fn with_first(&self, first: Coefficient) -> (r: Self)
        requires
            self@.len() > 0,
        ensures
            r@ == self@.update(0, first@),
    {
        let ghost goal = self@.update(0, first@);
        let mut v: Vec<Coefficient> = Vec::new();
        push_coeff(&mut v, first);
        let n = self.0.len();
        let mut i: usize = 1;
        proof {
            assert(coeffs_of(v@) =~= goal.take(1));
        }
        while i < n
            invariant
                1 <= i <= n,
                n == self.0@.len(),
                goal.len() == n,
                forall|k: int| 1 <= k < n ==> goal[k] == self@[k],
                coeffs_of(v@) == goal.take(i as int),
            decreases n - i,
        {
            push_coeff(&mut v, self.0[i].clone());
            proof {
                assert(coeffs_of(v@) =~= goal.take(i + 1));
            }
            i += 1;
        }
        proof {
            assert(goal.take(n as int) =~= goal);
        }
        Polynomial(v)
    }

    /// Adds the value `rhs` to the constant term.
    pub fn add_assign_value(&mut self, rhs: &Coefficient)
        ensures
            final(self)@ == poly_add_value(old(self)@, rhs@),
    {
        if self.0.len() == 0 {
            let r = Polynomial::from(rhs.clone());
            *self = r;
        } else {
            let first = self.0[0].add(rhs);
            let r = self.with_first(first);
            *self = r;
        }
    }

    /// Subtracts the value `rhs` from the constant term.
    pub fn sub_assign_value(&mut self, rhs: &Coefficient)
        ensures
            final(self)@ == poly_sub_value(old(self)@, rhs@),
    {
        if self.0.len() == 0 {
            let r = Polynomial::from(rhs.neg());
            *self = r;
        } else {
            let first = self.0[0].sub(rhs);
            let r = self.with_first(first);
            *self = r;
        }
    }

    /// The polynomial times the `n`-th power of the variable.
    pub fn shl(&self, n: usize) -> (r: Self)
        requires
            self@.len() + n <= usize::MAX,
        ensures
            r@ == poly_shl(self@, n as nat),
            self@.len() > 0 ==> poly_order(r@) == poly_order(self@) + n,
    {
        let ghost goal = poly_shl(self@, n as nat);
        let mut v: Vec<Coefficient> = Vec::new();
        let mut i: usize = 0;
        while i < n
            invariant
                i <= n,
                goal == poly_shl(self@, n as nat),
                coeffs_of(v@) == goal.take(i as int),
            decreases n - i,
        {
            push_coeff(&mut v, Coefficient::zero());
            proof {
                assert(coeffs_of(v@) =~= goal.take(i + 1));
            }
            i += 1;
        }
        let m = self.0.len();
        let mut j: usize = 0;
        while j < m
            invariant
                j <= m,
                m == self.0@.len(),
                m + n <= usize::MAX,
                goal == poly_shl(self@, n as nat),
                coeffs_of(v@) == goal.take(n + j),
            decreases m - j,
        {
            push_coeff(&mut v, self.0[j].clone());
            proof {
                assert(goal[n + j] == self@[j as int]);
                assert(coeffs_of(v@) =~= goal.take(n + j + 1));
            }
            j += 1;
        }
        proof {
            assert(goal.take(n + m) =~= goal);
        }
        Polynomial(v)
    }

    /// Multiplies by the `n`-th power of the variable.
    pub fn shl_assign(&mut self, n: usize)
        requires
            old(self)@.len() + n <= usize::MAX,
        ensures
            final(self)@ == poly_shl(old(self)@, n as nat),
            old(self)@.len() > 0 ==> poly_order(final(self)@) == poly_order(old(self)@) + n,
    {
        let r = self.shl(n);
        *self = r;
    }

    /// The product of `self` and `rhs`: their discrete convolution.
    #[verifier::rlimit(40)]
    pub fn mul(&self, rhs: &Polynomial) -> (r: Self)
        requires
            self@.len() > 0 && rhs@.len() > 0 ==> self@.len() + rhs@.len() - 1 <= usize::MAX,
        ensures
            r@ == poly_mul(self@, rhs@),
    {
        let ghost a = self@;
        let ghost b = rhs@;
        let ghost goal = poly_mul(a, b);
        let na = self.0.len();
        let nb = rhs.0.len();
        let mut v: Vec<Coefficient> = Vec::new();
        if na == 0 || nb == 0 {
            proof {
                assert(coeffs_of(v@) =~= goal);
            }
            return Polynomial(v);
        }
        let o = na + (nb - 1);
        let mut n: usize = 0;
        while n < o
            invariant
                n <= o,
                o == na + nb - 1,
                na > 0,
                nb > 0,
                na == self.0@.len(),
                nb == rhs.0@.len(),
                a == self@,
                b == rhs@,
                goal == poly_mul(a, b),
                coeffs_of(v@) == goal.take(n as int),
            decreases o - n,
        {
            let lo = if n >= nb {
                n - (nb - 1)
            } else {
                0
            };
            let hi = if n + 1 <= na {
                n + 1
            } else {
                na
            };
            let mut total = self.0[lo].mul(&rhs.0[n - lo]);
            let mut i: usize = lo + 1;
            while i < hi
                invariant
                    lo < i <= hi,
                    hi <= na,
                    hi <= n + 1,
                    n < lo + nb,
                    na == self.0@.len(),
                    nb == rhs.0@.len(),
                    a == self@,
                    b == rhs@,
                    total@ == convolution_sum(a, b, n as int, lo as int, i as int),
                decreases hi - i,
            {
                let p = self.0[i].mul(&rhs.0[n - i]);
                total.add_assign(&p);
                i += 1;
            }
            push_coeff(&mut v, total);
            proof {
                assert(lo == convolution_low(b, n as int));
                assert(hi == convolution_high(a, n as int));
                assert(coeffs_of(v@) =~= goal.take(n + 1));
            }
            n += 1;
        }
        proof {
            assert(goal.take(o as int) =~= goal);
        }
        Polynomial(v)
    }

    /// Multiplies by `rhs`.
    pub fn mul_assign(&mut self, rhs: &Polynomial)
        requires
            old(self)@.len() > 0 && rhs@.len() > 0 ==> old(self)@.len() + rhs@.len() - 1
                <= usize::MAX,
        ensures
            final(self)@ == poly_mul(old(self)@, rhs@),
    {
        let r = self.mul(rhs);
        *self = r;
    }

    /// The polynomial with every coefficient multiplied by `rhs`.
    pub fn mul_value(&self, rhs: &Coefficient) -> (r: Self)
        ensures
            r@ == poly_scale(self@, rhs@),
    {
        let ghost goal = poly_scale(self@, rhs@);
        let mut v: Vec<Coefficient> = Vec::new();
        let n = self.0.len();
        let mut i: usize = 0;
        while i < n
            invariant
                i <= n,
                n == self.0@.len(),
                goal == poly_scale(self@, rhs@),
                coeffs_of(v@) == goal.take(i as int),
            decreases n - i,
        {
            push_coeff(&mut v, self.0[i].mul(rhs));
            proof {
                assert(coeffs_of(v@) =~= goal.take(i + 1));
            }
            i += 1;
        }
        proof {
            assert(goal.take(n as int) =~= goal);
        }
        Polynomial(v)
    }

    /// Multiplies every coefficient by `rhs`.
    pub fn mul_assign_value(&mut self, rhs: &Coefficient)
        ensures
            final(self)@ == poly_scale(old(self)@, rhs@),
    {
        let r = self.mul_value(rhs);
        *self = r;
    }

    /// The polynomial with every coefficient divided by `rhs`.
    pub fn div_value(&self, rhs: &Coefficient) -> (r: Self)
        requires
            weights_nonzero(rhs@),
        ensures
            r@ == poly_unscale(self@, rhs@),
    {
        let ghost goal = poly_unscale(self@, rhs@);
        let mut v: Vec<Coefficient> = Vec::new();
        let n = self.0.len();
        let mut i: usize = 0;
        while i < n
            invariant
                i <= n,
                n == self.0@.len(),
                weights_nonzero(rhs@),
                goal == poly_unscale(self@, rhs@),
                coeffs_of(v@) == goal.take(i as int),
            decreases n - i,
        {
            push_coeff(&mut v, self.0[i].div(rhs));
            proof {
                assert(coeffs_of(v@) =~= goal.take(i + 1));
            }
            i += 1;
        }
        proof {
            assert(goal.take(n as int) =~= goal);
        }
        Polynomial(v)
    }

    /// Divides every coefficient by `rhs`.
    pub fn div_assign_value(&mut self, rhs: &Coefficient)
        requires
            weights_nonzero(rhs@),
        ensures
            final(self)@ == poly_unscale(old(self)@, rhs@),
    {
        let r = self.div_value(rhs);
        *self = r;
    }

    /// The polynomial without its leading term.
    fn without_last(&self) -> (r: Self)
        requires
            self@.len() > 0,
        ensures
            r@ == self@.take(self@.len() - 1),
            r.0@.len() == self.0@.len() - 1,
    {
        let ghost goal = self@.take(self@.len() - 1);
        let mut v: Vec<Coefficient> = Vec::new();
        let n = self.0.len() - 1;
        let mut i: usize = 0;
        while i < n
            invariant
                i <= n,
                n + 1 == self.0@.len(),
                goal == self@.take(n as int),
                v@.len() == i,
                coeffs_of(v@) == goal.take(i as int),
            decreases n - i,
        {
            push_coeff(&mut v, self.0[i].clone());
            proof {
                assert(coeffs_of(v@) =~= goal.take(i + 1));
            }
            i += 1;
        }
        proof {
            assert(goal.take(n as int) =~= goal);
        }
        Polynomial(v)
    }

    /// Long division of `self` by `rhs`: the quotient, and `Ok` where the
    /// remainder is the additive zero, else the remainder.
    #[verifier::rlimit(40)]
    pub fn div_rem(&self, rhs: &Polynomial) -> (r: (Polynomial, Result<(), Polynomial>))
        requires
            rhs@.len() > 0 ==> weights_nonzero(rhs@.last()),
        ensures
            r.0@ == division(self@, Seq::empty(), rhs@).0,
            r.1 is Ok == poly_is_zero(division(self@, Seq::empty(), rhs@).1),
            r.1 is Err ==> r.1->Err_0@ == division(self@, Seq::empty(), rhs@).1,
    {
        let ghost b = rhs@;
        let ghost goal = division(self@, Seq::empty(), rhs@);
        let mut rem = self.clone();
        let mut quo = Polynomial::zero();
        let nb = rhs.0.len();
        while nb <= rem.0.len() && nb > 0 && rem.0.len() > 0
            invariant
                nb == rhs.0@.len(),
                b == rhs@,
                b.len() > 0 ==> weights_nonzero(b.last()),
                division(rem@, quo@, b) == goal,
            decreases rem.0@.len(),
        {
            let nr = rem.0.len();
            let dn = nr - nb;
            proof {
                assert(rem@.last() == rem.0@[nr - 1]@);
                assert(b.last() == rhs.0@[nb - 1]@);
            }
            let c = rem.0[nr - 1].div(&rhs.0[nb - 1]);
            if c.is_zero() {
                proof {
                    assert(rem@.drop_last() =~= rem@.take(nr - 1));
                }
                rem = rem.without_last();
            } else {
                let unit = Polynomial::from(c);
                let scale = unit.shl(dn);
                proof {
                    assert(scale@.len() == dn + 1);
                }
                let sub = scale.mul(rhs);
                let next = rem.sub(&sub);
                quo = quo.add(&scale);
                proof {
                    assert(sub@.len() == nr);
                    assert(next@.len() == nr);
                    assert(next.0@.len() == next@.len());
                }
                rem = next.without_last();
            }
        }
        let exact = rem.is_zero();
        (quo, if exact {
            Ok(())
        } else {
            Err(rem)
        })
    }

    /// The quotient and the remainder of `self` by `rhs`, as `div_rem` gives them.
    pub fn div(&self, rhs: &Polynomial) -> (r: (Polynomial, Result<(), Polynomial>))
        requires
            rhs@.len() > 0 ==> weights_nonzero(rhs@.last()),
        ensures
            r.0@ == division(self@, Seq::empty(), rhs@).0,
            r.1 is Ok == poly_is_zero(division(self@, Seq::empty(), rhs@).1),
            r.1 is Err ==> r.1->Err_0@ == division(self@, Seq::empty(), rhs@).1,
    {
        self.div_rem(rhs)
    }

    /// The value of the polynomial at `x`: the sum of `x^i * a[i]`.
    pub fn polynomial(&self, x: &Coefficient) -> (r: Coefficient)
        ensures
            r@ == evaluation(self@, x@, self@.len()),
    {
        let mut total = Coefficient::zero();
        let mut power = Coefficient::one();
        let n = self.0.len();
        let mut i: usize = 0;
        while i < n
            invariant
                i <= n,
                n == self.0@.len(),
                total@ == evaluation(self@, x@, i as nat),
                power@ == power_of(x@, i as nat),
            decreases n - i,
        {
            let p = power.mul(&self.0[i]);
            total.add_assign(&p);
            power = power.mul(x);
            i += 1;
        }
        total
    }
}

impl PartialZero for Polynomial {
    open spec fn is_zero_spec(&self) -> bool {
        poly_is_zero(self@)
    }

    /// The additive zero: the polynomial without coefficients.
    fn zero() -> (r: Self)
        ensures
            r@ == Seq::<Terms>::empty(),
    {
        let v: Vec<Coefficient> = Vec::new();
        proof {
            assert(coeffs_of(v@) =~= Seq::<Terms>::empty());
        }
        Polynomial(v)
    }

    fn set_zero(&mut self)
        ensures
            final(self)@ == Seq::<Terms>::empty(),
    {
        *self = Self::zero();
    }

    fn is_zero(&self) -> (r: bool) {
        let n = self.0.len();
        let mut i: usize = 0;
        while i < n
            invariant
                i <= n,
                n == self.0@.len(),
                forall|k: int| 0 <= k < i ==> terms_is_zero(#[trigger] self@[k]),
            decreases n - i,
        {
            if !self.0[i].is_zero() {
                proof {
                    assert(!terms_is_zero(self@[i as int]));
                }
                return false;
            }
            i += 1;
        }
        true
    }
}

impl PartialOne for Polynomial {
    open spec fn is_one_spec(&self) -> bool {
        poly_is_one(self@)
    }

    /// The multiplicative one: the constant term one alone.
    fn one() -> (r: Self)
        ensures
            r@ == seq![seq![(Map::<Seq<char>, Int>::empty(), 1 as Int)]],
    {
        let r = Polynomial::from(Coefficient::one());
        proof {
            let t = r@[0];
            assert(terms_is_one(t)) by {
                assert(!crate::weighted_sum::term_degenerate(t[0]));
                assert(crate::powered_product::mono_is_one(t[0].0));
            }
        }
        r
    }

    fn set_one(&mut self)
        ensures
            final(self)@ == seq![seq![(Map::<Seq<char>, Int>::empty(), 1 as Int)]],
    {
        *self = Self::one();
    }

    fn is_one(&self) -> (r: bool) {
        let n = self.0.len();
        let mut i: usize = 0;
        while i < n
            invariant
                i <= n,
                n == self.0@.len(),
                forall|k: int|
                    0 <= k < i ==> if k == 0 {
                        terms_is_one(#[trigger] self@[k])
                    } else {
                        terms_is_zero(self@[k])
                    },
            decreases n - i,
        {
            let ok = if i == 0 {
                self.0[i].is_one()
            } else {
                self.0[i].is_zero()
            };
            if !ok {
                proof {
                    let k = i as int;
                    assert(!(if k == 0 {
                        terms_is_one(self@[k])
                    } else {
                        terms_is_zero(self@[k])
                    }));
                }
                return false;
            }
            i += 1;
        }
        true
    }
}

/// The text of a coefficient as a polynomial shows it: in parentheses
/// where it holds a space.
pub open spec fn wrapped_text(c: Terms) -> Seq<char> {
    let raw = coefficient_text(c);
    if raw.contains(' ') {
        "("@ + raw + ")"@
    } else {
        raw
    }
}

/// The text of the coefficient `c` of the power `i`: nothing where it is
/// the additive zero; else ` + ` or ` - ` after an earlier term (the minus
/// sign taken from the coefficient's own text), the coefficient and `*`
/// unless it is the multiplicative one of a power above 0, and the power of
/// the variable.
pub open spec fn slot_text(c: Terms, i: nat, first: bool, var: TfVar) -> Seq<char> {
    if terms_is_zero(c) {
        Seq::empty()
    } else {
        let s = wrapped_text(c);
        let neg = s.len() > 0 && s[0] == '-';
        (if first {
            Seq::empty()
        } else if neg {
            " - "@
        } else {
            " + "@
        }) + (if !terms_is_one(c) || i == 0 {
            (if !first && neg {
                s.skip(1)
            } else {
                s
            }) + (if i != 0 {
                "*"@
            } else {
                Seq::empty()
            })
        } else {
            Seq::empty()
        }) + var_text(var, i)
    }
}

/// The text of the first `k` coefficients of a polynomial.
pub open spec fn slots_text(p: Coeffs, var: TfVar, k: nat) -> Seq<char>
    decreases k,
{
    if k == 0 {
        Seq::empty()
    } else {
        slots_text(p, var, (k - 1) as nat) + slot_text(
            p[k - 1],
            (k - 1) as nat,
            poly_is_zero(p.take(k - 1)),
            var,
        )
    }
}

/// The text of a polynomial: its terms from the constant one on, and the
/// text of the additive zero where every coefficient is the additive zero.
pub open spec fn polynomial_text(p: Coeffs, var: TfVar) -> Seq<char> {
    slots_text(p, var, p.len()) + (if poly_is_zero(p) {
        coefficient_text(Seq::empty())
    } else {
        Seq::empty()
    })
}

/// The text of a coefficient as a polynomial shows it.
fn wrapped(b: &Coefficient) -> (r: Vec<char>)
    ensures
        r@ == wrapped_text(b@),
{
    let mut raw: Vec<char> = Vec::new();
    b.write(&mut raw);
    proof {
        assert(raw@ =~= coefficient_text(b@));
    }
    if holds(&raw, ' ') {
        let mut text: Vec<char> = Vec::new();
        push_str(&mut text, "(");
        push_chars(&mut text, &raw);
        push_str(&mut text, ")");
        proof {
            assert(text@ =~= "("@ + raw@ + ")"@);
        }
        text
    } else {
        raw
    }
}

impl Polynomial {
    /// Appends the text of the coefficient at `i` to `out`.
    #[verifier::rlimit(40)]
    fn write_slot(&self, i: usize, first: bool, var: TfVar, out: &mut Vec<char>)
        requires
            i < self@.len(),
            !terms_is_zero(self@[i as int]),
        ensures
            final(out)@ == old(out)@ + slot_text(self@[i as int], i as nat, first, var),
    {
        let ghost start = out@;
        let ghost c = self@[i as int];
        let b = &self.0[i];
        proof {
            assert(c == b@);
        }
        let mut text = wrapped(b);
        let neg = text.len() > 0 && text[0] == '-';
        let ghost lead = if first {
            Seq::<char>::empty()
        } else if neg {
            " - "@
        } else {
            " + "@
        };
        if !first {
            if neg {
                push_str(out, " - ");
                text = without_first(&text);
            } else {
                push_str(out, " + ");
            }
        }
        proof {
            assert(out@ =~= start + lead);
        }
        let ghost shown = text@;
        let ghost body = if !b.is_one_spec() || i == 0 {
            shown + (if i != 0 {
                "*"@
            } else {
                Seq::empty()
            })
        } else {
            Seq::<char>::empty()
        };
        let ghost mid = out@;
        if !b.is_one() || i == 0 {
            push_chars(out, &text);
            if i != 0 {
                push_str(out, "*");
            }
        }
        proof {
            assert(out@ =~= mid + body);
        }
        let ghost late = out@;
        var.write(out, i);
        proof {
            assert(late == start + lead + body);
            assert(out@ == late + var_text(var, i as nat));
            assert(out@ =~= start + (lead + body + var_text(var, i as nat)));
            assert(slot_text(c, i as nat, first, var) == lead + body + var_text(var, i as nat));
        }
    }

    /// Appends the text of the polynomial in the variable `var` to `out`.
    #[verifier::rlimit(40)]
    pub fn write(&self, out: &mut Vec<char>, var: TfVar)
        ensures
            final(out)@ == old(out)@ + polynomial_text(self@, var),
    {
        let ghost start = out@;
        let ghost p = self@;
        let n = self.0.len();
        let mut first = true;
        let mut i: usize = 0;
        proof {
            assert(out@ =~= start + slots_text(p, var, 0));
        }
        while i < n
            invariant
                i <= n,
                n == self.0@.len(),
                p == self@,
                first == poly_is_zero(p.take(i as int)),
                out@ == start + slots_text(p, var, i as nat),
            decreases n - i,
        {
            let ghost before = out@;
            proof {
                assert(p[i as int] == self.0@[i as int]@);
            }
            if !self.0[i].is_zero() {
                self.write_slot(i, first, var, out);
                proof {
                    assert(p.take(i + 1)[i as int] == p[i as int]);
                }
                first = false;
            } else {
                proof {
                    assert(out@ =~= before + slot_text(p[i as int], i as nat, first, var));
                    if first {
                        assert forall|k: int| 0 <= k < i + 1 implies terms_is_zero(
                            #[trigger] p.take(i + 1)[k],
                        ) by {
                            if k < i {
                                assert(p.take(i as int)[k] == p.take(i + 1)[k]);
                            }
                        }
                    } else {
                        let k = choose|k: int| 0 <= k < i && !terms_is_zero(#[trigger] p.take(i as int)[k]);
                        assert(p.take(i + 1)[k] == p.take(i as int)[k]);
                    }
                }
            }
            proof {
                assert(out@ =~= start + slots_text(p, var, (i + 1) as nat));
            }
            i += 1;
        }
        proof {
            assert(p.take(n as int) =~= p);
        }
        if first {
            let zero = Coefficient::zero();
            zero.write(out);
        }
        proof {
            assert(out@ =~= start + polynomial_text(p, var));
        }
    }

    /// The text of the polynomial in the variable `var`.
    pub fn fmt(&self, var: TfVar) -> (r: String)
        ensures
            r@ == polynomial_text(self@, var),
    {
        let mut out: Vec<char> = Vec::new();
        self.write(&mut out, var);
        proof {
            assert(Seq::<char>::empty() + polynomial_text(self@, var) =~= polynomial_text(
                self@,
                var,
            ));
        }
        string_of(&out)
    }
}

/// Shifting a polynomial that has a coefficient by `n` raises its order by `n`.
pub proof fn lemma_shift_order(p: Polynomial, n: nat)
    requires
        p@.len() > 0,
    ensures
        poly_order(poly_shl(p@, n)) == poly_order(p@) + n,
{
}

impl core::ops::Neg for Polynomial {
    type Output = Polynomial;

    /// The negation of a polynomial.
    fn neg(self) -> (r: Polynomial)
        ensures
            r@ == poly_neg(self@),
    {
        Polynomial::neg(&self)
    }
}

impl vstd::std_specs::ops::NegSpecImpl for Polynomial {
    open spec fn obeys_neg_spec() -> bool {
        false
    }

    open spec fn neg_req(self) -> bool {
        true
    }

    open spec fn neg_spec(self) -> Polynomial {
        arbitrary()
    }
}

impl core::ops::Add<Polynomial> for Polynomial {
    type Output = Polynomial;

    /// The sum of two polynomials.
    fn add(self, rhs: Polynomial) -> (r: Polynomial)
        ensures
            r@ == poly_add(self@, rhs@),
    {
        Polynomial::add(&self, &rhs)
    }
}

impl vstd::std_specs::ops::AddSpecImpl<Polynomial> for Polynomial {
    open spec fn obeys_add_spec() -> bool {
        false
    }

    open spec fn add_req(self, rhs: Polynomial) -> bool {
        true
    }

    open spec fn add_spec(self, rhs: Polynomial) -> Polynomial {
        arbitrary()
    }
}

impl core::ops::AddAssign<Polynomial> for Polynomial {
    /// Adds the polynomial `rhs`.
    fn add_assign(&mut self, rhs: Polynomial)
        ensures
            final(self)@ == poly_add(old(self)@, rhs@),
    {
        Polynomial::add_assign(self, &rhs);
    }
}

impl core::ops::Add<Coefficient> for Polynomial {
    type Output = Polynomial;

    /// The sum of a polynomial and a value.
    fn add(self, rhs: Coefficient) -> (r: Polynomial)
        ensures
            r@ == poly_add_value(self@, rhs@),
    {
        let mut r = self;
        r.add_assign_value(&rhs);
        r
    }
}

impl vstd::std_specs::ops::AddSpecImpl<Coefficient> for Polynomial {
    open spec fn obeys_add_spec() -> bool {
        false
    }

    open spec fn add_req(self, rhs: Coefficient) -> bool {
        true
    }

    open spec fn add_spec(self, rhs: Coefficient) -> Polynomial {
        arbitrary()
    }
}

impl core::ops::AddAssign<Coefficient> for Polynomial {
    /// Adds the value `rhs` to the constant term.
    fn add_assign(&mut self, rhs: Coefficient)
        ensures
            final(self)@ == poly_add_value(old(self)@, rhs@),
    {
        self.add_assign_value(&rhs);
    }
}

impl core::ops::Sub<Polynomial> for Polynomial {
    type Output = Polynomial;

    /// The difference of two polynomials.
    fn sub(self, rhs: Polynomial) -> (r: Polynomial)
        ensures
            r@ == poly_sub(self@, rhs@),
    {
        Polynomial::sub(&self, &rhs)
    }
}

impl vstd::std_specs::ops::SubSpecImpl<Polynomial> for Polynomial {
    open spec fn obeys_sub_spec() -> bool {
        false
    }

    open spec fn sub_req(self, rhs: Polynomial) -> bool {
        true
    }

    open spec fn sub_spec(self, rhs: Polynomial) -> Polynomial {
        arbitrary()
    }
}

impl core::ops::SubAssign<Polynomial> for Polynomial {
    /// Subtracts the polynomial `rhs`.
    fn sub_assign(&mut self, rhs: Polynomial)
        ensures
            final(self)@ == poly_sub(old(self)@, rhs@),
    {
        Polynomial::sub_assign(self, &rhs);
    }
}

impl core::ops::Sub<Coefficient> for Polynomial {
    type Output = Polynomial;

    /// The difference of a polynomial and a value.
    fn sub(self, rhs: Coefficient) -> (r: Polynomial)
        ensures
            r@ == poly_sub_value(self@, rhs@),
    {
        let mut r = self;
        r.sub_assign_value(&rhs);
        r
    }
}

impl vstd::std_specs::ops::SubSpecImpl<Coefficient> for Polynomial {
    open spec fn obeys_sub_spec() -> bool {
        false
    }

    open spec fn sub_req(self, rhs: Coefficient) -> bool {
        true
    }

    open spec fn sub_spec(self, rhs: Coefficient) -> Polynomial {
        arbitrary()
    }
}

impl core::ops::SubAssign<Coefficient> for Polynomial {
    /// Subtracts the value `rhs` from the constant term.
    fn sub_assign(&mut self, rhs: Coefficient)
        ensures
            final(self)@ == poly_sub_value(old(self)@, rhs@),
    {
        self.sub_assign_value(&rhs);
    }
}

impl core::ops::Shl<usize> for Polynomial {
    type Output = Polynomial;

    /// The polynomial times a power of the variable.
    fn shl(self, rhs: usize) -> (r: Polynomial)
        ensures
            r@ == poly_shl(self@, rhs as nat),
            self@.len() > 0 ==> poly_order(r@) == poly_order(self@) + rhs,
    {
        Polynomial::shl(&self, rhs)
    }
}

impl vstd::std_specs::ops::ShlSpecImpl<usize> for Polynomial {
    open spec fn obeys_shl_spec() -> bool {
        false
    }

    open spec fn shl_req(self, rhs: usize) -> bool {
        self@.len() + rhs <= usize::MAX
    }

    open spec fn shl_spec(self, rhs: usize) -> Polynomial {
        arbitrary()
    }
}

impl core::ops::Mul<Polynomial> for Polynomial {
    type Output = Polynomial;

    /// The product of two polynomials.
    fn mul(self, rhs: Polynomial) -> (r: Polynomial)
        ensures
            r@ == poly_mul(self@, rhs@),
    {
        Polynomial::mul(&self, &rhs)
    }
}

impl vstd::std_specs::ops::MulSpecImpl<Polynomial> for Polynomial {
    open spec fn obeys_mul_spec() -> bool {
        false
    }

    open spec fn mul_req(self, rhs: Polynomial) -> bool {
        self@.len() > 0 && rhs@.len() > 0 ==> self@.len() + rhs@.len() - 1 <= usize::MAX
    }

    open spec fn mul_spec(self, rhs: Polynomial) -> Polynomial {
        arbitrary()
    }
}

impl<'a, 'b> core::ops::Mul<&'b Polynomial> for &'a Polynomial {
    type Output = Polynomial;

    /// The product of two polynomials.
    fn mul(self, rhs: &'b Polynomial) -> (r: Polynomial)
        ensures
            r@ == poly_mul(self@, rhs@),
    {
        Polynomial::mul(self, rhs)
    }
}

impl<'a, 'b> vstd::std_specs::ops::MulSpecImpl<&'b Polynomial> for &'a Polynomial {
    open spec fn obeys_mul_spec() -> bool {
        false
    }

    open spec fn mul_req(self, rhs: &'b Polynomial) -> bool {
        self@.len() > 0 && rhs@.len() > 0 ==> self@.len() + rhs@.len() - 1 <= usize::MAX
    }

    open spec fn mul_spec(self, rhs: &'b Polynomial) -> Polynomial {
        arbitrary()
    }
}

impl core::ops::Mul<Coefficient> for Polynomial {
    type Output = Polynomial;

    /// The polynomial with every coefficient multiplied by a value.
    fn mul(self, rhs: Coefficient) -> (r: Polynomial)
        ensures
            r@ == poly_scale(self@, rhs@),
    {
        Polynomial::mul_value(&self, &rhs)
    }
}

impl vstd::std_specs::ops::MulSpecImpl<Coefficient> for Polynomial {
    open spec fn obeys_mul_spec() -> bool {
        false
    }

    open spec fn mul_req(self, rhs: Coefficient) -> bool {
        true
    }

    open spec fn mul_spec(self, rhs: Coefficient) -> Polynomial {
        arbitrary()
    }
}

impl core::ops::MulAssign<Coefficient> for Polynomial {
    /// Multiplies every coefficient by `rhs`.
    fn mul_assign(&mut self, rhs: Coefficient)
        ensures
            final(self)@ == poly_scale(old(self)@, rhs@),
    {
        self.mul_assign_value(&rhs);
    }
}

impl core::ops::Div<Coefficient> for Polynomial {
    type Output = Polynomial;

    /// The polynomial with every coefficient divided by a value.
    fn div(self, rhs: Coefficient) -> (r: Polynomial)
        ensures
            r@ == poly_unscale(self@, rhs@),
    {
        Polynomial::div_value(&self, &rhs)
    }
}

impl vstd::std_specs::ops::DivSpecImpl<Coefficient> for Polynomial {
    open spec fn obeys_div_spec() -> bool {
        false
    }

    open spec fn div_req(self, rhs: Coefficient) -> bool {
        weights_nonzero(rhs@)
    }

    open spec fn div_spec(self, rhs: Coefficient) -> Polynomial {
        arbitrary()
    }
}

} // verus!
