//! The integers of weights and exponents: `i128` with wrapping arithmetic,
//! which makes them the ring of integers modulo 2^128.

use vstd::prelude::*;
use vstd::arithmetic::div_mod::lemma_add_mod_noop_right;
use vstd::arithmetic::div_mod::lemma_mul_mod_noop_right;
use vstd::arithmetic::div_mod::lemma_mod_multiples_vanish;
use vstd::arithmetic::div_mod::lemma_sub_mod_noop_right;

verus! {

/// The integer type of weights and exponents.
pub type Int = i128;

/// 2^128, the number of values of `Int`.
pub open spec fn modulus() -> int {
    0x1_0000_0000_0000_0000_0000_0000_0000_0000int
}

/// The value of `Int` that is congruent to `x` modulo 2^128.
pub open spec fn wrap(x: int) -> Int {
    let m = x % modulus();
    if m > Int::MAX {
        (m - modulus()) as Int
    } else {
        m as Int
    }
}

/// Division that rounds toward zero.
pub open spec fn trunc_div(a: int, b: int) -> int
    recommends
        b != 0,
{
    if a >= 0 {
        a / b
    } else {
        -((-a) / b)
    }
}

/// `wrap(x)` and `x` leave the same remainder modulo 2^128.
pub proof fn lemma_wrap_congruent(x: int)
    ensures
        (wrap(x) as int) % modulus() == x % modulus(),
{
    let m = x % modulus();
    if m > Int::MAX {
        lemma_mod_multiples_vanish(-1, m, modulus());
    }
}

/// A value of `Int` wraps to itself.
pub proof fn lemma_wrap_id(x: Int)
    ensures
        wrap(x as int) == x,
{
}

/// Wrapping an addend first does not change a wrapped sum.
pub proof fn lemma_wrap_add(a: int, b: int)
    ensures
        wrap(wrap(a) + b) == wrap(a + b),
        wrap(a + wrap(b)) == wrap(a + b),
        wrap(wrap(a) + wrap(b)) == wrap(a + b),
{
    lemma_wrap_congruent(a);
    lemma_wrap_congruent(b);
    lemma_add_mod_noop_right(b, wrap(a) as int, modulus());
    lemma_add_mod_noop_right(b, a, modulus());
    lemma_add_mod_noop_right(a, wrap(b) as int, modulus());
    lemma_add_mod_noop_right(a, b, modulus());
    lemma_add_mod_noop_right(wrap(a) as int, wrap(b) as int, modulus());
    lemma_add_mod_noop_right(wrap(a) as int, b, modulus());
}

/// Wrapping the subtrahend or the minuend first does not change a wrapped difference.
pub proof fn lemma_wrap_sub(a: int, b: int)
    ensures
        wrap(wrap(a) - b) == wrap(a - b),
        wrap(a - wrap(b)) == wrap(a - b),
{
    lemma_wrap_congruent(a);
    lemma_wrap_congruent(b);
    lemma_add_mod_noop_right(-b, wrap(a) as int, modulus());
    lemma_add_mod_noop_right(-b, a, modulus());
    lemma_sub_mod_noop_right(a, wrap(b) as int, modulus());
    lemma_sub_mod_noop_right(a, b, modulus());
}

/// Wrapping a factor first does not change a wrapped product.
pub proof fn lemma_wrap_mul(a: int, b: int)
    ensures
        wrap(wrap(a) * b) == wrap(a * b),
        wrap(a * wrap(b)) == wrap(a * b),
{
    lemma_wrap_congruent(a);
    lemma_wrap_congruent(b);
    lemma_mul_mod_noop_right(b, wrap(a) as int, modulus());
    lemma_mul_mod_noop_right(b, a, modulus());
    lemma_mul_mod_noop_right(a, wrap(b) as int, modulus());
    lemma_mul_mod_noop_right(a, b, modulus());
    assert(wrap(a) * b == b * wrap(a)) by (nonlinear_arith);
    assert(a * b == b * a) by (nonlinear_arith);
}

proof fn lemma_div_by_minus_one(x: int)
    ensures
        x / -1 == -x,
{
    assert(x / -1 == -x) by (nonlinear_arith);
}

/// A quotient is no larger in magnitude than its non-negative dividend.
proof fn lemma_quotient_bound(x: int, y: int)
    requires
        x >= 0,
        y != 0,
    ensures
        -x <= x / y <= x,
        y != -1 && x > 0 ==> -x < x / y,
{
    assert(-x <= x / y <= x) by (nonlinear_arith)
        requires
            x >= 0,
            y != 0,
    ;
    if y != -1 && x > 0 {
        assert(-x < x / y) by (nonlinear_arith)
            requires
                x > 0,
                y != 0,
                y != -1,
        ;
    }
}

/// The sum of `a` and `b` modulo 2^128.
pub fn wrapping_sum(a: Int, b: Int) -> (r: Int)
    ensures
        r == wrap(a + b),
{
    a.wrapping_add(b)
}

/// The difference of `a` and `b` modulo 2^128.
pub fn wrapping_difference(a: Int, b: Int) -> (r: Int)
    ensures
        r == wrap(a - b),
{
    a.wrapping_sub(b)
}

/// The product of `a` and `b` modulo 2^128.
pub fn wrapping_product(a: Int, b: Int) -> (r: Int)
    ensures
        r == wrap(a * b),
{
    a.wrapping_mul(b)
}

/// The negation of `a` modulo 2^128; the least value is its own negation.
pub fn wrapping_negation(a: Int) -> (r: Int)
    ensures
        r == wrap(-a),
{
    let zero: Int = 0;
    zero.wrapping_sub(a)
}

/// The quotient of `a` by `b`, rounded toward zero, modulo 2^128: the one
/// quotient that does not fit, that of the least value by -1, wraps to the
/// least value.
pub fn wrapping_quotient(a: Int, b: Int) -> (r: Int)
    requires
        b != 0,
    ensures
        r == wrap(trunc_div(a as int, b as int)),
{
    if b == -1 {
        proof {
            lemma_div_by_minus_one(a as int);
            lemma_div_by_minus_one(-(a as int));
        }
        wrapping_negation(a)
    } else {
        proof {
            if a >= 0 {
                lemma_quotient_bound(a as int, b as int);
            } else {
                lemma_quotient_bound(-(a as int), b as int);
            }
        }
        let q: Int = a / b;
        q
    }
}

/// `num::Zero::zero` for `i128`: the additive identity, 0.
#[verifier::external_body]
pub(crate) fn int_zero() -> (r: Int)
    ensures
        r == 0,
{
    num::Zero::zero()
}

/// `num::Zero::is_zero` for `i128`: whether the value equals 0.
#[verifier::external_body]
pub(crate) fn int_is_zero(x: &Int) -> (r: bool)
    ensures
        r == (*x == 0),
{
    num::Zero::is_zero(x)
}

/// `num::One::one` for `i128`: the multiplicative identity, 1.
#[verifier::external_body]
pub(crate) fn int_one() -> (r: Int)
    ensures
        r == 1,
{
    num::One::one()
}

/// `num::One::is_one` for `i128`: whether the value equals 1.
#[verifier::external_body]
pub(crate) fn int_is_one(x: &Int) -> (r: bool)
    ensures
        r == (*x == 1),
{
    num::One::is_one(x)
}

/// `num::Signed::is_negative` for `i128`: whether the value is below 0.
#[verifier::external_body]
pub(crate) fn int_is_negative(x: &Int) -> (r: bool)
    ensures
        r == (*x < 0),
{
    num::Signed::is_negative(x)
}

} // verus!
