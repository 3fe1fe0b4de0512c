use transfer_function::coefficient::Coefficient;
use transfer_function::integer::{wrapping_difference, wrapping_negation, wrapping_product,
    wrapping_quotient, wrapping_sum};
use transfer_function::is_neg::IsNeg;
use transfer_function::partial_one::PartialOne;
use transfer_function::partial_zero::PartialZero;
use transfer_function::powered_product::PoweredProduct;
use transfer_function::simplify::Simplify;
use transfer_function::sym::{Rank, Sym};
use transfer_function::weighted_sum::WeightedSum;

fn mono(entries: &[(&'static str, i128)]) -> PoweredProduct {
    let mut m = PoweredProduct::new();
    for (n, p) in entries {
        m.raise(Sym(n), *p);
    }
    m
}

fn sum(terms: &[(&[(&'static str, i128)], i128)]) -> WeightedSum {
    let mut s = WeightedSum::new();
    for (m, w) in terms {
        s = s.add(&WeightedSum::term(mono(m), *w));
    }
    s
}

#[test]
fn integer_identities() {
    let z: i128 = PartialZero::zero();
    let o: i128 = PartialOne::one();
    assert_eq!(z, 0);
    assert_eq!(o, 1);
    assert!(PartialZero::is_zero(&0i128));
    assert!(!PartialZero::is_zero(&5i128));
    assert!(PartialOne::is_one(&1i128));
    assert!(!PartialOne::is_one(&0i128));
    assert!(IsNeg::is_neg(&-3i128));
    assert!(!IsNeg::is_neg(&3i128));
    assert!(!IsNeg::is_neg(&0i128));
    let mut x: i128 = 7;
    PartialZero::set_zero(&mut x);
    assert_eq!(x, 0);
    PartialOne::set_one(&mut x);
    assert_eq!(x, 1);
    assert!(Simplify::is_simplified(&x));
}

#[test]
fn wrapping_integers() {
    assert_eq!(wrapping_sum(i128::MAX, 1), i128::MIN);
    assert_eq!(wrapping_difference(i128::MIN, 1), i128::MAX);
    assert_eq!(wrapping_product(i128::MAX, 2), -2);
    assert_eq!(wrapping_negation(i128::MIN), i128::MIN);
    assert_eq!(wrapping_negation(5), -5);
    assert_eq!(wrapping_quotient(-7, 2), -3);
    assert_eq!(wrapping_quotient(7, -2), -3);
    assert_eq!(wrapping_quotient(i128::MIN, -1), i128::MIN);
}

#[test]
fn symbols_are_ordered_as_their_names() {
    assert_eq!(Sym("a").rank(&Sym("b")), Rank::Below);
    assert_eq!(Sym("b").rank(&Sym("a")), Rank::Above);
    assert_eq!(Sym("ab").rank(&Sym("ab")), Rank::Same);
    assert_eq!(Sym("a").rank(&Sym("ab")), Rank::Below);
    assert_eq!(Sym("R2").rank(&Sym("R10")), Rank::Above);
    assert!(Sym("x").same(&Sym("x")));
    assert!(!Sym("x").same(&Sym("y")));
    assert!(Sym::zero().is_zero());
    assert!(Sym::one().is_one());
    assert!(!Sym("x").is_zero());
    assert_eq!(Sym::zero().0, "0");
    assert_eq!(Sym::one().0, "1");
    assert_eq!(Sym("tau").fmt(), "tau");
}

#[test]
fn monomial_times_its_inverse_is_one() {
    let m = mono(&[("R", 2), ("C", -3), ("L", 1)]);
    let p = m.mul(&m.inv());
    assert!(p.is_one());
    assert_eq!(p.len(), 3);
    assert_eq!(p.get(&Sym("R")), Some(0));
    assert!(!p.is_simplified());
    let mut q = p.clone();
    q.simplify();
    assert_eq!(q.len(), 0);
    assert!(q.is_simplified());
    let least = mono(&[("x", i128::MIN)]);
    assert!(least.mul(&least.inv()).is_one());
}

#[test]
fn monomial_product_is_associative() {
    let a = mono(&[("x", 1), ("y", 2)]);
    let b = mono(&[("y", -2), ("z", 5)]);
    let c = mono(&[("x", i128::MAX), ("w", 1)]);
    let left = a.mul(&b).mul(&c);
    let right = a.mul(&b.mul(&c));
    assert!(left.same(&right));
    assert_eq!(left.get(&Sym("x")), Some(i128::MIN));
    assert_eq!(left.get(&Sym("y")), Some(0));
    assert_eq!(left.get(&Sym("q")), None);
}

#[test]
fn monomial_operations() {
    let mut m = PoweredProduct::new();
    assert!(m.is_one());
    m.mul_assign_sym(Sym("x"));
    m.mul_assign_sym(Sym("x"));
    m.div_assign_sym(Sym("y"));
    assert_eq!(m.get(&Sym("x")), Some(2));
    assert_eq!(m.get(&Sym("y")), Some(-1));
    let d = m.div(&mono(&[("x", 2), ("z", 1)]));
    assert_eq!(d.get(&Sym("x")), Some(0));
    assert_eq!(d.get(&Sym("z")), Some(-1));
    assert_eq!(m.entry(0).0 .0, "x");
    assert_eq!(m.entry(1).0 .0, "y");
    assert_eq!(m.rank(&d), Rank::Above);
    assert_eq!(PoweredProduct::new().rank(&m), Rank::Below);
}

#[test]
fn monomial_zero_and_canonical_form() {
    let z = PoweredProduct::zero();
    assert!(z.is_zero());
    assert!(z.is_simplified());
    assert_eq!(z.get(&Sym("0")), Some(1));
    let mut m = mono(&[("0", 3), ("x", 2)]);
    assert!(m.is_zero());
    assert!(!m.is_simplified());
    m.simplify();
    assert!(m.same(&z));
    let mut n = mono(&[("1", 4), ("x", 0), ("y", 2)]);
    assert!(!n.is_zero());
    n.simplify();
    assert!(n.same(&mono(&[("y", 2)])));
    let cancelled = mono(&[("0", 1)]).mul(&mono(&[("0", -1)]));
    assert!(!cancelled.is_zero());
    assert!(cancelled.is_one());
}

#[test]
fn common_factor_of_monomials() {
    let a = mono(&[("x", 3), ("y", -2), ("z", 1)]);
    let b = mono(&[("x", 2), ("y", -5), ("w", 1)]);
    let c = mono(&[("x", 4), ("y", -3), ("z", -1)]);
    let common = Coefficient::common_coeffs(&vec![a.clone(), b, c]);
    assert!(common.same(&mono(&[("x", 2), ("y", -2)])));
    assert!(Coefficient::common_coeffs(&vec![]).is_one());
    assert!(Coefficient::common_coeffs(&vec![a.clone()]).same(&a));
    let mixed = Coefficient::common_coeffs(&vec![mono(&[("x", 1)]), mono(&[("x", -1)])]);
    assert_eq!(mixed.len(), 0);
    let zero_counts_as_positive =
        Coefficient::common_coeffs(&vec![mono(&[("x", 3)]), mono(&[("x", 0)])]);
    assert_eq!(zero_counts_as_positive.get(&Sym("x")), Some(0));
}

#[test]
fn weighted_sum_ring_laws() {
    let x = sum(&[(&[("a", 1)], 2), (&[], 3)]);
    let y = sum(&[(&[("a", -1)], 1), (&[("b", 1)], -4)]);
    let z = sum(&[(&[], 1), (&[("b", 1)], 4)]);
    assert!(x.add(&y).same(&y.add(&x)));
    assert!(x.add(&y).add(&z).same(&x.add(&y.add(&z))));
    assert!(x.mul(&y.add(&z)).same(&x.mul(&y).add(&x.mul(&z))));
    let d = x.sub(&x);
    assert!(d.is_zero());
    assert_eq!(d.len(), 0);
}

#[test]
fn weighted_sum_merges_canonical_monomials() {
    let x = sum(&[(&[("a", 1)], 1), (&[], 1)]);
    let y = sum(&[(&[("a", -1)], 1), (&[], 1)]);
    let p = x.mul(&y);
    assert_eq!(p.len(), 3);
    assert!(p.same(&sum(&[(&[], 2), (&[("a", 1)], 1), (&[("a", -1)], 1)])));
    assert!(p.is_simplified());
}

#[test]
fn weighted_sum_canonical_form() {
    let mut raw = WeightedSum::term(mono(&[("x", 0), ("1", 2)]), 5);
    assert!(!raw.is_simplified());
    assert!(!raw.is_zero());
    raw.simplify();
    assert!(raw.same(&WeightedSum::term(PoweredProduct::new(), 5)));
    let mut gone = WeightedSum::term(mono(&[("0", 1)]), 5);
    assert!(gone.is_zero());
    gone.simplify();
    assert_eq!(gone.len(), 0);
    let mut none = WeightedSum::term(mono(&[("x", 1)]), 0);
    assert!(none.is_zero());
    none.simplify();
    assert_eq!(none.len(), 0);
    let mut again = raw.clone();
    again.simplify();
    assert!(again.same(&raw));
}

#[test]
fn weighted_sum_scalars_and_identities() {
    let mut x = sum(&[(&[("a", 1)], 6), (&[], -4)]);
    x.mul_assign_scalar(3);
    assert!(x.same(&sum(&[(&[("a", 1)], 18), (&[], -12)])));
    x.div_assign_scalar(-5);
    assert!(x.same(&sum(&[(&[("a", 1)], -3), (&[], 2)])));
    x.mul_assign_scalar(0);
    assert_eq!(x.len(), 0);
    let one = WeightedSum::one();
    assert!(one.is_one());
    assert!(!one.is_zero());
    assert!(WeightedSum::zero().is_zero());
    assert!(!WeightedSum::zero().is_one());
    assert!(!sum(&[(&[], 2)]).is_one());
    assert!(!sum(&[(&[], 1), (&[("a", 1)], 1)]).is_one());
    let n = sum(&[(&[("a", 1)], 6)]).neg();
    assert_eq!(n.weight(0), -6);
    assert_eq!(n.key(0).get(&Sym("a")), Some(1));
    let mut k = WeightedSum::new();
    k.add_assign_key(mono(&[("a", 1)]));
    k.add_assign_key(mono(&[("a", 1)]));
    k.sub_assign_key(mono(&[("b", 1)]));
    assert!(k.same(&sum(&[(&[("a", 1)], 2), (&[("b", 1)], -1)])));
    let q = sum(&[(&[("a", 2)], 6), (&[], 9)]).div(&sum(&[(&[("a", 1)], 3)]));
    assert!(q.same(&sum(&[(&[("a", 1)], 2), (&[("a", -1)], 3)])));
}

#[test]
fn coefficients_from_symbols_and_integers() {
    assert!(Coefficient::from(0).is_zero());
    assert_eq!(Coefficient::from(0).0.len(), 0);
    assert!(Coefficient::from(1).is_one());
    assert!(Coefficient::from("1").is_one());
    assert!(Coefficient::from("0").is_zero());
    assert!(Coefficient::from(Sym("R")).same(&Coefficient(WeightedSum::term(mono(&[("R", 1)]), 1))));
    let total = Coefficient::sum(&vec![Coefficient::from(1), Coefficient::from("x"), Coefficient::from(2)]);
    assert!(total.same(&Coefficient(sum(&[(&[], 3), (&[("x", 1)], 1)]))));
    assert!(Coefficient::sum(&vec![]).is_zero());
    let mut v = Coefficient::from(4);
    v.mul_assign(&Coefficient::from("x"));
    v.sub_assign(&Coefficient::from("x"));
    v.div_assign(&Coefficient::from(3));
    assert!(v.same(&Coefficient(sum(&[(&[("x", 1)], 1)]))));
    assert!(v.is_simplified());
    v.set_zero();
    assert!(v.is_zero());
    v.set_one();
    assert!(v.is_one());
}

#[test]
fn coefficient_text() {
    assert_eq!(Coefficient::from(0).fmt(), "0.0");
    assert_eq!(Coefficient::from(1).fmt(), "1.0");
    assert_eq!(Coefficient::from(-12).fmt(), "-12.0");
    assert_eq!(Coefficient::from("R").fmt(), "R");
    let rc = Coefficient::from("R").mul(&Coefficient::from("C"));
    assert_eq!(rc.fmt(), "C*R");
    let two_r = Coefficient::from(2).mul(&Coefficient::from("R"));
    assert_eq!(two_r.fmt(), "R*(2.0)");
    let inv = Coefficient(WeightedSum::term(mono(&[("C", -2), ("R", 1)]), 1));
    assert_eq!(inv.fmt(), "1.0/C^2*R");
    let s = Coefficient::from("a").add(&Coefficient::from("b"));
    assert_eq!(s.fmt(), "a + b");
    let d = Coefficient::from("a").mul(&Coefficient::from("a")).sub(&Coefficient::from("a"));
    assert_eq!(d.fmt(), "a*(-1.0 + a)");
    let big = Coefficient::from(i128::MIN);
    assert_eq!(big.fmt(), "-170141183460469231731687303715884105728.0");
    let four = Coefficient::from("a")
        .mul(&Coefficient::from("b"))
        .add(&Coefficient::from("a").mul(&Coefficient::from("c")))
        .add(&Coefficient::from("d"))
        .add(&Coefficient::from("e"));
    assert_eq!(four.fmt(), "a*(b + c) + d + e");
}

#[test]
fn big_integers_are_always_simplified() {
    let mut x = num::BigInt::from(12345678901234567890u64) * num::BigInt::from(10u8);
    let before = x.clone();
    assert!(Simplify::is_simplified(&x));
    Simplify::simplify(&mut x);
    assert_eq!(x, before);
}

#[test]
fn operators_of_monomials() {
    let x = mono(&[("x", 1)]);
    let y = mono(&[("y", 2)]);
    let xy = x.clone() * y.clone();
    assert_eq!(xy, mono(&[("x", 1), ("y", 2)]));
    assert_eq!(xy.clone() / y.clone(), mono(&[("x", 1), ("y", 0)]));
    assert_eq!(x.clone() * Sym("x"), mono(&[("x", 2)]));
    assert_eq!(x.clone() / Sym("z"), mono(&[("x", 1), ("z", -1)]));
    let mut m = x.clone();
    m *= y.clone();
    m *= Sym("y");
    m /= x;
    m /= Sym("q");
    assert_eq!(m, mono(&[("q", -1), ("x", 0), ("y", 3)]));
    assert!(mono(&[("a", 5)]) < mono(&[("b", 1)]));
    assert!(mono(&[("a", 1)]) < mono(&[("a", 2)]));
    assert!(PoweredProduct::new() < mono(&[("a", 1)]));
}

#[test]
fn operators_of_weighted_sums() {
    let x = sum(&[(&[("a", 1)], 2), (&[], 3)]);
    let y = sum(&[(&[("a", 1)], 1)]);
    assert_eq!(x.clone() + y.clone(), sum(&[(&[("a", 1)], 3), (&[], 3)]));
    assert_eq!(x.clone() - y.clone(), sum(&[(&[("a", 1)], 1), (&[], 3)]));
    assert_eq!(x.clone() * y.clone(), sum(&[(&[("a", 2)], 2), (&[("a", 1)], 3)]));
    assert_eq!(&x * &y, sum(&[(&[("a", 2)], 2), (&[("a", 1)], 3)]));
    assert_eq!(x.clone() / y.clone(), sum(&[(&[], 2), (&[("a", -1)], 3)]));
    assert_eq!(&x / &y, sum(&[(&[], 2), (&[("a", -1)], 3)]));
    assert_eq!((-x.clone()).weight(0), -3);
    assert_eq!(x.clone() + mono(&[("b", 1)]), sum(&[(&[("a", 1)], 2), (&[], 3), (&[("b", 1)], 1)]));
    assert_eq!(x.clone() - mono(&[]), sum(&[(&[("a", 1)], 2), (&[], 2)]));
    let mut z = x.clone();
    z += y.clone();
    z -= x.clone();
    z += mono(&[("c", 1)]);
    z -= mono(&[("a", 1)]);
    z *= 4;
    assert_eq!(z, sum(&[(&[("c", 1)], 4)]));
}

#[test]
fn operators_of_coefficients() {
    let a = Coefficient::from("a");
    let two = Coefficient::from(2);
    assert_eq!(a.clone() + two.clone(), Coefficient(sum(&[(&[("a", 1)], 1), (&[], 2)])));
    assert_eq!(a.clone() - a.clone(), Coefficient::from(0));
    assert_eq!(a.clone() * two.clone(), Coefficient(sum(&[(&[("a", 1)], 2)])));
    assert_eq!((a.clone() * two.clone()) / two.clone(), a);
    assert_eq!(-two.clone(), Coefficient::from(-2));
    let mut c = a.clone();
    c += two.clone();
    c *= two.clone();
    c -= a.clone();
    assert_eq!(c, Coefficient(sum(&[(&[("a", 1)], 1), (&[], 4)])));
}
