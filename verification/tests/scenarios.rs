use transfer_function::coefficient::Coefficient;
use transfer_function::partial_one::PartialOne;
use transfer_function::partial_zero::PartialZero;
use transfer_function::polynomial::Polynomial;
use transfer_function::simplify::Simplify;
use transfer_function::transfer_function::Tf;

fn c(i: i128) -> Coefficient {
    Coefficient::from(i)
}

fn poly(v: Vec<i128>) -> Polynomial {
    Polynomial(v.into_iter().map(c).collect())
}

#[test]
fn mul() {
    let a = Tf::s(1) + 1;
    let b = -Tf::s(1) + 1;
    println!("(s + 1)*(s + 1) = {}", (&a * &a).fmt());
    println!("(s - 1)*(s - 1) = {}", (&a * &b).fmt());
    println!("(s + 1)*(s - 1) = {}", (&b * &b).fmt());
    assert_eq!((&a * &a).fmt(), "(1.0 + 2.0*s + s^2)");
    assert_eq!((&a * &b).fmt(), "(1.0 - 1.0*s^2)");
    assert_eq!((&b * &b).fmt(), "(1.0 - 2.0*s + s^2)");
}

#[test]
fn z() {
    let _s = Tf::s(1);

    let tf = Tf::s(2) / (Tf::s(2) + Tf::s(1) * "omega" * 2 * "zeta" + Tf::from("omega") * "omega");

    let tfz = tf.bilinear_transform();

    println!("H(z) = {}", tfz.fmt());
    assert_eq!(tfz.0 .0.len(), 3);
    assert_eq!(tfz.1 .0.len(), 3);
}

#[test]
fn test() {
    let a = poly(vec![8, 5, 5, 4]);
    let b = poly(vec![1, 4]);

    let c = a.div_rem(&b);
    println!("{:?}", c);
    let (q, r) = c;
    assert_eq!(q, poly(vec![1, 1, 1]));
    assert!(q.same(&poly(vec![1, 1, 1])));
    match r {
        Ok(()) => panic!("the division leaves a remainder"),
        Err(rem) => assert!(rem.same(&poly(vec![7]))),
    }
}

#[test]
fn squared_ratio_expands() {
    let s = Tf::s(1);
    let h = (s.clone() + 1) / (s - 1);
    assert!(h.0.same(&poly(vec![1, 1])));
    assert!(h.1.same(&poly(vec![-1, 1])));
    let hh = &h * &h;
    assert!(hh.0.same(&poly(vec![1, 2, 1])));
    assert!(hh.1.same(&poly(vec![1, -2, 1])));
    assert_eq!(hh.fmt(), "(1.0 + 2.0*s + s^2)/(1.0 - 2.0*s + s^2)");
}

#[test]
fn all_pass_transforms_to_order_one() {
    let s = Tf::s(1);
    let hs = (s.clone() * "tau" - 1) / (s * "tau" + 1);
    assert_eq!(hs.order(), 1);
    let hz = hs.bilinear_transform();
    assert_eq!(hz.0 .0.len(), 2);
    assert_eq!(hz.1 .0.len(), 2);
    assert_eq!(hz.order(), 1);
}

#[test]
fn second_order_section_has_no_common_factor() {
    let h = Tf::s(2) / (Tf::s(2) + Tf::s(1) * "omega" * 2 * "zeta" + Tf::from("omega") * "omega");
    let mut g = h.clone();
    g.simplify();
    assert!(g.is_simplified());
    assert!(g.0.same(&h.0));
    assert!(g.1.same(&h.1));
    assert_eq!(h.fmt(), "s^2/(omega^2 + omega*zeta*(2.0)*s + s^2)");
}

#[test]
fn exact_division_reports_ok() {
    let a = poly(vec![1, 2, 1]);
    let b = poly(vec![1, 1]);
    let (q, r) = a.div_rem(&b);
    assert!(q.same(&poly(vec![1, 1])));
    assert!(r.is_ok());
}

#[test]
fn division_by_the_empty_polynomial_returns_the_dividend() {
    let a = poly(vec![3, 4]);
    let b = Polynomial(vec![]);
    let (q, r) = a.div_rem(&b);
    assert!(q.same(&Polynomial(vec![])));
    match r {
        Ok(()) => panic!("the dividend is not zero"),
        Err(rem) => assert!(rem.same(&a)),
    }
}

#[test]
fn inexact_leading_ratio_loses_the_round_trip() {
    let a = poly(vec![1, 3]);
    let b = poly(vec![1, 2]);
    let (q, r) = a.div_rem(&b);
    assert!(q.same(&poly(vec![1])));
    assert!(r.is_ok());
    assert!(!q.mul(&b).same(&a));
}

#[test]
fn division_round_trip_on_exact_steps() {
    let a = poly(vec![8, 5, 5, 4]);
    let b = poly(vec![1, 4]);
    let (q, r) = a.div_rem(&b);
    let rem = match r {
        Ok(()) => Polynomial(vec![]),
        Err(rem) => rem,
    };
    let back = q.mul(&b).add(&rem);
    assert!(back.same(&a));
}

#[test]
fn shift_raises_the_order() {
    let p = poly(vec![1, 2, 3]);
    assert_eq!(p.order(), 2);
    let q = p.shl(4);
    assert_eq!(q.order(), 6);
    assert!(q.0[0].is_zero() && q.0[3].is_zero());
    assert!(q.0[4].same(&c(1)));
    let empty = Polynomial(vec![]);
    assert_eq!(empty.order(), 0);
    assert_eq!(empty.shl(3).order(), 2);
}

#[test]
fn product_of_polynomials_is_the_convolution() {
    let a = poly(vec![1, 2]);
    let b = poly(vec![3, 4, 5]);
    let p = a.mul(&b);
    assert!(p.same(&poly(vec![3, 10, 13, 10])));
    assert!(a.mul(&Polynomial(vec![])).same(&Polynomial(vec![])));
    assert!(Polynomial(vec![]).mul(&b).same(&Polynomial(vec![])));
}

#[test]
fn polynomial_value_at_a_point() {
    let p = poly(vec![1, 2, 3]);
    let v = p.polynomial(&c(2));
    assert!(v.same(&c(17)));
}

#[test]
fn bilinear_transform_keeps_all_coefficients() {
    let h = (Tf::s(3) + Tf::s(1) * "a" + 1) / (Tf::s(2) + "b");
    assert_eq!(h.order(), 3);
    let hz = h.bilinear_transform();
    assert_eq!(hz.0 .0.len(), 4);
    assert_eq!(hz.1 .0.len(), 4);
}

#[test]
fn bilinear_transform_of_the_variable() {
    let hz = Tf::s(1).bilinear_transform();
    assert_eq!(hz.fmt(), "(rate*(-2.0) + rate*(2.0)*z)/(1.0 + z)");
    let mut g = hz.clone();
    g.simplify();
    assert_eq!(g.fmt(), "(rate*(-2.0) + rate*(2.0)*z)/(1.0 + z)");
}

#[test]
fn bilinear_transform_of_zero_keeps_one_coefficient() {
    let zero: Tf<false> = PartialZero::zero();
    assert_eq!(zero.order(), 0);
    let hz = zero.bilinear_transform();
    assert_eq!(hz.0 .0.len(), 1);
    assert_eq!(hz.1 .0.len(), 1);
    assert!(hz.0 .0[0].is_zero());
    assert!(hz.is_zero());
    let product = &Tf::s(1) * &Tf::from(0);
    assert_eq!(product.order(), 0);
    let pz = product.bilinear_transform();
    assert_eq!(pz.0 .0.len(), 1);
    assert_eq!(pz.1 .0.len(), 1);
}

#[test]
fn bilinear_transform_of_an_empty_polynomial_has_all_coefficients() {
    let inf = &Tf::s(2) / &(Tf::s(1) * 0);
    assert_eq!(inf.1 .0.len(), 0);
    let n = inf.order();
    let hz = inf.bilinear_transform();
    assert_eq!(hz.0 .0.len(), n + 1);
    assert_eq!(hz.1 .0.len(), n + 1);
    assert!(hz.1.is_zero());
    let none: Tf<false> = Tf(Polynomial(vec![]), Polynomial(vec![]));
    let nz = none.bilinear_transform();
    assert_eq!(nz.0 .0.len(), 1);
    assert_eq!(nz.1 .0.len(), 1);
}

#[test]
fn simplify_is_idempotent() {
    let s = Tf::s(1);
    let h = (s.clone() * "R" * "C" * "R") / (s * "R" + "R");
    let mut once = h.clone();
    once.simplify();
    let mut twice = once.clone();
    twice.simplify();
    assert!(once.0.same(&twice.0));
    assert!(once.1.same(&twice.1));
    assert!(once.is_simplified());
    assert_eq!(once.fmt(), "C*R*s/(1.0 + s)");
}

#[test]
fn simplify_cancels_roots_at_the_origin() {
    let mut h: Tf<false> = Tf(poly(vec![0, 0, 1]), poly(vec![0, 1, 1]));
    h.simplify();
    assert!(h.0.same(&poly(vec![0, 1])));
    assert!(h.1.same(&poly(vec![1, 1])));
}

#[test]
fn simplified_does_not_look_at_the_origin() {
    let h: Tf<false> = Tf(poly(vec![0, 1]), poly(vec![0, 1, 1]));
    assert!(h.is_simplified());
    let mut g = h.clone();
    g.simplify();
    assert!(g.0.same(&poly(vec![1])));
}

#[test]
fn identities_of_transfer_functions() {
    let zero: Tf<false> = PartialZero::zero();
    let one: Tf<false> = PartialOne::one();
    assert!(zero.is_zero());
    assert!(!zero.is_one());
    assert!(one.is_one());
    assert!(!one.is_zero());
    let s = Tf::s(1);
    assert!((&s + &zero).0.same(&s.0));
    assert!((&s * &one).0.same(&s.0));
    assert!((&s * &zero).is_zero());
    assert!((&zero / &s).is_zero());
    let inf = &s / &zero;
    assert!(inf.0.same(&poly(vec![1])));
    assert_eq!(inf.1 .0.len(), 0);
    let none = &zero / &zero;
    assert_eq!(none.0 .0.len(), 0);
    assert_eq!(none.1 .0.len(), 0);
    assert!((&one / &s).0.same(&s.1));
    assert!((&zero - &s).0.same(&s.0.neg()));
}

#[test]
fn negative_power_of_the_variable() {
    let h = Tf::s(-2);
    assert!(h.0.same(&poly(vec![1])));
    assert!(h.1.same(&poly(vec![0, 0, 1])));
    assert_eq!(h.fmt(), "1.0/s^2");
    assert_eq!(Tf::s(0).fmt(), "1.0");
}

#[test]
fn sum_over_a_common_denominator() {
    let a = (Tf::s(1) + 2) / (Tf::s(1) + 1);
    let b = Tf::from(3) / (Tf::s(1) + 1);
    let sum = &a + &b;
    assert!(sum.0.same(&poly(vec![5, 1])));
    assert!(sum.1.same(&poly(vec![1, 1])));
    let diff = &a - &b;
    assert!(diff.0.same(&poly(vec![-1, 1])));
}

#[test]
fn polynomial_sums_differences_and_values() {
    let a = poly(vec![1, 2]);
    let b = poly(vec![3, 4, 5]);
    assert!(a.add(&b).same(&poly(vec![4, 6, 5])));
    assert!(b.add(&a).same(&poly(vec![4, 6, 5])));
    assert!(a.sub(&b).same(&poly(vec![-2, -2, -5])));
    assert!(b.sub(&a).same(&poly(vec![2, 2, 5])));
    assert!(b.neg().same(&poly(vec![-3, -4, -5])));
    let mut p = Polynomial(vec![]);
    p.add_assign_value(&c(7));
    assert!(p.same(&poly(vec![7])));
    p.add_assign_value(&c(1));
    assert!(p.same(&poly(vec![8])));
    p.sub_assign_value(&c(3));
    assert!(p.same(&poly(vec![5])));
    let mut q = Polynomial(vec![]);
    q.sub_assign_value(&c(3));
    assert!(q.same(&poly(vec![-3])));
    q.shl_assign(2);
    assert!(q.same(&poly(vec![0, 0, -3])));
    q.add_assign(&poly(vec![1]));
    q.sub_assign(&poly(vec![0, 2]));
    assert!(q.same(&poly(vec![1, -2, -3])));
    q.mul_assign(&poly(vec![0, 1]));
    assert!(q.same(&poly(vec![0, 1, -2, -3])));
    q.mul_assign_value(&c(2));
    assert!(q.same(&poly(vec![0, 2, -4, -6])));
    q.div_assign_value(&c(2));
    assert!(q.same(&poly(vec![0, 1, -2, -3])));
    assert!(b.mul_value(&Coefficient::from("k")).0[1].same(&c(4).mul(&Coefficient::from("k"))));
    assert!(b.div_value(&c(2)).same(&poly(vec![1, 2, 2])));
    let (quo, rem) = b.div(&poly(vec![1]));
    assert!(quo.same(&b));
    assert!(rem.is_ok());
}

#[test]
fn polynomial_identities() {
    let zero: Polynomial = PartialZero::zero();
    let one: Polynomial = PartialOne::one();
    assert_eq!(zero.0.len(), 0);
    assert!(zero.is_zero());
    assert!(zero.is_one());
    assert!(one.is_one());
    assert!(!one.is_zero());
    assert!(poly(vec![0, 0]).is_zero());
    assert!(poly(vec![1, 0]).is_one());
    assert!(!poly(vec![1, 1]).is_one());
    assert!(!poly(vec![2]).is_one());
    let mut p = poly(vec![4, 5]);
    p.set_one();
    assert!(p.same(&poly(vec![1])));
    p.set_zero();
    assert_eq!(p.0.len(), 0);
    assert!(Polynomial::from(c(9)).same(&poly(vec![9])));
}

#[test]
fn polynomial_text() {
    let s = transfer_function::TfVar::S;
    let z = transfer_function::TfVar::Z;
    assert_eq!(s.fmt(0), "");
    assert_eq!(s.fmt(1), "s");
    assert_eq!(z.fmt(1), "z");
    assert_eq!(z.fmt(12), "z^12");
    assert_eq!(Polynomial(vec![]).fmt(s), "0.0");
    assert_eq!(poly(vec![0, 0]).fmt(s), "0.0");
    assert_eq!(poly(vec![3, 0, -1, 1]).fmt(z), "3.0 - 1.0*z^2 + z^3");
    assert_eq!(poly(vec![0, -2]).fmt(s), "-2.0*s");
    let ab = Coefficient::from("a").add(&Coefficient::from("b"));
    let p = Polynomial(vec![ab.clone(), ab, Coefficient::from("R")]);
    assert_eq!(p.fmt(s), "(a + b) + (a + b)*s + R*s^2");
}

#[test]
fn transfer_function_text() {
    let h = (Tf::s(1) * "R" + 1) / (Tf::s(2) * "L" * "C");
    assert_eq!(h.fmt(), "(1.0 + R*s)/C*L*s^2");
    let hz = Tf::s(-1).bilinear_transform();
    assert_eq!(hz.fmt(), "(1.0 + z)/(rate*(-2.0) + rate*(2.0)*z)");
    let zero: Tf<true> = PartialZero::zero();
    assert_eq!(zero.fmt(), "0.0");
    let mut one: Tf<true> = Tf::from(5);
    one.set_one();
    assert_eq!(one.fmt(), "1.0");
    one.set_zero();
    assert!(one.is_zero());
    assert_eq!(Tf::<true>::var(), transfer_function::TfVar::Z);
    assert_eq!(Tf::<false>::var(), transfer_function::TfVar::S);
    assert_eq!(Tf::<false>::from_name("x").inv().fmt(), "1.0/x");
}

#[test]
fn operators_of_polynomials() {
    let a = poly(vec![1, 2]);
    let b = poly(vec![3, 4, 5]);
    assert_eq!(a.clone() + b.clone(), poly(vec![4, 6, 5]));
    assert_eq!(a.clone() - b.clone(), poly(vec![-2, -2, -5]));
    assert_eq!(-a.clone(), poly(vec![-1, -2]));
    assert_eq!(a.clone() * b.clone(), poly(vec![3, 10, 13, 10]));
    assert_eq!(&a * &b, poly(vec![3, 10, 13, 10]));
    assert_eq!(a.clone() << 2, poly(vec![0, 0, 1, 2]));
    assert_eq!(a.clone() + c(5), poly(vec![6, 2]));
    assert_eq!(a.clone() - c(5), poly(vec![-4, 2]));
    assert_eq!(b.clone() * c(2), poly(vec![6, 8, 10]));
    assert_eq!(b.clone() / c(2), poly(vec![1, 2, 2]));
    let mut p = a.clone();
    p += b.clone();
    p -= a.clone();
    p += c(1);
    p -= c(4);
    p *= c(3);
    assert_eq!(p, poly(vec![0, 12, 15]));
}

#[test]
fn small_transfer_functions_fit() {
    let a = Tf::s(3);
    let b = Tf::s(-2);
    assert!(a.fits(&b));
    assert!(b.fits(&a));
}
