//! Coefficients: the weighted sums of monomials over named parameters that
//! fill the slots of a polynomial in the transform variable.

use vstd::prelude::*;
use crate::integer::{wrap, lemma_wrap_id, Int};
use crate::text::{decimal, magnitude, magnitude_of, push_str, push_decimal, string_of};
use crate::is_neg::IsNeg;
use crate::partial_zero::PartialZero;
use crate::partial_one::PartialOne;
use crate::simplify::Simplify;
use crate::sym::{Sym, zero_name, one_name};
use crate::powered_product::{MonoList, mono_listing, mono_div, mono_is_one};
use crate::weighted_sum::{terms_of, terms_keys};
use crate::powered_product::{PoweredProduct, Mono, common_factor, mono_power, mono_mul,
    mono_reduced};
use crate::weighted_sum::{WeightedSum, Terms, terms_neg, ws_add, ws_sub, ws_mul, ws_div,
    terms_is_zero, terms_is_one, terms_canonical, canonical_of, canonical_form, products, quotients,
    terms_scaled, ws_scale, weights_nonzero, lemma_canonical_form_single};

verus! {

/// The views of a vector of monomials.
pub open spec fn monos_of(s: Seq<PoweredProduct>) -> Seq<Mono> {
    s.map_values(|p: PoweredProduct| p@)
}

/// The sum of a list of coefficients: the sum without terms for the empty
/// list, the one coefficient as it is for a list of one, else the
/// coefficients added from the first on.
pub open spec fn sum_of(cs: Seq<Terms>) -> Terms
    decreases cs.len(),
{
    if cs.len() == 0 {
        Seq::empty()
    } else if cs.len() == 1 {
        cs[0]
    } else {
        ws_add(sum_of(cs.drop_last()), cs.last())
    }
}

/// The views of a vector of coefficients.
pub open spec fn views_of(s: Seq<Coefficient>) -> Seq<Terms> {
    s.map_values(|c: Coefficient| c@)
}

/// The terms of the coefficient that is the symbol `n` alone: the symbol to
/// the first power with weight 1; the zero symbol gives the sum without
/// terms and the one symbol the multiplicative one.
pub open spec fn symbol_terms(n: Seq<char>) -> Terms {
    if n == zero_name() {
        Seq::empty()
    } else if n == one_name() {
        seq![(Map::empty(), 1 as Int)]
    } else {
        seq![(mono_power(n, 1), 1 as Int)]
    }
}

/// The terms of the coefficient that is the integer `i`: the monomial
/// without entries with weight `i`, and nothing for 0.
pub open spec fn integer_terms(i: Int) -> Terms {
    if i == 0 {
        Seq::empty()
    } else {
        seq![(Map::empty(), i)]
    }
}

/// An exact symbolic linear combination of monomials in named parameters.
#[derive(PartialEq, Eq, Debug)]
pub struct Coefficient(pub WeightedSum);

impl View for Coefficient {
    type V = Terms;

    open spec fn view(&self) -> Terms {
        self.0@
    }
}

impl Clone for Coefficient {
    fn clone(&self) -> (r: Self)
        ensures
            r@ == self@,
    {
        Coefficient(self.0.clone())
    }
}

impl Coefficient {
    /// The greatest common monomial factor of the monomials `coeffs`.
    pub fn common_coeffs(coeffs: &Vec<PoweredProduct>) -> (r: PoweredProduct)
        ensures
            r@ == common_factor(monos_of(coeffs@)),
    {
        let ghost ms = monos_of(coeffs@);
        let n = coeffs.len();
        if n == 0 {
            return PoweredProduct::new();
        }
        let mut common = coeffs[0].clone();
        proof {
            assert(ms.take(1) =~= seq![ms[0]]);
        }
        let mut k: usize = 1;
        while k < n
            invariant
                1 <= k <= n,
                n == coeffs@.len(),
                ms == monos_of(coeffs@),
                common@ == common_factor(ms.take(k as int)),
            decreases n - k,
        {
            common = common.common_with(&coeffs[k]);
            proof {
                assert(ms.take(k + 1).drop_last() =~= ms.take(k as int));
                assert(ms.take(k + 1).last() == coeffs@[k as int]@);
            }
            k += 1;
        }
        proof {
            assert(ms.take(n as int) =~= ms);
        }
        common
    }

    /// The sum of the coefficients `items`.
    pub fn sum(items: &Vec<Coefficient>) -> (r: Coefficient)
        ensures
            r@ == sum_of(views_of(items@)),
    {
        let ghost cs = views_of(items@);
        let n = items.len();
        if n == 0 {
            return Coefficient(WeightedSum::new());
        }
        let mut total = items[0].clone();
        proof {
            assert(cs.take(1) =~= seq![cs[0]]);
        }
        let mut k: usize = 1;
        while k < n
            invariant
                1 <= k <= n,
                n == items@.len(),
                cs == views_of(items@),
                total@ == sum_of(cs.take(k as int)),
            decreases n - k,
        {
            total.add_assign(&items[k]);
            proof {
                assert(cs.take(k + 1).drop_last() =~= cs.take(k as int));
                assert(cs.take(k + 1).last() == items@[k as int]@);
            }
            k += 1;
        }
        proof {
            assert(cs.take(n as int) =~= cs);
        }
        total
    }

    /// Adds `rhs`.
    pub fn add_assign(&mut self, rhs: &Coefficient)
        ensures
            final(self)@ == ws_add(old(self)@, rhs@),
            canonical_of(final(self)@, old(self)@ + rhs@),
    {
        self.0.add_assign(&rhs.0);
    }

    /// The sum of `self` and `rhs`.
    pub fn add(&self, rhs: &Coefficient) -> (r: Self)
        ensures
            r@ == ws_add(self@, rhs@),
            canonical_of(r@, self@ + rhs@),
    {
        Coefficient(self.0.add(&rhs.0))
    }

    /// Subtracts `rhs`.
    pub fn sub_assign(&mut self, rhs: &Coefficient)
        ensures
            final(self)@ == ws_sub(old(self)@, rhs@),
            canonical_of(final(self)@, old(self)@ + terms_neg(rhs@)),
    {
        self.0.sub_assign(&rhs.0);
    }

    /// The difference of `self` and `rhs`.
    pub fn sub(&self, rhs: &Coefficient) -> (r: Self)
        ensures
            r@ == ws_sub(self@, rhs@),
            canonical_of(r@, self@ + terms_neg(rhs@)),
    {
        Coefficient(self.0.sub(&rhs.0))
    }

    /// The negation: every weight negated.
    pub fn neg(&self) -> (r: Self)
        ensures
            r@ == terms_neg(self@),
    {
        Coefficient(self.0.neg())
    }

    /// Multiplies by `rhs`.
    pub fn mul_assign(&mut self, rhs: &Coefficient)
        ensures
            final(self)@ == ws_mul(old(self)@, rhs@),
            canonical_of(final(self)@, products(old(self)@, rhs@)),
    {
        let r = self.0.mul(&rhs.0);
        self.0 = r;
    }

    /// The product of `self` and `rhs`.
    pub fn mul(&self, rhs: &Coefficient) -> (r: Self)
        ensures
            r@ == ws_mul(self@, rhs@),
            canonical_of(r@, products(self@, rhs@)),
    {
        Coefficient(self.0.mul(&rhs.0))
    }

    /// Divides by `rhs`, term by term.
    pub fn div_assign(&mut self, rhs: &Coefficient)
        requires
            old(self)@.len() > 0 ==> weights_nonzero(rhs@),
        ensures
            final(self)@ == ws_div(old(self)@, rhs@),
            canonical_of(final(self)@, quotients(old(self)@, rhs@)),
    {
        let r = self.0.div(&rhs.0);
        self.0 = r;
    }

    /// The termwise quotient of `self` by `rhs`.
    pub fn div(&self, rhs: &Coefficient) -> (r: Self)
        requires
            self@.len() > 0 ==> weights_nonzero(rhs@),
        ensures
            r@ == ws_div(self@, rhs@),
            canonical_of(r@, quotients(self@, rhs@)),
    {
        Coefficient(self.0.div(&rhs.0))
    }

    /// Whether `self` and `other` have the same terms.
    pub fn same(&self, other: &Coefficient) -> (r: bool)
        ensures
            r == (self@ == other@),
    {
        self.0.same(&other.0)
    }

    /// The coefficient that is the symbol `sym` alone.
    pub fn from_sym(sym: Sym) -> (r: Self)
        ensures
            r@ == symbol_terms(sym@),
    {
        let mut sum = WeightedSum::new();
        let mut product = PoweredProduct::new();
        product.mul_assign_sym(sym);
        let ghost key = product@;
        sum.add_assign_key(product);
        proof {
            let e = (key, 1 as Int);
            assert(Seq::<(Mono, Int)>::empty() + seq![e] =~= seq![e]);
            lemma_canonical_form_single(e);
            assert(key =~= mono_power(sym@, 1));
            if sym@ == one_name() {
                assert(mono_reduced(key) =~= Map::<Seq<char>, Int>::empty());
            } else if sym@ != zero_name() {
                assert(mono_reduced(key) =~= key);
            }
        }
        Coefficient(sum)
    }

    /// The coefficient that is the integer `i`.
    pub fn from_int(i: Int) -> (r: Self)
        ensures
            r@ == integer_terms(i),
    {
        let mut sum = WeightedSum::new();
        let product = PoweredProduct::new();
        sum.add_assign_key(product);
        proof {
            let e = (Map::<Seq<char>, Int>::empty(), 1 as Int);
            assert(Seq::<(Mono, Int)>::empty() + seq![e] =~= seq![e]);
            lemma_canonical_form_single(e);
            assert(mono_reduced(e.0) =~= e.0);
            assert(sum@ == seq![e]);
            lemma_wrap_id(i);
            assert(e.1 == 1);
            assert(e.1 * i == i) by (nonlinear_arith)
                requires
                    e.1 == 1,
            ;
            assert(terms_scaled(seq![e], i)[0] == (e.0, wrap(e.1 * i)));
            assert(terms_scaled(seq![e], i) =~= seq![(e.0, i)]);
            lemma_canonical_form_single((e.0, i));
        }
        sum.mul_assign_scalar(i);
        Coefficient(sum)
    }
}

impl From<Sym> for Coefficient {
    fn from(sym: Sym) -> (r: Self)
        ensures
            r@ == symbol_terms(sym@),
    {
        Coefficient::from_sym(sym)
    }
}

impl vstd::std_specs::convert::FromSpecImpl<Sym> for Coefficient {
    open spec fn obeys_from_spec() -> bool {
        false
    }

    open spec fn from_spec(sym: Sym) -> Self {
        arbitrary()
    }
}

impl From<&'static str> for Coefficient {
    fn from(name: &'static str) -> (r: Self)
        ensures
            r@ == symbol_terms(name@),
    {
        Coefficient::from_sym(Sym(name))
    }
}

impl vstd::std_specs::convert::FromSpecImpl<&'static str> for Coefficient {
    open spec fn obeys_from_spec() -> bool {
        false
    }

    open spec fn from_spec(name: &'static str) -> Self {
        arbitrary()
    }
}

impl From<Int> for Coefficient {
    fn from(i: Int) -> (r: Self)
        ensures
            r@ == integer_terms(i),
    {
        Coefficient::from_int(i)
    }
}

impl vstd::std_specs::convert::FromSpecImpl<Int> for Coefficient {
    open spec fn obeys_from_spec() -> bool {
        false
    }

    open spec fn from_spec(i: Int) -> Self {
        arbitrary()
    }
}

impl PartialZero for Coefficient {
    open spec fn is_zero_spec(&self) -> bool {
        terms_is_zero(self@)
    }

    fn zero() -> (r: Self)
        ensures
            r@ == Seq::<(Mono, Int)>::empty(),
    {
        Coefficient(WeightedSum::zero())
    }

    fn set_zero(&mut self)
        ensures
            final(self)@ == Seq::<(Mono, Int)>::empty(),
    {
        self.0.set_zero();
    }

    fn is_zero(&self) -> (r: bool) {
        self.0.is_zero()
    }
}

impl PartialOne for Coefficient {
    open spec fn is_one_spec(&self) -> bool {
        terms_is_one(self@)
    }

    fn one() -> (r: Self)
        ensures
            r@ == seq![(Map::<Seq<char>, Int>::empty(), 1 as Int)],
    {
        Coefficient(WeightedSum::one())
    }

    fn set_one(&mut self)
        ensures
            final(self)@ == seq![(Map::<Seq<char>, Int>::empty(), 1 as Int)],
    {
        self.0.set_one();
    }

    fn is_one(&self) -> (r: bool) {
        self.0.is_one()
    }
}

impl Simplify for Coefficient {
    open spec fn is_simplified_spec(&self) -> bool {
        terms_canonical(self@)
    }

    open spec fn simplified_from(&self, before: &Self) -> bool {
        canonical_of(self@, before@) && self@ == canonical_form(before@)
    }

    fn simplify(&mut self) {
        self.0.simplify();
    }

    fn is_simplified(&self) -> (r: bool) {
        self.0.is_simplified()
    }
}

/// The text of one factor of a product: nothing for the exponent 0; else a
/// sign of multiplication or division (`1.0/` for a division that comes
/// first), the name, and `^` with the magnitude of the exponent where that
/// is not 1.
pub open spec fn factor_text(e: (Seq<char>, Int), first: bool) -> Seq<char> {
    if e.1 == 0 {
        Seq::empty()
    } else {
        (if !first {
            if e.1 < 0 {
                "/"@
            } else {
                "*"@
            }
        } else if e.1 < 0 {
            "1.0/"@
        } else {
            Seq::empty()
        }) + e.0 + (if magnitude(e.1) != 1 {
            "^"@ + decimal(magnitude(e.1))
        } else {
            Seq::empty()
        })
    }
}

/// Whether nothing has been written after the factors `l`, given whether
/// anything had been before.
pub open spec fn product_first(l: MonoList, first: bool) -> bool
    decreases l.len(),
{
    if l.len() == 0 {
        first
    } else {
        product_first(l.drop_last(), first) && l.last().1 == 0
    }
}

/// The text of the factors `l` of a product, in order.
pub open spec fn product_text(l: MonoList, first: bool) -> Seq<char>
    decreases l.len(),
{
    if l.len() == 0 {
        Seq::empty()
    } else {
        product_text(l.drop_last(), first) + factor_text(
            l.last(),
            product_first(l.drop_last(), first),
        )
    }
}

/// The terms of a sum as they are written: the listing of each monomial,
/// and the weight.
pub type Rows = Seq<(MonoList, Int)>;

/// The text of one term of a sum: nothing for the weight 0; else the sign
/// (after `*(` where a common factor was written and this is the first
/// term), the magnitude of the weight with one decimal where it is not 1,
/// the factors, and `1.0` where neither weight nor factor was written.
pub open spec fn term_text(row: (MonoList, Int), first: bool, bare: bool) -> Seq<char> {
    if row.1 == 0 {
        Seq::empty()
    } else {
        (if first {
            (if !bare {
                "*("@
            } else {
                Seq::empty()
            }) + (if row.1 < 0 {
                "-"@
            } else {
                Seq::empty()
            })
        } else if row.1 < 0 {
            " - "@
        } else {
            " + "@
        }) + (if magnitude(row.1) != 1 {
            decimal(magnitude(row.1)) + ".0"@
        } else {
            Seq::empty()
        }) + product_text(row.0, magnitude(row.1) == 1) + (if product_first(
            row.0,
            magnitude(row.1) == 1,
        ) {
            "1.0"@
        } else {
            Seq::empty()
        })
    }
}

/// Whether no term of `rows` is written: every weight is 0.
pub open spec fn rows_first(rows: Rows) -> bool
    decreases rows.len(),
{
    if rows.len() == 0 {
        true
    } else {
        rows_first(rows.drop_last()) && rows.last().1 == 0
    }
}

/// The text of the terms `rows`, in order.
pub open spec fn rows_text(rows: Rows, bare: bool) -> Seq<char>
    decreases rows.len(),
{
    if rows.len() == 0 {
        Seq::empty()
    } else {
        rows_text(rows.drop_last(), bare) + term_text(
            rows.last(),
            rows_first(rows.drop_last()),
            bare,
        )
    }
}

/// The text of a sum after its common factor: the terms; `0.0` where none
/// is written; a closing parenthesis where a common factor was written.
pub open spec fn tail_text(rows: Rows, bare: bool) -> Seq<char> {
    rows_text(rows, bare) + (if rows_first(rows) {
        "0.0"@
    } else if !bare {
        ")"@
    } else {
        Seq::empty()
    })
}

/// Whether the sum may be split at the entry `e`: its exponent is
/// positive, and its name is neither the one nor the zero name.
pub open spec fn splits(e: (Seq<char>, Int)) -> bool {
    e.1 > 0 && e.0 != one_name() && e.0 != zero_name()
}

/// The names of the entries of `l` at which a sum may be split.
pub open spec fn row_names(l: MonoList) -> Seq<Seq<char>>
    decreases l.len(),
{
    if l.len() == 0 {
        Seq::empty()
    } else {
        row_names(l.drop_last()) + (if splits(l.last()) {
            seq![l.last().0]
        } else {
            Seq::empty()
        })
    }
}

/// The names at which the sum of `rows` may be split, over all its terms in order.
pub open spec fn split_names(rows: Rows) -> Seq<Seq<char>>
    decreases rows.len(),
{
    if rows.len() == 0 {
        Seq::empty()
    } else {
        split_names(rows.drop_last()) + row_names(rows.last().0)
    }
}

/// Whether the monomial holds the name with a positive exponent.
pub open spec fn with_name(m: Mono, n: Seq<char>) -> bool {
    m.dom().contains(n) && m[n] > 0
}

/// The sum of those of the first `k` terms of `t` that hold the name `n`
/// with a positive exponent (for `want`), or that do not.
pub open spec fn group(t: Terms, n: Seq<char>, want: bool, k: nat) -> Terms
    decreases k,
{
    if k == 0 {
        Seq::empty()
    } else if with_name(t[k - 1].0, n) == want {
        ws_add(group(t, n, want, (k - 1) as nat), seq![t[k - 1]])
    } else {
        group(t, n, want, (k - 1) as nat)
    }
}

/// The terms with every monomial divided by `c`.
pub open spec fn quotient_terms(t: Terms, c: Mono) -> Terms {
    t.map_values(|e: (Mono, Int)| (mono_div(e.0, c), e.1))
}

/// The terms as they are written.
pub open spec fn rows_of(t: Terms) -> Rows {
    t.map_values(|e: (Mono, Int)| (mono_listing(e.0), e.1))
}

/// The text of a coefficient: its common monomial factor, then the sum of
/// its terms divided by that factor. Where those terms hold two or more
/// names with a positive exponent, and the terms with the first such name
/// and the terms without it both make a sum of more than one term that is
/// not the multiplicative one, the two sums are written one after the
/// other. A sum that is the multiplicative one alone, with weight 1, is
/// left out after a common factor.
pub open spec fn coefficient_text(t: Terms) -> Seq<char>
    decreases t.len(),
{
    let common = common_factor(terms_keys(t));
    let head = product_text(mono_listing(common), true);
    let bare = product_first(mono_listing(common), true);
    let rest = quotient_terms(t, common);
    let names = split_names(rows_of(rest));
    if names.len() >= 2 && splits_in_two(t, rest, names[0]) {
        let with = group(rest, names[0], true, rest.len());
        let without = group(rest, names[0], false, rest.len());
        if !bare {
            head + "*("@ + coefficient_text(with) + " + "@ + coefficient_text(without) + ")"@
        } else {
            head + coefficient_text(with) + " + "@ + coefficient_text(without)
        }
    } else if rest.len() == 1 && mono_is_one(rest[0].0) && rest[0].1 == 1 && !bare {
        head
    } else {
        head + tail_text(rows_of(rest), bare)
    }
}

/// Whether the terms `rest` of `t` are written as two sums: those with the
/// name `n` and those without both make a sum of more than one term, fewer
/// than `t` has, that is not the multiplicative one.
pub open spec fn splits_in_two(t: Terms, rest: Terms, n: Seq<char>) -> bool {
    let with = group(rest, n, true, rest.len());
    let without = group(rest, n, false, rest.len());
    &&& 1 < with.len() < t.len()
    &&& 1 < without.len() < t.len()
    &&& !terms_is_one(with)
    &&& !terms_is_one(without)
}

/// Appends the text of the factors of `p` to `out`; the result says
/// whether nothing has been written since `first` was so.
#[verifier::rlimit(40)]
pub fn write_product(p: &PoweredProduct, out: &mut Vec<char>, first: bool) -> (r: bool)
    ensures
        final(out)@ == old(out)@ + product_text(p.listing(), first),
        r == product_first(p.listing(), first),
{
    let ghost start = out@;
    let ghost l = p.listing();
    let n = p.len();
    let mut still = first;
    let mut i: usize = 0;
    proof {
        assert(l.take(0) =~= Seq::<(Seq<char>, Int)>::empty());
        assert(out@ =~= start + product_text(l.take(0), first));
    }
    while i < n
        invariant
            i <= n,
            n == l.len(),
            l == p.listing(),
            out@ == start + product_text(l.take(i as int), first),
            still == product_first(l.take(i as int), first),
        decreases n - i,
    {
        let (sym, e) = p.entry(i);
        let ghost before = out@;
        proof {
            assert(l.take(i + 1).drop_last() =~= l.take(i as int));
            assert(l.take(i + 1).last() == (sym@, e));
        }
        if e != 0 {
            if !still {
                if e < 0 {
                    push_str(out, "/");
                } else {
                    push_str(out, "*");
                }
            } else {
                if e < 0 {
                    push_str(out, "1.0/");
                }
                still = false;
            }
            push_str(out, sym.0);
            let m = magnitude_of(e);
            if m != 1 {
                push_str(out, "^");
                push_decimal(out, m);
            }
        }
        proof {
            assert(out@ =~= before + factor_text((sym@, e), product_first(l.take(i as int), first)));
            assert(out@ =~= start + product_text(l.take(i + 1), first));
        }
        i += 1;
    }
    proof {
        assert(l.take(n as int) =~= l);
    }
    still
}

/// The rows of a vector of monomials and weights: the listing of each
/// monomial, and the weight.
pub open spec fn rows_in(s: Seq<(PoweredProduct, Int)>) -> Rows {
    s.map_values(|e: (PoweredProduct, Int)| (e.0.listing(), e.1))
}

/// Appends the text of the term of monomial `p` and weight `w` to `out`.
#[verifier::rlimit(40)]
fn write_term(p: &PoweredProduct, w: Int, out: &mut Vec<char>, first: bool, bare: bool)
    requires
        w != 0,
    ensures
        final(out)@ == old(out)@ + term_text((p.listing(), w), first, bare),
{
    let ghost start = out@;
    let ghost lead = if first {
        (if !bare {
            "*("@
        } else {
            Seq::empty()
        }) + (if w < 0 {
            "-"@
        } else {
            Seq::empty()
        })
    } else if w < 0 {
        " - "@
    } else {
        " + "@
    };
    let negative = w.is_neg();
    if first {
        if !bare {
            push_str(out, "*(");
        }
        if negative {
            push_str(out, "-");
        }
    } else {
        if negative {
            push_str(out, " - ");
        } else {
            push_str(out, " + ");
        }
    }
    proof {
        assert(out@ =~= start + lead);
    }
    let m = magnitude_of(w);
    let ghost weight = if m != 1 {
        decimal(m as nat) + ".0"@
    } else {
        Seq::empty()
    };
    let mut first_mul = true;
    if m != 1 {
        push_decimal(out, m);
        push_str(out, ".0");
        first_mul = false;
    }
    proof {
        assert(out@ =~= start + lead + weight);
    }
    let still = write_product(p, out, first_mul);
    let ghost factors = product_text(p.listing(), first_mul);
    let ghost unit = if still {
        "1.0"@
    } else {
        Seq::empty()
    };
    if still {
        push_str(out, "1.0");
    }
    proof {
        assert(out@ =~= start + lead + weight + factors + unit);
        assert(term_text((p.listing(), w), first, bare) == lead + weight + factors + unit);
        assert(out@ =~= start + (lead + weight + factors + unit));
    }
}

/// Appends the text of the terms `rest` to `out`, with what closes the sum.
#[verifier::rlimit(40)]
fn write_rows(rest: &Vec<(PoweredProduct, Int)>, out: &mut Vec<char>, bare: bool)
    ensures
        final(out)@ == old(out)@ + tail_text(rows_in(rest@), bare),
{
    let ghost start = out@;
    let ghost rows = rows_in(rest@);
    let n = rest.len();
    let mut first = true;
    let mut i: usize = 0;
    proof {
        assert(rows.take(0) =~= Seq::<(MonoList, Int)>::empty());
        assert(out@ =~= start + rows_text(rows.take(0), bare));
    }
    while i < n
        invariant
            i <= n,
            n == rest@.len(),
            rows == rows_in(rest@),
            out@ == start + rows_text(rows.take(i as int), bare),
            first == rows_first(rows.take(i as int)),
        decreases n - i,
    {
        let w = rest[i].1;
        let ghost before = out@;
        let ghost row = rows[i as int];
        proof {
            assert(rows.take(i + 1).drop_last() =~= rows.take(i as int));
            assert(rows.take(i + 1).last() == row);
            assert(row == (rest@[i as int].0.listing(), w));
        }
        if !w.is_zero() {
            write_term(&rest[i].0, w, out, first, bare);
            first = false;
        }
        proof {
            assert(out@ =~= start + rows_text(rows.take(i + 1), bare));
        }
        i += 1;
    }
    proof {
        assert(rows.take(n as int) =~= rows);
    }
    if first {
        push_str(out, "0.0");
    } else if !bare {
        push_str(out, ")");
    }
    proof {
        assert(out@ =~= start + tail_text(rows, bare));
    }
}

/// The first name at which the sum of `rest` may be split, and whether
/// there is a second one.
#[verifier::rlimit(40)]
fn find_split(rest: &Vec<(PoweredProduct, Int)>) -> (r: (Option<Sym>, bool))
    ensures
        r.1 == (split_names(rows_in(rest@)).len() >= 2),
        r.0 is Some == (split_names(rows_in(rest@)).len() >= 1),
        r.0 is Some ==> r.0->Some_0@ == split_names(rows_in(rest@))[0],
{
    let ghost rows = rows_in(rest@);
    let n = rest.len();
    let mut found: Option<Sym> = None;
    let mut more = false;
    let mut i: usize = 0;
    proof {
        assert(rows.take(0) =~= Seq::<(MonoList, Int)>::empty());
    }
    while i < n
        invariant
            i <= n,
            n == rest@.len(),
            rows == rows_in(rest@),
            more == (split_names(rows.take(i as int)).len() >= 2),
            found is Some == (split_names(rows.take(i as int)).len() >= 1),
            found is Some ==> found->Some_0@ == split_names(rows.take(i as int))[0],
        decreases n - i,
    {
        let p = &rest[i].0;
        let ghost l = p.listing();
        let ghost base = split_names(rows.take(i as int));
        let m = p.len();
        let mut j: usize = 0;
        proof {
            assert(rows[i as int].0 == l);
            assert(l.take(0) =~= Seq::<(Seq<char>, Int)>::empty());
            assert(base + row_names(l.take(0)) =~= base);
        }
        while j < m
            invariant
                j <= m,
                m == l.len(),
                l == p.listing(),
                more == ((base + row_names(l.take(j as int))).len() >= 2),
                found is Some == ((base + row_names(l.take(j as int))).len() >= 1),
                found is Some ==> found->Some_0@ == (base + row_names(l.take(j as int)))[0],
            decreases m - j,
        {
            let (sym, e) = p.entry(j);
            proof {
                assert(l.take(j + 1).drop_last() =~= l.take(j as int));
                assert(l.take(j + 1).last() == (sym@, e));
            }
            if e > 0 && !sym.is_one() && !sym.is_zero() {
                match found {
                    Some(_) => {
                        more = true;
                    },
                    None => {
                        found = Some(sym);
                    },
                }
            }
            j += 1;
        }
        proof {
            assert(l.take(m as int) =~= l);
            assert(rows.take(i + 1).drop_last() =~= rows.take(i as int));
            assert(rows.take(i + 1).last() == rows[i as int]);
        }
        i += 1;
    }
    proof {
        assert(rows.take(n as int) =~= rows);
    }
    (found, more)
}

/// The sum of the terms of `rest` that hold the name of `name` with a
/// positive exponent (for `want`), or that do not.
fn group_of(rest: &Vec<(PoweredProduct, Int)>, name: &Sym, want: bool) -> (r: Coefficient)
    ensures
        r@ == group(terms_of(rest@), name@, want, rest@.len() as nat),
{
    let ghost t = terms_of(rest@);
    let mut total = Coefficient(WeightedSum::new());
    let n = rest.len();
    let mut i: usize = 0;
    while i < n
        invariant
            i <= n,
            n == rest@.len(),
            t == terms_of(rest@),
            total@ == group(t, name@, want, i as nat),
        decreases n - i,
    {
        let is_with = match rest[i].0.get(name) {
            Some(p) => p > 0,
            None => false,
        };
        proof {
            assert(t[i as int] == (rest@[i as int].0@, rest@[i as int].1));
        }
        if is_with == want {
            let single = Coefficient(WeightedSum::term(rest[i].0.clone(), rest[i].1));
            total.add_assign(&single);
        }
        i += 1;
    }
    total
}

impl Coefficient {
    /// The text of the coefficient.
    pub fn fmt(&self) -> (r: String)
        ensures
            r@ == coefficient_text(self@),
    {
        let mut out: Vec<char> = Vec::new();
        self.write(&mut out);
        proof {
            assert(Seq::<char>::empty() + coefficient_text(self@) =~= coefficient_text(self@));
        }
        string_of(&out)
    }

    /// Appends the text of the coefficient to `out`.
    #[verifier::rlimit(40)]
    pub fn write(&self, out: &mut Vec<char>)
        ensures
            final(out)@ == old(out)@ + coefficient_text(self@),
        decreases self@.len(),
    {
        let ghost start = out@;
        let ghost t = self@;
        let n = self.0.len();
        let mut keys: Vec<PoweredProduct> = Vec::new();
        let mut i: usize = 0;
        while i < n
            invariant
                i <= n,
                n == self@.len(),
                monos_of(keys@) == terms_keys(self@).take(i as int),
            decreases n - i,
        {
            let ghost before = monos_of(keys@);
            keys.push(self.0.key(i).clone());
            proof {
                assert(monos_of(keys@) =~= before.push(self@[i as int].0));
                assert(monos_of(keys@) =~= terms_keys(self@).take(i + 1));
            }
            i += 1;
        }
        proof {
            assert(terms_keys(self@).take(n as int) =~= terms_keys(self@));
        }
        let common = Coefficient::common_coeffs(&keys);
        proof {
            use_type_invariant(&common);
            common.lemma_finite();
        }
        let bare = write_product(&common, out, true);
        let ghost head = product_text(mono_listing(common@), true);
        let ghost goal = quotient_terms(t, common@);
        let mut rest: Vec<(PoweredProduct, Int)> = Vec::new();
        let mut k: usize = 0;
        proof {
            assert(terms_of(rest@) =~= goal.take(0));
            assert(rows_in(rest@) =~= rows_of(goal).take(0));
        }
        while k < n
            invariant
                k <= n,
                n == self@.len(),
                t == self@,
                goal == quotient_terms(t, common@),
                rest@.len() == k,
                terms_of(rest@) == goal.take(k as int),
                rows_in(rest@) == rows_of(goal).take(k as int),
            decreases n - k,
        {
            let q = self.0.key(k).div(&common);
            let w = self.0.weight(k);
            let ghost t0 = terms_of(rest@);
            let ghost r0 = rows_in(rest@);
            proof {
                use_type_invariant(&q);
                q.lemma_finite();
            }
            let ghost ql = q.listing();
            let ghost qv = q@;
            rest.push((q, w));
            proof {
                assert(terms_of(rest@) =~= t0.push((qv, w)));
                assert(rows_in(rest@) =~= r0.push((ql, w)));
                assert(goal[k as int] == (qv, w));
                assert(terms_of(rest@) =~= goal.take(k + 1));
                assert(rows_of(goal)[k as int] == (ql, w));
                assert(rows_in(rest@) =~= rows_of(goal).take(k + 1));
            }
            k += 1;
        }
        proof {
            assert(goal.take(n as int) =~= goal);
            assert(rows_of(goal).take(n as int) =~= rows_of(goal));
        }
        let (split, more) = find_split(&rest);
        if more {
            match split {
                Some(name) => {
                    let with = group_of(&rest, &name, true);
                    let without = group_of(&rest, &name, false);
                    let nw = with.0.len();
                    let no = without.0.len();
                    if nw > 1 && nw < n && no > 1 && no < n && !with.is_one() && !without.is_one() {
                        if !bare {
                            push_str(out, "*(");
                            with.write(out);
                            push_str(out, " + ");
                            without.write(out);
                            push_str(out, ")");
                            proof {
                                assert(out@ =~= start + (head + "*("@ + coefficient_text(with@)
                                    + " + "@ + coefficient_text(without@) + ")"@));
                            }
                        } else {
                            with.write(out);
                            push_str(out, " + ");
                            without.write(out);
                            proof {
                                assert(out@ =~= start + (head + coefficient_text(with@) + " + "@
                                    + coefficient_text(without@)));
                            }
                        }
                        return ;
                    }
                },
                None => {},
            }
        }
        if n == 1 && !bare {
            proof {
                assert(goal[0] == terms_of(rest@)[0]);
            }
            if rest[0].0.is_one() && rest[0].1.is_one() {
                proof {
                    assert(out@ =~= start + head);
                }
                return ;
            }
        }
        write_rows(&rest, out, bare);
        proof {
            assert(out@ =~= start + (head + tail_text(rows_of(goal), bare)));
        }
    }
}

impl core::ops::Add<Coefficient> for Coefficient {
    type Output = Coefficient;

    /// The sum of two coefficients.
    fn add(self, rhs: Coefficient) -> (r: Coefficient)
        ensures
            r@ == ws_add(self@, rhs@),
    {
        Coefficient::add(&self, &rhs)
    }
}

impl vstd::std_specs::ops::AddSpecImpl<Coefficient> for Coefficient {
    open spec fn obeys_add_spec() -> bool {
        false
    }

    open spec fn add_req(self, rhs: Coefficient) -> bool {
        true
    }

    open spec fn add_spec(self, rhs: Coefficient) -> Coefficient {
        arbitrary()
    }
}

impl core::ops::AddAssign<Coefficient> for Coefficient {
    /// Adds the coefficient `rhs`.
    fn add_assign(&mut self, rhs: Coefficient)
        ensures
            final(self)@ == ws_add(old(self)@, rhs@),
    {
        Coefficient::add_assign(self, &rhs);
    }
}

impl core::ops::Sub<Coefficient> for Coefficient {
    type Output = Coefficient;

    /// The difference of two coefficients.
    fn sub(self, rhs: Coefficient) -> (r: Coefficient)
        ensures
            r@ == ws_sub(self@, rhs@),
    {
        Coefficient::sub(&self, &rhs)
    }
}

impl vstd::std_specs::ops::SubSpecImpl<Coefficient> for Coefficient {
    open spec fn obeys_sub_spec() -> bool {
        false
    }

    open spec fn sub_req(self, rhs: Coefficient) -> bool {
        true
    }

    open spec fn sub_spec(self, rhs: Coefficient) -> Coefficient {
        arbitrary()
    }
}

impl core::ops::SubAssign<Coefficient> for Coefficient {
    /// Subtracts the coefficient `rhs`.
    fn sub_assign(&mut self, rhs: Coefficient)
        ensures
            final(self)@ == ws_sub(old(self)@, rhs@),
    {
        Coefficient::sub_assign(self, &rhs);
    }
}

impl core::ops::Neg for Coefficient {
    type Output = Coefficient;

    /// The negation of a coefficient.
    fn neg(self) -> (r: Coefficient)
        ensures
            r@ == terms_neg(self@),
    {
        Coefficient::neg(&self)
    }
}

impl vstd::std_specs::ops::NegSpecImpl for Coefficient {
    open spec fn obeys_neg_spec() -> bool {
        false
    }

    open spec fn neg_req(self) -> bool {
        true
    }

    open spec fn neg_spec(self) -> Coefficient {
        arbitrary()
    }
}

impl core::ops::Mul<Coefficient> for Coefficient {
    type Output = Coefficient;

    /// The product of two coefficients.
    fn mul(self, rhs: Coefficient) -> (r: Coefficient)
        ensures
            r@ == ws_mul(self@, rhs@),
    {
        Coefficient::mul(&self, &rhs)
    }
}

impl vstd::std_specs::ops::MulSpecImpl<Coefficient> for Coefficient {
    open spec fn obeys_mul_spec() -> bool {
        false
    }

    open spec fn mul_req(self, rhs: Coefficient) -> bool {
        true
    }

    open spec fn mul_spec(self, rhs: Coefficient) -> Coefficient {
        arbitrary()
    }
}

impl core::ops::MulAssign<Coefficient> for Coefficient {
    /// Multiplies by the coefficient `rhs`.
    fn mul_assign(&mut self, rhs: Coefficient)
        ensures
            final(self)@ == ws_mul(old(self)@, rhs@),
    {
        Coefficient::mul_assign(self, &rhs);
    }
}

impl core::ops::Div<Coefficient> for Coefficient {
    type Output = Coefficient;

    /// The termwise quotient of two coefficients.
    fn div(self, rhs: Coefficient) -> (r: Coefficient)
        ensures
            r@ == ws_div(self@, rhs@),
    {
        Coefficient::div(&self, &rhs)
    }
}

impl vstd::std_specs::ops::DivSpecImpl<Coefficient> for Coefficient {
    open spec fn obeys_div_spec() -> bool {
        false
    }

    open spec fn div_req(self, rhs: Coefficient) -> bool {
        self@.len() > 0 ==> weights_nonzero(rhs@)
    }

    open spec fn div_spec(self, rhs: Coefficient) -> Coefficient {
        arbitrary()
    }
}

} // verus!
