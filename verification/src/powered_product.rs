//! Monomials: products of symbols raised to integer powers, held as a list of
//! (symbol, exponent) entries in the order of the symbols' names.

use vstd::prelude::*;
use crate::integer::{wrap, wrapping_sum, wrapping_difference, wrapping_negation, Int};
use crate::order::{lex_lt, lex_lt_from, strict_total, strict_total_on, increasing,
    lemma_increasing_unique, lemma_lex_irreflexive_from, lemma_lex_strict_total, lex_order,
    lemma_finite_set_listing};
use crate::partial_zero::PartialZero;
use crate::partial_one::PartialOne;
use crate::simplify::Simplify;
use crate::sym::{Sym, Rank, name_lt, name_order, zero_name, one_name, lemma_name_lt_irreflexive,
    lemma_name_lt_transitive, lemma_name_lt_connected, lemma_name_order_strict_total};

verus! {

/// The mathematical content of a monomial: the exponent of each name that
/// has an entry.
pub type Mono = Map<Seq<char>, Int>;

/// The entries of a monomial, in order.
pub type MonoList = Seq<(Seq<char>, Int)>;

/// The exponent that `m` gives to `n`: 0 where `n` has no entry.
pub open spec fn exp(m: Mono, n: Seq<char>) -> Int {
    if m.dom().contains(n) {
        m[n]
    } else {
        0
    }
}

/// The product of two monomials: exponents add, and a name has an entry
/// where it has one in either factor.
pub open spec fn mono_mul(a: Mono, b: Mono) -> Mono {
    Map::new(
        |n: Seq<char>| a.dom().contains(n) || b.dom().contains(n),
        |n: Seq<char>| wrap(exp(a, n) + exp(b, n)),
    )
}

/// The quotient of two monomials: exponents subtract.
pub open spec fn mono_div(a: Mono, b: Mono) -> Mono {
    Map::new(
        |n: Seq<char>| a.dom().contains(n) || b.dom().contains(n),
        |n: Seq<char>| wrap(exp(a, n) - exp(b, n)),
    )
}

/// The inverse of a monomial: every exponent negated.
pub open spec fn mono_inv(a: Mono) -> Mono {
    Map::new(|n: Seq<char>| a.dom().contains(n), |n: Seq<char>| wrap(-a[n]))
}

/// The monomial of one symbol with exponent `p`.
pub open spec fn mono_power(n: Seq<char>, p: Int) -> Mono {
    Map::<Seq<char>, Int>::empty().insert(n, p)
}

/// A monomial is the additive zero where the zero name has a nonzero exponent.
pub open spec fn mono_is_zero(a: Mono) -> bool {
    a.dom().contains(zero_name()) && a[zero_name()] != 0
}

/// A monomial is the multiplicative one where every entry is of the one name
/// or has exponent 0.
pub open spec fn mono_is_one(a: Mono) -> bool {
    forall|n: Seq<char>| a.dom().contains(n) ==> n == one_name() || #[trigger] a[n] == 0
}

/// `a` without its entries of exponent 0 and of the one name.
pub open spec fn mono_reduced(a: Mono) -> Mono {
    Map::new(
        |n: Seq<char>| a.dom().contains(n) && n != one_name() && a[n] != 0,
        |n: Seq<char>| a[n],
    )
}

/// The canonical zero monomial: the zero name to the first power.
pub open spec fn mono_zero() -> Mono {
    mono_power(zero_name(), 1)
}

/// The canonical form of a monomial: the canonical zero where it is the
/// additive zero, else the monomial without its entries of exponent 0 and of
/// the one name.
pub open spec fn mono_canonical(a: Mono) -> Mono {
    if mono_is_zero(a) {
        mono_zero()
    } else {
        mono_reduced(a)
    }
}

/// Whether `l` has an entry for `n`.
pub open spec fn list_has(l: MonoList, n: Seq<char>) -> bool {
    exists|i: int| 0 <= i < l.len() && (#[trigger] l[i]).0 == n
}

/// A position of `n` in `l`.
pub open spec fn list_at(l: MonoList, n: Seq<char>) -> int {
    choose|i: int| 0 <= i < l.len() && (#[trigger] l[i]).0 == n
}

/// The exponents that a list of entries gives.
pub open spec fn list_map(l: MonoList) -> Mono {
    Map::new(|n: Seq<char>| list_has(l, n), |n: Seq<char>| l[list_at(l, n)].1)
}

/// The names of `l` are strictly increasing.
pub open spec fn names_increasing(l: MonoList) -> bool {
    forall|i: int, j: int| 0 <= i < j < l.len() ==> name_lt((#[trigger] l[i]).0, (#[trigger] l[j]).0)
}

/// In a list with increasing names every entry is the one that the map holds.
pub proof fn lemma_list_map(l: MonoList)
    requires
        names_increasing(l),
    ensures
        forall|i: int|
            0 <= i < l.len() ==> list_map(l).dom().contains((#[trigger] l[i]).0) && list_map(
                l,
            )[l[i].0] == l[i].1,
{
    assert forall|i: int| 0 <= i < l.len() implies list_map(l).dom().contains((#[trigger] l[i]).0)
        && list_map(l)[l[i].0] == l[i].1 by {
        let n = l[i].0;
        assert(list_has(l, n));
        let k = list_at(l, n);
        lemma_name_lt_irreflexive(n);
        if k < i {
            assert(name_lt(l[k].0, l[i].0));
        }
        if i < k {
            assert(name_lt(l[i].0, l[k].0));
        }
    }
}

/// The first `k + 1` entries give the map of the first `k` with the entry at
/// `k` added, whose name is new.
#[verifier::rlimit(40)]
pub proof fn lemma_list_map_step(l: MonoList, k: int)
    requires
        names_increasing(l),
        0 <= k < l.len(),
    ensures
        !list_map(l.take(k)).dom().contains(l[k].0),
        list_map(l.take(k + 1)) == list_map(l.take(k)).insert(l[k].0, l[k].1),
{
    let a = l.take(k);
    let b = l.take(k + 1);
    lemma_name_lt_irreflexive(l[k].0);
    if list_has(a, l[k].0) {
        let i = list_at(a, l[k].0);
        assert(a[i] == l[i]);
        assert(name_lt(l[i].0, l[k].0));
    }
    assert(names_increasing(b)) by {
        assert forall|i: int, j: int| 0 <= i < j < b.len() implies name_lt(
            (#[trigger] b[i]).0,
            (#[trigger] b[j]).0,
        ) by {
            assert(name_lt(l[i].0, l[j].0));
        }
    }
    assert(names_increasing(a)) by {
        assert forall|i: int, j: int| 0 <= i < j < a.len() implies name_lt(
            (#[trigger] a[i]).0,
            (#[trigger] a[j]).0,
        ) by {
            assert(name_lt(l[i].0, l[j].0));
        }
    }
    lemma_list_map(a);
    lemma_list_map(b);
    let m = list_map(a).insert(l[k].0, l[k].1);
    assert forall|n: Seq<char>| list_map(b).dom().contains(n) implies m.dom().contains(n) by {
        let i = list_at(b, n);
        assert(b[i].0 == n);
        if i < k {
            assert(a[i].0 == n);
        }
    }
    assert forall|n: Seq<char>| m.dom().contains(n) implies list_map(b).dom().contains(n) by {
        if n == l[k].0 {
            assert(b[k].0 == n);
        } else {
            let i = list_at(a, n);
            assert(a[i].0 == n);
            assert(b[i].0 == n);
        }
    }
    assert forall|n: Seq<char>| list_map(b).dom().contains(n) implies #[trigger] list_map(b)[n]
        == m[n] by {
        let i = list_at(b, n);
        assert(b[i].0 == n);
        if i < k {
            assert(a[i] == b[i]);
        } else {
            assert(b[i] == l[k]);
        }
    }
    assert(list_map(b) =~= m);
}

/// The order of entries: by name, then by exponent.
pub open spec fn entry_order() -> spec_fn((Seq<char>, Int), (Seq<char>, Int)) -> bool {
    |p: (Seq<char>, Int), q: (Seq<char>, Int)| name_lt(p.0, q.0) || (p.0 == q.0 && p.1 < q.1)
}

/// The order of monomials: the lexicographic order of their entries.
pub open spec fn mono_lt(a: MonoList, b: MonoList) -> bool {
    lex_lt(a, b, entry_order())
}

/// The order of entries is a strict total order.
pub proof fn lemma_entry_order_strict_total()
    ensures
        strict_total(entry_order()),
{
    let eo = entry_order();
    assert forall|a: (Seq<char>, Int)| !#[trigger] eo(a, a) by {
        lemma_name_lt_irreflexive(a.0);
    }
    assert forall|a: (Seq<char>, Int), b: (Seq<char>, Int), c: (Seq<char>, Int)| #[trigger]
        eo(a, b) && #[trigger] eo(b, c) implies eo(a, c) by {
        if name_lt(a.0, b.0) && name_lt(b.0, c.0) {
            lemma_name_lt_transitive(a.0, b.0, c.0);
        }
    }
    assert forall|a: (Seq<char>, Int), b: (Seq<char>, Int)| a == b || #[trigger] eo(a, b) || eo(
        b,
        a,
    ) by {
        lemma_name_lt_connected(a.0, b.0);
    }
}

/// Two lists with increasing names that give the same map are the same list.
pub proof fn lemma_list_unique(a: MonoList, b: MonoList)
    requires
        names_increasing(a),
        names_increasing(b),
        list_map(a) == list_map(b),
    ensures
        a == b,
{
    let eo = entry_order();
    lemma_entry_order_strict_total();
    lemma_list_map(a);
    lemma_list_map(b);
    assert(increasing(a, eo));
    assert(increasing(b, eo));
    assert forall|x: (Seq<char>, Int)| a.contains(x) <==> b.contains(x) by {
        if a.contains(x) {
            let i = choose|i: int| 0 <= i < a.len() && a[i] == x;
            assert(list_map(a).dom().contains(a[i].0));
            let j = list_at(b, x.0);
            assert(b[j].0 == x.0);
            assert(b[j] == x);
        }
        if b.contains(x) {
            let i = choose|i: int| 0 <= i < b.len() && b[i] == x;
            assert(list_map(b).dom().contains(b[i].0));
            let j = list_at(a, x.0);
            assert(a[j].0 == x.0);
            assert(a[j] == x);
        }
    }
    lemma_increasing_unique(a, b, eo);
}

/// Appending an entry whose name is above all names of `l` keeps the names
/// increasing and adds the entry to the map.
pub proof fn lemma_list_push(l: MonoList, e: (Seq<char>, Int))
    requires
        names_increasing(l),
        forall|i: int| 0 <= i < l.len() ==> name_lt((#[trigger] l[i]).0, e.0),
    ensures
        names_increasing(l.push(e)),
        !list_map(l).dom().contains(e.0),
        list_map(l.push(e)) == list_map(l).insert(e.0, e.1),
{
    let l1 = l.push(e);
    assert forall|i: int, j: int| 0 <= i < j < l1.len() implies name_lt(
        (#[trigger] l1[i]).0,
        (#[trigger] l1[j]).0,
    ) by {
        if j < l.len() {
            assert(name_lt(l[i].0, l[j].0));
        } else {
            assert(name_lt(l[i].0, e.0));
        }
    }
    assert(l1.take(l.len() as int) =~= l);
    assert(l1.take(l.len() as int + 1) =~= l1);
    lemma_list_map_step(l1, l.len() as int);
}

/// The map of the empty list is empty.
pub proof fn lemma_list_empty()
    ensures
        list_map(Seq::<(Seq<char>, Int)>::empty()) == Map::<Seq<char>, Int>::empty(),
{
    assert(list_map(Seq::<(Seq<char>, Int)>::empty()) =~= Map::<Seq<char>, Int>::empty());
}

/// The entries of a monomial of finitely many names, in the order of the names.
pub open spec fn mono_listing(m: Mono) -> MonoList {
    choose|l: MonoList| names_increasing(l) && list_map(l) == m
}

/// The order of monomials of finitely many names: that of their listings.
pub open spec fn mono_order() -> spec_fn(Mono, Mono) -> bool {
    |a: Mono, b: Mono| mono_lt(mono_listing(a), mono_listing(b))
}

/// A list of entries gives exponents to finitely many names.
pub proof fn lemma_list_map_finite(l: MonoList)
    ensures
        list_map(l).dom().finite(),
{
    let names = l.map_values(|e: (Seq<char>, Int)| e.0);
    vstd::seq_lib::seq_to_set_is_finite(names);
    assert(list_map(l).dom() =~= names.to_set()) by {
        assert forall|n: Seq<char>| list_map(l).dom().contains(n) implies names.to_set().contains(
            n,
        ) by {
            let i = list_at(l, n);
            assert(names[i] == n);
        }
        assert forall|n: Seq<char>| names.to_set().contains(n) implies list_map(l).dom().contains(
            n,
        ) by {
            let i = choose|i: int| 0 <= i < names.len() && names[i] == n;
            assert(l[i].0 == n);
        }
    }
}

/// A monomial of finitely many names has a listing: increasing names that
/// give the monomial's exponents.
pub proof fn lemma_mono_listing(m: Mono)
    requires
        m.dom().finite(),
    ensures
        names_increasing(mono_listing(m)),
        list_map(mono_listing(m)) == m,
{
    lemma_name_order_strict_total();
    let no = name_order();
    assert(strict_total_on(no, m.dom()));
    let names = lemma_finite_set_listing(m.dom(), no);
    let l = names.map_values(|n: Seq<char>| (n, m[n]));
    assert forall|i: int, j: int| 0 <= i < j < l.len() implies name_lt(
        (#[trigger] l[i]).0,
        (#[trigger] l[j]).0,
    ) by {
        assert(no(names[i], names[j]));
    }
    lemma_list_map(l);
    assert(list_map(l) =~= m) by {
        assert forall|n: Seq<char>| list_map(l).dom().contains(n) implies m.dom().contains(n) by {
            let i = list_at(l, n);
            assert(names[i] == n);
            assert(names.contains(n));
        }
        assert forall|n: Seq<char>| m.dom().contains(n) implies list_map(l).dom().contains(n) by {
            assert(names.contains(n));
            let i = choose|i: int| 0 <= i < names.len() && names[i] == n;
            assert(l[i] == (n, m[n]));
        }
        assert forall|n: Seq<char>| list_map(l).dom().contains(n) implies #[trigger] list_map(l)[n]
            == m[n] by {
            let i = list_at(l, n);
            assert(l[i].0 == n);
            assert(l[i] == (names[i], m[names[i]]));
        }
    }
}

/// The order of monomials is a strict total order on those of finitely many names.
pub proof fn lemma_mono_order(s: Set<Mono>)
    requires
        forall|m: Mono| s.contains(m) ==> m.dom().finite(),
    ensures
        strict_total_on(mono_order(), s),
{
    lemma_entry_order_strict_total();
    lemma_lex_strict_total(entry_order());
    let lx = lex_order(entry_order());
    let mo = mono_order();
    assert forall|a: Mono| s.contains(a) implies !#[trigger] mo(a, a) by {
        assert(!lx(mono_listing(a), mono_listing(a)));
    }
    assert forall|a: Mono, b: Mono, c: Mono|
        s.contains(a) && s.contains(b) && s.contains(c) && #[trigger] mo(a, b) && #[trigger] mo(
            b,
            c,
        ) implies mo(a, c) by {
        assert(lx(mono_listing(a), mono_listing(b)) && lx(mono_listing(b), mono_listing(c)));
        assert(lx(mono_listing(a), mono_listing(c)));
    }
    assert forall|a: Mono, b: Mono| s.contains(a) && s.contains(b) implies a == b || #[trigger] mo(
        a,
        b,
    ) || mo(b, a) by {
        lemma_mono_listing(a);
        lemma_mono_listing(b);
        let la = mono_listing(a);
        let lb = mono_listing(b);
        assert(la == lb || lx(la, lb) || lx(lb, la));
    }
}

/// Products, quotients, inverses, powers and canonical forms of monomials
/// of finitely many names have finitely many names.
pub proof fn lemma_mono_finite(a: Mono, b: Mono)
    requires
        a.dom().finite(),
        b.dom().finite(),
    ensures
        mono_mul(a, b).dom().finite(),
        mono_div(a, b).dom().finite(),
        mono_inv(a).dom().finite(),
        mono_reduced(a).dom().finite(),
        mono_canonical(a).dom().finite(),
{
    broadcast use vstd::set::group_set_axioms;

    assert(mono_mul(a, b).dom() =~= a.dom().union(b.dom()));
    assert(mono_div(a, b).dom() =~= a.dom().union(b.dom()));
    assert(mono_inv(a).dom() =~= a.dom());
    vstd::set_lib::lemma_set_subset_finite(a.dom(), mono_reduced(a).dom());
    assert(mono_zero().dom() =~= Set::<Seq<char>>::empty().insert(zero_name()));
}

/// The common factor of two monomials: a name has an entry where it has one
/// in both with exponents of the same sign (0 counts as positive), and its
/// exponent is the one of smaller magnitude.
pub open spec fn mono_common(a: Mono, b: Mono) -> Mono {
    Map::new(
        |n: Seq<char>| a.dom().contains(n) && b.dom().contains(n) && ((a[n] >= 0) == (b[n] >= 0)),
        |n: Seq<char>|
            if a[n] >= 0 {
                if b[n] < a[n] {
                    b[n]
                } else {
                    a[n]
                }
            } else {
                if b[n] > a[n] {
                    b[n]
                } else {
                    a[n]
                }
            },
    )
}

/// The greatest common factor of a list of monomials: the multiplicative
/// one for the empty list; else a name has an entry where it has one in
/// every monomial, all of the same sign (0 counts as positive), and its
/// exponent is the one of smallest magnitude.
pub open spec fn common_factor(ms: Seq<Mono>) -> Mono
    decreases ms.len(),
{
    if ms.len() == 0 {
        Map::empty()
    } else if ms.len() == 1 {
        ms[0]
    } else {
        mono_common(common_factor(ms.drop_last()), ms.last())
    }
}

/// What the common factor holds, stated without recursion: the names that
/// all monomials have with one sign, each with the exponent closest to 0.
#[verifier::rlimit(40)]
pub proof fn lemma_common_factor(ms: Seq<Mono>, n: Seq<char>)
    requires
        ms.len() > 0,
    ensures
        common_factor(ms).dom().contains(n) == ((forall|i: int|
            0 <= i < ms.len() ==> (#[trigger] ms[i]).dom().contains(n)) && ((forall|i: int|
            0 <= i < ms.len() ==> (#[trigger] ms[i])[n] >= 0) || (forall|i: int|
            0 <= i < ms.len() ==> (#[trigger] ms[i])[n] < 0))),
        common_factor(ms).dom().contains(n) ==> (exists|i: int|
            0 <= i < ms.len() && (#[trigger] ms[i])[n] == common_factor(ms)[n]) && (forall|i: int|
            0 <= i < ms.len() ==> if common_factor(ms)[n] >= 0 {
                common_factor(ms)[n] <= (#[trigger] ms[i])[n]
            } else {
                common_factor(ms)[n] >= ms[i][n]
            }),
    decreases ms.len(),
{
    if ms.len() == 1 {
        assert(ms[0].dom().contains(n) ==> ms[0][n] == common_factor(ms)[n]);
    } else {
        let m0 = ms.drop_last();
        let c0 = common_factor(m0);
        let c = common_factor(ms);
        lemma_common_factor(m0, n);
        assert(ms.last() == ms[ms.len() - 1]);
        assert forall|i: int| 0 <= i < m0.len() implies #[trigger] m0[i] == ms[i] by {}
        if c.dom().contains(n) {
            assert(c0.dom().contains(n));
            assert forall|i: int| 0 <= i < ms.len() implies (#[trigger] ms[i]).dom().contains(n) by {
                if i < m0.len() {
                    assert(m0[i] == ms[i]);
                }
            }
            let j = choose|i: int| 0 <= i < m0.len() && (#[trigger] m0[i])[n] == c0[n];
            assert(m0[j] == ms[j]);
            if c0[n] >= 0 {
                assert forall|i: int| 0 <= i < ms.len() implies (#[trigger] ms[i])[n] >= 0 by {
                    if i < m0.len() {
                        assert(m0[i] == ms[i]);
                    }
                }
            } else {
                assert forall|i: int| 0 <= i < ms.len() implies (#[trigger] ms[i])[n] < 0 by {
                    if i < m0.len() {
                        assert(m0[i] == ms[i]);
                    }
                }
            }
            if c[n] == c0[n] {
                assert(ms[j][n] == c[n]);
            } else {
                assert(ms[ms.len() - 1][n] == c[n]);
            }
            assert forall|i: int| 0 <= i < ms.len() implies if c[n] >= 0 {
                c[n] <= (#[trigger] ms[i])[n]
            } else {
                c[n] >= ms[i][n]
            } by {
                if i < m0.len() {
                    assert(m0[i] == ms[i]);
                }
            }
        } else {
            if (forall|i: int| 0 <= i < ms.len() ==> (#[trigger] ms[i]).dom().contains(n)) && ((
            forall|i: int| 0 <= i < ms.len() ==> (#[trigger] ms[i])[n] >= 0) || (forall|i: int|
                0 <= i < ms.len() ==> (#[trigger] ms[i])[n] < 0)) {
                assert forall|i: int| 0 <= i < m0.len() implies (#[trigger] m0[i]).dom().contains(
                    n,
                ) by {
                    assert(m0[i] == ms[i]);
                }
                if forall|i: int| 0 <= i < ms.len() ==> (#[trigger] ms[i])[n] >= 0 {
                    assert forall|i: int| 0 <= i < m0.len() implies (#[trigger] m0[i])[n] >= 0 by {
                        assert(m0[i] == ms[i]);
                    }
                    assert(c0.dom().contains(n));
                    let j = choose|i: int| 0 <= i < m0.len() && (#[trigger] m0[i])[n] == c0[n];
                    assert(c0[n] >= 0);
                    assert(ms[ms.len() - 1][n] >= 0);
                } else {
                    assert forall|i: int| 0 <= i < m0.len() implies (#[trigger] m0[i])[n] < 0 by {
                        assert(m0[i] == ms[i]);
                    }
                    assert(c0.dom().contains(n));
                    let j = choose|i: int| 0 <= i < m0.len() && (#[trigger] m0[i])[n] == c0[n];
                    assert(c0[n] < 0);
                    assert(ms[ms.len() - 1][n] < 0);
                }
                assert(false);
            }
        }
    }
}

/// The entries of a vector of symbols and exponents, each symbol as its name.
pub open spec fn listing_of(s: Seq<(Sym, Int)>) -> MonoList {
    s.map_values(|e: (Sym, Int)| (e.0@, e.1))
}

/// A product of symbols raised to integer powers.
#[derive(Debug, PartialEq, Eq, Hash, PartialOrd, Ord)]
pub struct PoweredProduct {
    entries: Vec<(Sym, Int)>,
}

impl View for PoweredProduct {
    type V = Mono;

    closed spec fn view(&self) -> Mono {
        list_map(self.listing())
    }
}

impl PoweredProduct {
    /// The entries in order, each as its name and exponent.
    pub closed spec fn listing(&self) -> MonoList {
        listing_of(self.entries@)
    }

    /// The entries are in the strict order of their names.
    #[verifier::type_invariant]
    pub closed spec fn wf(&self) -> bool {
        names_increasing(self.listing())
    }

    /// The number of entries.
    pub fn len(&self) -> (r: usize)
        ensures
            r == self.listing().len(),
    {
        self.entries.len()
    }

    /// The symbol and the exponent of the entry at position `i`.
    pub fn entry(&self, i: usize) -> (r: (Sym, Int))
        requires
            i < self.listing().len(),
        ensures
            (r.0@, r.1) == self.listing()[i as int],
    {
        self.entries[i]
    }

    /// The position of the first entry whose name is not below `sym`, and
    /// whether that entry is of `sym` itself.
    fn locate(&self, sym: &Sym) -> (r: (usize, bool))
        ensures
            r.0 <= self.listing().len(),
            forall|k: int| 0 <= k < r.0 ==> name_lt((#[trigger] self.listing()[k]).0, sym@),
            r.1 ==> r.0 < self.listing().len() && self.listing()[r.0 as int].0 == sym@,
            !r.1 ==> forall|k: int|
                r.0 <= k < self.listing().len() ==> name_lt(sym@, (#[trigger] self.listing()[k]).0),
            r.1 == self@.dom().contains(sym@),
    {
        proof {
            use_type_invariant(self);
        }
        let ghost l = self.listing();
        let mut i: usize = 0;
        while i < self.entries.len()
            invariant
                i <= self.entries.len(),
                l == self.listing(),
                names_increasing(l),
                forall|k: int| 0 <= k < i ==> name_lt((#[trigger] l[k]).0, sym@),
            decreases self.entries.len() - i,
        {
            match self.entries[i].0.rank(sym) {
                Rank::Below => {},
                Rank::Same => {
                    proof {
                        assert(l[i as int].0 == sym@);
                        assert(list_has(l, sym@));
                    }
                    return (i, true);
                },
                Rank::Above => {
                    proof {
                        assert forall|k: int| i <= k < l.len() implies name_lt(
                            sym@,
                            (#[trigger] l[k]).0,
                        ) by {
                            if k > i {
                                lemma_name_lt_transitive(sym@, l[i as int].0, l[k].0);
                            }
                        }
                        Self::lemma_absent(l, sym@, i as int);
                    }
                    return (i, false);
                },
            }
            i += 1;
        }
        proof {
            Self::lemma_absent(l, sym@, i as int);
        }
        (i, false)
    }

    /// A name that lies strictly between the entries before position `i` and
    /// those from `i` on has no entry.
    proof fn lemma_absent(l: MonoList, n: Seq<char>, i: int)
        requires
            0 <= i <= l.len(),
            forall|k: int| 0 <= k < i ==> name_lt((#[trigger] l[k]).0, n),
            forall|k: int| i <= k < l.len() ==> name_lt(n, (#[trigger] l[k]).0),
        ensures
            !list_has(l, n),
    {
        lemma_name_lt_irreflexive(n);
    }

    /// The exponent of `sym`, where it has an entry.
    pub fn get(&self, sym: &Sym) -> (r: Option<Int>)
        ensures
            r == (if self@.dom().contains(sym@) {
                Some(self@[sym@])
            } else {
                None::<Int>
            }),
    {
        let (i, found) = self.locate(sym);
        if found {
            proof {
                use_type_invariant(self);
                lemma_list_map(self.listing());
            }
            Some(self.entries[i].1)
        } else {
            None
        }
    }

    /// Adds `p` to the exponent of `sym`, modulo 2^128; a symbol without an
    /// entry gets one with exponent `p`.
    pub fn raise(&mut self, sym: Sym, p: Int)
        ensures
            final(self)@ == old(self)@.insert(sym@, wrap(exp(old(self)@, sym@) + p)),
    {
        proof {
            use_type_invariant(&*self);
        }
        let (i, found) = self.locate(&sym);
        let mut v: Vec<(Sym, Int)> = Vec::new();
        core::mem::swap(&mut self.entries, &mut v);
        raise_at(&mut v, i, found, sym, p);
        self.entries = v;
    }

    /// Lists with the same names at the same positions have the same names.
    pub(crate) proof fn lemma_same_names(l0: MonoList, l1: MonoList)
        requires
            l0.len() == l1.len(),
            forall|k: int| 0 <= k < l0.len() ==> (#[trigger] l0[k]).0 == l1[k].0,
        ensures
            forall|n: Seq<char>| list_has(l0, n) == list_has(l1, n),
    {
        assert forall|n: Seq<char>| list_has(l0, n) == list_has(l1, n) by {
            if list_has(l0, n) {
                let k = list_at(l0, n);
                assert(l1[k].0 == n);
            }
            if list_has(l1, n) {
                let k = list_at(l1, n);
                assert(l0[k].0 == l1[k].0);
            }
        }
    }
}

impl PoweredProduct {
    /// The monomial without entries.
    pub fn new() -> (r: Self)
        ensures
            r@ == Map::<Seq<char>, Int>::empty(),
            r.listing().len() == 0,
    {
        let r = PoweredProduct { entries: Vec::new() };
        proof {
            assert(r@ =~= Map::<Seq<char>, Int>::empty());
        }
        r
    }

    /// The monomial of `sym` to the power `p`.
    pub fn power(sym: Sym, p: Int) -> (r: Self)
        ensures
            r@ == mono_power(sym@, p),
    {
        let mut r = Self::new();
        r.raise(sym, p);
        proof {
            assert(wrap(0 + p) == p);
        }
        r
    }

    /// Multiplies by `rhs`: exponents add modulo 2^128, and a symbol gets an
    /// entry where it first occurs.
    pub fn mul_assign(&mut self, rhs: &PoweredProduct)
        ensures
            final(self)@ == mono_mul(old(self)@, rhs@),
    {
        let ghost a = self@;
        let ghost l = rhs.listing();
        proof {
            use_type_invariant(rhs);
            assert(l.take(0) =~= Seq::<(Seq<char>, Int)>::empty());
            assert(list_map(l.take(0)) =~= Map::<Seq<char>, Int>::empty());
            assert(self@ =~= mono_mul(a, list_map(l.take(0))));
        }
        let n = rhs.len();
        let mut k: usize = 0;
        while k < n
            invariant
                k <= n,
                n == l.len(),
                l == rhs.listing(),
                names_increasing(l),
                self@ == mono_mul(a, list_map(l.take(k as int))),
            decreases n - k,
        {
            let (sym, p) = rhs.entry(k);
            proof {
                lemma_list_map_step(l, k as int);
            }
            self.raise(sym, p);
            proof {
                let m0 = list_map(l.take(k as int));
                let m1 = list_map(l.take(k + 1));
                assert(exp(mono_mul(a, m0), sym@) == exp(a, sym@)) by {
                    assert(wrap(exp(a, sym@) + 0) == exp(a, sym@));
                }
                assert(self@ =~= mono_mul(a, m1));
            }
            k += 1;
        }
        proof {
            assert(l.take(n as int) =~= l);
        }
    }

    /// The product of `self` and `rhs`.
    pub fn mul(&self, rhs: &PoweredProduct) -> (r: Self)
        ensures
            r@ == mono_mul(self@, rhs@),
    {
        let mut r = self.clone();
        r.mul_assign(rhs);
        r
    }

    /// Multiplies by the symbol `sym`: its exponent grows by 1.
    pub fn mul_assign_sym(&mut self, sym: Sym)
        ensures
            final(self)@ == mono_mul(old(self)@, mono_power(sym@, 1)),
    {
        let ghost a = self@;
        let one: Int = PartialOne::one();
        self.raise(sym, one);
        proof {
            assert forall|n: Seq<char>| n != sym@ && a.dom().contains(n) implies wrap(
                exp(a, n) + exp(mono_power(sym@, 1), n),
            ) == a[n] by {}
            assert(self@ =~= mono_mul(a, mono_power(sym@, 1)));
        }
    }

    /// Divides by `rhs`: exponents subtract modulo 2^128, and a symbol gets an
    /// entry where it first occurs.
    pub fn div_assign(&mut self, rhs: &PoweredProduct)
        ensures
            final(self)@ == mono_div(old(self)@, rhs@),
    {
        let ghost a = self@;
        let ghost l = rhs.listing();
        proof {
            use_type_invariant(rhs);
            assert(l.take(0) =~= Seq::<(Seq<char>, Int)>::empty());
            assert(list_map(l.take(0)) =~= Map::<Seq<char>, Int>::empty());
            assert(self@ =~= mono_div(a, list_map(l.take(0))));
        }
        let n = rhs.len();
        let mut k: usize = 0;
        while k < n
            invariant
                k <= n,
                n == l.len(),
                l == rhs.listing(),
                names_increasing(l),
                self@ == mono_div(a, list_map(l.take(k as int))),
            decreases n - k,
        {
            let (sym, p) = rhs.entry(k);
            proof {
                lemma_list_map_step(l, k as int);
            }
            let q = wrapping_negation(p);
            self.raise(sym, q);
            proof {
                let m0 = list_map(l.take(k as int));
                let m1 = list_map(l.take(k + 1));
                assert(exp(mono_div(a, m0), sym@) == exp(a, sym@)) by {
                    assert(wrap(exp(a, sym@) - 0) == exp(a, sym@));
                }
                crate::integer::lemma_wrap_add(exp(a, sym@) as int, -(p as int));
                assert(self@ =~= mono_div(a, m1));
            }
            k += 1;
        }
        proof {
            assert(l.take(n as int) =~= l);
        }
    }

    /// The quotient of `self` by `rhs`.
    pub fn div(&self, rhs: &PoweredProduct) -> (r: Self)
        ensures
            r@ == mono_div(self@, rhs@),
    {
        let mut r = self.clone();
        r.div_assign(rhs);
        r
    }

    /// Divides by the symbol `sym`: its exponent shrinks by 1.
    pub fn div_assign_sym(&mut self, sym: Sym)
        ensures
            final(self)@ == mono_div(old(self)@, mono_power(sym@, 1)),
    {
        let ghost a = self@;
        let one: Int = PartialOne::one();
        self.raise(sym, wrapping_negation(one));
        proof {
            assert forall|n: Seq<char>| n != sym@ && a.dom().contains(n) implies wrap(
                exp(a, n) - exp(mono_power(sym@, 1), n),
            ) == a[n] by {}
            assert(self@ =~= mono_div(a, mono_power(sym@, 1)));
        }
    }

    /// The inverse: every exponent negated modulo 2^128.
    pub fn inv(&self) -> (r: Self)
        ensures
            r@ == mono_inv(self@),
    {
        proof {
            use_type_invariant(self);
        }
        let ghost l = self.listing();
        let mut v: Vec<(Sym, Int)> = Vec::new();
        let n = self.entries.len();
        let mut k: usize = 0;
        while k < n
            invariant
                k <= n,
                n == self.entries@.len(),
                l == self.listing(),
                v@.len() == k,
                forall|i: int|
                    0 <= i < k ==> (#[trigger] v@[i]).0@ == l[i].0 && v@[i].1 == wrap(-l[i].1),
            decreases n - k,
        {
            let e = self.entries[k];
            v.push((e.0, wrapping_negation(e.1)));
            k += 1;
        }
        proof {
            let l1 = listing_of(v@);
            assert forall|i: int| 0 <= i < l1.len() implies #[trigger] l1[i] == (
                l[i].0,
                wrap(-l[i].1),
            ) by {
                assert(v@[i].0@ == l[i].0);
            }
            assert forall|i: int, j: int| 0 <= i < j < l1.len() implies name_lt(
                (#[trigger] l1[i]).0,
                (#[trigger] l1[j]).0,
            ) by {
                assert(name_lt(l[i].0, l[j].0));
            }
            lemma_list_map(l);
            lemma_list_map(l1);
            assert forall|i: int| 0 <= i < l.len() implies (#[trigger] l[i]).0 == l1[i].0 by {
                assert(l1[i] == (l[i].0, wrap(-l[i].1)));
            }
            Self::lemma_same_names(l, l1);
            assert forall|m: Seq<char>| list_map(l1).dom().contains(m) implies #[trigger] list_map(
                l1,
            )[m] == mono_inv(list_map(l))[m] by {
                let i = list_at(l1, m);
                assert(l1[i].0 == m);
                assert(l1[i] == (l[i].0, wrap(-l[i].1)));
            }
            assert(list_map(l1) =~= mono_inv(list_map(l)));
        }
        PoweredProduct { entries: v }
    }
}

impl Clone for PoweredProduct {
    fn clone(&self) -> (r: Self)
        ensures
            r@ == self@,
            r.listing() == self.listing(),
    {
        proof {
            use_type_invariant(self);
        }
        let mut v: Vec<(Sym, Int)> = Vec::new();
        let n = self.entries.len();
        let mut k: usize = 0;
        while k < n
            invariant
                k <= n,
                n == self.entries@.len(),
                v@ == self.entries@.take(k as int),
            decreases n - k,
        {
            let e = self.entries[k];
            v.push(e);
            proof {
                assert(v@ =~= self.entries@.take(k + 1));
            }
            k += 1;
        }
        proof {
            assert(v@ =~= self.entries@);
        }
        PoweredProduct { entries: v }
    }
}

impl PartialOne for PoweredProduct {
    open spec fn is_one_spec(&self) -> bool {
        mono_is_one(self@)
    }

    /// The multiplicative one: the monomial without entries.
    fn one() -> (r: Self)
        ensures
            r@ == Map::<Seq<char>, Int>::empty(),
    {
        Self::new()
    }

    fn set_one(&mut self)
        ensures
            final(self)@ == Map::<Seq<char>, Int>::empty(),
    {
        *self = Self::new();
    }

    fn is_one(&self) -> (r: bool) {
        proof {
            use_type_invariant(self);
            lemma_list_map(self.listing());
        }
        let ghost l = self.listing();
        let n = self.entries.len();
        let mut k: usize = 0;
        while k < n
            invariant
                k <= n,
                n == self.entries@.len(),
                l == self.listing(),
                names_increasing(l),
                self@ == list_map(l),
                forall|j: int| 0 <= j < k ==> (#[trigger] l[j]).0 == one_name() || l[j].1 == 0,
            decreases n - k,
        {
            let e = self.entries[k];
            if !e.0.is_one() && !e.1.is_zero() {
                proof {
                    lemma_list_map(l);
                    assert(l[k as int] == (e.0@, e.1));
                    assert(self@.dom().contains(l[k as int].0));
                    assert(self@[e.0@] == e.1);
                }
                return false;
            }
            proof {
                assert(l[k as int] == (e.0@, e.1));
            }
            k += 1;
        }
        proof {
            assert forall|m: Seq<char>| self@.dom().contains(m) implies m == one_name()
                || #[trigger] self@[m] == 0 by {
                let j = list_at(l, m);
                assert(l[j].0 == m);
            }
        }
        true
    }
}

impl PartialZero for PoweredProduct {
    open spec fn is_zero_spec(&self) -> bool {
        mono_is_zero(self@)
    }

    /// The canonical additive zero: the zero symbol to the first power.
    fn zero() -> (r: Self)
        ensures
            r@ == mono_zero(),
    {
        Self::power(Sym::zero(), 1)
    }

    fn set_zero(&mut self)
        ensures
            final(self)@ == mono_zero(),
    {
        *self = Self::zero();
    }

    fn is_zero(&self) -> (r: bool) {
        let z = Sym::zero();
        match self.get(&z) {
            Some(p) => !p.is_zero(),
            None => false,
        }
    }
}

impl Simplify for PoweredProduct {
    open spec fn is_simplified_spec(&self) -> bool {
        self@ == mono_canonical(self@)
    }

    open spec fn simplified_from(&self, before: &Self) -> bool {
        self@ == mono_canonical(before@)
    }

    /// Brings the monomial into canonical form: the canonical zero where it
    /// is the additive zero; else its entries of exponent 0 and of the one
    /// symbol are removed.
    fn simplify(&mut self) {
        if self.is_zero() {
            *self = Self::zero();
            return ;
        }
        proof {
            use_type_invariant(&*self);
            lemma_list_empty();
        }
        let ghost l = self.listing();
        let mut v: Vec<(Sym, Int)> = Vec::new();
        let n = self.entries.len();
        let mut k: usize = 0;
        proof {
            assert(l.take(0) =~= Seq::<(Seq<char>, Int)>::empty());
            assert(listing_of(v@) =~= Seq::<(Seq<char>, Int)>::empty());
            assert(list_map(listing_of(v@)) =~= mono_reduced(list_map(l.take(0))));
        }
        while k < n
            invariant
                k <= n,
                n == self.entries@.len(),
                l == self.listing(),
                names_increasing(l),
                names_increasing(listing_of(v@)),
                forall|a: int, j: int|
                    0 <= a < v@.len() && k <= j < n ==> name_lt(
                        (#[trigger] listing_of(v@)[a]).0,
                        (#[trigger] l[j]).0,
                    ),
                list_map(listing_of(v@)) == mono_reduced(list_map(l.take(k as int))),
            decreases n - k,
        {
            let e = self.entries[k];
            proof {
                lemma_list_map_step(l, k as int);
                assert(l[k as int] == (e.0@, e.1));
            }
            let ghost m0 = list_map(l.take(k as int));
            let ghost m1 = list_map(l.take(k + 1));
            if !e.0.is_one() && !e.1.is_zero() {
                let ghost lv = listing_of(v@);
                proof {
                    lemma_list_push(lv, (e.0@, e.1));
                }
                v.push(e);
                proof {
                    let lv1 = listing_of(v@);
                    assert(lv1 =~= lv.push((e.0@, e.1)));
                    assert(list_map(lv1) =~= mono_reduced(m1));
                    assert forall|a: int, j: int| 0 <= a < v@.len() && k + 1 <= j < n implies name_lt(
                        (#[trigger] lv1[a]).0,
                        (#[trigger] l[j]).0,
                    ) by {
                        if a < lv.len() {
                            assert(name_lt(lv[a].0, l[j].0));
                        } else {
                            assert(name_lt(l[k as int].0, l[j].0));
                        }
                    }
                }
            } else {
                proof {
                    assert(mono_reduced(m1) =~= mono_reduced(m0));
                }
            }
            k += 1;
        }
        proof {
            assert(l.take(n as int) =~= l);
        }
        self.entries = v;
    }

    fn is_simplified(&self) -> (r: bool) {
        proof {
            use_type_invariant(self);
            lemma_list_map(self.listing());
        }
        let ghost l = self.listing();
        let n = self.entries.len();
        if self.is_zero() {
            if n != 1 {
                proof {
                    // The canonical zero has exactly one name.
                    if self@ == mono_zero() {
                        if n == 0 {
                            assert(!list_has(l, zero_name()));
                        } else {
                            lemma_name_lt_irreflexive(l[0].0);
                            assert(name_lt(l[0].0, l[1].0));
                            assert(self@.dom().contains(l[0].0));
                            assert(self@.dom().contains(l[1].0));
                        }
                    }
                }
                return false;
            }
            let e = self.entries[0];
            proof {
                assert(l[0] == (e.0@, e.1));
                assert(self@.dom().contains(l[0].0));
                if e.0@ == zero_name() && e.1 == 1 {
                    assert forall|m: Seq<char>| self@.dom().contains(m) implies m == zero_name() by {
                        let j = list_at(l, m);
                        assert(l[j].0 == m);
                    }
                    assert(self@ =~= mono_zero());
                }
            }
            return e.0.is_zero() && e.1 == 1;
        }
        let mut k: usize = 0;
        while k < n
            invariant
                k <= n,
                n == self.entries@.len(),
                l == self.listing(),
                self@ == list_map(l),
                !mono_is_zero(self@),
                forall|j: int|
                    0 <= j < l.len() ==> list_map(l).dom().contains((#[trigger] l[j]).0) && list_map(
                        l,
                    )[l[j].0] == l[j].1,
                forall|j: int| 0 <= j < k ==> (#[trigger] l[j]).0 != one_name() && l[j].1 != 0,
            decreases n - k,
        {
            let e = self.entries[k];
            proof {
                assert(l[k as int] == (e.0@, e.1));
            }
            if e.0.is_one() || e.1.is_zero() {
                proof {
                    assert(self@.dom().contains(l[k as int].0));
                    assert(!mono_reduced(self@).dom().contains(e.0@));
                }
                return false;
            }
            k += 1;
        }
        proof {
            assert forall|m: Seq<char>| self@.dom().contains(m) implies mono_reduced(
                self@,
            ).dom().contains(m) by {
                let j = list_at(l, m);
                assert(l[j].0 == m);
            }
            assert(self@ =~= mono_reduced(self@));
        }
        true
    }
}

impl PoweredProduct {
    /// How `self` stands to `other` in the order of monomials.
    pub fn rank(&self, other: &PoweredProduct) -> (r: Rank)
        ensures
            (r is Below) == mono_lt(self.listing(), other.listing()),
            (r is Same) == (self@ == other@),
            (r is Same) == (self.listing() == other.listing()),
            (r is Above) == mono_lt(other.listing(), self.listing()),
    {
        let ghost la = self.listing();
        let ghost lb = other.listing();
        let ghost eo = entry_order();
        proof {
            use_type_invariant(self);
            use_type_invariant(other);
            lemma_entry_order_strict_total();
            lemma_lex_irreflexive_from(la, eo, 0);
            if self@ == other@ {
                lemma_list_unique(la, lb);
            }
        }
        let na = self.entries.len();
        let nb = other.entries.len();
        let mut i: usize = 0;
        while i < na && i < nb
            invariant
                i <= na,
                i <= nb,
                na == self.entries@.len(),
                nb == other.entries@.len(),
                la == self.listing(),
                lb == other.listing(),
                eo == entry_order(),
                la == lb ==> !mono_lt(la, lb) && !mono_lt(lb, la),
                self@ == other@ ==> la == lb,
                forall|k: int| 0 <= k < i ==> la[k] == lb[k],
                lex_lt(la, lb, eo) == lex_lt_from(la, lb, eo, i as int),
                lex_lt(lb, la, eo) == lex_lt_from(lb, la, eo, i as int),
            decreases na - i,
        {
            let a = self.entries[i];
            let b = other.entries[i];
            proof {
                assert(la[i as int] == (a.0@, a.1));
                assert(lb[i as int] == (b.0@, b.1));
                lemma_name_lt_irreflexive(a.0@);
                lemma_name_lt_irreflexive(b.0@);
                if name_lt(a.0@, b.0@) && name_lt(b.0@, a.0@) {
                    lemma_name_lt_transitive(a.0@, b.0@, a.0@);
                }
            }
            match a.0.rank(&b.0) {
                Rank::Below => {
                    return Rank::Below;
                },
                Rank::Above => {
                    return Rank::Above;
                },
                Rank::Same => {
                    if a.1 < b.1 {
                        return Rank::Below;
                    }
                    if b.1 < a.1 {
                        return Rank::Above;
                    }
                },
            }
            i += 1;
        }
        if i < nb {
            Rank::Below
        } else if i < na {
            Rank::Above
        } else {
            proof {
                assert(la =~= lb);
            }
            Rank::Same
        }
    }

    /// Whether `self` and `other` have the same entries.
    pub fn same(&self, other: &PoweredProduct) -> (r: bool)
        ensures
            r == (self@ == other@),
    {
        match self.rank(other) {
            Rank::Same => true,
            _ => false,
        }
    }

    /// A well-formed monomial has finitely many names, and its listing is
    /// the listing of its view.
    pub proof fn lemma_finite(&self)
        requires
            self.wf(),
        ensures
            self@.dom().finite(),
            mono_listing(self@) == self.listing(),
    {
        lemma_list_map_finite(self.listing());
        lemma_mono_listing(self@);
        lemma_list_unique(mono_listing(self@), self.listing());
    }

    /// Two monomials with the same exponents have the same entries.
    pub proof fn lemma_view_determines_listing(&self, other: &PoweredProduct)
        requires
            self.wf(),
            other.wf(),
            self@ == other@,
        ensures
            self.listing() == other.listing(),
    {
        lemma_list_unique(self.listing(), other.listing());
    }
}

/// A monomial times its inverse is the multiplicative one.
pub proof fn lemma_mono_mul_inv_is_one(m: PoweredProduct)
    ensures
        mono_is_one(mono_mul(m@, mono_inv(m@))),
{
    let a = m@;
    let r = mono_mul(a, mono_inv(a));
    assert forall|n: Seq<char>| r.dom().contains(n) implies n == one_name() || #[trigger] r[n]
        == 0 by {
        assert(a.dom().contains(n));
        crate::integer::lemma_wrap_add(a[n] as int, -(a[n] as int));
    }
}

/// The product of monomials is associative.
pub proof fn lemma_mono_mul_associative(a: PoweredProduct, b: PoweredProduct, c: PoweredProduct)
    ensures
        mono_mul(mono_mul(a@, b@), c@) == mono_mul(a@, mono_mul(b@, c@)),
{
    let x = mono_mul(mono_mul(a@, b@), c@);
    let y = mono_mul(a@, mono_mul(b@, c@));
    assert forall|n: Seq<char>| x.dom().contains(n) implies #[trigger] x[n] == y[n] by {
        let ea = exp(a@, n) as int;
        let eb = exp(b@, n) as int;
        let ec = exp(c@, n) as int;
        crate::integer::lemma_wrap_add(ea + eb, ec);
        crate::integer::lemma_wrap_add(ea, eb + ec);
        crate::integer::lemma_wrap_id(exp(a@, n));
        crate::integer::lemma_wrap_id(exp(b@, n));
        crate::integer::lemma_wrap_id(exp(c@, n));
        assert(wrap(0int) == 0);
    }
    assert(x =~= y);
}

impl PoweredProduct {
    /// The common factor of `self` and `other`.
    #[verifier::rlimit(40)]
    pub fn common_with(&self, other: &PoweredProduct) -> (r: Self)
        ensures
            r@ == mono_common(self@, other@),
    {
        proof {
            use_type_invariant(self);
            lemma_list_empty();
        }
        let ghost l = self.listing();
        let ghost b = other@;
        let mut v: Vec<(Sym, Int)> = Vec::new();
        let n = self.entries.len();
        let mut k: usize = 0;
        proof {
            assert(l.take(0) =~= Seq::<(Seq<char>, Int)>::empty());
            assert(listing_of(v@) =~= Seq::<(Seq<char>, Int)>::empty());
            assert(list_map(listing_of(v@)) =~= mono_common(list_map(l.take(0)), b));
        }
        while k < n
            invariant
                k <= n,
                n == self.entries@.len(),
                l == self.listing(),
                b == other@,
                names_increasing(l),
                names_increasing(listing_of(v@)),
                forall|a: int, j: int|
                    0 <= a < v@.len() && k <= j < n ==> name_lt(
                        (#[trigger] listing_of(v@)[a]).0,
                        (#[trigger] l[j]).0,
                    ),
                list_map(listing_of(v@)) == mono_common(list_map(l.take(k as int)), b),
            decreases n - k,
        {
            let e = self.entries[k];
            proof {
                lemma_list_map_step(l, k as int);
                assert(l[k as int] == (e.0@, e.1));
            }
            let ghost m0 = list_map(l.take(k as int));
            let ghost m1 = list_map(l.take(k + 1));
            let mut kept: Option<Int> = None;
            match other.get(&e.0) {
                Some(p) => {
                    if e.1 >= 0 && p >= 0 {
                        kept = Some(if p < e.1 { p } else { e.1 });
                    } else if e.1 < 0 && p < 0 {
                        kept = Some(if p > e.1 { p } else { e.1 });
                    }
                },
                None => {},
            }
            match kept {
                Some(x) => {
                    let ghost lv = listing_of(v@);
                    proof {
                        lemma_list_push(lv, (e.0@, x));
                    }
                    v.push((e.0, x));
                    proof {
                        let lv1 = listing_of(v@);
                        assert(lv1 =~= lv.push((e.0@, x)));
                        assert(list_map(lv1) =~= mono_common(m1, b));
                        assert forall|a: int, j: int|
                            0 <= a < v@.len() && k + 1 <= j < n implies name_lt(
                            (#[trigger] lv1[a]).0,
                            (#[trigger] l[j]).0,
                        ) by {
                            if a < lv.len() {
                                assert(name_lt(lv[a].0, l[j].0));
                            } else {
                                assert(name_lt(l[k as int].0, l[j].0));
                            }
                        }
                    }
                },
                None => {
                    proof {
                        assert(mono_common(m1, b) =~= mono_common(m0, b));
                    }
                },
            }
            k += 1;
        }
        proof {
            assert(l.take(n as int) =~= l);
        }
        PoweredProduct { entries: v }
    }
}

/// Adds `p` to the exponent of `sym` in a sorted vector of entries, where
/// `i` is the position of the first entry not below `sym` and `found` says
/// whether that entry is of `sym`.
#[verifier::rlimit(40)]
fn raise_at(v: &mut Vec<(Sym, Int)>, i: usize, found: bool, sym: Sym, p: Int)
    requires
        names_increasing(listing_of(old(v)@)),
        i <= old(v)@.len(),
        forall|k: int| 0 <= k < i ==> name_lt((#[trigger] listing_of(old(v)@)[k]).0, sym@),
        found ==> i < old(v)@.len() && listing_of(old(v)@)[i as int].0 == sym@,
        !found ==> forall|k: int|
            i <= k < old(v)@.len() ==> name_lt(sym@, (#[trigger] listing_of(old(v)@)[k]).0),
        found == list_map(listing_of(old(v)@)).dom().contains(sym@),
    ensures
        names_increasing(listing_of(final(v)@)),
        list_map(listing_of(final(v)@)) == list_map(listing_of(old(v)@)).insert(
            sym@,
            wrap(exp(list_map(listing_of(old(v)@)), sym@) + p),
        ),
{
        let ghost l0 = listing_of(v@);
        proof {
            lemma_list_map(l0);
        }
        if found {
            let q = wrapping_sum(v[i].1, p);
            v.set(i, (sym, q));
            proof {
                let l1 = listing_of(v@);
                assert(l1 =~= l0.update(i as int, (sym@, q)));
                assert forall|a: int, b: int| 0 <= a < b < l1.len() implies name_lt(
                    (#[trigger] l1[a]).0,
                    (#[trigger] l1[b]).0,
                ) by {
                    assert(name_lt(l0[a].0, l0[b].0));
                }
                lemma_list_map(l1);
                PoweredProduct::lemma_same_names(l0, l1);
                assert(list_map(l1) =~= list_map(l0).insert(sym@, q)) by {
                    assert forall|n: Seq<char>| list_map(l1).dom().contains(n) implies #[trigger] list_map(l1)[n]
                        == list_map(l0).insert(sym@, q)[n] by {
                        let k = list_at(l1, n);
                        assert(l1[k].0 == n);
                        if k != i {
                            assert(l0[k] == l1[k]);
                            lemma_name_lt_irreflexive(n);
                            if k < i {
                                assert(name_lt(l0[k].0, l0[i as int].0));
                            } else {
                                assert(name_lt(l0[i as int].0, l0[k].0));
                            }
                        }
                    }
                }
            }
        } else {
            v.insert(i, (sym, p));
            proof {
                let l1 = listing_of(v@);
                assert(l1 =~= l0.insert(i as int, (sym@, p)));
                assert forall|a: int, b: int| 0 <= a < b < l1.len() implies name_lt(
                    (#[trigger] l1[a]).0,
                    (#[trigger] l1[b]).0,
                ) by {
                    if b < i {
                        assert(name_lt(l0[a].0, l0[b].0));
                    } else if b == i {
                        assert(name_lt(l0[a].0, sym@));
                    } else if a < i {
                        assert(name_lt(l0[a].0, l0[b - 1].0));
                    } else if a == i {
                        assert(name_lt(sym@, l0[b - 1].0));
                    } else {
                        assert(name_lt(l0[a - 1].0, l0[b - 1].0));
                    }
                }
                lemma_list_map(l1);
                assert(wrap(0 + p) == p);
                assert(list_map(l1) =~= list_map(l0).insert(sym@, p)) by {
                    assert forall|n: Seq<char>| list_map(l1).dom().contains(n) implies list_map(
                        l0,
                    ).insert(sym@, p).dom().contains(n) by {
                        let k = list_at(l1, n);
                        assert(l1[k].0 == n);
                        if k < i {
                            assert(l0[k].0 == n);
                        } else if k > i {
                            assert(l0[k - 1].0 == n);
                        }
                    }
                    assert forall|n: Seq<char>| list_map(l0).insert(sym@, p).dom().contains(
                        n,
                    ) implies list_map(l1).dom().contains(n) by {
                        if n == sym@ {
                            assert(l1[i as int].0 == n);
                        } else {
                            let k = list_at(l0, n);
                            assert(l0[k].0 == n);
                            if k < i {
                                assert(l1[k].0 == n);
                            } else {
                                assert(l1[k + 1].0 == n);
                            }
                        }
                    }
                    assert forall|n: Seq<char>| list_map(l1).dom().contains(n) implies #[trigger] list_map(l1)[n]
                        == list_map(l0).insert(sym@, p)[n] by {
                        let k = list_at(l1, n);
                        assert(l1[k].0 == n);
                        if k < i {
                            assert(l0[k] == l1[k]);
                        } else if k > i {
                            assert(l0[k - 1] == l1[k]);
                        }
                    }
                }
            }
        }
}

/// Bringing a monomial into canonical form twice gives what doing it once gives.
pub proof fn lemma_mono_canonical_idempotent(m: PoweredProduct)
    ensures
        mono_canonical(mono_canonical(m@)) == mono_canonical(m@),
{
    let c = mono_canonical(m@);
    if mono_is_zero(m@) {
        assert(mono_is_zero(c));
    } else {
        assert(!mono_is_zero(c));
        assert(mono_reduced(c) =~= c);
    }
}

impl core::ops::Mul<PoweredProduct> for PoweredProduct {
    type Output = PoweredProduct;

    /// The product of two monomials.
    fn mul(self, rhs: PoweredProduct) -> (r: PoweredProduct)
        ensures
            r@ == mono_mul(self@, rhs@),
    {
        PoweredProduct::mul(&self, &rhs)
    }
}

impl vstd::std_specs::ops::MulSpecImpl<PoweredProduct> for PoweredProduct {
    open spec fn obeys_mul_spec() -> bool {
        false
    }

    open spec fn mul_req(self, rhs: PoweredProduct) -> bool {
        true
    }

    open spec fn mul_spec(self, rhs: PoweredProduct) -> PoweredProduct {
        arbitrary()
    }
}

impl core::ops::MulAssign<PoweredProduct> for PoweredProduct {
    /// Multiplies by the monomial `rhs`.
    fn mul_assign(&mut self, rhs: PoweredProduct)
        ensures
            final(self)@ == mono_mul(old(self)@, rhs@),
    {
        PoweredProduct::mul_assign(self, &rhs);
    }
}

impl core::ops::Mul<Sym> for PoweredProduct {
    type Output = PoweredProduct;

    /// The product of a monomial and a symbol.
    fn mul(self, rhs: Sym) -> (r: PoweredProduct)
        ensures
            r@ == mono_mul(self@, mono_power(rhs@, 1)),
    {
        let mut r = self;
        r.mul_assign_sym(rhs);
        r
    }
}

impl vstd::std_specs::ops::MulSpecImpl<Sym> for PoweredProduct {
    open spec fn obeys_mul_spec() -> bool {
        false
    }

    open spec fn mul_req(self, rhs: Sym) -> bool {
        true
    }

    open spec fn mul_spec(self, rhs: Sym) -> PoweredProduct {
        arbitrary()
    }
}

impl core::ops::MulAssign<Sym> for PoweredProduct {
    /// Multiplies by the symbol `rhs`.
    fn mul_assign(&mut self, rhs: Sym)
        ensures
            final(self)@ == mono_mul(old(self)@, mono_power(rhs@, 1)),
    {
        self.mul_assign_sym(rhs);
    }
}

impl core::ops::Div<PoweredProduct> for PoweredProduct {
    type Output = PoweredProduct;

    /// The quotient of two monomials.
    fn div(self, rhs: PoweredProduct) -> (r: PoweredProduct)
        ensures
            r@ == mono_div(self@, rhs@),
    {
        PoweredProduct::div(&self, &rhs)
    }
}

impl vstd::std_specs::ops::DivSpecImpl<PoweredProduct> for PoweredProduct {
    open spec fn obeys_div_spec() -> bool {
        false
    }

    open spec fn div_req(self, rhs: PoweredProduct) -> bool {
        true
    }

    open spec fn div_spec(self, rhs: PoweredProduct) -> PoweredProduct {
        arbitrary()
    }
}

impl core::ops::DivAssign<PoweredProduct> for PoweredProduct {
    /// Divides by the monomial `rhs`.
    fn div_assign(&mut self, rhs: PoweredProduct)
        ensures
            final(self)@ == mono_div(old(self)@, rhs@),
    {
        PoweredProduct::div_assign(self, &rhs);
    }
}

impl core::ops::Div<Sym> for PoweredProduct {
    type Output = PoweredProduct;

    /// The quotient of a monomial by a symbol.
    fn div(self, rhs: Sym) -> (r: PoweredProduct)
        ensures
            r@ == mono_div(self@, mono_power(rhs@, 1)),
    {
        let mut r = self;
        r.div_assign_sym(rhs);
        r
    }
}

impl vstd::std_specs::ops::DivSpecImpl<Sym> for PoweredProduct {
    open spec fn obeys_div_spec() -> bool {
        false
    }

    open spec fn div_req(self, rhs: Sym) -> bool {
        true
    }

    open spec fn div_spec(self, rhs: Sym) -> PoweredProduct {
        arbitrary()
    }
}

impl core::ops::DivAssign<Sym> for PoweredProduct {
    /// Divides by the symbol `rhs`.
    fn div_assign(&mut self, rhs: Sym)
        ensures
            final(self)@ == mono_div(old(self)@, mono_power(rhs@, 1)),
    {
        self.div_assign_sym(rhs);
    }
}

} // verus!
