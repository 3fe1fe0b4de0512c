//! Symbols: immutable names, ordered as their text is. Two reserved names
//! stand for the additive and the multiplicative identity.

use vstd::prelude::*;
use vstd::utf8::{encode_utf8, decode_utf8, encode_utf8_decode_utf8};
use vstd::string::StringSliceAdditionalSpecFns;
use vstd::string::StringExecFns;
use crate::order::{lex_lt, lex_lt_from, lex_order, strict_total, lemma_lex_strict_total,
    lemma_lex_irreflexive_from};
use crate::partial_zero::PartialZero;
use crate::partial_one::PartialOne;
use crate::simplify::Simplify;

verus! {

/// How one value stands to another in a strict total order.
#[derive(Clone, Copy, Debug, PartialEq, Eq, Structural)]
pub enum Rank {
    Below,
    Same,
    Above,
}

/// The order of bytes by their value.
pub open spec fn byte_order() -> spec_fn(u8, u8) -> bool {
    |x: u8, y: u8| x < y
}

/// `a` comes before `b` in the order of names: the lexicographic order of
/// their UTF-8 encodings.
pub open spec fn name_lt(a: Seq<char>, b: Seq<char>) -> bool {
    lex_lt(encode_utf8(a), encode_utf8(b), byte_order())
}

/// The order of names as a relation.
pub open spec fn name_order() -> spec_fn(Seq<char>, Seq<char>) -> bool {
    |a: Seq<char>, b: Seq<char>| name_lt(a, b)
}

/// The name that stands for the additive identity.
pub open spec fn zero_name() -> Seq<char> {
    seq!['0']
}

/// The name that stands for the multiplicative identity.
pub open spec fn one_name() -> Seq<char> {
    seq!['1']
}

/// Names with the same encoding are the same name.
pub proof fn lemma_encoding_injective(a: Seq<char>, b: Seq<char>)
    requires
        encode_utf8(a) == encode_utf8(b),
    ensures
        a == b,
{
    encode_utf8_decode_utf8(a);
    encode_utf8_decode_utf8(b);
}

/// The order of names is a strict total order.
pub proof fn lemma_name_order_strict_total()
    ensures
        strict_total(name_order()),
{
    let bo = byte_order();
    assert(strict_total(bo));
    lemma_lex_strict_total(bo);
    let lx = lex_order(bo);
    let no = name_order();
    assert forall|a: Seq<char>| !#[trigger] no(a, a) by {
        assert(!lx(encode_utf8(a), encode_utf8(a)));
    }
    assert forall|a: Seq<char>, b: Seq<char>, c: Seq<char>| #[trigger] no(a, b) && #[trigger] no(
        b,
        c,
    ) implies no(a, c) by {
        assert(lx(encode_utf8(a), encode_utf8(b)));
        assert(lx(encode_utf8(b), encode_utf8(c)));
        assert(lx(encode_utf8(a), encode_utf8(c)));
    }
    assert forall|a: Seq<char>, b: Seq<char>| a == b || #[trigger] no(a, b) || no(b, a) by {
        let ea = encode_utf8(a);
        let eb = encode_utf8(b);
        assert(ea == eb || lx(ea, eb) || lx(eb, ea));
        if ea == eb {
            lemma_encoding_injective(a, b);
        }
    }
}

/// No name comes before itself.
pub proof fn lemma_name_lt_irreflexive(a: Seq<char>)
    ensures
        !name_lt(a, a),
{
    lemma_name_order_strict_total();
    assert(!name_order()(a, a));
}

/// The order of names is transitive.
pub proof fn lemma_name_lt_transitive(a: Seq<char>, b: Seq<char>, c: Seq<char>)
    requires
        name_lt(a, b),
        name_lt(b, c),
    ensures
        name_lt(a, c),
{
    lemma_name_order_strict_total();
    assert(name_order()(a, b) && name_order()(b, c));
    assert(name_order()(a, c));
}

/// Of two different names one comes before the other.
pub proof fn lemma_name_lt_connected(a: Seq<char>, b: Seq<char>)
    ensures
        a == b || name_lt(a, b) || name_lt(b, a),
{
    lemma_name_order_strict_total();
    assert(a == b || name_order()(a, b) || name_order()(b, a));
}

/// An immutable name.
#[derive(Debug, PartialEq, Eq, Hash, Clone, Copy, PartialOrd, Ord)]
pub struct Sym(pub &'static str);

impl View for Sym {
    type V = Seq<char>;

    open spec fn view(&self) -> Seq<char> {
        self.0@
    }
}

impl Sym {
    /// How `self` stands to `other` in the order of names.
    pub fn rank(&self, other: &Sym) -> (r: Rank)
        ensures
            (r is Below) == name_lt(self@, other@),
            (r is Same) == (self@ == other@),
            (r is Above) == name_lt(other@, self@),
    {
        let a = self.0.as_bytes();
        let b = other.0.as_bytes();
        let ghost bo = byte_order();
        proof {
            lemma_name_order_strict_total();
            assert(strict_total(bo));
            if self@ == other@ {
                lemma_lex_irreflexive_from(a@, bo, 0);
            }
        }
        let mut i: usize = 0;
        while i < a.len() && i < b.len()
            invariant
                i <= a.len(),
                i <= b.len(),
                a@ == encode_utf8(self@),
                b@ == encode_utf8(other@),
                bo == byte_order(),
                forall|k: int| 0 <= k < i ==> a@[k] == b@[k],
                lex_lt(a@, b@, bo) == lex_lt_from(a@, b@, bo, i as int),
                lex_lt(b@, a@, bo) == lex_lt_from(b@, a@, bo, i as int),
            decreases a.len() - i,
        {
            if a[i] < b[i] {
                proof {
                    if self@ == other@ {
                        lemma_lex_irreflexive_from(a@, bo, 0);
                    }
                }
                return Rank::Below;
            }
            if b[i] < a[i] {
                proof {
                    if self@ == other@ {
                        lemma_lex_irreflexive_from(a@, bo, 0);
                    }
                }
                return Rank::Above;
            }
            i += 1;
        }
        if i < b.len() {
            Rank::Below
        } else if i < a.len() {
            Rank::Above
        } else {
            proof {
                assert(a@ =~= b@);
                lemma_encoding_injective(self@, other@);
                lemma_lex_irreflexive_from(a@, bo, 0);
            }
            Rank::Same
        }
    }

    /// The name as text.
    pub fn fmt(&self) -> (r: String)
        ensures
            r@ == self@,
    {
        String::from_str(self.0)
    }

    /// Whether `self` and `other` are the same name.
    pub fn same(&self, other: &Sym) -> (r: bool)
        ensures
            r == (self@ == other@),
    {
        match self.rank(other) {
            Rank::Same => true,
            _ => false,
        }
    }
}

impl PartialZero for Sym {
    open spec fn is_zero_spec(&self) -> bool {
        self@ == zero_name()
    }

    fn zero() -> (r: Self)
        ensures
            r@ == zero_name(),
    {
        proof {
            reveal_strlit("0");
            assert("0"@ =~= zero_name());
        }
        Sym("0")
    }

    fn set_zero(&mut self)
        ensures
            final(self)@ == zero_name(),
    {
        *self = Sym::zero();
    }

    fn is_zero(&self) -> (r: bool) {
        let z = Sym::zero();
        self.same(&z)
    }
}

impl PartialOne for Sym {
    open spec fn is_one_spec(&self) -> bool {
        self@ == one_name()
    }

    fn one() -> (r: Self)
        ensures
            r@ == one_name(),
    {
        proof {
            reveal_strlit("1");
            assert("1"@ =~= one_name());
        }
        Sym("1")
    }

    fn set_one(&mut self)
        ensures
            final(self)@ == one_name(),
    {
        *self = Sym::one();
    }

    fn is_one(&self) -> (r: bool) {
        let o = Sym::one();
        self.same(&o)
    }
}

impl Simplify for Sym {
    open spec fn is_simplified_spec(&self) -> bool {
        true
    }

    open spec fn simplified_from(&self, before: &Self) -> bool {
        self@ == before@
    }

    fn simplify(&mut self) {
    }

    fn is_simplified(&self) -> (r: bool) {
        true
    }
}

} // verus!
