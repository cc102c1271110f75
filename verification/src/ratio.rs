//! Exact fractions of integers, the values that ray parameters take.
use vstd::prelude::*;

verus! {

/// The fraction `num / den` of two integers.
///
/// A fraction is well formed when its denominator is positive. Two fractions
/// may stand for one number: they are compared as numbers, never field by field.
pub ghost struct Frac {
    pub num: int,
    pub den: int,
}

impl Frac {
    /// The denominator is positive.
    pub open spec fn wf(self) -> bool {
        self.den > 0
    }

    /// `self < other` as numbers, for well-formed fractions.
    pub open spec fn lt(self, other: Frac) -> bool {
        self.num * other.den < other.num * self.den
    }

    /// `self <= other` as numbers, for well-formed fractions.
    pub open spec fn le(self, other: Frac) -> bool {
        self.num * other.den <= other.num * self.den
    }

    /// `self == other` as numbers, for well-formed fractions.
    pub open spec fn same(self, other: Frac) -> bool {
        self.num * other.den == other.num * self.den
    }

    /// The smaller of two fractions, the first one where they stand for one number.
    pub open spec fn min(self, other: Frac) -> Frac {
        if self.le(other) {
            self
        } else {
            other
        }
    }

    /// The larger of two fractions, the first one where they stand for one number.
    pub open spec fn max(self, other: Frac) -> Frac {
        if other.le(self) {
            self
        } else {
            other
        }
    }

    /// The fraction `num / den` for a denominator other than zero, written
    /// with a positive denominator.
    pub open spec fn signed(num: int, den: int) -> Frac {
        if den > 0 {
            Frac { num, den }
        } else {
            Frac { num: -num, den: -den }
        }
    }
}

/// A fraction of two 64-bit integers.
#[derive(Clone, Copy, Debug)]
pub struct Ratio {
    pub num: i64,
    pub den: i64,
}

impl View for Ratio {
    type V = Frac;

    open spec fn view(&self) -> Frac {
        Frac { num: self.num as int, den: self.den as int }
    }
}

/// Whether `x` lies between `-bound` and `bound`.
pub open spec fn within(x: int, bound: int) -> bool {
    -bound <= x <= bound
}

/// The product of two bounded integers is bounded by the product of the bounds.
pub proof fn lemma_mul_within(a: int, b: int, la: int, lb: int)
    requires
        within(a, la),
        within(b, lb),
    ensures
        within(a * b, la * lb),
{
    assert(-(la * lb) <= a * b <= la * lb) by (nonlinear_arith)
        requires
            -la <= a <= la,
            -lb <= b <= lb,
    ;
}

/// The exact product of two bounded integers.
pub(crate) fn mul_within(a: i128, b: i128, Ghost(la): Ghost<int>, Ghost(lb): Ghost<int>) -> (r: i128)
    requires
        within(a as int, la),
        within(b as int, lb),
        la * lb <= i128::MAX,
    ensures
        r == a * b,
        within(r as int, la * lb),
{
    proof {
        lemma_mul_within(a as int, b as int, la, lb);
    }
    a * b
}

fn product(a: i64, b: i64) -> (r: i128)
    ensures
        r == a * b,
{
    mul_within(
        a as i128,
        b as i128,
        Ghost(0x8000_0000_0000_0000int),
        Ghost(0x8000_0000_0000_0000int),
    )
}

impl Ratio {
    /// The denominator is positive.
    pub open spec fn wf(self) -> bool {
        self.den > 0
    }

    /// The fraction `value / 1`.
    pub fn from_int(value: i64) -> (r: Ratio)
        ensures
            r@ == (Frac { num: value as int, den: 1 }),
            r.wf(),
    {
        Ratio { num: value, den: 1 }
    }

    /// The fraction `num / den`.
    pub fn new(num: i64, den: i64) -> (r: Ratio)
        requires
            den > 0,
        ensures
            r@ == (Frac { num: num as int, den: den as int }),
            r.wf(),
    {
        Ratio { num, den }
    }

    /// Whether this fraction is less than the other, as numbers.
    pub fn lt(&self, other: &Ratio) -> (r: bool)
        ensures
            r == self@.lt(other@),
    {
        product(self.num, other.den) < product(other.num, self.den)
    }

    /// Whether this fraction is at most the other, as numbers.
    pub fn le(&self, other: &Ratio) -> (r: bool)
        ensures
            r == self@.le(other@),
    {
        product(self.num, other.den) <= product(other.num, self.den)
    }

    /// Whether the two fractions stand for one number.
    pub fn equals(&self, other: &Ratio) -> (r: bool)
        ensures
            r == self@.same(other@),
    {
        product(self.num, other.den) == product(other.num, self.den)
    }

    /// The smaller of the two fractions, this one where they stand for one number.
    pub fn min(self, other: Ratio) -> (r: Ratio)
        ensures
            r == if self@.le(other@) {
                self
            } else {
                other
            },
            r@ == self@.min(other@),
    {
        if self.le(&other) {
            self
        } else {
            other
        }
    }

    /// The larger of the two fractions, this one where they stand for one number.
    pub fn max(self, other: Ratio) -> (r: Ratio)
        ensures
            r == if other@.le(self@) {
                self
            } else {
                other
            },
            r@ == self@.max(other@),
    {
        if other.le(&self) {
            self
        } else {
            other
        }
    }
}

/// On well-formed fractions, `le` is a total preorder, `lt` its strict part
/// and `same` its equivalence.
pub proof fn lemma_frac_order(a: Frac, b: Frac, c: Frac)
    requires
        a.wf(),
        b.wf(),
        c.wf(),
    ensures
        a.le(a),
        a.le(b) || b.le(a),
        a.lt(b) <==> !b.le(a),
        a.le(b) && b.le(c) ==> a.le(c),
        a.lt(b) && b.le(c) ==> a.lt(c),
        a.le(b) && b.lt(c) ==> a.lt(c),
        a.same(b) <==> a.le(b) && b.le(a),
{
    let (an, ad, bn, bd, cn, cd) = (a.num, a.den, b.num, b.den, c.num, c.den);
    assert(an * bd <= bn * ad && bn * cd <= cn * bd ==> an * cd <= cn * ad) by (nonlinear_arith)
        requires
            ad > 0,
            bd > 0,
            cd > 0,
    {
        if an * bd <= bn * ad && bn * cd <= cn * bd {
            assert((an * bd) * cd <= (bn * ad) * cd);
            assert((bn * cd) * ad <= (cn * bd) * ad);
            assert((an * cd) * bd <= (cn * ad) * bd);
        }
    }
    assert(an * bd < bn * ad && bn * cd <= cn * bd ==> an * cd < cn * ad) by (nonlinear_arith)
        requires
            ad > 0,
            bd > 0,
            cd > 0,
    {
        if an * bd < bn * ad && bn * cd <= cn * bd {
            assert((an * bd) * cd < (bn * ad) * cd);
            assert((bn * cd) * ad <= (cn * bd) * ad);
            assert((an * cd) * bd < (cn * ad) * bd);
        }
    }
    assert(an * bd <= bn * ad && bn * cd < cn * bd ==> an * cd < cn * ad) by (nonlinear_arith)
        requires
            ad > 0,
            bd > 0,
            cd > 0,
    {
        if an * bd <= bn * ad && bn * cd < cn * bd {
            assert((an * bd) * cd <= (bn * ad) * cd);
            assert((bn * cd) * ad < (cn * bd) * ad);
            assert((an * cd) * bd < (cn * ad) * bd);
        }
    }
}

} // verus!
