//! Similarity scores as exact fractions.
//!
//! A score is a rational number between zero and one. It is kept as a pair
//! of integers, so that the constants of the similarity rules and the
//! comparisons between scores are exact.

use vstd::prelude::*;

verus! {

/// A fraction `num / den`: the mathematical value of a [`Score`].
pub struct Ratio {
    pub num: int,
    pub den: int,
}

impl Ratio {
    /// The fraction is well formed and lies between zero and one.
    pub open spec fn is_unit(self) -> bool {
        0 <= self.num <= self.den && 0 < self.den
    }

    /// `self < other`, for fractions with positive denominators.
    pub open spec fn lt(self, other: Ratio) -> bool {
        self.num * other.den < other.num * self.den
    }

    /// `self > other`.
    pub open spec fn gt(self, other: Ratio) -> bool {
        other.lt(self)
    }

    /// `self <= other`.
    pub open spec fn le(self, other: Ratio) -> bool {
        !other.lt(self)
    }

    /// `self >= other`.
    pub open spec fn ge(self, other: Ratio) -> bool {
        !self.lt(other)
    }

    /// Both fractions stand for the same number.
    pub open spec fn same_value(self, other: Ratio) -> bool {
        self.num * other.den == other.num * self.den
    }

    /// The fraction `0 / 1`.
    pub open spec fn zero() -> Ratio {
        Ratio { num: 0, den: 1 }
    }

    /// The fraction `1 / 1`.
    pub open spec fn one() -> Ratio {
        Ratio { num: 1, den: 1 }
    }

    /// The fraction `4 / 5`: only entries that score above it are reported.
    pub open spec fn cutoff() -> Ratio {
        Ratio { num: 4, den: 5 }
    }
}

/// The order of fractions with positive denominators is transitive, in
/// each mixture of `<` and `<=`.
pub proof fn lemma_order_chain(a: Ratio, b: Ratio, c: Ratio)
    requires
        a.den > 0,
        b.den > 0,
        c.den > 0,
    ensures
        a.le(b) && b.le(c) ==> a.le(c),
        a.lt(b) && b.le(c) ==> a.lt(c),
        a.le(b) && b.lt(c) ==> a.lt(c),
{
    let (an, ad, bn, bd, cn, cd) = (a.num, a.den, b.num, b.den, c.num, c.den);
    // Scale each step by the third denominator: both then speak of `bn * ad * cd`.
    assert(an * bd <= bn * ad ==> (an * bd) * cd <= (bn * ad) * cd) by (nonlinear_arith)
        requires
            cd > 0,
    ;
    assert(an * bd < bn * ad ==> (an * bd) * cd < (bn * ad) * cd) by (nonlinear_arith)
        requires
            cd > 0,
    ;
    assert(bn * cd <= cn * bd ==> (bn * cd) * ad <= (cn * bd) * ad) by (nonlinear_arith)
        requires
            ad > 0,
    ;
    assert(bn * cd < cn * bd ==> (bn * cd) * ad < (cn * bd) * ad) by (nonlinear_arith)
        requires
            ad > 0,
    ;
    assert((an * bd) * cd == (an * cd) * bd) by (nonlinear_arith);
    assert((bn * ad) * cd == (bn * cd) * ad) by (nonlinear_arith);
    assert((cn * bd) * ad == (cn * ad) * bd) by (nonlinear_arith);
    assert((an * cd) * bd <= (cn * ad) * bd ==> an * cd <= cn * ad) by (nonlinear_arith)
        requires
            bd > 0,
    ;
    assert((an * cd) * bd < (cn * ad) * bd ==> an * cd < cn * ad) by (nonlinear_arith)
        requires
            bd > 0,
    ;
}

/// Two to the power 64.
pub const WORD: u128 = 0x1_0000_0000_0000_0000;

/// Denominators of scores stay below this bound, two to the power 72.
pub const DEN_LIMIT: u128 = 0x1_00_0000_0000_0000_0000;

/// A similarity score: an exact fraction between zero and one.
#[derive(Clone, Copy, Debug)]
pub struct Score {
    num: u128,
    den: u128,
}

impl View for Score {
    type V = Ratio;

    closed spec fn view(&self) -> Ratio {
        Ratio { num: self.num as int, den: self.den as int }
    }
}

/// The product of two numbers below two to the power 72, as a pair
/// `(high, low)` that stands for `high * 2^64 + low`.
fn wide_product(a: u128, b: u128) -> (r: (u128, u64))
    requires
        a < DEN_LIMIT,
        b < DEN_LIMIT,
    ensures
        r.0 * WORD + r.1 == a * b,
{
    let a1: u128 = a / WORD;
    let a0: u128 = a % WORD;
    let b1: u128 = b / WORD;
    let b0: u128 = b % WORD;
    assert(a1 < 256 && b1 < 256);
    assert(a0 * b0 <= (WORD - 1) * (WORD - 1)) by (nonlinear_arith)
        requires
            0 <= a0 < WORD,
            0 <= b0 < WORD,
    ;
    assert(a1 * b0 <= 255 * (WORD - 1)) by (nonlinear_arith)
        requires
            0 <= a1 < 256,
            0 <= b0 < WORD,
    ;
    assert(a0 * b1 <= (WORD - 1) * 255) by (nonlinear_arith)
        requires
            0 <= b1 < 256,
            0 <= a0 < WORD,
    ;
    assert(a1 * b1 <= 255 * 255) by (nonlinear_arith)
        requires
            0 <= a1 < 256,
            0 <= b1 < 256,
    ;
    let low_product: u128 = a0 * b0;
    let carry: u128 = low_product / WORD;
    let low: u128 = low_product % WORD;
    let top: u128 = a1 * b1;
    let high: u128 = a1 * b0 + a0 * b1 + top * WORD + carry;
    assert(high * WORD + low == a * b) by (nonlinear_arith)
        requires
            a == a1 * WORD + a0,
            b == b1 * WORD + b0,
            a0 * b0 == carry * WORD + low,
            high == a1 * b0 + a0 * b1 + (a1 * b1) * WORD + carry,
    ;
    (high, low as u64)
}

impl Score {
    #[verifier::type_invariant]
    spec fn well_formed(self) -> bool {
        self@.is_unit() && self.den < DEN_LIMIT
    }

    /// The score `num / den`.
    pub(crate) fn ratio(num: u128, den: u128) -> (s: Score)
        requires
            num <= den,
            0 < den < DEN_LIMIT,
        ensures
            s@ == (Ratio { num: num as int, den: den as int }),
    {
        Score { num, den }
    }

    /// The score `num / den`, where that is a fraction between zero and one.
    pub fn new(num: u64, den: u64) -> (r: Option<Score>)
        ensures
            r is Some <==> (num <= den && den > 0),
            r matches Some(s) ==> s@ == (Ratio { num: num as int, den: den as int }),
    {
        if num <= den && den > 0 {
            Some(Score { num: num as u128, den: den as u128 })
        } else {
            None
        }
    }

    /// The lowest score.
    pub fn zero() -> (s: Score)
        ensures
            s@ == Ratio::zero(),
    {
        Score { num: 0, den: 1 }
    }

    /// The highest score.
    pub fn one() -> (s: Score)
        ensures
            s@ == Ratio::one(),
    {
        Score { num: 1, den: 1 }
    }

    /// The score above which a dictionary entry counts as a match.
    pub fn cutoff() -> (s: Score)
        ensures
            s@ == Ratio::cutoff(),
    {
        Score { num: 4, den: 5 }
    }

    /// The numerator of the fraction.
    pub fn num(&self) -> (n: u128)
        ensures
            n == self@.num,
            self@.is_unit(),
    {
        proof {
            use_type_invariant(self);
        }
        self.num
    }

    /// The denominator of the fraction.
    pub fn den(&self) -> (d: u128)
        ensures
            d == self@.den,
            self@.is_unit(),
    {
        proof {
            use_type_invariant(self);
        }
        self.den
    }

    /// Whether this score is strictly lower than `other`.
    pub fn is_lt(&self, other: &Score) -> (r: bool)
        ensures
            r == self@.lt(other@),
            self@.is_unit(),
            other@.is_unit(),
    {
        proof {
            use_type_invariant(self);
            use_type_invariant(other);
        }
        let left = wide_product(self.num, other.den);
        let right = wide_product(other.num, self.den);
        left.0 < right.0 || (left.0 == right.0 && left.1 < right.1)
    }

    /// Whether this score is strictly higher than `other`.
    pub fn is_gt(&self, other: &Score) -> (r: bool)
        ensures
            r == self@.gt(other@),
            self@.is_unit(),
            other@.is_unit(),
    {
        other.is_lt(self)
    }

    /// Whether both scores stand for the same number.
    pub fn is_same(&self, other: &Score) -> (r: bool)
        ensures
            r == self@.same_value(other@),
    {
        proof {
            use_type_invariant(self);
            use_type_invariant(other);
        }
        let left = wide_product(self.num, other.den);
        let right = wide_product(other.num, self.den);
        left.0 == right.0 && left.1 == right.1
    }
}

} // verus!
