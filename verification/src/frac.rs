use vstd::prelude::*;

verus! {

/// An exact rational coordinate `num / den` (with `den >= 1`).
///
/// The clipmap grids only ever need coordinates of the form
/// `k * size / (2 * n)` for integers `k`, `size`, `n`, so every coordinate is
/// representable exactly, and the hole test and seam-merge comparisons are
/// exact cross-multiplications with no rounding.
#[derive(Clone, Copy, Debug)]
pub struct Frac {
    pub num: i64,
    pub den: u64,
}

/// Mathematical value of a rational number as a numerator/denominator pair.
pub ghost struct Rat {
    pub num: int,
    pub den: int,
}

impl View for Frac {
    type V = Rat;

    open spec fn view(&self) -> Rat {
        Rat { num: self.num as int, den: self.den as int }
    }
}

pub open spec fn rat_wf(r: Rat) -> bool {
    r.den >= 1
}

/// `a <= b` as rational values, stated by cross-multiplication
/// (exact for positive denominators).
pub open spec fn rat_le(a: Rat, b: Rat) -> bool {
    a.num * b.den <= b.num * a.den
}

/// `a < b` as rational values, stated by cross-multiplication
/// (exact for positive denominators).
pub open spec fn rat_lt(a: Rat, b: Rat) -> bool {
    a.num * b.den < b.num * a.den
}

/// The product of an `i64` value and a `u64` value always fits in `i128`.
pub proof fn lemma_cross_mul_fits(a: int, b: int)
    by (nonlinear_arith)
    requires
        -0x8000_0000_0000_0000 <= a <= 0x7FFF_FFFF_FFFF_FFFF,
        0 <= b <= 0xFFFF_FFFF_FFFF_FFFF,
    ensures
        -0x8000_0000_0000_0000_0000_0000_0000_0000 <= a * b
            <= 0x7FFF_FFFF_FFFF_FFFF_FFFF_FFFF_FFFF_FFFF,
{
}

/// With positive denominators, `x <= y` and `y < z` give `x < z`.
pub proof fn lemma_rat_le_lt_trans(x: Rat, y: Rat, z: Rat)
    by (nonlinear_arith)
    requires
        rat_wf(x),
        rat_wf(y),
        rat_wf(z),
        rat_le(x, y),
        rat_lt(y, z),
    ensures
        rat_lt(x, z),
{
}

impl Frac {
    pub open spec fn wf(self) -> bool {
        rat_wf(self@)
    }

    pub fn new(num: i64, den: u64) -> (r: Frac)
        requires
            den >= 1,
        ensures
            r@ == (Rat { num: num as int, den: den as int }),
            r.wf(),
    {
        Frac { num, den }
    }

    /// Exact comparison `self <= other` of the rational values.
    pub fn le(&self, other: &Frac) -> (r: bool)
        ensures
            r == rat_le(self@, other@),
    {
        proof {
            lemma_cross_mul_fits(self.num as int, other.den as int);
            lemma_cross_mul_fits(other.num as int, self.den as int);
        }
        (self.num as i128) * (other.den as i128) <= (other.num as i128) * (self.den as i128)
    }

    /// Exact comparison `self < other` of the rational values.
    pub fn lt(&self, other: &Frac) -> (r: bool)
        ensures
            r == rat_lt(self@, other@),
    {
        proof {
            lemma_cross_mul_fits(self.num as int, other.den as int);
            lemma_cross_mul_fits(other.num as int, self.den as int);
        }
        (self.num as i128) * (other.den as i128) < (other.num as i128) * (self.den as i128)
    }

    /// True iff the rational values of `self` and `other` are equal
    /// (the representations may differ).
    pub fn same_value(&self, other: &Frac) -> (r: bool)
        ensures
            r == (rat_le(self@, other@) && rat_le(other@, self@)),
    {
        self.le(other) && other.le(self)
    }
}

} // verus!
