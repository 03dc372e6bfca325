//! Where a shape is held over the board: an anchor whose coordinates are
//! exact fractions of the board's width and height, and the rule that turns
//! a fractional position into a cell index.
//!
//! The rule is round-half-away-from-zero, computed on integers: 2.5 becomes 3
//! and -2.5 becomes -3.

use vstd::prelude::*;

verus! {

/// The quotient `num / den`, rounded to the nearest integer, a tie going to
/// the neighbour that is farther from zero. Meant for `den > 0`.
pub open spec fn round_half_away(num: int, den: int) -> int {
    if num >= 0 {
        (2 * num + den) / (2 * den)
    } else {
        -((den - 2 * num) / (2 * den))
    }
}

/// The cell index on a board axis of `extent` cells that cell `cell` of a
/// shape comes to lie on, when the middle of the shape's bounding box, which
/// spans `span` cells on this axis, is held at `num / den` of the extent:
/// `cell + extent * num / den - span / 2`, rounded.
pub open spec fn placed(cell: int, span: int, extent: int, num: int, den: int) -> int {
    round_half_away(2 * den * cell + 2 * num * extent - den * span, 2 * den)
}

/// An exact fraction with a positive denominator.
#[derive(Clone, Copy, Debug)]
pub struct Fraction {
    num: i32,
    den: u32,
}

/// A position over the board: `x` across its width, `y` across its height,
/// each as a fraction of the extent. Coordinates between 0 and 1 lie on the
/// board; others are accepted and lead to cells outside it.
#[derive(Clone, Copy, Debug)]
pub struct Anchor {
    pub x: Fraction,
    pub y: Fraction,
}

impl Anchor {
    /// Both coordinates are valid fractions.
    pub open spec fn valid(self) -> bool {
        self.x.valid() && self.y.valid()
    }
}

impl Fraction {
    #[verifier::type_invariant]
    spec fn positive_denominator(self) -> bool {
        self.den > 0
    }

    /// The numerator.
    pub closed spec fn num(self) -> int {
        self.num as int
    }

    /// The denominator.
    pub closed spec fn den(self) -> int {
        self.den as int
    }

    /// The denominator is positive. Every fraction that a program holds is
    /// valid; a proof about an arbitrary one asks for it.
    pub open spec fn valid(self) -> bool {
        self.den() > 0
    }

    /// The fraction `num / den`; `None` exactly when `den` is 0.
    pub fn new(num: i32, den: u32) -> (fraction: Option<Fraction>)
        ensures
            fraction is Some <==> den > 0,
            fraction matches Some(f) ==> f.num() == num && f.den() == den && f.valid(),
    {
        if den == 0 {
            None
        } else {
            Some(Fraction { num, den })
        }
    }

    /// The numerator, as it was given.
    pub fn numerator(&self) -> (num: i32)
        ensures
            num == self.num(),
    {
        self.num
    }

    /// The denominator, as it was given; never 0.
    pub fn denominator(&self) -> (den: u32)
        ensures
            den == self.den(),
            den > 0,
    {
        proof {
            use_type_invariant(self);
        }
        self.den
    }

    /// The cell index of `placed` for a shape cell, a bounding-box span and a
    /// board extent that are small enough for the arithmetic to stay exact.
    pub fn place(&self, cell: usize, span: usize, extent: usize) -> (index: i64)
        requires
            cell <= 0xffff,
            span <= 0xffff,
            extent <= 0xffff,
        ensures
            index == placed(cell as int, span as int, extent as int, self.num(), self.den()),
    {
        proof {
            use_type_invariant(self);
        }
        let den = self.den as i64;
        let num = self.num as i64;
        assert(-0x8000_0000 <= num < 0x8000_0000 && 0 < den < 0x1_0000_0000);
        let ghost c = cell as int;
        let ghost s = span as int;
        let ghost e = extent as int;
        proof {
            assert(0 <= 2 * den * c <= 0x2_0000_0000 * 0xffff) by (nonlinear_arith)
                requires
                    0 < den < 0x1_0000_0000,
                    0 <= c <= 0xffff,
            ;
            assert(-0x1_0000_0000 * 0xffff <= 2 * num * e <= 0x1_0000_0000 * 0xffff)
                by (nonlinear_arith)
                requires
                    -0x8000_0000 <= num < 0x8000_0000,
                    0 <= e <= 0xffff,
            ;
            assert(0 <= den * s <= 0x1_0000_0000 * 0xffff) by (nonlinear_arith)
                requires
                    0 < den < 0x1_0000_0000,
                    0 <= s <= 0xffff,
            ;
        }
        let top: i64 = 2 * den * (cell as i64) + 2 * num * (extent as i64) - den * (span as i64);
        let bottom: i64 = 2 * den;
        if top >= 0 {
            ((2 * top + bottom) as u64 / (2 * bottom) as u64) as i64
        } else {
            -(((bottom - 2 * top) as u64 / (2 * bottom) as u64) as i64)
        }
    }
}

/// Rounding picks a nearest integer: the result is at most half a unit away
/// from the quotient, and exactly half a unit away only on the side away from zero.
pub proof fn lemma_round_nearest(num: int, den: int)
    requires
        den > 0,
    ensures
        ({
            let rounded = round_half_away(num, den);
            &&& -den <= 2 * (num - rounded * den) <= den
            &&& 2 * (num - rounded * den) == den ==> num < 0
            &&& 2 * (num - rounded * den) == -den ==> num >= 0
        }),
{
    let rounded = round_half_away(num, den);
    if num >= 0 {
        let a = 2 * num + den;
        let b = 2 * den;
        assert(a == b * (a / b) + a % b && 0 <= a % b < b) by (nonlinear_arith)
            requires
                b > 0,
        ;
        assert(rounded * den * 2 == b * (a / b)) by (nonlinear_arith)
            requires
                rounded == a / b,
                b == 2 * den,
        ;
    } else {
        let a = den - 2 * num;
        let b = 2 * den;
        assert(a == b * (a / b) + a % b && 0 <= a % b < b) by (nonlinear_arith)
            requires
                b > 0,
        ;
        assert(rounded * den * 2 == -(b * (a / b))) by (nonlinear_arith)
            requires
                rounded == -(a / b),
                b == 2 * den,
        ;
    }
}

/// A whole number of units is its own rounding.
pub proof fn lemma_round_whole(units: int, den: int)
    requires
        den > 0,
    ensures
        round_half_away(units * den, den) == units,
{
    lemma_round_nearest(units * den, den);
    let rounded = round_half_away(units * den, den);
    assert(-den <= 2 * ((units - rounded) * den) <= den) by (nonlinear_arith)
        requires
            -den <= 2 * (units * den - rounded * den) <= den,
    ;
    assert(units == rounded) by (nonlinear_arith)
        requires
            -den <= 2 * ((units - rounded) * den) <= den,
            den > 0,
    ;
}

/// Two shape cells one apart come to lie on different board cells, the later
/// one on the higher index: placing keeps the order of cells and never folds
/// two cells onto one.
pub proof fn lemma_placed_increasing(cell: int, span: int, extent: int, num: int, den: int)
    requires
        den > 0,
    ensures
        placed(cell, span, extent, num, den) < placed(cell + 1, span, extent, num, den),
{
    let d = 2 * den;
    let n0 = 2 * den * cell + 2 * num * extent - den * span;
    let n1 = 2 * den * (cell + 1) + 2 * num * extent - den * span;
    assert(n1 == n0 + d) by (nonlinear_arith)
        requires
            n0 == 2 * den * cell + 2 * num * extent - den * span,
            n1 == 2 * den * (cell + 1) + 2 * num * extent - den * span,
            d == 2 * den,
    ;
    lemma_round_nearest(n0, d);
    lemma_round_nearest(n1, d);
    let r0 = round_half_away(n0, d);
    let r1 = round_half_away(n1, d);
    // 2 * (n1 - n0) = 2d, and each rounding error is at most d / 2 in size
    assert(2 * ((r1 - r0) * d) == 2 * d - 2 * (n1 - r1 * d) + 2 * (n0 - r0 * d))
        by (nonlinear_arith)
        requires
            n1 == n0 + d,
    ;
    if r1 <= r0 {
        assert((r1 - r0) * d <= 0) by (nonlinear_arith)
            requires
                r1 - r0 <= 0,
                d > 0,
        ;
        // then both errors are extreme: n1 half a unit above r1, n0 half a unit below r0
        assert(2 * (n1 - r1 * d) == d && 2 * (n0 - r0 * d) == -d);
        assert(n1 < 0 && n0 >= 0);
    }
}

/// Placing keeps the order of the cells of a shape: a later cell comes to lie
/// on a higher index, so no two cells come to lie on the same one.
pub proof fn lemma_placed_strictly_monotone(
    low: int,
    high: int,
    span: int,
    extent: int,
    num: int,
    den: int,
)
    requires
        den > 0,
        low < high,
    ensures
        placed(low, span, extent, num, den) < placed(high, span, extent, num, den),
    decreases high - low,
{
    lemma_placed_increasing(high - 1, span, extent, num, den);
    if low < high - 1 {
        lemma_placed_strictly_monotone(low, high - 1, span, extent, num, den);
    }
}

} // verus!
