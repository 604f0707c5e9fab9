//! The arithmetic that layout geometry is computed in.
//!
//! Every length of the library is a value of a type that implements
//! [`Scalar`]. The contracts of the layout algorithms are exact over the
//! operations of that trait and rely on none of their algebraic laws, so they
//! hold for rounding and saturating arithmetic alike.

use vstd::prelude::*;

verus! {

/// A number type for lengths along and across a line.
///
/// `Wide` is the type in which block positions are accumulated over all lines
/// of a paragraph; it may be wider than the type of a single length.
pub trait Scalar: Copy {
    /// The accumulator for block positions.
    type Wide: Copy;

    spec fn spec_zero() -> Self;

    spec fn spec_one() -> Self;

    spec fn spec_largest() -> Self;

    spec fn spec_unbounded() -> Self;

    spec fn spec_plus(self, other: Self) -> Self;

    spec fn spec_minus(self, other: Self) -> Self;

    spec fn spec_times(self, other: Self) -> Self;

    spec fn spec_half(self) -> Self;

    spec fn spec_larger(self, other: Self) -> Self;

    spec fn spec_round(self) -> Self;

    spec fn spec_floor(self) -> Self;

    spec fn spec_lt(self, other: Self) -> bool;

    spec fn spec_le(self, other: Self) -> bool;

    spec fn spec_same(self, other: Self) -> bool;

    spec fn spec_nearly_zero(self) -> bool;

    spec fn spec_widen(self) -> Self::Wide;

    spec fn spec_wide_zero() -> Self::Wide;

    spec fn spec_wide_plus(a: Self::Wide, b: Self::Wide) -> Self::Wide;

    spec fn spec_wide_minus(a: Self::Wide, b: Self::Wide) -> Self::Wide;

    spec fn spec_wide_round(a: Self::Wide) -> Self::Wide;

    spec fn spec_narrow(a: Self::Wide) -> Self;

    /// The length zero.
    fn zero() -> (r: Self)
        ensures
            r == Self::spec_zero(),
    ;

    /// One unit.
    fn one() -> (r: Self)
        ensures
            r == Self::spec_one(),
    ;

    /// The largest finite length.
    fn largest() -> (r: Self)
        ensures
            r == Self::spec_largest(),
    ;

    /// The length that stands for the absence of a limit.
    fn unbounded() -> (r: Self)
        ensures
            r == Self::spec_unbounded(),
    ;

    fn plus(self, other: Self) -> (r: Self)
        ensures
            r == self.spec_plus(other),
    ;

    fn minus(self, other: Self) -> (r: Self)
        ensures
            r == self.spec_minus(other),
    ;

    fn times(self, other: Self) -> (r: Self)
        ensures
            r == self.spec_times(other),
    ;

    /// Half of this length.
    fn half(self) -> (r: Self)
        ensures
            r == self.spec_half(),
    ;

    /// The larger of two lengths.
    fn larger(self, other: Self) -> (r: Self)
        ensures
            r == self.spec_larger(other),
    ;

    /// The nearest whole number of units.
    fn round(self) -> (r: Self)
        ensures
            r == self.spec_round(),
    ;

    /// The largest whole number of units that is not above this length.
    fn floor(self) -> (r: Self)
        ensures
            r == self.spec_floor(),
    ;

    fn lt(self, other: Self) -> (r: bool)
        ensures
            r == self.spec_lt(other),
    ;

    fn le(self, other: Self) -> (r: bool)
        ensures
            r == self.spec_le(other),
    ;

    /// Numeric equality, which may differ from identity (signed zeros).
    fn same(self, other: Self) -> (r: bool)
        ensures
            r == self.spec_same(other),
    ;

    /// Whether this length is too small to have a visible effect.
    fn nearly_zero(self) -> (r: bool)
        ensures
            r == self.spec_nearly_zero(),
    ;

    fn widen(self) -> (r: Self::Wide)
        ensures
            r == self.spec_widen(),
    ;

    fn wide_zero() -> (r: Self::Wide)
        ensures
            r == Self::spec_wide_zero(),
    ;

    fn wide_plus(a: Self::Wide, b: Self::Wide) -> (r: Self::Wide)
        ensures
            r == Self::spec_wide_plus(a, b),
    ;

    fn wide_minus(a: Self::Wide, b: Self::Wide) -> (r: Self::Wide)
        ensures
            r == Self::spec_wide_minus(a, b),
    ;

    fn wide_round(a: Self::Wide) -> (r: Self::Wide)
        ensures
            r == Self::spec_wide_round(a),
    ;

    fn narrow(a: Self::Wide) -> (r: Self)
        ensures
            r == Self::spec_narrow(a),
    ;
}

/// A saturating fixed-point length with 64 steps to the unit.
#[derive(Clone, Copy, Debug, PartialEq, Eq)]
pub struct Fixed {
    /// The length in steps.
    pub steps: i64,
}

/// The fixed-point length nearest to the given number of steps.
pub open spec fn saturated(steps: int) -> Fixed {
    Fixed {
        steps: if steps > i64::MAX {
            i64::MAX
        } else if steps < i64::MIN {
            i64::MIN
        } else {
            steps as i64
        },
    }
}

fn saturate(steps: i128) -> (r: Fixed)
    ensures
        r == saturated(steps as int),
{
    if steps > 0x7fff_ffff_ffff_ffff {
        Fixed { steps: 0x7fff_ffff_ffff_ffff }
    } else if steps < -0x8000_0000_0000_0000 {
        Fixed { steps: -0x8000_0000_0000_0000 }
    } else {
        Fixed { steps: steps as i64 }
    }
}

fn floor_div_64(n: i128) -> (r: i128)
    requires
        -0x4000_0000_0000_0000_0000_0000_0000_0000 <= n,
    ensures
        r == n as int / 64,
{
    if n >= 0 {
        n / 64
    } else {
        let up: i128 = (63 - n) / 64;
        -up
    }
}

impl Fixed {
    /// The length of `units` whole units.
    pub fn from_units(units: i32) -> (r: Self)
        ensures
            r.steps == units * 64,
    {
        Fixed { steps: units as i64 * 64 }
    }
}

impl Scalar for Fixed {
    type Wide = Fixed;

    open spec fn spec_zero() -> Self {
        Fixed { steps: 0 }
    }

    open spec fn spec_one() -> Self {
        Fixed { steps: 64 }
    }

    open spec fn spec_largest() -> Self {
        Fixed { steps: i64::MAX }
    }

    open spec fn spec_unbounded() -> Self {
        Fixed { steps: i64::MAX }
    }

    open spec fn spec_plus(self, other: Self) -> Self {
        saturated(self.steps + other.steps)
    }

    open spec fn spec_minus(self, other: Self) -> Self {
        saturated(self.steps - other.steps)
    }

    open spec fn spec_times(self, other: Self) -> Self {
        saturated((self.steps * other.steps) / 64)
    }

    open spec fn spec_half(self) -> Self {
        Fixed { steps: (self.steps as int / 2) as i64 }
    }

    open spec fn spec_larger(self, other: Self) -> Self {
        if self.steps < other.steps {
            other
        } else {
            self
        }
    }

    open spec fn spec_round(self) -> Self {
        if self.steps >= 0 {
            saturated(((self.steps + 32) / 64) * 64)
        } else {
            saturated(-(((32 - self.steps) / 64) * 64))
        }
    }

    open spec fn spec_floor(self) -> Self {
        saturated((self.steps as int / 64) * 64)
    }

    open spec fn spec_lt(self, other: Self) -> bool {
        self.steps < other.steps
    }

    open spec fn spec_le(self, other: Self) -> bool {
        self.steps <= other.steps
    }

    open spec fn spec_same(self, other: Self) -> bool {
        self.steps == other.steps
    }

    open spec fn spec_nearly_zero(self) -> bool {
        self.steps == 0
    }

    open spec fn spec_widen(self) -> Fixed {
        self
    }

    open spec fn spec_wide_zero() -> Fixed {
        Fixed { steps: 0 }
    }

    open spec fn spec_wide_plus(a: Fixed, b: Fixed) -> Fixed {
        a.spec_plus(b)
    }

    open spec fn spec_wide_minus(a: Fixed, b: Fixed) -> Fixed {
        a.spec_minus(b)
    }

    open spec fn spec_wide_round(a: Fixed) -> Fixed {
        a.spec_round()
    }

    open spec fn spec_narrow(a: Fixed) -> Self {
        a
    }

    fn zero() -> (r: Self) {
        Fixed { steps: 0 }
    }

    fn one() -> (r: Self) {
        Fixed { steps: 64 }
    }

    fn largest() -> (r: Self) {
        Fixed { steps: 0x7fff_ffff_ffff_ffff }
    }

    fn unbounded() -> (r: Self) {
        Fixed { steps: 0x7fff_ffff_ffff_ffff }
    }

    fn plus(self, other: Self) -> (r: Self) {
        saturate(self.steps as i128 + other.steps as i128)
    }

    fn minus(self, other: Self) -> (r: Self) {
        saturate(self.steps as i128 - other.steps as i128)
    }

    fn times(self, other: Self) -> (r: Self) {
        proof {
            let (a, b) = (self.steps, other.steps);
            assert(-0x4000_0000_0000_0000_0000_0000_0000_0000 <= a * b
                <= 0x4000_0000_0000_0000_0000_0000_0000_0000) by (nonlinear_arith)
                requires
                    -0x8000_0000_0000_0000 <= a <= 0x7fff_ffff_ffff_ffff,
                    -0x8000_0000_0000_0000 <= b <= 0x7fff_ffff_ffff_ffff,
            ;
        }
        let product: i128 = self.steps as i128 * other.steps as i128;
        saturate(floor_div_64(product))
    }

    fn half(self) -> (r: Self) {
        if self.steps >= 0 {
            Fixed { steps: self.steps / 2 }
        } else {
            let up: i128 = (1 - self.steps as i128) / 2;
            Fixed { steps: (-up) as i64 }
        }
    }

    fn larger(self, other: Self) -> (r: Self) {
        if self.steps < other.steps {
            other
        } else {
            self
        }
    }

    fn round(self) -> (r: Self) {
        if self.steps >= 0 {
            saturate(((self.steps as i128 + 32) / 64) * 64)
        } else {
            let magnitude: i128 = ((32 - self.steps as i128) / 64) * 64;
            saturate(-magnitude)
        }
    }

    fn floor(self) -> (r: Self) {
        saturate(floor_div_64(self.steps as i128) * 64)
    }

    fn lt(self, other: Self) -> (r: bool) {
        self.steps < other.steps
    }

    fn le(self, other: Self) -> (r: bool) {
        self.steps <= other.steps
    }

    fn same(self, other: Self) -> (r: bool) {
        self.steps == other.steps
    }

    fn nearly_zero(self) -> (r: bool) {
        self.steps == 0
    }

    fn widen(self) -> (r: Fixed) {
        self
    }

    fn wide_zero() -> (r: Fixed) {
        Fixed { steps: 0 }
    }

    fn wide_plus(a: Fixed, b: Fixed) -> (r: Fixed) {
        a.plus(b)
    }

    fn wide_minus(a: Fixed, b: Fixed) -> (r: Fixed) {
        a.minus(b)
    }

    fn wide_round(a: Fixed) -> (r: Fixed) {
        a.round()
    }

    fn narrow(a: Fixed) -> (r: Self) {
        a
    }
}

} // verus!
