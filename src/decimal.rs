//! Exact fixed-point decimal amounts.
use vstd::prelude::*;

verus! {

/// Number of units in one whole currency unit: a `Decimal` carries eight
/// fractional digits.
pub const UNITS_PER_ONE: i128 = 100_000_000;

/// Number of units in one hundredth of a currency unit.
pub const UNITS_PER_CENT: i128 = 1_000_000;

/// A signed decimal value with eight fractional digits, held exactly as an
/// integer count of `10^-8` units.
#[derive(Clone, Copy, Debug, PartialEq, Eq, Structural)]
pub struct Decimal {
    pub units: i128,
}

impl View for Decimal {
    type V = int;

    open spec fn view(&self) -> int {
        self.units as int
    }
}

/// Absolute value of an integer.
pub open spec fn abs_int(v: int) -> int {
    if v < 0 {
        -v
    } else {
        v
    }
}

/// Smaller of two integers.
pub open spec fn min_int(a: int, b: int) -> int {
    if a <= b {
        a
    } else {
        b
    }
}

/// Whole hundredths in `v` units, truncated toward zero.
pub open spec fn cents_of(v: int) -> int {
    if v >= 0 {
        v / (UNITS_PER_CENT as int)
    } else {
        -((-v) / (UNITS_PER_CENT as int))
    }
}

/// Whether `v` fits the representation.
pub open spec fn in_range(v: int) -> bool {
    i128::MIN <= v <= i128::MAX
}

impl Decimal {
    pub fn zero() -> (r: Decimal)
        ensures
            r@ == 0,
    {
        Decimal { units: 0 }
    }

    pub fn from_units(units: i128) -> (r: Decimal)
        ensures
            r@ == units,
    {
        Decimal { units }
    }

    /// The value `whole` (a count of whole currency units).
    pub fn from_whole(whole: i64) -> (r: Decimal)
        ensures
            r@ == whole * UNITS_PER_ONE,
    {
        assert(-9223372036854775808 * 100_000_000 <= whole * 100_000_000 <= 9223372036854775807
            * 100_000_000) by (nonlinear_arith)
            requires
                i64::MIN <= whole <= i64::MAX,
        ;
        Decimal { units: whole as i128 * UNITS_PER_ONE }
    }

    pub fn add(self, other: Decimal) -> (r: Decimal)
        requires
            in_range(self@ + other@),
        ensures
            r@ == self@ + other@,
    {
        Decimal { units: self.units + other.units }
    }

    pub fn sub(self, other: Decimal) -> (r: Decimal)
        requires
            in_range(self@ - other@),
        ensures
            r@ == self@ - other@,
    {
        Decimal { units: self.units - other.units }
    }

    pub fn abs(self) -> (r: Decimal)
        requires
            self.units != i128::MIN,
        ensures
            r@ == abs_int(self@),
    {
        if self.units < 0 {
            Decimal { units: -self.units }
        } else {
            self
        }
    }

    pub fn min(self, other: Decimal) -> (r: Decimal)
        ensures
            r@ == min_int(self@, other@),
    {
        if self.units <= other.units {
            self
        } else {
            other
        }
    }

    pub fn is_positive(self) -> (r: bool)
        ensures
            r == (self@ > 0),
    {
        self.units > 0
    }

    pub fn lt(self, other: Decimal) -> (r: bool)
        ensures
            r == (self@ < other@),
    {
        self.units < other.units
    }

    pub fn le(self, other: Decimal) -> (r: bool)
        ensures
            r == (self@ <= other@),
    {
        self.units <= other.units
    }

    /// The product with an integer factor.
    pub fn mul_int(self, k: i64) -> (r: Decimal)
        requires
            in_range(self@ * k),
        ensures
            r@ == self@ * k,
    {
        Decimal { units: self.units * k as i128 }
    }

    /// Hundredths of a currency unit in this value, truncated toward zero.
    pub fn to_cents(self) -> (r: i128)
        ensures
            r == cents_of(self@),
    {
        if self.units >= 0 {
            self.units / UNITS_PER_CENT
        } else {
            let magnitude: u128 = (-(self.units + 1)) as u128 + 1;
            let whole: u128 = magnitude / (UNITS_PER_CENT as u128);
            -(whole as i128)
        }
    }
}

} // verus!
