//! Exact scaled-integer numbers.
//!
//! Every real-valued quantity of the library (rotation angles, linear
//! coefficients, expectation values) is carried as a signed count of
//! millionths.  All arithmetic on these numbers is exact integer
//! arithmetic with truncation toward zero, so every computation has a
//! precise mathematical statement.

use vstd::prelude::*;

verus! {

/// Number of fractional units per whole: values are stored in millionths.
pub const FIXED_SCALE: i64 = 1_000_000;

/// A real-number stand-in: `units` counts millionths of the value.
#[derive(Clone, Copy, Debug, PartialEq, Eq, Structural)]
pub struct Fixed {
    pub units: i64,
}

/// Magnitude of a mathematical integer.
pub open spec fn abs_int(a: int) -> int {
    if a < 0 {
        -a
    } else {
        a
    }
}

/// Quotient of `a` by `b`, truncated toward zero.
pub open spec fn div_trunc(a: int, b: int) -> int
    recommends
        b != 0,
{
    if (a < 0) == (b < 0) {
        abs_int(a) / abs_int(b)
    } else {
        -(abs_int(a) / abs_int(b))
    }
}

/// The magnitude of a product is the product of the magnitudes, and the
/// product's sign follows the factors' signs.
pub proof fn lemma_mul_abs_sign(a: int, b: int)
    by (nonlinear_arith)
    ensures
        abs_int(a * b) == abs_int(a) * abs_int(b),
        ((a < 0) != (b < 0)) ==> a * b <= 0,
        ((a < 0) == (b < 0)) ==> a * b >= 0,
{
}

/// A quotient of non-negative numbers is bounded by the dividend.
pub proof fn lemma_div_le_dividend(x: int, d: int)
    by (nonlinear_arith)
    requires
        x >= 0,
        d >= 1,
    ensures
        0 <= x / d <= x,
{
}

/// A quotient is bounded by any factor bound on its dividend.
pub proof fn lemma_div_le_factor(x: int, y: int, d: int)
    requires
        0 <= x,
        0 <= y,
        d >= 1,
        x <= y * d,
    ensures
        0 <= x / d <= y,
{
    vstd::arithmetic::div_mod::lemma_div_is_ordered(x, y * d, d);
    vstd::arithmetic::div_mod::lemma_div_by_multiple(y, d);
    lemma_div_le_dividend(x, d);
}

impl Fixed {
    /// Wraps a raw count of millionths.
    pub fn from_units(units: i64) -> (r: Fixed)
        ensures
            r.units == units,
    {
        Fixed { units }
    }

    /// The number zero.
    pub fn zero() -> (r: Fixed)
        ensures
            r.units == 0,
    {
        Fixed { units: 0 }
    }

    /// Exact sum; `None` when the sum leaves the representable range.
    pub fn checked_add(self, other: Fixed) -> (r: Option<Fixed>)
        ensures
            i64::MIN <= self.units + other.units <= i64::MAX ==> r == Some(
                Fixed { units: (self.units + other.units) as i64 },
            ),
            !(i64::MIN <= self.units + other.units <= i64::MAX) ==> r is None,
    {
        match self.units.checked_add(other.units) {
            Some(units) => Some(Fixed { units }),
            None => None,
        }
    }

    /// Exact difference; `None` when it leaves the representable range.
    pub fn checked_sub(self, other: Fixed) -> (r: Option<Fixed>)
        ensures
            i64::MIN <= self.units - other.units <= i64::MAX ==> r == Some(
                Fixed { units: (self.units - other.units) as i64 },
            ),
            !(i64::MIN <= self.units - other.units <= i64::MAX) ==> r is None,
    {
        match self.units.checked_sub(other.units) {
            Some(units) => Some(Fixed { units }),
            None => None,
        }
    }

    /// Product truncated toward zero; `None` when it leaves the
    /// representable range.
    pub fn checked_mul(self, other: Fixed) -> (r: Option<Fixed>)
        ensures
            ({
                let q = div_trunc(self.units * other.units, FIXED_SCALE as int);
                if i64::MIN <= q <= i64::MAX {
                    r == Some(Fixed { units: q as i64 })
                } else {
                    r is None
                }
            }),
    {
        let a = self.units;
        let b = other.units;
        proof {
            lemma_mul_abs_sign(a as int, b as int);
        }
        let neg: bool = (a < 0) != (b < 0);
        let ma: u64 = if a < 0 {
            (-(a as i128)) as u64
        } else {
            a as u64
        };
        let mb: u64 = if b < 0 {
            (-(b as i128)) as u64
        } else {
            b as u64
        };
        proof {
            vstd::arithmetic::mul::lemma_mul_upper_bound(
                ma as int,
                0x8000_0000_0000_0000,
                mb as int,
                0x8000_0000_0000_0000,
            );
        }
        let prod: u128 = (ma as u128) * (mb as u128);
        let q: u128 = prod / (FIXED_SCALE as u128);
        proof {
            lemma_div_le_dividend(prod as int, FIXED_SCALE as int);
        }
        Self::signed_from_magnitude(q, neg)
    }

    /// Quotient truncated toward zero; `None` on division by zero or when
    /// the quotient leaves the representable range.
    pub fn checked_div(self, other: Fixed) -> (r: Option<Fixed>)
        ensures
            other.units == 0 ==> r is None,
            other.units != 0 ==> ({
                let q = div_trunc(self.units * FIXED_SCALE, other.units as int);
                if i64::MIN <= q <= i64::MAX {
                    r == Some(Fixed { units: q as i64 })
                } else {
                    r is None
                }
            }),
    {
        let a = self.units;
        let b = other.units;
        if b == 0 {
            return None;
        }
        proof {
            lemma_mul_abs_sign(a as int, FIXED_SCALE as int);
        }
        let neg: bool = (a < 0) != (b < 0);
        let ma: u64 = if a < 0 {
            (-(a as i128)) as u64
        } else {
            a as u64
        };
        let mb: u64 = if b < 0 {
            (-(b as i128)) as u64
        } else {
            b as u64
        };
        proof {
            vstd::arithmetic::mul::lemma_mul_upper_bound(
                ma as int,
                0x8000_0000_0000_0000,
                FIXED_SCALE as int,
                FIXED_SCALE as int,
            );
        }
        let scaled: u128 = (ma as u128) * (FIXED_SCALE as u128);
        let q: u128 = scaled / (mb as u128);
        proof {
            lemma_div_le_dividend(scaled as int, mb as int);
            assert(abs_int(a as int * FIXED_SCALE as int) / abs_int(b as int) == q as int);
        }
        Self::signed_from_magnitude(q, neg)
    }

    /// Applies a sign to a magnitude, refusing values outside `i64`.
    fn signed_from_magnitude(q: u128, neg: bool) -> (r: Option<Fixed>)
        ensures
            ({
                let v = if neg {
                    -(q as int)
                } else {
                    q as int
                };
                if i64::MIN <= v <= i64::MAX {
                    r == Some(Fixed { units: v as i64 })
                } else {
                    r is None
                }
            }),
    {
        if neg {
            if q <= 0x8000_0000_0000_0000u128 {
                Some(Fixed { units: (-(q as i128)) as i64 })
            } else {
                None
            }
        } else {
            if q <= 0x7fff_ffff_ffff_ffffu128 {
                Some(Fixed { units: q as i64 })
            } else {
                None
            }
        }
    }
}

} // verus!
