//! Saturating fixed-point arithmetic with six decimal places.
//!
//! Progress fractions and animated values are both carried as `Fixed`
//! numbers: an `i64` count of millionths, so `FX_ONE` units stand for the
//! real number one. Every operation saturates at the `i64` range instead of
//! overflowing, the fixed-point analogue of running off to infinity.

use vstd::prelude::*;

verus! {

/// One whole unit: a fraction of exactly one.
pub const FX_ONE: i64 = 1_000_000;

/// Half a unit: a fraction of exactly one half.
pub const FX_HALF: i64 = 500_000;

/// A fixed-point number: `units` millionths.
#[derive(Clone, Copy, Debug, PartialEq, Eq, Structural)]
pub struct Fixed {
    pub units: i64,
}

impl View for Fixed {
    type V = int;

    open spec fn view(&self) -> int {
        self.units as int
    }
}

/// Clip a mathematical integer to the `i64` range.
pub open spec fn fx_sat(x: int) -> int {
    if x > i64::MAX as int {
        i64::MAX as int
    } else if x < i64::MIN as int {
        i64::MIN as int
    } else {
        x
    }
}

/// Division truncating toward zero (the machine direction), for `d > 0`.
pub open spec fn tdiv(p: int, d: int) -> int
    recommends
        d > 0,
{
    if p >= 0 {
        p / d
    } else {
        -((-p) / d)
    }
}

/// Saturating sum of two fixed-point values.
pub open spec fn fx_add(a: int, b: int) -> int {
    fx_sat(a + b)
}

/// Saturating difference of two fixed-point values.
pub open spec fn fx_sub(a: int, b: int) -> int {
    fx_sat(a - b)
}

/// Saturating fixed-point product: `a * b` rescaled by one unit.
pub open spec fn fx_mul(a: int, b: int) -> int {
    fx_sat(tdiv(a * b, FX_ONE as int))
}

/// Saturating fixed-point quotient. A non-positive divisor is degenerate:
/// the result saturates in the direction of the dividend's sign.
pub open spec fn fx_div(a: int, b: int) -> int {
    if b <= 0 {
        if a > 0 {
            i64::MAX as int
        } else if a < 0 {
            i64::MIN as int
        } else {
            0
        }
    } else {
        fx_sat(tdiv(a * (FX_ONE as int), b))
    }
}

/// Saturating doubling.
pub open spec fn fx_dbl(a: int) -> int {
    fx_sat(a + a)
}

/// Halving, truncating toward zero; never leaves the `i64` range.
pub open spec fn fx_half(a: int) -> int {
    tdiv(a, 2)
}

/// Clamp a fraction to the unit interval `[0, FX_ONE]`.
pub open spec fn fx_clamp(a: int) -> int {
    if a < 0 {
        0
    } else if a > FX_ONE as int {
        FX_ONE as int
    } else {
        a
    }
}

/// Elapsed time over duration as a fixed-point fraction. A zero or negative
/// duration is degenerate: any positive elapsed time counts as infinitely
/// far past the end, and saturates.
pub open spec fn frac_of(elapsed: int, duration: int) -> int
    recommends
        elapsed >= 0,
{
    if duration <= 0 {
        if elapsed > 0 {
            i64::MAX as int
        } else {
            0
        }
    } else {
        fx_sat((elapsed * (FX_ONE as int)) / duration)
    }
}

/// Magnitude of an `i64` as a `u128`.
fn abs_to_u128(x: i64) -> (r: u128)
    ensures
        r as int == (if x >= 0 {
            x as int
        } else {
            -(x as int)
        }),
{
    if x >= 0 {
        x as u128
    } else {
        let w: i128 = x as i128;
        (-w) as u128
    }
}

/// Computes `a * b / d` truncating toward zero, saturating at the `i64`
/// range. The product is taken at full width, so no intermediate overflow
/// can occur.
fn mul_div_trunc(a: i64, b: i64, d: i64) -> (r: i64)
    requires
        d >= 1,
    ensures
        r as int == fx_sat(tdiv((a as int) * (b as int), d as int)),
{
    let am: u128 = abs_to_u128(a);
    let bm: u128 = abs_to_u128(b);
    proof {
        assert(am * bm <= 0x8000_0000_0000_0000u128 * 0x8000_0000_0000_0000u128)
            by (nonlinear_arith)
            requires
                am <= 0x8000_0000_0000_0000u128,
                bm <= 0x8000_0000_0000_0000u128,
        ;
    }
    let pm: u128 = am * bm;
    let qm: u128 = pm / (d as u128);
    let neg: bool = (a < 0) != (b < 0);
    proof {
        let pa = a as int;
        let pb = b as int;
        assert((pa * pb >= 0 ==> pa * pb == (am as int) * (bm as int)) && (pa * pb < 0 ==> -(pa
            * pb) == (am as int) * (bm as int)) && ((pa < 0) != (pb < 0) ==> pa * pb <= 0) && (!((pa
            < 0) != (pb < 0)) ==> pa * pb >= 0)) by (nonlinear_arith)
            requires
                am as int == (if pa >= 0 {
                    pa
                } else {
                    -pa
                }),
                bm as int == (if pb >= 0 {
                    pb
                } else {
                    -pb
                }),
        ;
    }
    if neg {
        if qm >= 0x8000_0000_0000_0000u128 {
            i64::MIN
        } else {
            -(qm as i64)
        }
    } else {
        if qm > i64::MAX as u128 {
            i64::MAX
        } else {
            qm as i64
        }
    }
}

impl Fixed {
    /// Wraps a raw count of millionths.
    pub fn from_units(units: i64) -> (r: Fixed)
        ensures
            r@ == units as int,
    {
        Fixed { units }
    }

    /// The whole number `n` as a fixed-point value.
    pub fn from_int(n: i64) -> (r: Fixed)
        requires
            -9_000_000_000_000 <= n <= 9_000_000_000_000,
        ensures
            r@ == n * (FX_ONE as int),
    {
        Fixed { units: n * FX_ONE }
    }

    /// Zero.
    pub fn zero() -> (r: Fixed)
        ensures
            r@ == 0,
    {
        Fixed { units: 0 }
    }

    /// Exactly one.
    pub fn one() -> (r: Fixed)
        ensures
            r@ == FX_ONE as int,
    {
        Fixed { units: FX_ONE }
    }

    /// Exactly one half.
    pub fn half() -> (r: Fixed)
        ensures
            r@ == FX_HALF as int,
    {
        Fixed { units: FX_HALF }
    }

    /// Saturating addition.
    pub fn add_sat(self, rhs: Fixed) -> (r: Fixed)
        ensures
            r@ == fx_add(self@, rhs@),
    {
        match self.units.checked_add(rhs.units) {
            Some(v) => Fixed { units: v },
            None => {
                if rhs.units > 0 {
                    Fixed { units: i64::MAX }
                } else {
                    Fixed { units: i64::MIN }
                }
            },
        }
    }

    /// Saturating subtraction.
    pub fn sub_sat(self, rhs: Fixed) -> (r: Fixed)
        ensures
            r@ == fx_sub(self@, rhs@),
    {
        match self.units.checked_sub(rhs.units) {
            Some(v) => Fixed { units: v },
            None => {
                if rhs.units > 0 {
                    Fixed { units: i64::MIN }
                } else {
                    Fixed { units: i64::MAX }
                }
            },
        }
    }

    /// Saturating doubling.
    pub fn double_sat(self) -> (r: Fixed)
        ensures
            r@ == fx_dbl(self@),
    {
        self.add_sat(self)
    }

    /// Saturating fixed-point multiplication.
    pub fn mul_sat(self, rhs: Fixed) -> (r: Fixed)
        ensures
            r@ == fx_mul(self@, rhs@),
    {
        Fixed { units: mul_div_trunc(self.units, rhs.units, FX_ONE) }
    }

    /// Saturating fixed-point division; a non-positive divisor saturates in
    /// the direction of the dividend's sign.
    pub fn div_sat(self, rhs: Fixed) -> (r: Fixed)
        ensures
            r@ == fx_div(self@, rhs@),
    {
        if rhs.units <= 0 {
            if self.units > 0 {
                Fixed { units: i64::MAX }
            } else if self.units < 0 {
                Fixed { units: i64::MIN }
            } else {
                Fixed { units: 0 }
            }
        } else {
            Fixed { units: mul_div_trunc(self.units, FX_ONE, rhs.units) }
        }
    }

    /// Halving, truncating toward zero.
    pub fn half_trunc(self) -> (r: Fixed)
        ensures
            r@ == fx_half(self@),
    {
        Fixed { units: mul_div_trunc(self.units, 1, 2) }
    }

    /// Clamp to the unit interval `[0, FX_ONE]`.
    pub fn clamp_unit(self) -> (r: Fixed)
        ensures
            r@ == fx_clamp(self@),
    {
        if self.units < 0 {
            Fixed { units: 0 }
        } else if self.units > FX_ONE {
            Fixed { units: FX_ONE }
        } else {
            self
        }
    }
}

/// Elapsed milliseconds over a duration in milliseconds, as a fixed-point
/// fraction of the timeline.
pub fn fraction_of(elapsed_ms: u64, duration_ms: u64) -> (r: Fixed)
    ensures
        r@ == frac_of(elapsed_ms as int, duration_ms as int),
{
    if duration_ms == 0 {
        if elapsed_ms > 0 {
            Fixed { units: i64::MAX }
        } else {
            Fixed { units: 0 }
        }
    } else {
        proof {
            assert((elapsed_ms as int) * (FX_ONE as int) <= 0xffff_ffff_ffff_ffff * 1_000_000)
                by (nonlinear_arith)
                requires
                    0 <= elapsed_ms as int <= 0xffff_ffff_ffff_ffff,
            ;
        }
        let p: u128 = (elapsed_ms as u128) * (FX_ONE as u128);
        let q: u128 = p / (duration_ms as u128);
        if q > i64::MAX as u128 {
            Fixed { units: i64::MAX }
        } else {
            Fixed { units: q as i64 }
        }
    }
}

} // verus!
