//! Shaping functions: pure fraction-to-fraction transforms.
//!
//! A shaping function reshapes linear timeline progress into an eased
//! curve. Shapes are first-class [`Shape`] values built by the combinators
//! below and evaluated by [`Shape::eval`]; their meaning is the spec
//! function [`shape_val`]. Shapes accept any fraction, not only the unit
//! interval: out-of-range input extrapolates the same saturating formula.

use vstd::prelude::*;

use crate::fx::{fx_add, fx_dbl, fx_div, fx_half, fx_mul, fx_sub, Fixed, FX_HALF, FX_ONE};
use vstd::arithmetic::div_mod::{lemma_div_is_ordered, lemma_div_multiples_vanish};

verus! {

/// A shaping function as a first-class value.
#[derive(Debug)]
pub enum Shape {
    /// The identity curve.
    Linear,
    /// `f ^ weight`: slow start, sharp finish.
    EaseIn { weight: u32 },
    /// `1 - (1 - f) ^ weight`: sharp start, slow finish.
    EaseOut { weight: u32 },
    /// First curve rescaled onto the first half, second onto the second.
    InOut { first: Box<Shape>, second: Box<Shape> },
    /// Inner curve played forward over the first half, mirrored back over
    /// the second: a there-and-back pulse.
    Spike { inner: Box<Shape> },
    /// Like `Spike`, but holding at one for a central `hold` fraction of
    /// the timeline, with correspondingly faster transitions.
    SpikeStay { hold: Fixed, inner: Box<Shape> },
}

/// Fixed-point power with a positive whole exponent.
pub open spec fn fx_pow(f: int, w: nat) -> int
    decreases w,
{
    if w <= 1 {
        f
    } else {
        fx_mul(fx_pow(f, (w - 1) as nat), f)
    }
}

/// Width of each transition window of a `SpikeStay` with the given hold.
pub open spec fn stay_window(hold: int) -> int {
    FX_HALF as int - fx_half(hold)
}

/// Caller contract on a shape's tuning parameters: weights are positive
/// and a hold fraction lies in `[0, 1)`. Outside of this the curves are
/// degenerate, so evaluation requires it.
pub open spec fn shape_wf(s: Shape) -> bool
    decreases s,
{
    match s {
        Shape::Linear => true,
        Shape::EaseIn { weight } => weight >= 1,
        Shape::EaseOut { weight } => weight >= 1,
        Shape::InOut { first, second } => shape_wf(*first) && shape_wf(*second),
        Shape::Spike { inner } => shape_wf(*inner),
        Shape::SpikeStay { hold, inner } => 0 <= hold@ < FX_ONE as int && shape_wf(*inner),
    }
}

/// The output fraction of a shape at input fraction `f`.
pub open spec fn shape_val(s: Shape, f: int) -> int
    decreases s,
{
    match s {
        Shape::Linear => f,
        Shape::EaseIn { weight } => fx_pow(f, weight as nat),
        Shape::EaseOut { weight } => fx_sub(
            FX_ONE as int,
            fx_pow(fx_sub(FX_ONE as int, f), weight as nat),
        ),
        Shape::InOut { first, second } => if f < FX_HALF as int {
            fx_half(shape_val(*first, fx_dbl(f)))
        } else {
            fx_add(fx_half(shape_val(*second, fx_dbl(fx_sub(f, FX_HALF as int)))), FX_HALF as int)
        },
        Shape::Spike { inner } => if f <= FX_HALF as int {
            shape_val(*inner, fx_dbl(f))
        } else {
            shape_val(*inner, fx_dbl(fx_sub(FX_ONE as int, f)))
        },
        Shape::SpikeStay { hold, inner } => {
            let tt = stay_window(hold@);
            if f <= tt {
                shape_val(*inner, fx_div(f, tt))
            } else if f >= FX_ONE as int - tt {
                shape_val(*inner, fx_div(fx_sub(FX_ONE as int, f), tt))
            } else {
                FX_ONE as int
            }
        },
    }
}

/// Fixed-point power by repeated saturating multiplication.
fn pow_fixed(f: Fixed, w: u32) -> (r: Fixed)
    requires
        w >= 1,
    ensures
        r@ == fx_pow(f@, w as nat),
{
    let mut acc: Fixed = f;
    let mut i: u32 = 1;
    while i < w
        invariant
            1 <= i <= w,
            acc@ == fx_pow(f@, i as nat),
        decreases w - i,
    {
        acc = acc.mul_sat(f);
        i = i + 1;
    }
    acc
}

impl Shape {
    /// Evaluate the shape at the fraction `f`.
    pub fn eval(&self, f: Fixed) -> (r: Fixed)
        requires
            shape_wf(*self),
        ensures
            r@ == shape_val(*self, f@),
        decreases *self,
    {
        match self {
            Shape::Linear => f,
            Shape::EaseIn { weight } => pow_fixed(f, *weight),
            Shape::EaseOut { weight } => Fixed::one().sub_sat(
                pow_fixed(Fixed::one().sub_sat(f), *weight),
            ),
            Shape::InOut { first, second } => {
                if f.units < FX_HALF {
                    first.eval(f.double_sat()).half_trunc()
                } else {
                    second.eval(f.sub_sat(Fixed::half()).double_sat()).half_trunc().add_sat(
                        Fixed::half(),
                    )
                }
            },
            Shape::Spike { inner } => {
                if f.units <= FX_HALF {
                    inner.eval(f.double_sat())
                } else {
                    inner.eval(Fixed::one().sub_sat(f).double_sat())
                }
            },
            Shape::SpikeStay { hold, inner } => {
                let tt: Fixed = Fixed::half().sub_sat(hold.half_trunc());
                if f.units <= tt.units {
                    inner.eval(f.div_sat(tt))
                } else {
                    let upper: Fixed = Fixed::one().sub_sat(tt);
                    if f.units >= upper.units {
                        inner.eval(Fixed::one().sub_sat(f).div_sat(tt))
                    } else {
                        Fixed::one()
                    }
                }
            },
        }
    }
}

/// The identity shaping function: the reference baseline.
pub fn linear() -> (r: Shape)
    ensures
        r == Shape::Linear,
        shape_wf(r),
{
    Shape::Linear
}

/// Ease-in: higher weight, slower start and sharper finish. Weights are
/// whole numbers: a fractional power is transcendental and has no exact
/// fixed-point counterpart, so the curve family is the whole-exponent
/// one.
pub fn ease_in(weight: u32) -> (r: Shape)
    requires
        weight >= 1,
    ensures
        r == (Shape::EaseIn { weight }),
        shape_wf(r),
{
    Shape::EaseIn { weight }
}

/// Ease-out: the mirror of ease-in, with the same whole-number weights.
pub fn ease_out(weight: u32) -> (r: Shape)
    requires
        weight >= 1,
    ensures
        r == (Shape::EaseOut { weight }),
        shape_wf(r),
{
    Shape::EaseOut { weight }
}

/// Combine two shapes: `first` rescaled onto the first half of the
/// timeline, `second` onto the second half.
pub fn in_out(first: Shape, second: Shape) -> (r: Shape)
    requires
        shape_wf(first),
        shape_wf(second),
    ensures
        r matches Shape::InOut { first: a, second: b } && *a == first && *b == second,
        shape_wf(r),
{
    Shape::InOut { first: Box::new(first), second: Box::new(second) }
}

/// Shorthand for `in_out` of an ease-in and an ease-out of one weight.
pub fn ease_in_out(weight: u32) -> (r: Shape)
    requires
        weight >= 1,
    ensures
        r matches Shape::InOut { first: a, second: b } && *a == (Shape::EaseIn { weight }) && *b
            == (Shape::EaseOut { weight }),
        shape_wf(r),
{
    in_out(ease_in(weight), ease_out(weight))
}

/// Play the inner shape forward over the first half of the timeline and
/// mirrored back over the second half.
pub fn spike(inner: Shape) -> (r: Shape)
    requires
        shape_wf(inner),
    ensures
        r matches Shape::Spike { inner: a } && *a == inner,
        shape_wf(r),
{
    Shape::Spike { inner: Box::new(inner) }
}

/// Like `spike`, but hold at one for the central `hold` fraction of the
/// timeline. `hold` must lie in `[0, 1)`: at one or above the transition
/// windows vanish and the curve is degenerate, so it is a caller contract.
pub fn spike_stay(hold: Fixed, inner: Shape) -> (r: Shape)
    requires
        0 <= hold@ < FX_ONE as int,
        shape_wf(inner),
    ensures
        r matches Shape::SpikeStay { hold: h, inner: a } && h == hold && *a == inner,
        shape_wf(r),
{
    Shape::SpikeStay { hold, inner: Box::new(inner) }
}

/// A power of a fraction from the unit interval stays in the unit
/// interval.
pub proof fn lemma_pow_bounds(f: int, w: nat)
    requires
        1 <= w,
        0 <= f <= FX_ONE as int,
    ensures
        0 <= fx_pow(f, w) <= FX_ONE as int,
    decreases w,
{
    if w > 1 {
        lemma_pow_bounds(f, (w - 1) as nat);
        let p = fx_pow(f, (w - 1) as nat);
        assert(0 <= p * f <= 1_000_000_000_000) by (nonlinear_arith)
            requires
                0 <= p <= 1_000_000,
                0 <= f <= 1_000_000,
        ;
        lemma_div_is_ordered(0, p * f, FX_ONE as int);
        lemma_div_is_ordered(p * f, 1_000_000_000_000, FX_ONE as int);
    }
}

/// Raising to a power preserves order on the unit interval.
pub proof fn lemma_pow_monotone(f1: int, f2: int, w: nat)
    requires
        1 <= w,
        0 <= f1 <= f2 <= FX_ONE as int,
    ensures
        fx_pow(f1, w) <= fx_pow(f2, w),
    decreases w,
{
    if w > 1 {
        lemma_pow_monotone(f1, f2, (w - 1) as nat);
        lemma_pow_bounds(f1, (w - 1) as nat);
        lemma_pow_bounds(f2, (w - 1) as nat);
        let p1 = fx_pow(f1, (w - 1) as nat);
        let p2 = fx_pow(f2, (w - 1) as nat);
        assert(0 <= p1 * f1 <= p2 * f2 <= 1_000_000_000_000) by (nonlinear_arith)
            requires
                0 <= p1 <= p2 <= 1_000_000,
                0 <= f1 <= f2 <= 1_000_000,
        ;
        lemma_div_is_ordered(p1 * f1, p2 * f2, FX_ONE as int);
        lemma_div_is_ordered(0, p1 * f1, FX_ONE as int);
        lemma_div_is_ordered(p2 * f2, 1_000_000_000_000, FX_ONE as int);
    }
}

/// Powers fix the endpoints zero and one.
pub proof fn lemma_pow_endpoints(w: nat)
    requires
        1 <= w,
    ensures
        fx_pow(0, w) == 0,
        fx_pow(FX_ONE as int, w) == FX_ONE as int,
    decreases w,
{
    if w > 1 {
        lemma_pow_endpoints((w - 1) as nat);
    }
}

/// The identity curve really is the identity: `linear` maps every
/// fraction to itself.
pub proof fn lemma_linear_identity(f: int)
    ensures
        shape_val(Shape::Linear, f) == f,
{
}

/// Ease-in fixes both endpoints of the unit interval.
pub proof fn lemma_ease_in_endpoints(weight: u32)
    requires
        weight >= 1,
    ensures
        shape_val(Shape::EaseIn { weight }, 0) == 0,
        shape_val(Shape::EaseIn { weight }, FX_ONE as int) == FX_ONE as int,
{
    lemma_pow_endpoints(weight as nat);
}

/// Ease-in is monotonically non-decreasing over the unit interval.
pub proof fn lemma_ease_in_monotone(weight: u32, f1: int, f2: int)
    requires
        weight >= 1,
        0 <= f1 <= f2 <= FX_ONE as int,
    ensures
        shape_val(Shape::EaseIn { weight }, f1) <= shape_val(Shape::EaseIn { weight }, f2),
{
    lemma_pow_monotone(f1, f2, weight as nat);
}

/// Duality of the eases: ease-out at `f` is one minus ease-in at one
/// minus `f`, for every fraction and weight.
pub proof fn lemma_ease_out_duality(weight: u32, f: int)
    requires
        weight >= 1,
    ensures
        shape_val(Shape::EaseOut { weight }, f) == fx_sub(
            FX_ONE as int,
            shape_val(Shape::EaseIn { weight }, fx_sub(FX_ONE as int, f)),
        ),
{
}

/// Combining two identity curves with `in_out` gives back the identity.
/// This holds for every fraction far from the saturating extremes of the
/// representation (a machine limit: near them, doubling saturates), in
/// particular far beyond the unit interval.
pub proof fn lemma_in_out_of_linear(s: Shape, f: int)
    requires
        s matches Shape::InOut { first, second } && *first == Shape::Linear && *second
            == Shape::Linear,
        -0x2000_0000_0000_0000 <= f <= 0x2000_0000_0000_0000,
    ensures
        shape_val(s, f) == f,
{
    if f < FX_HALF as int {
        assert(fx_dbl(f) == 2 * f);
        if f >= 0 {
            lemma_div_multiples_vanish(f, 2);
        } else {
            lemma_div_multiples_vanish(-f, 2);
            assert(-(2 * f) == 2 * (-f));
        }
        assert(fx_half(2 * f) == f);
        assert(shape_val(s, f) == fx_half(shape_val(Shape::Linear, fx_dbl(f))));
    } else {
        assert(fx_dbl(fx_sub(f, FX_HALF as int)) == 2 * (f - FX_HALF as int));
        lemma_div_multiples_vanish(f - FX_HALF as int, 2);
        assert(fx_half(2 * (f - FX_HALF as int)) == f - FX_HALF as int);
        assert(shape_val(s, f) == fx_add(
            fx_half(shape_val(Shape::Linear, fx_dbl(fx_sub(f, FX_HALF as int)))),
            FX_HALF as int,
        ));
    }
}

/// At the exact midpoint, `in_out` evaluates its second curve at zero,
/// halves it and shifts it up by one half; a second curve that starts at
/// zero makes the combined curve pass through the center point.
pub proof fn lemma_in_out_midpoint(s: Shape, second: Shape)
    requires
        s matches Shape::InOut { first: _, second: b } && *b == second,
    ensures
        shape_val(s, FX_HALF as int) == fx_add(fx_half(shape_val(second, 0)), FX_HALF as int),
        shape_val(second, 0) == 0 ==> shape_val(s, FX_HALF as int) == FX_HALF as int,
{
}

/// A spike starts at its inner curve's start, peaks at the inner curve's
/// end at the midpoint, returns to the start at one, and is symmetric
/// about the midpoint over the whole unit interval.
pub proof fn lemma_spike_symmetry(s: Shape, inner: Shape, f: int)
    requires
        s matches Shape::Spike { inner: a } && *a == inner,
        0 <= f <= FX_ONE as int,
    ensures
        shape_val(s, 0) == shape_val(inner, 0),
        shape_val(s, FX_HALF as int) == shape_val(inner, FX_ONE as int),
        shape_val(s, FX_ONE as int) == shape_val(inner, 0),
        shape_val(s, f) == shape_val(s, FX_ONE as int - f),
{
}

/// Dividing by one half is the same as doubling.
pub proof fn lemma_div_by_half_doubles(x: int)
    ensures
        fx_div(x, FX_HALF as int) == fx_dbl(x),
{
    if x >= 0 {
        assert(x * (FX_ONE as int) == (FX_HALF as int) * (x + x));
        lemma_div_multiples_vanish(x + x, FX_HALF as int);
    } else {
        assert(-x * (FX_ONE as int) == (FX_HALF as int) * (-x + -x));
        lemma_div_multiples_vanish(-x + -x, FX_HALF as int);
    }
}

/// A spike-and-stay with no hold at all is exactly a spike, at every
/// fraction.
pub proof fn lemma_spike_stay_no_hold(st: Shape, sp: Shape, inner: Shape, f: int)
    requires
        st matches Shape::SpikeStay { hold, inner: a } && hold@ == 0 && *a == inner,
        sp matches Shape::Spike { inner: b } && *b == inner,
    ensures
        shape_val(st, f) == shape_val(sp, f),
{
    assert(stay_window(0) == FX_HALF as int);
    lemma_div_by_half_doubles(f);
    lemma_div_by_half_doubles(fx_sub(FX_ONE as int, f));
}

} // verus!
