use animus::animators::{ease_in, ease_in_out, ease_out, in_out, linear, spike, spike_stay};
use animus::fx::{fraction_of, Fixed, FX_HALF, FX_ONE};
use animus::{hash_id, Animatable, Animus};

fn fx(n: i64) -> Fixed {
    Fixed::from_int(n)
}

#[test]
fn linear_is_identity() {
    let lin = linear();
    for units in [0i64, 1, 250_000, 500_000, 999_999, 1_000_000] {
        assert_eq!(lin.eval(Fixed::from_units(units)).units, units);
    }
    // Out-of-range fractions extrapolate the same formula.
    assert_eq!(lin.eval(fx(2)).units, 2_000_000);
    assert_eq!(lin.eval(Fixed::from_units(-500_000)).units, -500_000);
}

#[test]
fn ease_in_endpoints_and_monotone() {
    for w in [1u32, 2, 3, 10] {
        let e = ease_in(w);
        assert_eq!(e.eval(Fixed::zero()).units, 0);
        assert_eq!(e.eval(Fixed::one()).units, FX_ONE);
        let mut prev = -1i64;
        for step in 0..=20i64 {
            let v = e.eval(Fixed::from_units(step * 50_000)).units;
            assert!(v >= prev);
            prev = v;
        }
    }
    // Exact value: one half squared is one quarter.
    assert_eq!(ease_in(2).eval(Fixed::half()).units, 250_000);
    // Weight one is the identity.
    assert_eq!(ease_in(1).eval(Fixed::from_units(123_456)).units, 123_456);
    // Above one the power extrapolates.
    assert_eq!(ease_in(2).eval(fx(2)).units, 4_000_000);
}

#[test]
fn ease_out_duality() {
    for w in [1u32, 2, 3, 7] {
        let e_out = ease_out(w);
        let e_in = ease_in(w);
        for step in 0..=20i64 {
            let f = step * 50_000;
            let lhs = e_out.eval(Fixed::from_units(f)).units;
            let rhs = FX_ONE - e_in.eval(Fixed::from_units(FX_ONE - f)).units;
            assert_eq!(lhs, rhs);
        }
    }
    // Exact value: 1 - (1 - 0.3)^3 = 0.657.
    assert_eq!(ease_out(3).eval(Fixed::from_units(300_000)).units, 657_000);
}

#[test]
fn in_out_of_linears_reduces_to_linear() {
    let io = in_out(linear(), linear());
    for step in 0..=20i64 {
        let f = step * 50_000;
        assert_eq!(io.eval(Fixed::from_units(f)).units, f);
    }
    // The identity extends beyond the unit interval, up to the machine
    // limit where doubling would saturate.
    for f in [-3_000_000i64, -1, 1_500_000, 40_000_000] {
        assert_eq!(io.eval(Fixed::from_units(f)).units, f);
    }
}

#[test]
fn in_out_midpoint_passes_through_center() {
    // The second curve starts at zero, so the combined curve passes
    // through (1/2, 1/2) exactly.
    let io = in_out(ease_in(3), ease_out(3));
    assert_eq!(io.eval(Fixed::half()).units, FX_HALF);
    let io2 = ease_in_out(2);
    assert_eq!(io2.eval(Fixed::half()).units, FX_HALF);
    // Exact values on each side of the center.
    assert_eq!(ease_in_out(2).eval(Fixed::from_units(250_000)).units, 125_000);
    assert_eq!(ease_in_out(2).eval(Fixed::from_units(750_000)).units, 875_000);
}

#[test]
fn spike_rises_and_mirrors() {
    let sp = spike(linear());
    assert_eq!(sp.eval(Fixed::zero()).units, 0);
    assert_eq!(sp.eval(Fixed::half()).units, FX_ONE);
    assert_eq!(sp.eval(Fixed::one()).units, 0);
    assert_eq!(sp.eval(Fixed::from_units(250_000)).units, 500_000);
    // Symmetry about the midpoint.
    for step in 0..=20i64 {
        let f = step * 50_000;
        let a = sp.eval(Fixed::from_units(f)).units;
        let b = sp.eval(Fixed::from_units(FX_ONE - f)).units;
        assert_eq!(a, b);
    }
}

#[test]
fn spike_stay_without_hold_is_spike() {
    let st = spike_stay(Fixed::zero(), ease_in(2));
    let sp = spike(ease_in(2));
    for step in 0..=40i64 {
        let f = step * 25_000;
        assert_eq!(
            st.eval(Fixed::from_units(f)).units,
            sp.eval(Fixed::from_units(f)).units
        );
    }
}

#[test]
fn spike_stay_holds_at_peak() {
    // hold = 1/2, so each transition window is a quarter of the timeline.
    let st = spike_stay(Fixed::half(), linear());
    assert_eq!(st.eval(Fixed::from_units(125_000)).units, 500_000);
    assert_eq!(st.eval(Fixed::from_units(250_000)).units, FX_ONE);
    assert_eq!(st.eval(Fixed::half()).units, FX_ONE);
    assert_eq!(st.eval(Fixed::from_units(750_000)).units, FX_ONE);
    assert_eq!(st.eval(Fixed::from_units(875_000)).units, 500_000);
    assert_eq!(st.eval(Fixed::one()).units, 0);
}

#[test]
fn cache_linear_timeline() {
    let mut cache: Animus<Fixed> = Animus::new();
    let lin = linear();
    let v0 = cache.anim(b"A", fx(0), fx(100), 1000, &lin, 0);
    assert_eq!(v0.units, 0);
    let v1 = cache.anim(b"A", fx(0), fx(100), 1000, &lin, 500);
    assert_eq!(v1.units, 50_000_000);
    let v2 = cache.anim(b"A", fx(0), fx(100), 1000, &lin, 1000);
    assert_eq!(v2.units, 100_000_000);
    let v3 = cache.anim(b"A", fx(0), fx(100), 1000, &lin, 1700);
    assert_eq!(v3.units, 100_000_000);
    // The finished record is flagged inactive but still cached.
    assert_eq!(cache.animations.len(), 1);
    assert!(!cache.animations[0].animating);
}

#[test]
fn reclaim_removes_finished_and_restarts() {
    let mut cache: Animus<Fixed> = Animus::new();
    let lin = linear();
    cache.anim(b"A", fx(0), fx(100), 1000, &lin, 0);
    cache.anim(b"A", fx(0), fx(100), 1000, &lin, 1200);
    cache.gc();
    assert!(!cache.is_animating());
    assert_eq!(cache.animations.len(), 0);
    // A new query with the same identity starts a brand-new timeline.
    let v = cache.anim(b"A", fx(0), fx(100), 1000, &lin, 2000);
    assert_eq!(v.units, 0);
    let v = cache.anim(b"A", fx(0), fx(100), 1000, &lin, 2500);
    assert_eq!(v.units, 50_000_000);
}

#[test]
fn distinct_identities_are_independent() {
    let mut cache: Animus<Fixed> = Animus::new();
    let lin = linear();
    let va = cache.anim(b"A", fx(0), fx(100), 1000, &lin, 0);
    let vb = cache.anim(b"B", fx(0), fx(100), 1000, &lin, 0);
    assert_eq!(va.units, 0);
    assert_eq!(vb.units, 0);
    assert_eq!(cache.animations.len(), 2);
    let va = cache.anim(b"A", fx(0), fx(100), 1000, &lin, 500);
    let vb = cache.anim(b"B", fx(0), fx(100), 1000, &lin, 500);
    assert_eq!(va.units, 50_000_000);
    assert_eq!(vb.units, 50_000_000);
    assert_eq!(cache.animations.len(), 2);
}

#[test]
fn live_record_keeps_captured_parameters() {
    let mut cache: Animus<Fixed> = Animus::new();
    let lin = linear();
    cache.anim(b"A", fx(0), fx(100), 1000, &lin, 0);
    // Re-querying with different endpoints and duration does not restart
    // or reinterpret the record: the captured parameters govern.
    let v = cache.anim(b"A", fx(500), fx(900), 1, &lin, 500);
    assert_eq!(v.units, 50_000_000);
}

#[test]
fn clear_empties_the_cache() {
    let mut cache: Animus<Fixed> = Animus::new();
    let lin = linear();
    cache.anim(b"A", fx(0), fx(1), 1000, &lin, 0);
    cache.anim(b"B", fx(0), fx(2), 1000, &lin, 0);
    cache.anim(b"C", fx(0), fx(3), 1000, &lin, 0);
    assert!(cache.is_animating());
    cache.clear();
    assert!(!cache.is_animating());
    assert_eq!(cache.animations.len(), 0);
}

#[test]
fn finished_record_is_steady() {
    let mut cache: Animus<Fixed> = Animus::new();
    let lin = linear();
    cache.anim(b"A", fx(0), fx(100), 1000, &lin, 0);
    let v1 = cache.anim(b"A", fx(0), fx(100), 1000, &lin, 1000);
    let v2 = cache.anim(b"A", fx(0), fx(100), 1000, &lin, 3000);
    let v3 = cache.anim(b"A", fx(0), fx(100), 1000, &lin, 999_999);
    assert_eq!(v1.units, 100_000_000);
    assert_eq!(v2.units, 100_000_000);
    assert_eq!(v3.units, 100_000_000);
    assert_eq!(cache.animations.len(), 1);
}

#[test]
fn zero_duration_finishes_on_next_query() {
    let mut cache: Animus<Fixed> = Animus::new();
    let lin = linear();
    // At creation no time has elapsed, the fraction is zero, and even a
    // degenerate record leaves its creation query active.
    let v = cache.anim(b"A", fx(7), fx(100), 0, &lin, 5);
    assert_eq!(v.units, 7_000_000);
    assert!(cache.animations[0].animating);
    // On the very next query the degenerate fraction saturates past the
    // end: the record is marked inactive and the value rests at the
    // endpoint.
    let v = cache.anim(b"A", fx(7), fx(100), 0, &lin, 6);
    assert_eq!(v.units, 100_000_000);
    assert!(!cache.animations[0].animating);
}

#[test]
fn fresh_record_survives_same_tick_reclaim() {
    let mut cache: Animus<Fixed> = Animus::new();
    let lin = linear();
    // Tick one: create, then reclaim at end of tick. The creation query
    // leaves the record active, so reclamation keeps it.
    let v = cache.anim(b"A", fx(0), fx(100), 1000, &lin, 0);
    assert_eq!(v.units, 0);
    cache.gc();
    assert!(cache.is_animating());
    assert_eq!(cache.animations.len(), 1);
    // Tick two: the animation progresses on the original timeline.
    let v = cache.anim(b"A", fx(0), fx(100), 1000, &lin, 500);
    assert_eq!(v.units, 50_000_000);
    cache.gc();
    assert_eq!(cache.animations.len(), 1);
    // Final tick: the timeline ends, and only now does reclamation remove
    // the record.
    let v = cache.anim(b"A", fx(0), fx(100), 1000, &lin, 1000);
    assert_eq!(v.units, 100_000_000);
    cache.gc();
    assert!(!cache.is_animating());
}

#[test]
fn shaped_queries_follow_the_curve() {
    let mut cache: Animus<Fixed> = Animus::new();
    let sp = spike(linear());
    cache.anim(b"pulse", fx(0), fx(100), 1000, &sp, 0);
    let v = cache.anim(b"pulse", fx(0), fx(100), 1000, &sp, 250);
    assert_eq!(v.units, 50_000_000);
    let v = cache.anim(b"pulse", fx(0), fx(100), 1000, &sp, 500);
    assert_eq!(v.units, 100_000_000);
    let v = cache.anim(b"pulse", fx(0), fx(100), 1000, &sp, 750);
    assert_eq!(v.units, 50_000_000);
}

#[test]
fn lerp_honours_overshoot() {
    let start = fx(0);
    let end = fx(100);
    let v = start.lerp(&end, fx(2));
    assert_eq!(v.units, 200_000_000);
    let v = start.lerp(&end, Fixed::from_units(-500_000));
    assert_eq!(v.units, -50_000_000);
}

#[test]
fn hashing_is_stable_and_discriminates() {
    assert_eq!(hash_id(b"A"), hash_id(b"A"));
    assert_ne!(hash_id(b"A"), hash_id(b"B"));
    assert_ne!(hash_id(b"pulse"), hash_id(b"A"));
}

#[test]
fn fixed_point_saturates_instead_of_overflowing() {
    let top = Fixed::from_units(i64::MAX);
    let bottom = Fixed::from_units(i64::MIN);
    assert_eq!(top.add_sat(Fixed::one()).units, i64::MAX);
    assert_eq!(bottom.sub_sat(Fixed::one()).units, i64::MIN);
    assert_eq!(top.mul_sat(top).units, i64::MAX);
    assert_eq!(top.mul_sat(bottom).units, i64::MIN);
    // Division by a non-positive number saturates by the dividend's sign.
    assert_eq!(Fixed::one().div_sat(Fixed::zero()).units, i64::MAX);
    assert_eq!(fx(-1).div_sat(Fixed::zero()).units, i64::MIN);
    assert_eq!(Fixed::zero().div_sat(Fixed::zero()).units, 0);
}

#[test]
fn fixed_point_arithmetic_is_exact_in_range() {
    assert_eq!(fx(3).mul_sat(fx(4)).units, 12_000_000);
    assert_eq!(fx(3).div_sat(fx(4)).units, 750_000);
    assert_eq!(Fixed::from_units(-250_000).double_sat().units, -500_000);
    assert_eq!(Fixed::from_units(-3).half_trunc().units, -1);
    assert_eq!(Fixed::from_units(3).half_trunc().units, 1);
    assert_eq!(Fixed::from_units(-700_000).clamp_unit().units, 0);
    assert_eq!(Fixed::from_units(2_300_000).clamp_unit().units, FX_ONE);
    assert_eq!(Fixed::from_units(437_000).clamp_unit().units, 437_000);
    assert_eq!(fraction_of(250, 1000).units, 250_000);
    assert_eq!(fraction_of(3000, 1000).units, 3_000_000);
    assert_eq!(fraction_of(5, 0).units, i64::MAX);
    assert_eq!(fraction_of(0, 0).units, 0);
}
