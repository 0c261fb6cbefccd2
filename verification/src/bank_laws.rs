//! What holds of the choice of a sound and of its place between left and right.

use vstd::prelude::*;
use vstd::arithmetic::power2::{pow2, lemma_pow2_adds, lemma_pow2_pos, lemma2_to64};
use crate::bank::{FRAC_PI_2, nearest_pan, nearest_step, pan_angle, stereo};
use crate::bounds::{at_most, lemma_clamp, lemma_dec_is, lemma_mul_at_most, lemma_nan};
use crate::cradle::ball_r;
use crate::exact::{size, lemma_add_exact, lemma_dec_int, lemma_div_exact, lemma_mul_bounded, lemma_mul_exact, lemma_mul_zero, lemma_representable, lemma_sub_exact};
use crate::float::{Float, dec, fl, magnitude_units, of_nat, lemma_fits, lemma_of_nat_exact, lemma_signed, lemma_units_order};
use crate::order::{lemma_add_order, lemma_clamp_order, lemma_div_order, lemma_gap, lemma_mul_order, lemma_nearest_exact, lemma_nearest_order, lemma_negated, lemma_off_by, lemma_part, lemma_product, lemma_quotient, lemma_relative, lemma_round_order, lemma_saturated_order, lemma_sub_order, lemma_sum, lemma_value_bounded, nearest_value};
use crate::rounding::{round_magnitude, lemma_round_monotone, lemma_round_scale};

verus! {

/// Rounding a number near `n` and taking the integer part gives `n`.
proof fn lemma_round_to(a: Float, n: nat, limit: nat)
    requires
        a.finite(),
        a.value() >= 0,
        (2 * n - 1) * pow2(149) <= 2 * a.value() < (2 * n + 1) * pow2(149),
        n <= 0x100_0000,
    ensures
        a.round().saturated(limit) == if n > limit {
            limit
        } else {
            n
        },
{
    reveal(Float::spec_round);
    reveal(Float::saturated);
    let p = pow2(149);
    lemma_pow2_pos(149);
    lemma_value_bounded(a);
    let x = a.units();
    let q = (2 * x + p) / (2 * p);
    assert((2 * n - 1) * p + p == n * (2 * p) && (2 * n + 1) * p + p == n * (2 * p) + 2 * p)
        by (nonlinear_arith);
    vstd::arithmetic::div_mod::lemma_fundamental_div_mod_converse(
        (2 * x + p) as int,
        (2 * p) as int,
        n as int,
        (2 * x + p) - n * (2 * p),
    );
    assert(q == n);
    lemma_fits(n, 149);
    lemma_signed(a.negative(), round_magnitude(n * p, 1));
    vstd::arithmetic::div_mod::lemma_div_multiples_vanish(n as int, p as int);
    assert(p * n == n * p) by (nonlinear_arith);
    if a.negative() {
        assert(n == 0) by (nonlinear_arith)
            requires
                (2 * n - 1) * p <= 0,
                p > 0,
        ;
    }
}

/// One less than a number of steps.
proof fn lemma_last(steps: nat)
    requires
        0 < steps <= u64::MAX,
    ensures
        of_nat(steps).sub(dec(1, 1)).finite(),
        of_nat(steps).sub(dec(1, 1)).value() >= 0,
        steps <= 0x100_0000 ==> of_nat(steps).sub(dec(1, 1)).value() == (steps - 1) * pow2(149),
{
    let p = pow2(149);
    let s = of_nat(steps);
    lemma_pow2_pos(149);
    lemma_dec_int(1);
    lemma2_to64();
    lemma_pow2_adds(64, 149);
    assert(s.finite() && !s.negative() && s.value() >= 1 * p && s.value() <= pow2(213)) by {
        reveal(of_nat);
        assert(1 * p * 1 <= steps * p * 1 && steps * p * 1 <= 1 * pow2(213) * 1) by (nonlinear_arith)
            requires
                0 < steps <= 0x1_0000_0000_0000_0000,
                pow2(213) == 0x1_0000_0000_0000_0000 * p,
        ;
        lemma_round_monotone(1 * p, 1, steps * p, 1);
        lemma_round_monotone(steps * p, 1, 1 * pow2(213), 1);
        lemma_fits(1, 149);
        lemma_fits(1, 213);
        let r = round_magnitude(steps * p, 1);
        lemma_signed(false, r);
        lemma_units_order(r, round_magnitude(1 * p, 1));
        lemma_units_order(round_magnitude(1 * pow2(213), 1), r);
    }
    let one = dec(1, 1);
    let m = s.sub(one);
    lemma_gap(s, one);
    lemma_nearest_order(0, 1, s.value() - p, 1);
    lemma_nearest_order(s.value() - p, 1, pow2(213) as int, 1);
    assert(1 * pow2(213) == pow2(213));
    assert(0 * pow2(149) == 0);
    lemma_representable(pow2(213) as int, 1, 213);
    lemma_representable(0, 0, 149);
    lemma_nearest_exact(pow2(213) as int);
    lemma_nearest_exact(0);
    lemma_value_bounded(m);
    lemma_fits(1, 213);
    lemma_units_order(0x7f80_0000, round_magnitude(1 * pow2(213), 1));
    if steps <= 0x100_0000 {
        lemma_of_nat_exact(steps);
        assert(steps * p - p == (steps - 1) * p) by (nonlinear_arith);
        lemma_representable((steps - 1) * p, (steps - 1) as nat, 149);
        lemma_sub_exact(s, one);
    }
}

proof fn lemma_unit_range(t: Float)
    ensures
        dec(0, 1).finite() && dec(0, 1).value() == 0,
        dec(1, 1).finite() && dec(1, 1).value() == pow2(149),
        t.clamp(dec(0, 1), dec(1, 1)).nan() == t.nan(),
        t.nan() ==> t.clamp(dec(0, 1), dec(1, 1)) == t,
        !t.nan() ==> t.clamp(dec(0, 1), dec(1, 1)).finite() && 0 <= t.clamp(
            dec(0, 1),
            dec(1, 1),
        ).value() <= pow2(149),
        !t.nan() && t.value() <= 0 ==> t.clamp(dec(0, 1), dec(1, 1)).value() == 0,
        !t.nan() && t.value() >= pow2(149) ==> t.clamp(dec(0, 1), dec(1, 1)).value() == pow2(149),
{
    lemma_dec_int(0);
    lemma_dec_int(1);
    lemma_pow2_pos(149);
    assert(0 * pow2(149) == 0 && 1 * pow2(149) == pow2(149));
    lemma_clamp(t, dec(0, 1), dec(1, 1));
    reveal(Float::spec_lt);
}

/// At nothing, below it, and where there is no number, the first step is chosen.
pub proof fn first_step_at_nothing(t: Float, steps: nat)
    requires
        0 < steps <= u64::MAX,
        t.nan() || t.le(dec(0, 1)),
    ensures
        nearest_step(t, steps) == 0,
{
    lemma_unit_range(t);
    lemma_last(steps);
    reveal(Float::spec_le);
    reveal(Float::saturated);
    reveal(Float::spec_round);
    let m = of_nat(steps).sub(dec(1, 1));
    let c = t.clamp(dec(0, 1), dec(1, 1));
    if t.nan() {
        lemma_nan(c, m);
    } else {
        lemma_value_bounded(c);
        lemma_mul_zero(m, c);
        let x = c.mul(m);
        lemma_units_order(0, x.mag());
        lemma_pow2_pos(149);
        assert((2 * 0 - 1) * pow2(149) <= 0 && (2 * 0 + 1) * pow2(149) > 0) by (nonlinear_arith)
            requires
                pow2(149) > 0,
        ;
        lemma_round_to(x, 0, usize::MAX as nat);
    }
}

/// At one and above it the last step is chosen.
pub proof fn last_step_at_one(t: Float, steps: nat)
    requires
        0 < steps <= 0x100_0000,
        dec(1, 1).le(t),
    ensures
        nearest_step(t, steps) == steps - 1,
{
    lemma_unit_range(t);
    lemma_last(steps);
    reveal(Float::spec_le);
    let p = pow2(149);
    lemma_pow2_pos(149);
    let m = of_nat(steps).sub(dec(1, 1));
    let c = t.clamp(dec(0, 1), dec(1, 1));
    crate::order::lemma_whole_part(c, m);
    let n = (steps - 1) as nat;
    assert((2 * n - 1) * p <= 2 * (n * p) < (2 * n + 1) * p) by (nonlinear_arith)
        requires
            p > 0,
    ;
    lemma_round_to(c.mul(m), n, usize::MAX as nat);
}

/// A larger number never chooses a lower step.
pub proof fn steps_keep_the_order(t: Float, u: Float, steps: nat)
    requires
        0 < steps <= u64::MAX,
        t.le(u),
    ensures
        nearest_step(t, steps) <= nearest_step(u, steps),
{
    reveal(Float::spec_le);
    lemma_unit_range(t);
    lemma_unit_range(u);
    lemma_last(steps);
    let m = of_nat(steps).sub(dec(1, 1));
    let (a, b) = (t.clamp(dec(0, 1), dec(1, 1)), u.clamp(dec(0, 1), dec(1, 1)));
    lemma_clamp_order(t, u, dec(0, 1), dec(1, 1));
    lemma_part(a, m);
    lemma_part(b, m);
    if m.value() > 0 {
        lemma_mul_order(a, b, m);
    }
    lemma_round_order(a.mul(m), b.mul(m));
    lemma_saturated_order(a.mul(m).round(), b.mul(m).round(), usize::MAX as nat);
}

/// The number `k / (steps - 1)` lies between nothing and one.
proof fn lemma_share(k: nat, steps: nat)
    requires
        2 <= steps <= 0x100_0000,
        k < steps,
    ensures
        ({
            let t = of_nat(k).div(of_nat(steps).sub(dec(1, 1)));
            let m = (steps - 1) as nat;
            &&& t.finite()
            &&& 0 <= t.value() <= pow2(149)
            &&& t.value() == magnitude_units(round_magnitude(k * pow2(149), m))
            &&& round_magnitude(k * pow2(149), m) < 0x7f80_0000
        }),
{
    let p = pow2(149);
    let m = (steps - 1) as nat;
    let d = of_nat(steps).sub(dec(1, 1));
    let t = of_nat(k).div(d);
    lemma_pow2_pos(149);
    lemma_last(steps);
    lemma_of_nat_exact(k);
    assert(m * p > 0) by (nonlinear_arith)
        requires
            m > 0,
            p > 0,
    ;
    lemma_quotient(of_nat(k), d);
    let num = (k * p) * p;
    let den = m * p;
    assert(t.value() == nearest_value(num as int, den));
    // what comes out of the division is between nothing and one
    lemma_nearest_order(0, 1, num as int, den);
    assert(num * 1 <= p * den) by (nonlinear_arith)
        requires
            num == (k * p) * p,
            den == m * p,
            k <= m,
    ;
    lemma_nearest_order(num as int, den, p as int, 1);
    assert(0 * p == 0 && 1 * p == p);
    lemma_representable(0, 0, 149);
    lemma_representable(p as int, 1, 149);
    lemma_nearest_exact(0);
    lemma_nearest_exact(p as int);
    lemma_fits(1, 149);
    lemma_units_order(0x7f80_0000, round_magnitude(1 * p, 1));
    lemma_value_bounded(t);
    lemma_round_scale(k * p, m, p);
    assert(round_magnitude(num, den) == round_magnitude(k * p, m));
    lemma_units_order(0x7f80_0000, round_magnitude(k * p, m));
}

/// The step `k` of `steps` even ones is chosen by the number `k / (steps - 1)`.
pub proof fn every_step_can_be_chosen(k: nat, steps: nat)
    requires
        2 <= steps <= 0x100_0000,
        k < steps,
        k < 0x40_0000,
    ensures
        nearest_step(of_nat(k).div(of_nat(steps).sub(dec(1, 1))), steps) == k,
{
    let t = of_nat(k).div(of_nat(steps).sub(dec(1, 1)));
    lemma_share(k, steps);
    if k == 0 {
        reveal(Float::spec_le);
        lemma_dec_int(0);
        assert(0 * pow2(149) == 0);
        crate::rounding::lemma_round_zero((steps - 1) as nat);
        lemma_units_order(0, 0);
        first_step_at_nothing(t, steps);
    } else {
        lemma_later_step(k, steps);
    }
}

proof fn lemma_later_step(k: nat, steps: nat)
    requires
        2 <= steps <= 0x100_0000,
        0 < k < steps,
        k < 0x40_0000,
    ensures
        nearest_step(of_nat(k).div(of_nat(steps).sub(dec(1, 1))), steps) == k,
{
    let p = pow2(149);
    let m = (steps - 1) as nat;
    let d = of_nat(steps).sub(dec(1, 1));
    let t = of_nat(k).div(d);
    lemma_pow2_pos(149);
    lemma_last(steps);
    lemma_share(k, steps);
    lemma_unit_range(t);
    lemma_clamp(t, dec(0, 1), dec(1, 1));
    let u = t.value() as nat;
    lemma2_to64();
    lemma_pow2_adds(48, 101);
    lemma_pow2_adds(24, 24);
    lemma_pow2_pos(101);
    assert(p >= pow2(48)) by (nonlinear_arith)
        requires
            p == pow2(48) * pow2(101),
            pow2(101) >= 1,
    ;
    assert(k * p >= m * 0x100_0000) by (nonlinear_arith)
        requires
            k >= 1,
            m < 0x100_0000,
            p >= 0x100_0000 * 0x100_0000,
    ;
    lemma_relative(k * p, m);
    assert(u * m * 4 <= (4 * k + 1) * p && u * m * 4 >= (4 * k - 1) * p) by (nonlinear_arith)
        requires
            0x100_0000 * (u * m) <= 0x100_0001 * (k * p),
            0x100_0000 * (u * m) >= 0xff_ffff * (k * p),
            k <= 0x40_0000,
            p > 0,
    ;
    lemma_product(t, d);
    let x = t.mul(d);
    lemma_pow2_adds(2, 147);
    let q = pow2(147);
    let (lo, hi): (int, int) = ((4 * k - 1) * q, (4 * k + 1) * q as int);
    assert(u * (m * p) * 1 <= hi * p && u * (m * p) * 1 >= lo * p) by (nonlinear_arith)
        requires
            u * m * 4 <= (4 * k + 1) * p,
            u * m * 4 >= (4 * k - 1) * p,
            p == 4 * q,
            lo == (4 * k - 1) * q,
            hi == (4 * k + 1) * q,
    ;
    lemma_nearest_order((u * (m * p)) as int, p, hi, 1);
    lemma_nearest_order(lo, 1, (u * (m * p)) as int, p);
    lemma_pow2_pos(147);
    assert(lo >= 0 && hi >= 0) by (nonlinear_arith)
        requires
            lo == (4 * k - 1) * q,
            hi == (4 * k + 1) * q,
            k >= 1,
    ;
    lemma_representable(lo, (4 * k - 1) as nat, 147);
    lemma_representable(hi, (4 * k + 1) as nat, 147);
    lemma_nearest_exact(lo);
    lemma_nearest_exact(hi);
    lemma_value_bounded(x);
    lemma_fits(4 * k + 1, 147);
    lemma_units_order(0x7f80_0000, round_magnitude((4 * k + 1) as nat * q, 1));
    assert((2 * k - 1) * p <= 2 * lo && 2 * hi < (2 * k + 1) * p) by (nonlinear_arith)
        requires
            p == 4 * q,
            q > 0,
            lo == (4 * k - 1) * q,
            hi == (4 * k + 1) * q,
    ;
    lemma_round_to(x, k, usize::MAX as nat);
}

/// The number that `nearest_pan` chooses a step by.
spec fn place_between(x: Float, sw: Float, n: nat) -> Float {
    x.sub(sw.mul(dec(5, 10))).div(of_nat(n).mul(ball_r())).clamp(dec(1, 1).neg(), dec(1, 1)).mul(
        dec(5, 10),
    ).add(dec(5, 10))
}

/// Half of the length of a row, and some constants.
proof fn lemma_span(n: nat)
    requires
        0 < n <= 0x1_0000,
    ensures
        of_nat(n).mul(ball_r()).finite(),
        of_nat(n).mul(ball_r()).value() == 28 * n * pow2(149),
        of_nat(n).mul(ball_r()).value() > 0,
        dec(5, 10).finite(),
        2 * dec(5, 10).value() == pow2(149),
        dec(5, 10).value() == pow2(148),
        dec(1, 1).finite() && dec(1, 1).value() == pow2(149),
        dec(1, 1).neg().finite() && dec(1, 1).neg().value() == -pow2(149),
        pow2(149) == 2 * pow2(148),
        pow2(148) > 0,
{
    let p = pow2(149);
    lemma_pow2_pos(149);
    lemma_pow2_pos(148);
    lemma_of_nat_exact(n);
    lemma_dec_int(28);
    lemma_dec_int(1);
    lemma_negated(dec(1, 1));
    assert(1 * p == p);
    let v = 28 * n * p;
    assert((n * p) * (28 * p) == v * p) by (nonlinear_arith)
        requires
            v == 28 * n * p,
    ;
    lemma_representable(v as int, 28 * n, 149);
    lemma_mul_exact(of_nat(n), ball_r(), v as int);
    assert(v > 0) by (nonlinear_arith)
        requires
            v == 28 * n * p,
            n > 0,
            p > 0,
    ;
    lemma2_to64();
    lemma_pow2_adds(1, 148);
    lemma_pow2_adds(23, 125);
    lemma_dec_is(5, 10, 24, 0x80_0000);
}

/// From -1, 0 and 1 to 0, one half and 1.
proof fn lemma_to_unit(q: Float)
    requires
        !q.nan(),
    ensures
        ({
            let u = q.clamp(dec(1, 1).neg(), dec(1, 1)).mul(dec(5, 10)).add(dec(5, 10));
            &&& !u.nan()
            &&& q.value() <= -pow2(149) ==> u.value() == 0
            &&& q.value() == 0 ==> u.value() == pow2(148)
            &&& q.value() >= pow2(149) ==> u.value() == pow2(149)
        }),
{
    lemma_span(1);
    let (p, h) = (pow2(149), pow2(148));
    let c = q.clamp(dec(1, 1).neg(), dec(1, 1));
    lemma_clamp(q, dec(1, 1).neg(), dec(1, 1));
    reveal(Float::spec_lt);
    lemma_product(c, dec(5, 10));
    let d = c.mul(dec(5, 10));
    assert(1 * p == p && 1 * h == h && 0 * h == 0);
    lemma_representable(p as int, 1, 149);
    lemma_representable(h as int, 1, 148);
    lemma_representable(-h, 1, 148);
    lemma_representable(0, 0, 148);
    if q.value() <= -p {
        assert((-p) * h == (-h) * p) by (nonlinear_arith);
        lemma_mul_exact(c, dec(5, 10), -h);
        lemma_add_exact(d, dec(5, 10));
    } else if q.value() == 0 {
        assert(0 * h == 0 * p);
        lemma_mul_exact(c, dec(5, 10), 0);
        lemma_add_exact(d, dec(5, 10));
    } else if q.value() >= p {
        assert(p * h == h * p) by (nonlinear_arith);
        lemma_mul_exact(c, dec(5, 10), h as int);
        lemma_add_exact(d, dec(5, 10));
    } else {
        assert(at_most(c, 1));
        assert(at_most(dec(5, 10), 1));
        lemma_mul_at_most(c, dec(5, 10), 1, 1);
        lemma_sum(d, dec(5, 10));
    }
}

/// At the left end of the row and beyond it a sound comes from the very left, at the
/// right end and beyond it from the very right, and in the middle from the middle.
pub proof fn pans_reach_from_end_to_end(x: Float, sw: Float, n: nat)
    requires
        0 < n <= 0x1_0000,
        x.finite(),
        sw.finite(),
    ensures
        x.value() <= sw.mul(dec(5, 10)).value() - 28 * n * pow2(149) ==> nearest_pan(x, sw, n) == 0,
        x.value() == sw.mul(dec(5, 10)).value() ==> nearest_pan(x, sw, n) == 2,
        x.value() >= sw.mul(dec(5, 10)).value() + 28 * n * pow2(149) ==> nearest_pan(x, sw, n) == 4,
{
    let p = pow2(149);
    let c = sw.mul(dec(5, 10));
    let span = of_nat(n).mul(ball_r());
    let v: int = 28 * n * p as int;
    lemma_span(n);
    lemma_mul_bounded(dec(5, 10), sw);
    lemma_pow2_pos(149);
    lemma_dec_int(0);
    assert(1 * p == p && 0 * p == 0);
    lemma_gap(x, c);
    let g = x.sub(c);
    lemma_representable(v, 28 * n, 149);
    lemma_representable(-v, 28 * n, 149);
    lemma_representable(0, 0, 149);
    lemma_representable(p as int, 1, 149);
    lemma_representable(-p, 1, 149);
    lemma_nearest_exact(v);
    lemma_nearest_exact(-v);
    lemma_nearest_exact(0);
    lemma_value_bounded(g);
    lemma_negated(span);
    lemma_div_order(g, g, span);
    let q = g.div(span);
    assert((-v) * p == (-p) * v) by (nonlinear_arith);
    assert(v * p == p * v) by (nonlinear_arith);
    lemma_div_exact(span.neg(), span, -p);
    lemma_div_exact(span, span, p as int);
    lemma_to_unit(q);
    let u = place_between(x, sw, n);
    reveal(Float::spec_le);
    if x.value() <= c.value() - v {
        lemma_nearest_order(x.value() - c.value(), 1, -v, 1);
        lemma_div_order(g, span.neg(), span);
        first_step_at_nothing(u, 5);
    }
    if x.value() >= c.value() + v {
        lemma_nearest_order(v, 1, x.value() - c.value(), 1);
        lemma_div_order(span, g, span);
        last_step_at_one(u, 5);
    }
    if x.value() == c.value() {
        assert(0 * p == 0 * v);
        lemma_div_exact(g, span, 0);
        lemma_middle_step(u);
    }
}

/// Halfway, the middle one of five steps is chosen.
proof fn lemma_middle_step(u: Float)
    requires
        !u.nan(),
        u.value() == pow2(148),
    ensures
        nearest_step(u, 5) == 2,
{
    let (p, h) = (pow2(149), pow2(148));
    lemma_span(1);
    lemma_unit_range(u);
    lemma_clamp(u, dec(0, 1), dec(1, 1));
    lemma_value_bounded(u);
    lemma_last(5);
    let m = of_nat(5).sub(dec(1, 1));
    assert(h * (4 * p) == (2 * p) * p) by (nonlinear_arith)
        requires
            p == 2 * h,
    ;
    lemma_representable(2 * p as int, 2, 149);
    lemma_fits(1, 148);
    assert(1 * h == h);
    lemma_units_order(0x7f80_0000, round_magnitude(1 * h, 1));
    lemma_mul_exact(u, m, 2 * p as int);
    lemma_pow2_pos(149);
    assert((2 * 2 - 1) * p <= 2 * (2 * p) < (2 * 2 + 1) * p) by (nonlinear_arith)
        requires
            p > 0,
    ;
    lemma_round_to(u.mul(m), 2, usize::MAX as nat);
}

/// The further right a place, the further right its sound.
pub proof fn pans_keep_the_order(x: Float, y: Float, sw: Float, n: nat)
    requires
        0 < n <= 0x1_0000,
        x.le(y),
        sw.finite(),
    ensures
        nearest_pan(x, sw, n) <= nearest_pan(y, sw, n),
{
    reveal(Float::spec_le);
    lemma_span(n);
    lemma_mul_bounded(dec(5, 10), sw);
    lemma_pow2_pos(149);
    let c = sw.mul(dec(5, 10));
    let span = of_nat(n).mul(ball_r());
    let (lo, hi) = (dec(1, 1).neg(), dec(1, 1));
    lemma_sub_order(x, y, c);
    let (a, b) = (x.sub(c), y.sub(c));
    lemma_div_order(a, b, span);
    let (a, b) = (a.div(span), b.div(span));
    lemma_clamp_order(a, b, lo, hi);
    lemma_clamp(a, lo, hi);
    lemma_clamp(b, lo, hi);
    let (a, b) = (a.clamp(lo, hi), b.clamp(lo, hi));
    lemma_mul_order(a, b, dec(5, 10));
    let (a, b) = (a.mul(dec(5, 10)), b.mul(dec(5, 10)));
    lemma_add_order(a, b, dec(5, 10));
    steps_keep_the_order(place_between(x, sw, n), place_between(y, sw, n), 5);
}

/// A stereo position beyond the ends is as good as the end.
pub proof fn pan_angle_holds_at_the_ends(pan: Float)
    ensures
        pan_angle(pan) == pan_angle(pan.clamp(dec(1, 1).neg(), dec(1, 1))),
{
    lemma_span(1);
    lemma_clamp(pan, dec(1, 1).neg(), dec(1, 1));
}

/// The angle of a stereo position grows from left to right, and stays between nothing
/// and a quarter turn.
pub proof fn pan_angle_grows_to_a_quarter_turn(pan: Float, other: Float)
    requires
        pan.le(other),
    ensures
        pan_angle(pan).le(pan_angle(other)),
        dec(0, 1).le(pan_angle(pan)),
        pan_angle(pan).le(fl(FRAC_PI_2)),
{
    reveal(Float::spec_le);
    lemma_span(1);
    lemma_dec_int(0);
    assert(0 * pow2(149) == 0);
    let (lo, hi, h) = (dec(1, 1).neg(), dec(1, 1), dec(5, 10));
    let quarter = fl(FRAC_PI_2);
    lemma_units_order(0, quarter.mag());
    let (a, b) = (pan.clamp(lo, hi), other.clamp(lo, hi));
    lemma_clamp(pan, lo, hi);
    lemma_clamp(other, lo, hi);
    lemma_clamp_order(pan, other, lo, hi);
    lemma_mul_order(a, b, h);
    lemma_add_order(a.mul(h), b.mul(h), h);
    lemma_to_unit(lo);
    lemma_to_unit(hi);
    lemma_clamp(lo, lo, hi);
    lemma_clamp(hi, lo, hi);
    lemma_mul_order(lo, a, h);
    lemma_add_order(lo.mul(h), a.mul(h), h);
    lemma_mul_order(a, hi, h);
    lemma_add_order(a.mul(h), hi.mul(h), h);
    lemma_mul_order(b, hi, h);
    lemma_add_order(b.mul(h), hi.mul(h), h);
    let (u, w) = (a.mul(h).add(h), b.mul(h).add(h));
    lemma_pow2_pos(149);
    lemma_fits(1, 149);
    assert(1 * pow2(149) == pow2(149));
    lemma_units_order(0x7f80_0000, round_magnitude(1 * pow2(149), 1));
    lemma_value_bounded(u);
    lemma_value_bounded(w);
    lemma_mul_order(u, w, quarter);
    lemma_part(u, quarter);
}

/// A channel with a smaller gain is nowhere louder.
pub proof fn smaller_gains_are_quieter(s: Float, g: Float, k: Float)
    requires
        s.finite(),
        g.finite(),
        k.finite(),
        0 <= g.value() <= k.value(),
    ensures
        s.mul(g).abs().le(s.mul(k).abs()),
{
    lemma_pow2_pos(149);
    let p = pow2(149);
    lemma_value_bounded(g);
    lemma_value_bounded(k);
    reveal(Float::spec_mul);
    reveal(Float::spec_abs);
    reveal(Float::spec_le);
    let (x, y, z) = (s.units(), g.units(), k.units());
    assert((x * y) * p <= (x * z) * p) by (nonlinear_arith)
        requires
            y <= z,
    ;
    lemma_round_monotone(x * y, p, x * z, p);
    let (m, n) = (round_magnitude(x * y, p), round_magnitude(x * z, p));
    assert(n <= 0x7f80_0000);
    lemma_signed(true, m);
    lemma_signed(false, m);
    lemma_signed(true, n);
    lemma_signed(false, n);
    lemma_units_order(n, m);
}

/// Squares of nearby numbers are near.
proof fn lemma_square_near(x: int, e: int, q: int)
    requires
        q > 0,
        -q <= 0x20_0000 * e <= q,
        -10 * q <= x <= 10 * q,
    ensures
        -(q * q) <= 0x1_0000 * ((x + e) * (x + e) - x * x) <= q * q,
{
    assert((x + e) * (x + e) - x * x == e * (2 * x + e)) by (nonlinear_arith);
    let f = 0x20_0000 * e;
    let y = 2 * x + e;
    assert(-21 * q <= y <= 21 * q);
    assert(-21 * (q * q) <= f * y <= 21 * (q * q)) by (nonlinear_arith)
        requires
            -q <= f <= q,
            -21 * q <= y <= 21 * q,
    ;
    assert(f * y == 0x20_0000 * (e * y)) by (nonlinear_arith)
        requires
            f == 0x20_0000 * e,
    ;
}

proof fn lemma_channel(s: Float, g: Float)
    requires
        s.finite(),
        g.finite(),
        s.units() <= 10 * pow2(149),
        g.units() <= pow2(149),
    ensures
        ({
            let p = pow2(149);
            let q = p * p;
            let x = s.value() * g.value();
            let l = s.mul(g).value() * p;
            &&& -(q * q) <= 0x1_0000 * (l * l - x * x) <= q * q
            &&& s.mul(g).finite()
        }),
{
    let p = pow2(149);
    let q: int = p * p as int;
    lemma_pow2_pos(149);
    lemma2_to64();
    lemma_pow2_adds(4, 149);
    lemma_pow2_adds(129, 20);
    let x = s.value() * g.value();
    let (a, b) = (s.value(), g.value());
    assert(-10 * q <= x <= 10 * q) by (nonlinear_arith)
        requires
            -10 * p <= a <= 10 * p,
            -p <= b <= p,
            x == a * b,
            q == p * p,
    ;
    assert(p * pow2(153) == 16 * q) by (nonlinear_arith)
        requires
            pow2(153) == 16 * p,
            q == p * p,
    ;
    assert(q > 0) by (nonlinear_arith)
        requires
            q == p * p,
            p > 0,
    ;
    lemma_product(s, g);
    lemma_off_by(x, p, 129);
    let y = s.mul(g);
    lemma_value_bounded(y);
    let e = y.value() * p - x;
    assert(0x10_0000 * (p * pow2(129)) == q) by (nonlinear_arith)
        requires
            p == pow2(129) * 0x10_0000,
            q == p * p,
    ;
    lemma_square_near(x, e, q);
}

/// A small error, times the square of a number of at most ten.
proof fn lemma_scaled_error(s: int, d: int, p: int, q: int)
    requires
        p > 0,
        q > 0,
        q == p * p,
        -10 * p <= s <= 10 * p,
        -q <= 0x10_0000 * d <= q,
    ensures
        -100 * (q * q) <= 0x10_0000 * ((s * s) * d) <= 100 * (q * q),
{
    let (x, y) = (size(s) as int, 10 * p);
    let z = s * s;
    assert(x * x == z) by (nonlinear_arith)
        requires
            x == s || x == -s,
            z == s * s,
    ;
    assert(0 <= x * x <= y * y) by (nonlinear_arith)
        requires
            0 <= x <= y,
    ;
    assert(y * y == 100 * q) by (nonlinear_arith)
        requires
            y == 10 * p,
            q == p * p,
    ;
    let f = 0x10_0000 * d;
    assert(-((100 * q) * q) <= z * f <= (100 * q) * q) by (nonlinear_arith)
        requires
            0 <= z <= 100 * q,
            -q <= f <= q,
            q > 0,
    ;
    assert((100 * q) * q == 100 * (q * q)) by (nonlinear_arith);
    assert(z * f == 0x10_0000 * (z * d)) by (nonlinear_arith)
        requires
            f == 0x10_0000 * d,
    ;
}

/// Panning keeps the power: where the squares of the two gains add up to one, the
/// squares of the two channels add up to that of the sound.
pub proof fn panning_keeps_the_power(mono: Seq<Float>, lg: Float, rg: Float, i: int)
    requires
        0 <= i < mono.len(),
        mono[i].finite(),
        mono[i].units() <= 10 * pow2(149),
        lg.finite(),
        rg.finite(),
        lg.units() <= pow2(149),
        rg.units() <= pow2(149),
        -(pow2(149) * pow2(149)) <= 0x10_0000 * (lg.value() * lg.value() + rg.value() * rg.value()
            - pow2(149) * pow2(149)) <= pow2(149) * pow2(149),
    ensures
        ({
            let (l, r) = (stereo(mono, lg, rg)[2 * i].value(), stereo(mono, lg, rg)[2 * i + 1].value());
            let s = mono[i].value();
            -(pow2(149) * pow2(149)) <= 1024 * (l * l + r * r - s * s) <= pow2(149) * pow2(149)
        }),
{
    let p = pow2(149);
    let q: int = p * p as int;
    lemma_pow2_pos(149);
    let m = mono[i];
    lemma_channel(m, lg);
    lemma_channel(m, rg);
    let (s, a, b) = (m.value(), lg.value(), rg.value());
    let (l, r) = (m.mul(lg).value(), m.mul(rg).value());
    assert(stereo(mono, lg, rg)[2 * i] == m.mul(lg));
    assert(stereo(mono, lg, rg)[2 * i + 1] == m.mul(rg));
    let d = a * a + b * b - q;
    let t = l * l + r * r - s * s;
    let (ea, eb) = ((l * p) * (l * p) - (s * a) * (s * a), (r * p) * (r * p) - (s * b) * (s * b));
    assert(q > 0) by (nonlinear_arith)
        requires
            q == p * p,
            p > 0,
    ;
    // what the gains are off by, times the square of the sound
    lemma_scaled_error(s, d, p as int, q);
    let z = s * s;
    assert((l * p) * (l * p) == (l * l) * q && (r * p) * (r * p) == (r * r) * q) by (nonlinear_arith)
        requires
            q == p * p,
    ;
    assert((s * a) * (s * a) == z * (a * a) && (s * b) * (s * b) == z * (b * b)) by (nonlinear_arith)
        requires
            z == s * s,
    ;
    assert(z * d == z * (a * a) + z * (b * b) - z * q) by (nonlinear_arith)
        requires
            d == a * a + b * b - q,
    ;
    assert(t * q == (l * l) * q + (r * r) * q - z * q) by (nonlinear_arith)
        requires
            t == l * l + r * r - z,
    ;
    assert(t * q == ea + eb + z * d);
    assert(-(q * q) <= 1024 * (t * q) <= q * q);
    assert(-q <= 1024 * t <= q) by (nonlinear_arith)
        requires
            -(q * q) <= 1024 * (t * q) <= q * q,
            q > 0,
    ;
}

} // verus!
