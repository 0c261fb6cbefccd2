//! What the balls do, counted against exact arithmetic: how gravity and the air act on
//! them, when they touch, when they approach, and what an impact leaves.

use vstd::prelude::*;
use vstd::arithmetic::power2::{pow2, lemma_pow2_pos};
use crate::cradle::{Ball, Sweep, approaching, closing, collides, gravity, resolved, string_l, sweep_once, swung, touching};
use crate::cradle_laws::{all_touching, as_many_out_as_in, quiet_sweep_leaves_no_collision, row};
use crate::exact::{lemma_dec_int, lemma_mul_bounded, lemma_representable};
use crate::float::{Float, dec, lemma_units_order};
use crate::near::{abs, near, num, tiny, lemma_abs_product, lemma_add_near, lemma_commute, lemma_compare, lemma_dec_near, lemma_int_num, lemma_le_times, lemma_mul_near, lemma_near_div, lemma_neg_num, lemma_num_order, lemma_sub_near, lemma_tiny};
use crate::order::{nearest_value, lemma_gap, lemma_mul_order, lemma_nearest_exact, lemma_nearest_order, lemma_negated, lemma_part, lemma_product, lemma_sum, lemma_value_bounded};
use crate::rounding::lemma_round_zero;
use crate::vector::Vec2;

verus! {

/// A millionth of a number of its size, roughly: one part in `2^20`.
pub open spec fn part(x: real) -> real {
    x / 0x10_0000real
}

/// Gravity over the length of a string.
proof fn lemma_pull_strength()
    ensures
        near(gravity().div(string_l()).neg(), -52real / 5real, 12real / 0x100_0000real),
{
    lemma_int_num(2600);
    lemma_int_num(250);
    lemma_tiny();
    lemma_near_div(gravity(), 2600real, 0real, string_l(), 250real, 11real);
    lemma_neg_num(gravity().div(string_l()));
    assert(2600real / 250real == 52real / 5real);
    assert(0real / 250real == 0real);
}

/// What gravity adds to a velocity.
proof fn lemma_pull(sin: Float, dt: Float)
    requires
        sin.finite(),
        dt.finite(),
        abs(num(sin)) <= 1real,
        0real <= num(dt) <= 1real,
    ensures
        ({
            let sigma = abs(num(sin)) * num(dt);
            &&& 0real <= sigma <= 1real
            &&& near(
                gravity().div(string_l()).neg().mul(sin).mul(dt),
                -(52real * (num(sin) * num(dt)) / 5real),
                sigma / 0x4_0000real + 3real * tiny(),
            )
            &&& abs(num(sin) * num(dt)) == sigma
        }),
{
    let k = gravity().div(string_l()).neg();
    let (c, s, t) = (num(k), num(sin), num(dt));
    let m = abs(s);
    let d = c + 52real / 5real;
    let bound = 12real / 0x100_0000real;
    lemma_pull_strength();
    lemma_tiny();
    lemma_abs_product(c, s, 11real, m);
    lemma_abs_product(d, s, bound, m);
    assert(bound * m == 12real * m / 0x100_0000real) by (nonlinear_arith)
        requires
            bound == 12real / 0x100_0000real,
    ;
    lemma_mul_near(k, sin);
    let f = k.mul(sin);
    let q = c * s;
    assert(d * s == q + 52real * s / 5real) by (nonlinear_arith)
        requires
            q == c * s,
            d == c + 52real / 5real,
    ;
    let z = num(f);
    let y = z + 52real * s / 5real;
    let e = 24real * m / 0x100_0000real + tiny();
    assert(abs(y) <= e);
    lemma_abs_product(s, t, m, t);
    let sigma = m * t;
    lemma_le_times(t, 1real, m);
    lemma_le_times(0real, t, m);
    assert(m * 0real == 0real && m * 1real == m) by (nonlinear_arith);
    lemma_abs_product(y, t, e, t);
    assert(e * t == 24real * sigma / 0x100_0000real + tiny() * t) by (nonlinear_arith)
        requires
            e == 24real * m / 0x100_0000real + tiny(),
            sigma == m * t,
    ;
    lemma_le_times(t, 1real, tiny());
    assert(tiny() * 1real == tiny()) by (nonlinear_arith);
    let (x, w) = (z * t, s * t);
    assert(y * t == x + 52real * w / 5real) by (nonlinear_arith)
        requires
            x == z * t,
            w == s * t,
            y == z + 52real * s / 5real,
    ;
    assert(abs(x) <= 11real * sigma + tiny());
    lemma_mul_near(f, dt);
}

/// The damping of a velocity: `a` is the velocity, `h` the part that is lost.
proof fn lemma_damped(pulled: Float, damping: Float, dt: Float)
    requires
        pulled.finite(),
        damping.finite(),
        dt.finite(),
        abs(num(pulled)) <= 0x40_0000real,
        0real <= num(damping) <= 1real,
        0real <= num(dt) <= 1real,
    ensures
        near(
            pulled.sub(damping.mul(pulled).mul(dt)),
            num(pulled) * (1real - num(damping) * num(dt)),
            abs(num(pulled)) / 0x20_0000real + 4real * tiny(),
        ),
        0real <= num(damping) * num(dt) <= 1real,
{
    let (a, c, t) = (num(pulled), num(damping), num(dt));
    let m = abs(a);
    lemma_tiny();
    lemma_abs_product(c, a, 1real, m);
    lemma_mul_near(damping, pulled);
    let f = damping.mul(pulled);
    let q = c * a;
    let e = m / 0x100_0000real + tiny();
    let z = num(f);
    lemma_abs_product(z, t, m + e, 1real);
    lemma_abs_product(z - q, t, e, 1real);
    lemma_mul_near(f, dt);
    let r = num(f.mul(dt));
    let h = c * t;
    lemma_le_times(c, 1real, t);
    lemma_le_times(0real, c, t);
    let y = z * t;
    assert((z - q) * t == y - a * h) by (nonlinear_arith)
        requires
            y == z * t,
            q == c * a,
            h == c * t,
    ;
    assert(a * (1real - h) == a - a * h) by (nonlinear_arith);
    lemma_abs_product(a, h, m, 1real);
    lemma_sub_near(pulled, f.mul(dt));
}

/// The velocity after gravity has pulled.
proof fn lemma_pulled(omega: Float, sin: Float, dt: Float)
    requires
        omega.finite(),
        sin.finite(),
        dt.finite(),
        abs(num(omega)) <= 0x10_0000real,
        abs(num(sin)) <= 1real,
        0real <= num(dt) <= 1real,
    ensures
        near(
            omega.add(gravity().div(string_l()).neg().mul(sin).mul(dt)),
            num(omega) - 52real * (num(sin) * num(dt)) / 5real,
            part(abs(num(omega)) + 11real * (abs(num(sin)) * num(dt))) + 4real * tiny(),
        ),
        abs(num(omega.add(gravity().div(string_l()).neg().mul(sin).mul(dt)))) <= 2real * (abs(num(omega)) + 11real * (abs(num(
            sin,
        )) * num(dt))) + 4real * tiny(),
        abs(num(sin)) * num(dt) <= 1real,
{
    let pull = gravity().div(string_l()).neg().mul(sin).mul(dt);
    lemma_tiny();
    lemma_pull(sin, dt);
    lemma_add_near(omega, pull);
}

/// The angle after a step.
proof fn lemma_turned(theta: Float, omega: Float, dt: Float)
    requires
        theta.finite(),
        omega.finite(),
        dt.finite(),
        abs(num(theta)) <= 0x10_0000real,
        abs(num(omega)) <= 0x80_0000real,
        0real <= num(dt) <= 1real,
    ensures
        near(
            theta.add(omega.mul(dt)),
            num(theta) + num(omega) * num(dt),
            part(abs(num(theta)) + abs(num(omega)) * num(dt)) + 2real * tiny(),
        ),
{
    let (o, t) = (num(omega), num(dt));
    lemma_tiny();
    lemma_abs_product(o, t, abs(o), 1real);
    lemma_abs_product(o, t, abs(o), t);
    lemma_mul_near(omega, dt);
    lemma_add_near(theta, omega.mul(dt));
}

/// What is left of a velocity that is off by `e` when a part `h` is lost.
proof fn lemma_rest(a: real, exact: real, h: real, e: real)
    requires
        abs(a - exact) <= e,
        0real <= h <= 1real,
    ensures
        abs(a * (1real - h) - exact * (1real - h)) <= e,
        abs(a * (1real - h)) <= abs(a),
{
    let gap = a - exact;
    lemma_abs_product(gap, 1real - h, e, 1real);
    lemma_abs_product(a, 1real - h, abs(a), 1real);
    assert(a * (1real - h) == exact * (1real - h) + gap * (1real - h)) by (nonlinear_arith)
        requires
            gap == a - exact,
    ;
    assert(e * 1real == e && abs(a) * 1real == abs(a)) by (nonlinear_arith);
}

/// A step of swinging: gravity changes the velocity by 10.4 times the sine of the angle
/// and the time, towards the bottom; the air takes its share of what results; and the
/// angle changes by the new velocity times the time. Each holds up to a millionth of the
/// numbers that go into it.
pub proof fn gravity_pulls_and_air_slows(b: Ball, sin: Float, damping: Float, dt: Float)
    requires
        b.theta.finite(),
        b.omega.finite(),
        sin.finite(),
        damping.finite(),
        dt.finite(),
        abs(num(b.theta)) <= 0x10_0000real,
        abs(num(b.omega)) <= 0x10_0000real,
        abs(num(sin)) <= 1real,
        0real <= num(damping) <= 1real,
        0real <= num(dt) <= 1real,
    ensures
        ({
            let after = swung(b, sin, damping, dt);
            let pulled = num(b.omega) - 52real * (num(sin) * num(dt)) / 5real;
            &&& near(
                after.omega,
                pulled * (1real - num(damping) * num(dt)),
                2real * part(abs(num(b.omega)) + 11real * (abs(num(sin)) * num(dt))) + 16real * tiny(),
            )
            &&& near(
                after.theta,
                num(b.theta) + num(after.omega) * num(dt),
                part(abs(num(b.theta)) + abs(num(after.omega)) * num(dt)) + 2real * tiny(),
            )
            &&& after.pivot_x == b.pivot_x
        }),
{
    let pull = gravity().div(string_l()).neg().mul(sin).mul(dt);
    let pulled = b.omega.add(pull);
    let omega = pulled.sub(damping.mul(pulled).mul(dt));
    let exact = num(b.omega) - 52real * (num(sin) * num(dt)) / 5real;
    let size = abs(num(b.omega)) + 11real * (abs(num(sin)) * num(dt));
    lemma_tiny();
    lemma_pulled(b.omega, sin, dt);
    lemma_damped(pulled, damping, dt);
    lemma_rest(num(pulled), exact, num(damping) * num(dt), part(size) + 4real * tiny());
    lemma_turned(b.theta, omega, dt);
}

/// Rounding does not depend on the side.
proof fn lemma_mirrored(n: int, d: nat)
    requires
        d > 0,
    ensures
        nearest_value(-n, d) == -nearest_value(n, d),
{
    if n == 0 {
        lemma_round_zero(d);
        lemma_units_order(0, 0);
    }
}

/// A product turns its sign with a factor.
proof fn lemma_odd_product(a: Float, b: Float, c: Float)
    requires
        a.finite(),
        b.finite(),
        c.finite(),
        c.value() == -a.value(),
    ensures
        c.mul(b).value() == -a.mul(b).value(),
        b.mul(c).value() == -b.mul(a).value(),
        a.mul(b).finite() ==> c.mul(b).finite(),
        b.mul(a).finite() ==> b.mul(c).finite(),
{
    let (x, y, z) = (a.value(), b.value(), c.value());
    lemma_pow2_pos(149);
    lemma_product(a, b);
    lemma_product(b, a);
    lemma_product(c, b);
    lemma_product(b, c);
    assert(z * y == -(x * y) && y * z == -(y * x)) by (nonlinear_arith)
        requires
            z == -x,
    ;
    lemma_mirrored(x * y, pow2(149));
    lemma_mirrored(y * x, pow2(149));
    lemma_value_bounded(a.mul(b));
    lemma_value_bounded(b.mul(a));
    lemma_value_bounded(c.mul(b));
    lemma_value_bounded(b.mul(c));
}

/// A sum turns its sign with its terms.
proof fn lemma_odd_sum(a: Float, b: Float, c: Float, d: Float)
    requires
        a.finite(),
        b.finite(),
        c.finite(),
        d.finite(),
        c.value() == -a.value(),
        d.value() == -b.value(),
    ensures
        c.add(d).value() == -a.add(b).value(),
        a.add(b).finite() ==> c.add(d).finite(),
        c.sub(d).value() == -a.sub(b).value(),
        a.sub(b).finite() ==> c.sub(d).finite(),
{
    lemma_sum(a, b);
    lemma_sum(c, d);
    lemma_gap(a, b);
    lemma_gap(c, d);
    lemma_mirrored(a.value() + b.value(), 1);
    lemma_mirrored(a.value() - b.value(), 1);
    lemma_value_bounded(a.add(b));
    lemma_value_bounded(c.add(d));
    lemma_value_bounded(a.sub(b));
    lemma_value_bounded(c.sub(d));
}

/// What is at most one in size.
proof fn lemma_at_most_one(a: Float)
    requires
        a.finite(),
        abs(num(a)) <= 1real,
    ensures
        a.units() <= pow2(149),
{
    lemma_int_num(1);
    lemma_dec_int(1);
    lemma_neg_num(dec(1, 1));
    lemma_negated(dec(1, 1));
    lemma_num_order(a, dec(1, 1));
    lemma_num_order(dec(1, 1).neg(), a);
    assert(1 * pow2(149) == pow2(149));
}

/// The two sides of the bottom are alike: with angle, velocity and sine turned round, the
/// new angle and velocity are turned round.
pub proof fn both_sides_are_alike(b: Ball, c: Ball, sin: Float, other: Float, damping: Float, dt: Float)
    requires
        b.theta.finite(),
        b.omega.finite(),
        c.theta.finite(),
        c.omega.finite(),
        sin.finite(),
        other.finite(),
        damping.finite(),
        dt.finite(),
        abs(num(b.theta)) <= 0x10_0000real,
        abs(num(b.omega)) <= 0x10_0000real,
        abs(num(sin)) <= 1real,
        0real <= num(damping) <= 1real,
        0real <= num(dt) <= 1real,
        c.theta.value() == -b.theta.value(),
        c.omega.value() == -b.omega.value(),
        other.value() == -sin.value(),
    ensures
        swung(c, other, damping, dt).theta.value() == -swung(b, sin, damping, dt).theta.value(),
        swung(c, other, damping, dt).omega.value() == -swung(b, sin, damping, dt).omega.value(),
{
    gravity_pulls_and_air_slows(b, sin, damping, dt);
    lemma_pulled(b.omega, sin, dt);
    lemma_pull_strength();
    lemma_at_most_one(sin);
    lemma_at_most_one(damping);
    lemma_at_most_one(dt);
    let k = gravity().div(string_l()).neg();
    lemma_mul_bounded(sin, k);
    lemma_odd_product(sin, k, other);
    let (f, g) = (k.mul(sin), k.mul(other));
    lemma_mul_bounded(dt, f);
    lemma_odd_product(f, dt, g);
    let (f, g) = (f.mul(dt), g.mul(dt));
    lemma_odd_sum(b.omega, f, c.omega, g);
    let (p, q) = (b.omega.add(f), c.omega.add(g));
    lemma_mul_bounded(damping, p);
    lemma_odd_product(p, damping, q);
    let (f, g) = (damping.mul(p), damping.mul(q));
    lemma_mul_bounded(dt, f);
    lemma_odd_product(f, dt, g);
    lemma_odd_sum(p, f.mul(dt), q, g.mul(dt));
    let (o, r) = (p.sub(f.mul(dt)), q.sub(g.mul(dt)));
    lemma_mul_bounded(dt, o);
    lemma_odd_product(o, dt, r);
    lemma_odd_sum(b.theta, o.mul(dt), c.theta, r.mul(dt));
}

/// A sum or a product of what is not negative is not negative.
proof fn lemma_not_negative(a: Float, b: Float)
    requires
        a.finite(),
        b.finite(),
        a.value() >= 0,
        b.value() >= 0,
    ensures
        a.add(b).value() >= 0,
        a.mul(b).value() >= 0,
        a.value() >= b.value() ==> a.sub(b).value() >= 0,
{
    lemma_sum(a, b);
    lemma_product(a, b);
    lemma_gap(a, b);
    let (x, y) = (a.value(), b.value());
    assert(x * y >= 0) by (nonlinear_arith)
        requires
            x >= 0,
            y >= 0,
    ;
    lemma_units_order(0, 0);
}

/// Left of the bottom, gravity pulls to the right.
proof fn lemma_pulled_back(b: Ball, sin: Float, damping: Float, dt: Float)
    requires
        b.theta.finite(),
        b.omega.finite(),
        sin.finite(),
        damping.finite(),
        dt.finite(),
        b.omega.value() == 0,
        abs(num(sin)) <= 1real,
        0real <= num(damping) <= 1real,
        0real <= num(dt) <= 1real,
        sin.value() <= 0,
    ensures
        swung(b, sin, damping, dt).omega.value() >= 0,
{
    let k = gravity().div(string_l()).neg();
    let zero = dec(0, 1);
    lemma_int_num(0);
    lemma_int_num(1);
    lemma_dec_int(0);
    lemma_num_order(b.omega, zero);
    assert(0 * pow2(149) == 0);
    lemma_num_order(zero, damping);
    lemma_num_order(damping, dec(1, 1));
    lemma_num_order(zero, dt);
    lemma_num_order(dt, dec(1, 1));
    lemma_pulled(b.omega, sin, dt);
    lemma_pull_strength();
    lemma_tiny();
    lemma_num_order(k, zero);
    lemma_at_most_one(sin);
    lemma_at_most_one(dt);
    lemma_at_most_one(damping);
    lemma_mul_bounded(sin, k);
    let f = k.mul(sin);
    lemma_negated(k);
    lemma_negated(sin);
    lemma_odd_product(k, sin, k.neg());
    lemma_odd_product(sin, k.neg(), sin.neg());
    lemma_not_negative(k.neg(), sin.neg());
    assert(f.value() >= 0);
    lemma_mul_bounded(dt, f);
    lemma_not_negative(f, dt);
    let g = f.mul(dt);
    lemma_not_negative(b.omega, g);
    let p = b.omega.add(g);
    lemma_part(damping, p);
    lemma_part(dt, damping.mul(p));
    lemma_commute(damping.mul(p), dt);
    lemma_not_negative(p, damping.mul(p).mul(dt));
}

/// Gravity restores: a ball that is let go moves towards the bottom, on whichever side
/// it is, and never away from it.
pub proof fn gravity_restores(b: Ball, sin: Float, damping: Float, dt: Float)
    requires
        b.theta.finite(),
        b.omega.finite(),
        sin.finite(),
        damping.finite(),
        dt.finite(),
        abs(num(b.theta)) <= 0x10_0000real,
        b.omega.value() == 0,
        abs(num(sin)) <= 1real,
        0real <= num(damping) <= 1real,
        0real <= num(dt) <= 1real,
    ensures
        sin.value() >= 0 ==> swung(b, sin, damping, dt).omega.value() <= 0,
        sin.value() <= 0 ==> swung(b, sin, damping, dt).omega.value() >= 0,
        // away from the bottom, and in a time that is not too short, it does move
        abs(num(sin)) * num(dt) >= 1real / 0x1_0000_0000_0000real && num(damping) * num(dt) <= 1real
            / 2real ==> swung(b, sin, damping, dt).omega.value() != 0,
{
    lemma_int_num(0);
    lemma_dec_int(0);
    assert(0 * pow2(149) == 0);
    lemma_num_order(b.omega, dec(0, 1));
    assert(num(b.omega) == 0real);
    lemma_tiny();
    if sin.value() <= 0 {
        lemma_pulled_back(b, sin, damping, dt);
    }
    if sin.value() >= 0 {
        let c = Ball { theta: b.theta.neg(), omega: b.omega.neg(), pivot_x: b.pivot_x };
        lemma_negated(b.theta);
        lemma_negated(b.omega);
        lemma_negated(sin);
        lemma_neg_num(sin);
        both_sides_are_alike(b, c, sin, sin.neg(), damping, dt);
        lemma_pulled_back(c, sin.neg(), damping, dt);
    }
    let (s, t, h) = (num(sin), num(dt), num(damping) * num(dt));
    let sigma = abs(s) * t;
    if sigma >= 1real / 0x1_0000_0000_0000real && h <= 1real / 2real {
        gravity_pulls_and_air_slows(b, sin, damping, dt);
        let after = swung(b, sin, damping, dt).omega;
        lemma_abs_product(s, t, abs(s), t);
        let w = s * t;
        let keep = 1real - h;
        let a = 0real - 52real * w / 5real;
        assert(abs(w) == sigma);
        assert(a * keep >= 5real * sigma || a * keep <= -(5real * sigma)) by (nonlinear_arith)
            requires
                a == 0real - 52real * w / 5real,
                w == sigma || w == -sigma,
                sigma >= 0real,
                keep >= 1real / 2real,
        ;
        lemma_num_order(after, dec(0, 1));
    }
}

/// The speed at which two neighbours approach is the length of a string times the
/// difference of their velocities, up to a millionth.
pub proof fn closing_speed_is_the_gap_in_velocity(a: Float, b: Float)
    requires
        a.finite(),
        b.finite(),
        abs(num(a) - num(b)) <= 0x10_0000real,
    ensures
        near(
            closing(a, b),
            250real * (num(a) - num(b)),
            250real * abs(num(a) - num(b)) / 0x40_0000real + tiny(),
        ),
{
    lemma_tiny();
    lemma_int_num(250);
    let d = num(a) - num(b);
    lemma_sub_near(a, b);
    let e = num(a.sub(b));
    assert(abs(250real * e) <= 251real * abs(d));
    assert(num(string_l()) * e == 250real * e) by (nonlinear_arith)
        requires
            num(string_l()) == 250real,
    ;
    lemma_mul_near(string_l(), a.sub(b));
}

/// Two neighbours approach exactly where their closing speed is above a tenth of a
/// thousandth of a pixel per second: the difference of their velocities times 2.5
/// millions is above one, up to a millionth.
pub proof fn approaches_are_counted(a: Float, b: Float)
    requires
        a.finite(),
        b.finite(),
    ensures
        2500000real * (num(a) - num(b)) >= 1000001real / 1000000real ==> approaching(a, b),
        2500000real * (num(a) - num(b)) <= 999999real / 1000000real ==> !approaching(a, b),
{
    let d = num(a) - num(b);
    let t = dec(1, 10000);
    lemma_dec_near(1, 10000);
    lemma_tiny();
    if abs(d) <= 1real {
        closing_speed_is_the_gap_in_velocity(a, b);
        lemma_compare(t, closing(a, b));
    } else {
        let (one, less) = (dec(1, 1), dec(1, 1).neg());
        lemma_int_num(1);
        lemma_int_num(250);
        lemma_neg_num(one);
        lemma_negated(one);
        lemma_dec_int(1);
        lemma_dec_int(250);
        lemma_pow2_pos(149);
        let p = pow2(149);
        assert(1 * p == p);
        lemma_gap(a, b);
        let g = a.sub(b);
        lemma_representable(p as int, 1, 149);
        lemma_representable(-p, 1, 149);
        lemma_nearest_exact(p as int);
        lemma_nearest_exact(-p);
        lemma_gap_num(a, b);
        lemma_mul_near(string_l(), one);
        lemma_mul_near(string_l(), less);
        lemma_times_250(one);
        lemma_times_250(less);
        if d > 1real {
            lemma_nearest_order(p as int, 1, a.value() - b.value(), 1);
            lemma_mul_order(one, g, string_l());
            lemma_num_order(t, string_l().mul(one));
        } else {
            lemma_nearest_order(a.value() - b.value(), 1, -p, 1);
            lemma_mul_order(g, less, string_l());
            lemma_num_order(string_l().mul(less), t);
        }
        reveal(Float::spec_lt);
    }
}

proof fn lemma_times_250(a: Float)
    ensures
        num(string_l()) * num(a) == 250real * num(a),
{
    lemma_int_num(250);
    assert(num(string_l()) * num(a) == 250real * num(a)) by (nonlinear_arith)
        requires
            num(string_l()) == 250real,
    ;
}

/// A difference of more than one, counted in units.
proof fn lemma_gap_num(a: Float, b: Float)
    ensures
        num(a) - num(b) > 1real ==> a.value() - b.value() >= pow2(149),
        num(a) - num(b) < -1real ==> a.value() - b.value() <= -pow2(149),
{
    reveal(num);
    lemma_pow2_pos(149);
    let (x, y, p) = (a.value() as real, b.value() as real, pow2(149) as real);
    let (u, v) = (num(a), num(b));
    assert(u * p == x && v * p == y) by (nonlinear_arith)
        requires
            u == x / p,
            v == y / p,
            p > 0real,
    ;
    assert(u - v > 1real ==> x - y >= p) by (nonlinear_arith)
        requires
            u * p == x,
            v * p == y,
            p > 0real,
    ;
    assert(u - v < -1real ==> x - y <= -p) by (nonlinear_arith)
        requires
            u * p == x,
            v * p == y,
            p > 0real,
    ;
}

/// Whether one velocity exceeds another enough for an approach to be counted.
pub open spec fn exceeds(w: Float, u: Float) -> bool {
    w.finite() && u.finite() && 2500000real * (num(w) - num(u)) >= 1000001real / 1000000real
}

/// One in, one out, and likewise any number: where all balls touch and the first
/// `arriving` come in with a velocity that exceeds that of the others, as many leave at the
/// far end with it, and the rest have the other velocity.
pub proof fn one_in_one_out(places: Seq<Vec2>, s: Sweep, n: nat, arriving: nat, w: Float, u: Float)
    requires
        arriving < n,
        places.len() == n,
        all_touching(places),
        s.omegas.len() == n,
        forall|i: int| 0 <= i < n ==> #[trigger] s.omegas[i] == if i < arriving {
            w
        } else {
            u
        },
        exceeds(w, u),
    ensures
        resolved(places, None, s, n).omegas.len() == n,
        forall|i: int|
            0 <= i < n ==> #[trigger] resolved(places, None, s, n).omegas[i] == if i < n - arriving {
                u
            } else {
                w
            },
{
    approaches_are_counted(w, u);
    assert(s.omegas =~= row(arriving, (n - arriving) as nat, 0, w, u));
    as_many_out_as_in(places, s, n, arriving, w, u);
}

/// Where a sweep finds nothing to do, no two neighbours that touch, and of which none is
/// held, approach faster than is counted; and nothing is changed.
pub proof fn quiet_rows_do_not_approach(places: Seq<Vec2>, dragging: Option<usize>, s: Sweep, i: int)
    requires
        0 <= i < s.omegas.len() - 1,
        !sweep_once(places, dragging, s).any,
        dragging is None || (dragging->0 != i && dragging->0 != i + 1),
        touching(places[i], places[i + 1]),
        s.omegas[i].finite(),
        s.omegas[i + 1].finite(),
    ensures
        2500000real * (num(s.omegas[i]) - num(s.omegas[i + 1])) < 1000001real / 1000000real,
        sweep_once(places, dragging, s).omegas == s.omegas,
{
    quiet_sweep_leaves_no_collision(places, dragging, s);
    assert(!collides(places, dragging, s.omegas, i));
    approaches_are_counted(s.omegas[i], s.omegas[i + 1]);
}

} // verus!
