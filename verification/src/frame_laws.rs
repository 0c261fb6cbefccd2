//! What happens in a frame, counted against exact arithmetic: where the mouse pulls, how
//! much time passes, what is heard and how loud, and how the screen shakes.

use vstd::prelude::*;
use vstd::arithmetic::power2::pow2;
use crate::bank::{nearest_pan, nearest_step};
use crate::config::Config;
use crate::cradle::{Ball, Impact, ball_r, pivot_y};
use crate::dust::speed_full;
use crate::exact::{lemma_dec_int, lemma_mul_exact, lemma_representable, lemma_sub_exact};
use crate::float::{Float, dec, of_nat, lemma_of_nat_exact};
use crate::near::{abs, between, near, num, tiny, lemma_abs_product, lemma_add_near, lemma_compare, lemma_dec_near, lemma_extremes, lemma_int_num, lemma_le_times, lemma_mul_near, lemma_nat_num, lemma_near_clamp, lemma_near_div, lemma_neg_num, lemma_num_order, lemma_round_near, lemma_sub_near, lemma_times_dec, lemma_tiny};
use crate::order::{nearest_value, lemma_gap, lemma_nearest_exact, lemma_nearest_order};
use crate::session::{calmed, clack, heard, pull_of, shaken, sweep, times, turned};
use crate::vector::Vec2;

verus! {

/// A difference has the sign of what it is a difference of.
proof fn lemma_gap_sign(a: Float, b: Float)
    requires
        a.finite(),
        b.finite(),
    ensures
        !a.sub(b).nan(),
        a.sub(b).value() == nearest_value(a.value() - b.value(), 1),
        a.value() > b.value() ==> a.sub(b).value() > 0,
        a.value() < b.value() ==> a.sub(b).value() < 0,
        a.value() == b.value() ==> a.sub(b).value() == 0,
{
    lemma_gap(a, b);
    vstd::arithmetic::power2::lemma2_to64();
    lemma_representable(1, 1, 0);
    lemma_representable(-1, 1, 0);
    lemma_representable(0, 0, 0);
    lemma_nearest_exact(1);
    lemma_nearest_exact(-1);
    lemma_nearest_exact(0);
    let d = a.value() - b.value();
    if d > 0 {
        lemma_nearest_order(1, 1, d, 1);
    } else if d < 0 {
        lemma_nearest_order(d, 1, -1, 1);
    }
}

/// A ball that is held follows the mouse: the direction that comes back is as far across
/// as the mouse is from the pivot, to the right where it is right of it and to the left
/// where it is left of it, and as far down as the mouse is below the bar, ten pixels at
/// least. Where no ball is held there is none.
pub proof fn held_balls_follow_the_mouse(balls: Seq<Ball>, i: usize, at: Vec2)
    requires
        i < balls.len(),
        balls[i as int].pivot_x.finite(),
        at.x.finite(),
        at.y.finite(),
    ensures
        pull_of(balls, None, at) is None,
        pull_of(balls, Some(i), at) is Some,
        ({
            let v = pull_of(balls, Some(i), at)->0;
            let (x, pivot) = (at.x.value(), balls[i as int].pivot_x.value());
            let below = at.y.value() - 130 * pow2(149);
            &&& v.x.value() == nearest_value(x - pivot, 1)
            &&& x > pivot ==> v.x.value() > 0
            &&& x < pivot ==> v.x.value() < 0
            &&& x == pivot ==> v.x.value() == 0
            &&& v.y.value() == if nearest_value(below, 1) < 10 * pow2(149) {
                10int * pow2(149)
            } else {
                nearest_value(below, 1)
            }
        }),
{
    lemma_dec_int(130);
    lemma_gap_sign(at.x, balls[i as int].pivot_x);
    lemma_gap_sign(at.y, pivot_y());
    lemma_dec_int(10);
    reveal(Float::spec_lt);
}

/// A held ball is turned to the angle of the mouse, 1.35 to either side at most; it stops
/// there and stays on its string.
pub proof fn dragged_balls_take_the_angle(b: Ball, angle: Float)
    requires
        angle.finite(),
    ensures
        near(
            turned(b, angle).theta,
            between(num(angle), -135real / 100real, 135real / 100real),
            1real / 1000000real,
        ),
        abs(num(angle)) <= 1349999real / 1000000real ==> turned(b, angle).theta == angle,
        turned(b, angle).omega.value() == 0,
        turned(b, angle).pivot_x == b.pivot_x,
{
    lemma_tiny();
    let (lo, hi) = (dec(135, 100).neg(), dec(135, 100));
    lemma_dec_near(135, 100);
    lemma_neg_num(dec(135, 100));
    lemma_near_clamp(angle, num(angle), 0real, lo, hi);
    lemma_dec_int(0);
    assert(0 * pow2(149) == 0);
    lemma_compare(angle, lo);
    lemma_compare(hi, angle);
}

/// A frame takes the time it took, a thirtieth of a second at most; the toy sees it at its
/// own pace, or not at all while it is paused; and a step is a sixteenth of that.
pub proof fn frames_take_their_time(frame_time: Float, paused: bool, time_scale: Float)
    requires
        frame_time.finite(),
        0real <= num(frame_time),
        time_scale.finite(),
        0real <= num(time_scale) <= 16real,
    ensures
        ({
            let t = times(frame_time, paused, time_scale);
            let pace: real = if paused {
                0real
            } else {
                num(time_scale)
            };
            &&& num(frame_time) <= 333333real / 10000000real ==> t.real_dt == frame_time
            &&& num(frame_time) >= 333334real / 10000000real ==> near(
                t.real_dt,
                1real / 30real,
                1real / 100000000real,
            )
            &&& 0real <= num(t.real_dt) <= 333334real / 10000000real
            &&& near(t.sim_dt, num(t.real_dt) * pace, num(t.real_dt) * pace / 0x100_0000real + tiny())
            &&& near(t.dt, num(t.sim_dt) / 16real, abs(num(t.sim_dt)) / 0x100_0000real + tiny())
        }),
{
    let t = times(frame_time, paused, time_scale);
    let longest = dec(1, 1).div(dec(30, 1));
    lemma_tiny();
    lemma_int_num(0);
    lemma_int_num(1);
    lemma_int_num(30);
    lemma_nat_num(16);
    lemma_div_small(dec(1, 1), dec(30, 1));
    lemma_extremes(frame_time, longest);
    lemma_compare(longest, frame_time);
    let r = num(t.real_dt);
    let k = if paused {
        dec(0, 1)
    } else {
        time_scale
    };
    lemma_abs_product(r, num(k), 1real, 16real);
    lemma_le_times(0real, num(k), r);
    assert(r * 0real == 0real) by (nonlinear_arith);
    lemma_mul_near(t.real_dt, k);
    lemma_div_small(t.sim_dt, of_nat(16));
}

/// A quotient by a number of one or more.
proof fn lemma_div_small(a: Float, b: Float)
    requires
        a.finite(),
        b.finite(),
        1real <= num(b),
        abs(num(a)) <= 0x100_0000_0000real,
    ensures
        near(a.div(b), num(a) / num(b), abs(num(a) / num(b)) / 0x100_0000real + tiny()),
        abs(num(a) / num(b)) <= abs(num(a)),
        num(a) >= 0real ==> num(a) / num(b) >= 0real,
{
    let (x, y) = (num(a), num(b));
    lemma_le_times(1real, y, 0x1_0000_0000_0000_0000real);
    crate::near::lemma_div_near(a, b);
    let q = x / y;
    assert(q * y == x) by (nonlinear_arith)
        requires
            q == x / y,
            y >= 1real,
    ;
    assert(abs(q) <= abs(x)) by (nonlinear_arith)
        requires
            q * y == x,
            y >= 1real,
    ;
    assert(x >= 0real ==> q >= 0real) by (nonlinear_arith)
        requires
            q * y == x,
            y >= 1real,
    ;
}

/// An impact is heard where it is faster than 40 pixels per second and no ball is held.
pub proof fn hard_impacts_are_heard(impact: Impact, dragging: Option<usize>)
    requires
        impact.speed.finite(),
    ensures
        heard(impact, dragging) <==> num(impact.speed) > 40real && dragging is None,
{
    lemma_int_num(40);
    lemma_compare(dec(40, 1), impact.speed);
}

/// The step that is chosen is the nearest one.
pub proof fn steps_are_the_nearest(t: Float, steps: nat)
    requires
        t.finite(),
        0 < steps <= 0x1_0000,
    ensures
        nearest_step(t, steps) < steps,
        abs(
            nearest_step(t, steps) as real - between(num(t), 0real, 1real) * (steps as real - 1real),
        ) <= 1real / 2real + steps as real / 0x10_0000real,
{
    lemma_tiny();
    lemma_int_num(0);
    lemma_int_num(1);
    lemma_nat_num(steps);
    let n = steps as real;
    let c = t.clamp(dec(0, 1), dec(1, 1));
    lemma_near_clamp(t, num(t), 0real, dec(0, 1), dec(1, 1));
    lemma_sub_near(of_nat(steps), dec(1, 1));
    let last = of_nat(steps).sub(dec(1, 1));
    assert(near(last, n - 1real, n / 0x100_0000real));
    lemma_gap_sign(of_nat(steps), dec(1, 1));
    lemma_num_order(dec(1, 1), of_nat(steps));
    lemma_step(t, steps, c, last);
}

proof fn lemma_step(t: Float, steps: nat, c: Float, last: Float)
    requires
        t.finite(),
        0 < steps <= 0x1_0000,
        c == t.clamp(dec(0, 1), dec(1, 1)),
        last == of_nat(steps).sub(dec(1, 1)),
        c.finite(),
        num(c) == between(num(t), 0real, 1real),
        near(last, steps as real - 1real, steps as real / 0x100_0000real),
        last.value() >= 0,
    ensures
        nearest_step(t, steps) < steps,
        abs(nearest_step(t, steps) as real - num(c) * (steps as real - 1real)) <= 1real / 2real + steps as real
            / 0x10_0000real,
{
    lemma_tiny();
    let (x, n, l) = (num(c), steps as real, num(last));
    lemma_abs_product(x, l, 1real, 2real * n);
    lemma_abs_product(x, l - (n - 1real), 1real, n / 0x100_0000real);
    assert(x * (l - (n - 1real)) == x * l - x * (n - 1real)) by (nonlinear_arith);
    lemma_mul_near(c, last);
    let y = c.mul(last);
    assert(x * (n - 1real) >= 0real && x * (n - 1real) <= n - 1real) by (nonlinear_arith)
        requires
            0real <= x <= 1real,
            n >= 1real,
    ;
    assert(num(y) >= 0real) by {
        lemma_product_not_negative(c, last);
    }
    lemma_round_near(y);
}

/// A product of numbers that are not negative.
proof fn lemma_product_not_negative(a: Float, b: Float)
    requires
        a.finite(),
        b.finite(),
        num(a) >= 0real,
        b.value() >= 0,
        a.mul(b).finite(),
    ensures
        num(a.mul(b)) >= 0real,
{
    lemma_int_num(0);
    lemma_dec_int(0);
    assert(0 * pow2(149) == 0);
    lemma_num_order(dec(0, 1), a);
    lemma_num_order(dec(0, 1), a.mul(b));
    crate::order::lemma_product(a, b);
    let (x, y) = (a.value(), b.value());
    assert(x * y >= 0) by (nonlinear_arith)
        requires
            x >= 0,
            y >= 0,
    ;
}

/// The width of a row to either side.
proof fn lemma_span(n: nat)
    requires
        n <= 7,
    ensures
        of_nat(n).mul(ball_r()).finite(),
        num(of_nat(n).mul(ball_r())) == 28real * n as real,
{
    let m = (28 * n) as nat;
    lemma_of_nat_exact(n);
    lemma_of_nat_exact(m);
    lemma_dec_int(28);
    lemma_nat_num(m);
    let p = pow2(149);
    assert((n * p) * (28 * p) == (m * p) * p) by (nonlinear_arith)
        requires
            m == 28 * n,
    ;
    assert(m * p >= 0) by (nonlinear_arith);
    lemma_representable((m * p) as int, m, 149);
    lemma_mul_exact(of_nat(n), ball_r(), (m * p) as int);
    lemma_num_order(of_nat(n).mul(ball_r()), of_nat(m));
}

/// How far from the middle a place is, from nothing at the left to one at the right: in
/// parts of the width of the row to either side.
pub open spec fn across(x: real, width: real, n: nat) -> real {
    (between((x - width / 2real) / (28real * n as real), -1real, 1real) + 1real) / 2real
}

/// The stereo position that is chosen is the nearest of five to the place of a sound.
pub proof fn pans_are_the_nearest(x: Float, sw: Float, n: nat)
    requires
        x.finite(),
        sw.finite(),
        abs(num(x)) <= 0x1_0000real,
        abs(num(sw)) <= 0x1_0000real,
        0 < n <= 7,
    ensures
        nearest_pan(x, sw, n) < 5,
        abs(nearest_pan(x, sw, n) as real - 4real * across(num(x), num(sw), n)) <= 1real / 2real + 1real
            / 400real,
{
    lemma_tiny();
    lemma_int_num(1);
    lemma_int_num(28);
    lemma_neg_num(dec(1, 1));
    lemma_nat_num(n);
    lemma_times_dec(5, 10, sw);
    let half = sw.mul(dec(5, 10));
    let d = x.sub(half);
    lemma_sub_near(x, half);
    let w = num(sw);
    assert(near(d, num(x) - w / 2real, 1real / 64real));
    let span = of_nat(n).mul(ball_r());
    let r = n as real;
    lemma_span(n);
    lemma_le_times(28real, 28real * r, 4000real);
    lemma_near_div(d, num(x) - w / 2real, 1real / 64real, span, 28real * r, 4000real);
    let q = (num(x) - w / 2real) / (28real * r);
    let e = 1real / 1000real;
    let s = d.div(span);
    let (g, y) = ((1real / 64real) / (28real * r), 28real * r);
    assert(g <= 1real / 1700real) by (nonlinear_arith)
        requires
            g == (1real / 64real) / y,
            y >= 28real,
    ;
    assert(near(s, q, e));
    let c = s.clamp(dec(1, 1).neg(), dec(1, 1));
    lemma_near_clamp(s, q, e, dec(1, 1).neg(), dec(1, 1));
    lemma_times_dec(5, 10, c);
    lemma_dec_near(5, 10);
    let m = c.mul(dec(5, 10));
    let t = m.add(dec(5, 10));
    lemma_add_near(m, dec(5, 10));
    let z = across(num(x), w, n);
    assert(near(t, z, 1real / 1900real));
    steps_are_the_nearest(t, 5);
    assert(abs(between(num(t), 0real, 1real) - z) <= 1real / 1900real);
    assert(5nat as real - 1real == 4real);
    assert(between(num(t), 0real, 1real) * 4real == 4real * between(num(t), 0real, 1real)) by (nonlinear_arith);
}

/// How hard an impact is: nothing at rest, and one at 1300 pixels per second.
proof fn lemma_hardness(speed: Float)
    requires
        speed.finite(),
        0real <= num(speed) <= 0x10_0000real,
    ensures
        near(speed.div(speed_full()), num(speed) / 1300real, num(speed) / 1300real / 0x100_0000real + tiny()),
        num(speed) / 1300real >= 0real,
{
    lemma_int_num(1300);
    lemma_div_small(speed, speed_full());
}

/// The smaller of a real number and one.
pub open spec fn capped(x: real) -> real {
    if x < 1real {
        x
    } else {
        1real
    }
}

/// A clack is the nearest of twelve pitches to how hard the impact is, and the nearest of
/// five stereo positions to where it is; its loudness grows with the impact from 0.12 to
/// one, times the volume.
pub proof fn clacks_tell_how_hard_and_where(impact: Impact, sw: Float, c: Config)
    requires
        impact.speed.finite(),
        0real <= num(impact.speed) <= 0x10_0000real,
        impact.at.x.finite(),
        sw.finite(),
        abs(num(impact.at.x)) <= 0x1_0000real,
        abs(num(sw)) <= 0x1_0000real,
        0 < c.n_balls <= 7,
        c.volume.finite(),
        0real <= num(c.volume) <= 1real,
    ensures
        ({
            let v = clack(impact, sw, c);
            let t = capped(num(impact.speed) / 1300real);
            &&& v.index < 60
            &&& abs((v.index / 5) as real - 11real * t) <= 1real / 2real + 1real / 10000real
            &&& abs(
                (v.index % 5) as real - 4real * across(num(impact.at.x), num(sw), c.n_balls as nat),
            ) <= 1real / 2real + 1real / 400real
            &&& c.mute ==> v.volume.value() == 0
            &&& !c.mute ==> near(
                v.volume,
                (12real + 88real * t) / 100real * num(c.volume),
                1real / 500000real,
            )
        }),
{
    let t = impact.speed.div(speed_full());
    let q = num(impact.speed) / 1300real;
    lemma_hardness(impact.speed);
    lemma_dec_int(0);
    assert(0 * pow2(149) == 0);
    lemma_pitch(t, q, 12);
    pans_are_the_nearest(impact.at.x, sw, c.n_balls as nat);
    let m = t.min(dec(1, 1));
    lemma_int_num(1);
    lemma_extremes(t, dec(1, 1));
    lemma_capped(num(t), q);
    lemma_loudness_before(12, 88, m, capped(q));
    lemma_loudness(
        dec(12, 100).add(dec(88, 100).mul(m)),
        (12real + 88real * capped(q)) / 100real,
        c.volume,
    );
    lemma_index(
        clack(impact, sw, c).index,
        nearest_step(t, 12),
        nearest_pan(impact.at.x, sw, c.n_balls as nat),
    );
}

/// Capping keeps numbers close.
proof fn lemma_capped(t: real, q: real)
    requires
        q >= 0real,
        abs(t - q) <= q / 0x40_0000real + tiny(),
    ensures
        abs(between(t, 0real, 1real) - capped(q)) <= 1real / 0x30_0000real,
        abs(capped(t) - capped(q)) <= 1real / 0x30_0000real,
{
    lemma_tiny();
}

/// The pitch that is chosen.
proof fn lemma_pitch(t: Float, q: real, steps: nat)
    requires
        t.finite(),
        q >= 0real,
        abs(num(t) - q) <= q / 0x40_0000real + tiny(),
        0 < steps <= 12,
    ensures
        nearest_step(t, steps) < steps,
        abs(nearest_step(t, steps) as real - (steps as real - 1real) * capped(q)) <= 1real / 2real + 1real
            / 10000real,
{
    steps_are_the_nearest(t, steps);
    lemma_capped(num(t), q);
    let (b, x, k) = (between(num(t), 0real, 1real), capped(q), steps as real - 1real);
    lemma_abs_product(b - x, k, 1real / 0x30_0000real, 11real);
    assert((b - x) * k == b * k - k * x) by (nonlinear_arith);
}

/// A loudness before the volume is applied: `a` hundredths at least, and `b` more at most.
proof fn lemma_loudness_before(a: u64, b: u64, m: Float, x: real)
    requires
        0 < a <= 100,
        0 < b <= 100,
        a + b <= 100,
        m.finite(),
        0real <= x <= 1real,
        abs(num(m) - x) <= 1real / 0x30_0000real,
    ensures
        near(
            dec(a, 100).add(dec(b, 100).mul(m)),
            (a as real + b as real * x) / 100real,
            1real / 1000000real,
        ),
        0real <= (a as real + b as real * x) / 100real <= 1real,
{
    lemma_tiny();
    lemma_times_dec(b, 100, m);
    lemma_dec_near(a, 100);
    let (br, u) = (b as real, num(m));
    lemma_abs_product(br, u - x, br, 1real / 0x30_0000real);
    assert(br * (u - x) == br * u - br * x) by (nonlinear_arith);
    assert(br * (1real / 0x30_0000real) == br / 0x30_0000real) by (nonlinear_arith);
    lemma_abs_product(br, u, br, 2real);
    lemma_le_times(x, 1real, br);
    lemma_le_times(0real, x, br);
    assert(br * 0real == 0real && br * 1real == br) by (nonlinear_arith);
    lemma_add_near(dec(a, 100), dec(b, 100).mul(m));
}

/// A place in a bank tells the pitch and the stereo position.
proof fn lemma_index(index: usize, step: nat, pan: nat)
    requires
        index == step * 5 + pan,
        pan < 5,
    ensures
        index / 5 == step,
        index % 5 == pan,
{
}

/// A loudness times the volume.
proof fn lemma_loudness(g: Float, y: real, volume: Float)
    requires
        near(g, y, 1real / 1000000real),
        0real <= y <= 1real,
        volume.finite(),
        0real <= num(volume) <= 1real,
    ensures
        near(g.mul(volume), y * num(volume), 1real / 500000real),
{
    lemma_tiny();
    let v = num(volume);
    lemma_abs_product(num(g), v, 2real, 1real);
    lemma_abs_product(num(g) - y, v, 1real / 1000000real, 1real);
    assert((num(g) - y) * v == num(g) * v - y * v) by (nonlinear_arith);
    lemma_mul_near(g, volume);
}

/// A sweep is the nearest of five pitches to how fast the ball is between 260 and 1500
/// pixels per second, and the nearest of five stereo positions to where it is; its
/// loudness grows with the speed from 0.10 to 0.55, times the volume.
pub proof fn sweeps_tell_how_fast_and_where(speed: Float, x: Float, sw: Float, c: Config)
    requires
        speed.finite(),
        260real <= num(speed) <= 0x10_0000real,
        x.finite(),
        sw.finite(),
        abs(num(x)) <= 0x1_0000real,
        abs(num(sw)) <= 0x1_0000real,
        0 < c.n_balls <= 7,
        c.volume.finite(),
        0real <= num(c.volume) <= 1real,
    ensures
        ({
            let v = sweep(speed, x, sw, c);
            let t = capped((num(speed) - 260real) / 1240real);
            &&& v.index < 25
            &&& abs((v.index / 5) as real - 4real * t) <= 1real / 2real + 1real / 10000real
            &&& abs((v.index % 5) as real - 4real * across(num(x), num(sw), c.n_balls as nat)) <= 1real
                / 2real + 1real / 400real
            &&& c.mute ==> v.volume.value() == 0
            &&& !c.mute ==> near(
                v.volume,
                (10real + 45real * t) / 100real * num(c.volume),
                1real / 500000real,
            )
        }),
{
    lemma_tiny();
    lemma_int_num(0);
    lemma_int_num(1);
    lemma_int_num(260);
    lemma_dec_int(0);
    assert(0 * pow2(149) == 0);
    lemma_range();
    let d = speed.sub(dec(260, 1));
    let r = dec(1500, 1).sub(dec(260, 1));
    lemma_sub_near(speed, dec(260, 1));
    lemma_div_small(d, r);
    let t = d.div(r);
    let q = (num(speed) - 260real) / 1240real;
    assert(abs(num(t) - q) <= q / 0x40_0000real + tiny());
    lemma_pitch(t, q, 5);
    pans_are_the_nearest(x, sw, c.n_balls as nat);
    let k = t.clamp(dec(0, 1), dec(1, 1));
    lemma_near_clamp(t, num(t), 0real, dec(0, 1), dec(1, 1));
    lemma_capped(num(t), q);
    lemma_loudness_before(10, 45, k, capped(q));
    lemma_loudness(
        dec(10, 100).add(dec(45, 100).mul(k)),
        (10real + 45real * capped(q)) / 100real,
        c.volume,
    );
    lemma_index(
        sweep(speed, x, sw, c).index,
        nearest_step(t, 5),
        nearest_pan(x, sw, c.n_balls as nat),
    );
}

/// The range of speeds of the sweeps.
proof fn lemma_range()
    ensures
        dec(1500, 1).sub(dec(260, 1)).finite(),
        num(dec(1500, 1).sub(dec(260, 1))) == 1240real,
{
    lemma_dec_int(1500);
    lemma_dec_int(260);
    lemma_dec_int(1240);
    lemma_representable(1240int * pow2(149), 1240, 149);
    lemma_sub_exact(dec(1500, 1), dec(260, 1));
    lemma_int_num(1240);
    lemma_num_order(dec(1500, 1).sub(dec(260, 1)), dec(1240, 1));
}

/// An impact faster than 600 pixels per second shakes the screen, the further the harder
/// it is, by 16 pixels at most; a softer one does not; and no impact calms it.
pub proof fn hard_impacts_shake_the_screen(shake: Float, speed: Float)
    requires
        shake.finite(),
        speed.finite(),
        0real <= num(speed) <= 0x10_0000real,
    ensures
        num(speed) <= 600real ==> shaken(shake, speed) == shake,
        num(speed) > 600real ==> ({
            let s = 16real * capped((num(speed) - 600real) / 1300real);
            near(
                shaken(shake, speed),
                if num(shake) < s {
                    s
                } else {
                    num(shake)
                },
                1real / 10000real,
            )
        }),
        num(shaken(shake, speed)) >= num(shake),
{
    lemma_tiny();
    lemma_int_num(0);
    lemma_int_num(1);
    lemma_int_num(16);
    lemma_int_num(600);
    lemma_int_num(1300);
    lemma_compare(dec(600, 1), speed);
    if num(speed) > 600real {
        let d = speed.sub(dec(600, 1));
        lemma_sub_near(speed, dec(600, 1));
        lemma_div_small(d, speed_full());
        let t = d.div(speed_full());
        let q = (num(speed) - 600real) / 1300real;
        assert(abs(num(t) - q) <= q / 0x40_0000real + tiny());
        let k = t.clamp(dec(0, 1), dec(1, 1));
        lemma_near_clamp(t, num(t), 0real, dec(0, 1), dec(1, 1));
        assert(abs(num(k) - capped(q)) <= 1real / 0x20_0000real);
        lemma_times_dec(16, 1, k);
        lemma_extremes(shake, k.mul(dec(16, 1)));
    }
}

/// Shaking calms down by 70 pixels per second, to nothing.
pub proof fn shaking_calms_by_the_second(shake: Float, dt: Float)
    requires
        shake.finite(),
        dt.finite(),
        0real <= num(shake) <= 16real,
        0real <= num(dt) <= 1real,
    ensures
        near(
            calmed(shake, dt),
            if num(shake) < 70real * num(dt) {
                0real
            } else {
                num(shake) - 70real * num(dt)
            },
            1real / 10000real,
        ),
{
    lemma_tiny();
    lemma_int_num(0);
    lemma_times_dec(70, 1, dt);
    let f = dec(70, 1).mul(dt);
    lemma_sub_near(shake, f);
    lemma_extremes(shake.sub(f), dec(0, 1));
}

} // verus!
