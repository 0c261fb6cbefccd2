//! What the sweeps and the clacks are made of, counted against exact arithmetic: at which
//! angles and exponents, in which band, and how the filter answers.

use vstd::prelude::*;
use vstd::arithmetic::power2::{pow2, lemma_pow2_adds, lemma_pow2_pos, lemma2_to64};
use crate::bounds::{lemma_dec_is, lemma_round_at};
use crate::click::{TAU, click_samples};
use crate::exact::lemma_dec_int;
use crate::float::{Float, dec, fl, of_nat, lemma_of_nat_exact, lemma_signed};
use crate::near::{abs, between, near, num, tiny, lemma_abs_product, lemma_bits, lemma_compare, lemma_add_near, lemma_div_near, lemma_int_num, lemma_le_times, lemma_mul_near, lemma_nat_num, lemma_near_add, lemma_near_clamp, lemma_near_div, lemma_near_mul, lemma_near_sub, lemma_neg_num, lemma_num_order, lemma_sub_near, lemma_times_dec, lemma_tiny, lemma_whole};
use crate::order::{lemma_product, lemma_quotient};
use crate::rounding::round_magnitude;
use crate::whoosh::{Memory, PI, all_arc_angles, all_filter_angles, all_sweep_angles, arc_angle, band_centre, band_pass, envelope, filter_angle, progress, sweep_angle, whoosh_samples};

verus! {

/// The number of samples of a sound of `k` hundredths of a second.
proof fn lemma_samples(k: u64, s: nat, h: nat, n: nat, sh: nat, g: nat)
    requires
        s <= 149,
        0x80_0000 <= h < 0x100_0000,
        k * pow2(s) >= 100 * 0x80_0000,
        (2 * h - 1) * 100 < 2 * (k * pow2(s)) < (2 * h + 1) * 100,
        0x80_0000 <= g < 0x100_0000,
        44100 * h >= 0x80_0000 * pow2(sh),
        (2 * g - 1) * pow2(sh) < 2 * (44100 * h) < (2 * g + 1) * pow2(sh),
        sh <= s,
        g * pow2(sh) == n * pow2(s),
        n <= 0xffff,
    ensures
        of_nat(44100).mul(dec(k, 100)).saturated(usize::MAX as nat) == n,
{
    let j = (149 - s) as nat;
    let p = pow2(149);
    lemma_dec_is(k, 100, s, h);
    lemma_of_nat_exact(44100);
    let (a, b) = (of_nat(44100), dec(k, 100));
    lemma_pow2_pos(149);
    lemma_pow2_pos(j);
    lemma_pow2_adds(s, j);
    lemma_pow2_adds(j, sh);
    let m = 44100 * h;
    assert(1 * pow2(sh) == pow2(sh) && 1 * 0x80_0000 * pow2(sh) == 0x80_0000 * pow2(sh));
    lemma_round_at(m, j, 1, sh, g);
    let q = m * pow2(j);
    assert(a.value() * b.value() == q * p) by (nonlinear_arith)
        requires
            a.value() == 44100 * p,
            b.value() == h * pow2(j),
            m == 44100 * h,
            q == m * pow2(j),
    ;
    crate::rounding::lemma_round_scale(q, 1, p);
    assert(1 * p == p);
    lemma_product(a, b);
    assert(q * p >= 0) by (nonlinear_arith);
    let c = a.mul(b);
    let (u, v) = (pow2(s), pow2(sh));
    assert(g * pow2(j + sh) == n * p) by (nonlinear_arith)
        requires
            g * v == n * u,
            pow2(j + sh) == pow2(j) * v,
            p == u * pow2(j),
    ;
    assert(c.value() == n * p);
    crate::order::lemma_value_bounded(c);
    lemma_signed(false, round_magnitude(q, 1));
    crate::float::lemma_units_order(round_magnitude(q, 1), 0x7f80_0000);
    lemma_whole(c, n, usize::MAX as nat);
}

/// A clack lasts 0.13 seconds and a sweep 0.22 seconds, at 44100 samples per second.
pub proof fn sounds_have_their_lengths()
    ensures
        click_samples() == 5733,
        whoosh_samples() == 9702,
{
    lemma2_to64();
    lemma_samples(22, 26, 14763950, 9702, 16, 9934848);
    lemma_samples(13, 26, 8724152, 5733, 15, 11741184);
}

/// How far through a sweep a sample is.
pub proof fn sweeps_run_evenly(i: nat)
    requires
        i < 9702,
    ensures
        near(progress(i), i as real / 9702real, 1real / 0x80_0000real),
        0real <= i as real / 9702real <= 1real,
{
    sounds_have_their_lengths();
    lemma_tiny();
    lemma_nat_num(i);
    lemma_nat_num(9702);
    lemma_near_div(of_nat(i), i as real, 0real, of_nat(9702), 9702real, 1real);
    assert(0real / 9702real == 0real);
}

/// How far the centre of the band is bent at sample `i` of a sweep.
pub open spec fn bend(sine: real, i: nat) -> real {
    1real + 3real * sine / 10real - 3real * (i as real / 9702real) / 20real
}

proof fn lemma_bent(sine: Float, i: nat)
    requires
        i < 9702,
        sine.finite(),
        abs(num(sine)) <= 1real,
    ensures
        near(
            dec(1, 1).add(dec(30, 100).mul(sine)).sub(dec(15, 100).mul(progress(i))),
            bend(num(sine), i),
            6real / 0x100_0000real,
        ),
        1real / 2real <= bend(num(sine), i) <= 2real,
{
    let (s, u) = (num(sine), i as real / 9702real);
    sweeps_run_evenly(i);
    lemma_tiny();
    lemma_int_num(1);
    let t = 1real / 0x100_0000real;
    let (a, e) = (dec(30, 100).mul(sine), dec(15, 100).mul(progress(i)));
    lemma_times_dec(30, 100, sine);
    assert(near(a, 3real * s / 10real, 13real * t / 10real));
    lemma_near_add(dec(1, 1), 1real, 0real, a, 3real * s / 10real, 13real * t / 10real, 3real / 2real);
    let b = dec(1, 1).add(a);
    lemma_times_dec(15, 100, progress(i));
    assert(near(e, 3real * u / 20real, 12real * t / 10real));
    lemma_near_sub(
        b,
        1real + 3real * s / 10real,
        28real * t / 10real,
        e,
        3real * u / 20real,
        12real * t / 10real,
        3real / 2real,
    );
}

/// The band of a sweep around `center` is where the bend puts it: at sample `i` its
/// centre is `center` times `1 + 0.3 * sine - 0.15 * i / 9702`, held between 120 and 6000,
/// up to a millionth of `center`.
pub proof fn bands_follow_the_bend(center: Float, sine: Float, i: nat)
    requires
        i < 9702,
        center.finite(),
        0real <= num(center) <= 0x1_0000real,
        sine.finite(),
        abs(num(sine)) <= 1real,
    ensures
        near(
            band_centre(center, sine, i),
            between(num(center) * bend(num(sine), i), 120real, 6000real),
            num(center) / 0x10_0000real + tiny(),
        ),
{
    let c = num(center);
    let x = dec(1, 1).add(dec(30, 100).mul(sine)).sub(dec(15, 100).mul(progress(i)));
    let y = bend(num(sine), i);
    lemma_tiny();
    lemma_bent(sine, i);
    lemma_int_num(120);
    lemma_int_num(6000);
    let e = 6real / 0x100_0000real;
    let v = num(x);
    lemma_abs_product(c, v, c, 3real);
    lemma_mul_near(center, x);
    lemma_abs_product(c, v - y, c, e);
    assert(c * (v - y) == c * v - c * y) by (nonlinear_arith);
    assert(c * e == 6real * c / 0x100_0000real) by (nonlinear_arith)
        requires
            e == 6real / 0x100_0000real,
    ;
    lemma_near_clamp(center.mul(x), c * y, c / 0x10_0000real + tiny(), dec(120, 1), dec(6000, 1));
}

/// For the centres of the bank the band is never held back: it lies at the centre times
/// the bend, higher for a higher centre, and rising with the sine.
pub proof fn sweeps_rise_and_fall(center: Float, sine: Float, i: nat)
    requires
        i < 9702,
        center.finite(),
        380real <= num(center) <= 1100real,
        sine.finite(),
        0real <= num(sine) <= 1real,
    ensures
        near(
            band_centre(center, sine, i),
            num(center) * bend(num(sine), i),
            1real / 500real,
        ),
        120real < num(center) * bend(num(sine), i) < 6000real,
{
    bands_follow_the_bend(center, sine, i);
    sweeps_run_evenly(i);
    lemma_tiny();
    let (c, y) = (num(center), bend(num(sine), i));
    lemma_le_times(17real / 20real, y, c);
    lemma_le_times(y, 13real / 10real, c);
    assert(c * (17real / 20real) == 17real * c / 20real && c * (13real / 10real) == 13real * c / 10real)
        by (nonlinear_arith);
}

/// At the same sample a sweep with a higher centre, by a hertz or more, lies higher; and a
/// larger sine, by a thousandth or more, lifts it.
pub proof fn higher_sweeps_lie_higher(center: Float, other: Float, sine: Float, larger: Float, i: nat)
    requires
        i < 9702,
        center.finite(),
        other.finite(),
        380real <= num(center),
        num(center) + 1real <= num(other) <= 1100real,
        sine.finite(),
        larger.finite(),
        0real <= num(sine),
        num(sine) + 1real / 1000real <= num(larger) <= 1real,
    ensures
        band_centre(center, sine, i).lt(band_centre(other, sine, i)),
        band_centre(center, sine, i).lt(band_centre(center, larger, i)),
{
    sweeps_rise_and_fall(center, sine, i);
    sweeps_rise_and_fall(other, sine, i);
    sweeps_rise_and_fall(center, larger, i);
    sweeps_run_evenly(i);
    let (c, d) = (num(center), num(other));
    let (y, z) = (bend(num(sine), i), bend(num(larger), i));
    lemma_le_times(1real, d - c, y);
    assert((d - c) * y == d * y - c * y) by (nonlinear_arith);
    lemma_le_times(3real / 10000real, z - y, c);
    assert(c * (z - y) == c * z - c * y && c * (3real / 10000real) == 3real * c / 10000real) by (nonlinear_arith);
    lemma_compare(band_centre(center, sine, i), band_centre(other, sine, i));
    lemma_compare(band_centre(center, sine, i), band_centre(center, larger, i));
}

/// A full turn.
proof fn lemma_full_turn()
    ensures
        fl(TAU).finite(),
        num(fl(TAU)) == 13176795real / 0x20_0000real,
        fl(PI).finite(),
        num(fl(PI)) == 13176795real / 0x40_0000real,
{
    lemma_bits(TAU, 13176795, 128);
    lemma_bits(PI, 13176795, 127);
}

/// The filter turns by a full turn per period of the centre of its band, at 44100 samples
/// per second, up to a millionth.
pub proof fn filters_turn_with_the_band(center: Float, sine: Float, i: nat)
    requires
        i < 9702,
        center.finite(),
        0real <= num(center) <= 0x1_0000real,
        sine.finite(),
        abs(num(sine)) <= 1real,
    ensures
        near(
            filter_angle(center, sine, i),
            6283185307real * num(band_centre(center, sine, i)) / 1000000000real / 44100real,
            1real / 1000000real,
        ),
{
    bands_follow_the_bend(center, sine, i);
    lemma_tiny();
    lemma_full_turn();
    lemma_nat_num(44100);
    lemma_int_num(120);
    lemma_int_num(6000);
    let f = band_centre(center, sine, i);
    let raw = center.mul(dec(1, 1).add(dec(30, 100).mul(sine)).sub(dec(15, 100).mul(progress(i))));
    lemma_band_finite(center, sine, i);
    lemma_near_clamp(raw, num(raw), 0real, dec(120, 1), dec(6000, 1));
    let b = num(f);
    let k = 13176795real / 0x20_0000real;
    lemma_abs_product(k, b, 7real, 6000real);
    lemma_mul_near(fl(TAU), f);
    assert(k * b == 13176795real * b / 0x20_0000real) by (nonlinear_arith)
        requires
            k == 13176795real / 0x20_0000real,
    ;
    let x = 6283185307real * b / 1000000000real;
    let g = fl(TAU).mul(f);
    assert(near(g, x, 4real / 1000real));
    lemma_near_div(g, x, 4real / 1000real, of_nat(44100), 44100real, 1real);
}

/// The band before it is held within its limits is a finite number.
proof fn lemma_band_finite(center: Float, sine: Float, i: nat)
    requires
        i < 9702,
        center.finite(),
        0real <= num(center) <= 0x1_0000real,
        sine.finite(),
        abs(num(sine)) <= 1real,
    ensures
        center.mul(
            dec(1, 1).add(dec(30, 100).mul(sine)).sub(dec(15, 100).mul(progress(i))),
        ).finite(),
{
    let x = dec(1, 1).add(dec(30, 100).mul(sine)).sub(dec(15, 100).mul(progress(i)));
    lemma_bent(sine, i);
    lemma_abs_product(num(center), num(x), num(center), 3real);
    lemma_mul_near(center, x);
}

/// Half a turn and a full one, in sweeps and clacks.
proof fn lemma_half_turn()
    ensures
        near(fl(TAU).mul(dec(5, 10)), 3141592654real / 1000000000real, 1real / 1000000real),
{
    lemma_tiny();
    lemma_full_turn();
    lemma_times_dec(5, 10, fl(TAU));
}

/// A number times how far through a sweep a sample is.
proof fn lemma_of_the_way(a: Float, x: real, i: nat)
    requires
        i < 9702,
        near(a, x, 1real / 1000000real),
        0real <= x <= 4real,
    ensures
        near(a.mul(progress(i)), x * (i as real / 9702real), 1real / 250000real),
{
    lemma_tiny();
    sweeps_run_evenly(i);
    let u = i as real / 9702real;
    lemma_near_mul(
        a,
        x,
        1real / 1000000real,
        5real,
        progress(i),
        u,
        1real / 0x80_0000real,
        2real,
    );
}

/// Over a sweep the centre of the band goes through half a turn of a sine, and so does its
/// loudness.
pub proof fn sweeps_go_through_half_a_turn(i: nat)
    requires
        i < 9702,
    ensures
        near(
            sweep_angle(i),
            3141592654real / 1000000000real * (i as real / 9702real),
            1real / 250000real,
        ),
        near(
            arc_angle(i),
            3141592654real / 1000000000real * (i as real / 9702real),
            1real / 250000real,
        ),
{
    lemma_full_turn();
    lemma_half_turn();
    let x = 3141592654real / 1000000000real;
    lemma_of_the_way(fl(TAU).mul(dec(5, 10)), x, i);
    lemma_of_the_way(fl(PI), x, i);
}

/// The loudness of a sweep is the power of its arc, less a quarter of it by the end.
pub proof fn sweeps_fade_by_a_quarter(power: Float, i: nat)
    requires
        i < 9702,
        power.finite(),
        abs(num(power)) <= 1real,
    ensures
        near(
            envelope(power, i),
            num(power) * (1real - (i as real / 9702real) / 4real),
            1real / 1000000real,
        ),
{
    lemma_tiny();
    sweeps_run_evenly(i);
    lemma_int_num(1);
    lemma_times_dec(25, 100, progress(i));
    let q = dec(25, 100).mul(progress(i));
    lemma_sub_near(dec(1, 1), q);
    let u = i as real / 9702real;
    let t = 1real / 0x100_0000real;
    lemma_near_mul(
        power,
        num(power),
        0real,
        1real,
        dec(1, 1).sub(q),
        1real - u / 4real,
        8real * t,
        2real,
    );
}

/// The share that the sine of an angle sets: the sine over 2.8.
proof fn lemma_share(sw: Float)
    requires
        sw.finite(),
        0real <= num(sw) <= 1real,
    ensures
        ({
            let a = sw.div(dec(2, 1).mul(dec(14, 10)));
            &&& a.finite()
            &&& 0real <= num(a) <= 2real / 5real
            &&& abs(28real * num(a) - 10real * num(sw)) <= 100real / 0x100_0000real
        }),
{
    lemma_tiny();
    lemma_int_num(2);
    let q = dec(2, 1).mul(dec(14, 10));
    lemma_times_dec(14, 10, dec(2, 1));
    let (s, y) = (num(sw), num(q));
    assert(near(q, 28real / 10real, 1real / 0x10_0000real));
    lemma_le_times(1real, y, 0x1_0000_0000_0000_0000real);
    lemma_div_near(sw, q);
    let f = sw.div(q);
    let (a, r) = (num(f), s / y);
    assert(r * y == s && 0real <= r <= 38real / 100real) by (nonlinear_arith)
        requires
            r == s / y,
            y >= 27real / 10real,
            0real <= s <= 1real,
    ;
    assert(a >= 0real) by {
        lemma_quotient_not_negative(sw, q);
    }
    let g = y - 28real / 10real;
    lemma_abs_product(r, g, 38real / 100real, 1real / 0x10_0000real);
    assert(r * g == s - 28real * r / 10real) by (nonlinear_arith)
        requires
            r * y == s,
            g == y - 28real / 10real,
    ;
}

proof fn lemma_quotient_not_negative(a: Float, b: Float)
    requires
        a.finite(),
        b.finite(),
        num(a) >= 0real,
        num(b) > 0real,
        a.div(b).finite(),
    ensures
        num(a.div(b)) >= 0real,
{
    lemma_int_num(0);
    lemma_dec_int(0);
    assert(0 * pow2(149) == 0);
    lemma_num_order(dec(0, 1), a);
    lemma_num_order(dec(0, 1), b);
    lemma_num_order(dec(0, 1), a.div(b));
    lemma_quotient(a, b);
    lemma_pow2_pos(149);
    let (x, p) = (a.value(), pow2(149));
    assert(x * p >= 0) by (nonlinear_arith)
        requires
            x >= 0,
            p > 0,
    ;
}

/// The sum of the terms of the band-pass, before it is divided.
proof fn lemma_terms(m: Memory, xn: Float, alpha: Float, cw: Float)
    requires
        m.x2.finite() && abs(num(m.x2)) <= 1real,
        xn.finite() && abs(num(xn)) <= 1real,
        m.y1.finite() && abs(num(m.y1)) <= 16real,
        m.y2.finite() && abs(num(m.y2)) <= 16real,
        cw.finite() && abs(num(cw)) <= 1real,
        alpha.finite() && 0real <= num(alpha) <= 2real / 5real,
    ensures
        near(
            alpha.mul(xn).add(alpha.neg().mul(m.x2)).sub(dec(2, 1).neg().mul(cw).mul(m.y1)).sub(
                dec(1, 1).sub(alpha).mul(m.y2),
            ),
            num(alpha) * num(xn) - num(alpha) * num(m.x2) + 2real * (num(cw) * num(m.y1)) - num(m.y2)
                + num(alpha) * num(m.y2),
            400real / 0x100_0000real,
        ),
        abs(
            num(alpha) * num(xn) - num(alpha) * num(m.x2) + 2real * (num(cw) * num(m.y1)) - num(m.y2)
                + num(alpha) * num(m.y2),
        ) <= 60real,
{
    lemma_tiny();
    lemma_int_num(1);
    lemma_int_num(2);
    lemma_neg_num(dec(2, 1));
    lemma_neg_num(alpha);
    let t = 1real / 0x100_0000real;
    let (a, c, x, z, u, v) = (num(alpha), num(cw), num(xn), num(m.x2), num(m.y1), num(m.y2));
    let (p, q, r, w) = (a * x, a * z, c * u, a * v);
    lemma_abs_product(a, x, 2real / 5real, 1real);
    lemma_abs_product(a, z, 2real / 5real, 1real);
    lemma_abs_product(c, u, 1real, 16real);
    lemma_abs_product(a, v, 2real / 5real, 16real);
    lemma_mul_near(alpha, xn);
    let f1 = alpha.mul(xn);
    assert((-a) * z == -q) by (nonlinear_arith)
        requires
            q == a * z,
    ;
    lemma_mul_near(alpha.neg(), m.x2);
    let f2 = alpha.neg().mul(m.x2);
    assert((-2real) * c == -(2real * c)) by (nonlinear_arith);
    lemma_mul_near(dec(2, 1).neg(), cw);
    let a1 = dec(2, 1).neg().mul(cw);
    let k = num(a1);
    lemma_abs_product(k, u, 3real, 16real);
    lemma_abs_product(k + 2real * c, u, 3real * t, 16real);
    assert((k + 2real * c) * u == k * u + 2real * r) by (nonlinear_arith)
        requires
            r == c * u,
    ;
    lemma_mul_near(a1, m.y1);
    let f3 = a1.mul(m.y1);
    assert(near(f3, -(2real * r), 100real * t));
    lemma_sub_near(dec(1, 1), alpha);
    let a2 = dec(1, 1).sub(alpha);
    let l = num(a2);
    lemma_abs_product(l, v, 2real, 16real);
    lemma_abs_product(l - (1real - a), v, t, 16real);
    assert((l - (1real - a)) * v == l * v - v + w) by (nonlinear_arith)
        requires
            w == a * v,
    ;
    lemma_mul_near(a2, m.y2);
    let f4 = a2.mul(m.y2);
    assert(near(f4, v - w, 50real * t));
    lemma_near_add(f1, p, t, f2, -q, t, 2real);
    let g1 = f1.add(f2);
    lemma_near_sub(g1, p - q, 4real * t, f3, -(2real * r), 100real * t, 36real);
    let g2 = g1.sub(f3);
    lemma_near_sub(g2, p - q + 2real * r, 140real * t, f4, v - w, 50real * t, 60real);
}

/// What the band-pass gives: its input less the input of two samples ago, in the share
/// that the sine of its angle sets, and its own last two outputs, as a resonance of quality
/// 1.4 at that angle has it. Both sides are multiplied out.
pub proof fn band_pass_resonates(m: Memory, xn: Float, sw: Float, cw: Float)
    requires
        m.x2.finite() && abs(num(m.x2)) <= 1real,
        xn.finite() && abs(num(xn)) <= 1real,
        m.y1.finite() && abs(num(m.y1)) <= 16real,
        m.y2.finite() && abs(num(m.y2)) <= 16real,
        sw.finite() && 0real <= num(sw) <= 1real,
        cw.finite() && abs(num(cw)) <= 1real,
    ensures
        ({
            let y = num(band_pass(m, xn, sw, cw));
            let (s, c) = (num(sw), num(cw));
            let inputs = 10real * (s * (num(xn) - num(m.x2)));
            let outputs = 56real * (c * num(m.y1)) - 28real * num(m.y2) + 10real * (s * num(m.y2));
            &&& band_pass(m, xn, sw, cw).finite()
            &&& abs(y * (28real + 10real * s) - (inputs + outputs)) <= 1real / 250real
        }),
{
    lemma_tiny();
    lemma_int_num(1);
    let t = 1real / 0x100_0000real;
    let alpha = sw.div(dec(2, 1).mul(dec(14, 10)));
    lemma_share(sw);
    lemma_terms(m, xn, alpha, cw);
    let (a, s, c, x, z, u, v) = (
        num(alpha),
        num(sw),
        num(cw),
        num(xn),
        num(m.x2),
        num(m.y1),
        num(m.y2),
    );
    let top = alpha.mul(xn).add(alpha.neg().mul(m.x2)).sub(dec(2, 1).neg().mul(cw).mul(m.y1)).sub(
        dec(1, 1).sub(alpha).mul(m.y2),
    );
    lemma_add_near(dec(1, 1), alpha);
    let low = dec(1, 1).add(alpha);
    let (w, d) = (num(top), num(low));
    lemma_le_times(1real / 2real, d, 0x1_0000_0000_0000_0000real);
    lemma_div_near(top, low);
    let y = num(top.div(low));
    let r = w / d;
    assert(r * d == w && abs(r) <= 61real) by (nonlinear_arith)
        requires
            r == w / d,
            d >= 999real / 1000real,
            abs(w) <= 601real / 10real,
    ;
    let total = a * x - a * z + 2real * (c * u) - v + a * v;
    // r * (1 + a) is the sum of the terms
    lemma_abs_product(r, d - (1real + a), 61real, 2real * t);
    assert(r * (d - (1real + a)) == w - r * (1real + a)) by (nonlinear_arith)
        requires
            r * d == w,
    ;
    let delta = 28real * a - 10real * s;
    lemma_abs_product(r, delta, 61real, 100real * t);
    assert(r * delta == 28real * (r * (1real + a)) - r * (28real + 10real * s)) by (nonlinear_arith)
        requires
            delta == 28real * a - 10real * s,
    ;
    lemma_abs_product(y - r, 28real + 10real * s, 62real * t, 38real);
    assert((y - r) * (28real + 10real * s) == y * (28real + 10real * s) - r * (28real + 10real * s))
        by (nonlinear_arith);
    let e = x - z + v;
    lemma_abs_product(delta, e, 100real * t, 18real);
    assert(delta * e == 28real * (a * x - a * z + a * v) - 10real * (s * (x - z)) - 10real * (s * v))
        by (nonlinear_arith)
        requires
            delta == 28real * a - 10real * s,
            e == x - z + v,
    ;
    assert(abs(28real * total - (10real * (s * (x - z)) + 56real * (c * u) - 28real * v + 10real * (s * v)))
        <= 1800real * t);
}

/// The angles are handed out sample by sample, for the whole length of a sweep.
pub proof fn angles_come_sample_by_sample(center: Float, sines: Seq<Float>, i: nat)
    requires
        i < 9702,
        sines.len() == 9702,
        center.finite(),
        0real <= num(center) <= 0x1_0000real,
        sines[i as int].finite(),
        abs(num(sines[i as int])) <= 1real,
    ensures
        all_sweep_angles().len() == 9702,
        all_arc_angles().len() == 9702,
        all_filter_angles(center, sines).len() == 9702,
        near(
            all_sweep_angles()[i as int],
            3141592654real / 1000000000real * (i as real / 9702real),
            1real / 250000real,
        ),
        near(
            all_arc_angles()[i as int],
            3141592654real / 1000000000real * (i as real / 9702real),
            1real / 250000real,
        ),
        near(
            all_filter_angles(center, sines)[i as int],
            6283185307real * between(num(center) * bend(num(sines[i as int]), i), 120real, 6000real)
                / 1000000000real / 44100real,
            2real / 1000000real + num(center) / 0x100_0000real,
        ),
{
    lemma_tiny();
    sounds_have_their_lengths();
    sweeps_go_through_half_a_turn(i);
    filters_turn_with_the_band(center, sines[i as int], i);
    bands_follow_the_bend(center, sines[i as int], i);
}

} // verus!
