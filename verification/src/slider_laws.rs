//! What holds of the sliders: where they can be grasped, and that a knob is where its
//! value says.

use vstd::prelude::*;
use vstd::arithmetic::power2::{pow2, lemma_pow2_adds, lemma_pow2_pos, lemma2_to64};
use crate::bounds::{lemma_clamp, lemma_dec_is, lemma_dec_order, lemma_nan, lemma_round_at};
use crate::exact::{lemma_add_zero, lemma_dec_int, lemma_mul_zero, lemma_representable, size};
use crate::float::{Float, NAN, dec, fl, scale, signed, significand, lemma_signed, lemma_units_order};
use crate::order::{lemma_add_order, lemma_clamp_order, lemma_div_order, lemma_gap, lemma_mul_order, lemma_nearest_exact, lemma_nearest_order, lemma_negated, lemma_off_by, lemma_part, lemma_product, lemma_quotient, lemma_sub_order, lemma_sum, lemma_value_bounded, lemma_whole_part, nearest_value};
use crate::rounding::{round_magnitude, lemma_pow2_le};
use crate::scene::knob;
use crate::sliders::{SLIDERS, slider, slider_hit, slider_value_from_mouse, slider_w, slider_x};
use crate::vector::Vec2;

verus! {

/// What is needed of a slider: its range is what the whole length adds to its start.
pub open spec fn spans(lo: Float, hi: Float) -> bool {
    &&& lo.finite() && hi.finite() && hi.sub(lo).finite()
    &&& 0 <= lo.value() <= hi.value()
    &&& pow2(147) <= hi.sub(lo).value() < pow2(150)
    &&& lo.value() <= pow2(148) && hi.value() <= pow2(150)
    &&& lo.add(hi.sub(lo)).finite()
    &&& lo.add(hi.sub(lo)).value() == hi.value()
}

/// The value of a slider lies in its range.
pub proof fn lemma_slider(lo: Float, hi: Float, frac: Float)
    requires
        spans(lo, hi),
        frac.nan() || frac.finite() && 0 <= frac.value() <= dec(1, 1).value(),
    ensures
        ({
            let v = lo.add(frac.mul(hi.sub(lo)));
            &&& frac.nan() ==> v.nan()
            &&& !frac.nan() ==> v.finite() && lo.value() <= v.value() <= hi.value()
        }),
{
    let r = hi.sub(lo);
    if frac.nan() {
        lemma_nan(frac, r);
        lemma_nan(lo, fl(NAN));
    } else {
        lemma_part(frac, r);
        let z = signed(false, 0);
        lemma_signed(false, 0);
        lemma_units_order(0, 0);
        lemma_add_zero(lo, z);
        lemma_add_order(frac.mul(r), r, lo);
        lemma_add_order(z, frac.mul(r), lo);
        lemma_value_bounded(lo.add(frac.mul(r)));
        lemma_value_bounded(lo.add(r));
    }
}

/// The sum or difference of two numbers on a common scale, from its significand.
proof fn lemma_sum_at(a: Float, b: Float, m: nat, j: nat, sh: nat, h: nat)
    requires
        a.finite(),
        b.finite(),
        a.value() + b.value() == m * pow2(j),
        m > 0,
        0x80_0000 <= h < 0x100_0000,
        m >= 0x80_0000 * pow2(sh),
        (2 * h - 1) * pow2(sh) < 2 * m < (2 * h + 1) * pow2(sh),
        j + sh <= 253,
    ensures
        a.add(b).finite(),
        a.add(b).value() == h * pow2(j + sh),
{
    reveal(Float::spec_add);
    lemma_pow2_pos(j);
    assert(1 * pow2(sh) == pow2(sh));
    assert(1 * 0x80_0000 * pow2(sh) == 0x80_0000 * pow2(sh));
    lemma_round_at(m, j, 1, sh, h);
    assert(m * pow2(j) > 0) by (nonlinear_arith)
        requires
            m > 0,
            pow2(j) > 0,
    ;
    lemma_signed(false, round_magnitude(m * pow2(j), 1));
}

proof fn lemma_damping_spans()
    ensures
        spans(dec(0, 1), dec(25, 100)),
{
    let (lo, hi) = (dec(0, 1), dec(25, 100));
    lemma2_to64();
    lemma_dec_is(25, 100, 25, 0x80_0000);
    lemma_pow2_adds(23, 124);
    lemma_pow2_le(147, 148);
    lemma_pow2_le(147, 150);
    vstd::arithmetic::power2::lemma_pow2_strictly_increases(147, 150);
    lemma_pow2_pos(148);
    lemma_dec_int(0);
    lemma_dec_order(0, 1, 25, 100);
    lemma_negated(lo);
    lemma_units_order(0, lo.neg().mag());
    lemma_units_order(0, lo.mag());
    lemma_add_zero(hi, lo.neg());
    let r = hi.sub(lo);
    lemma_add_zero(r, lo);
}

proof fn lemma_room_spans()
    ensures
        spans(dec(4, 10), dec(18, 10)),
{
    let (lo, hi) = (dec(4, 10), dec(18, 10));
    lemma2_to64();
    lemma_dec_order(4, 10, 18, 10);
    lemma_dec_is(4, 10, 25, 13421773);
    lemma_dec_is(18, 10, 23, 15099494);
    let p = pow2(124);
    lemma_pow2_pos(124);
    lemma_pow2_adds(124, 2);
    lemma_pow2_adds(23, 124);
    lemma_pow2_adds(24, 124);
    lemma_pow2_adds(26, 124);
    assert(hi.value() == 60397976 * p);
    lemma_negated(lo);
    lemma_sum_at(hi, lo.neg(), 46976203, 124, 2, 11744051);
    let r = hi.sub(lo);
    assert(r.value() == 46976204 * p);
    lemma_sum_at(lo, r, 60397977, 124, 2, 15099494);
}

proof fn lemma_time_spans()
    ensures
        spans(dec(5, 100), dec(2, 1)),
{
    let (lo, hi) = (dec(5, 100), dec(2, 1));
    lemma2_to64();
    lemma_dec_order(5, 100, 2, 1);
    lemma_dec_is(5, 100, 28, 13421773);
    lemma_dec_int(2);
    let p = pow2(121);
    lemma_pow2_pos(121);
    lemma_pow2_adds(26, 121);
    lemma_pow2_adds(27, 121);
    lemma_pow2_adds(29, 121);
    lemma_pow2_adds(121, 28);
    lemma_pow2_adds(121, 5);
    lemma_pow2_adds(121, 6);
    assert(hi.value() == 536870912 * p);
    lemma_negated(lo);
    lemma_sum_at(hi, lo.neg(), 523449139, 121, 5, 16357786);
    let r = hi.sub(lo);
    assert(r.value() == 523449152 * p);
    lemma_sum_at(lo, r, 536870925, 121, 6, 8388608);
}

/// Every slider covers its range.
pub proof fn lemma_spans(i: usize)
    requires
        i < SLIDERS,
    ensures
        spans(slider(i).lo, slider(i).hi),
{
    lemma_damping_spans();
    lemma_room_spans();
    lemma_time_spans();
}

/// With the mouse at its left end or beyond it a slider gives the least value of its
/// range, at its right end or beyond it the greatest.
pub proof fn slider_ends_reach_the_range(i: usize, x: Float)
    requires
        i < SLIDERS,
        !x.nan(),
    ensures
        x.value() <= 18 * pow2(149) ==> slider_value_from_mouse(i, x).same(slider(i).lo),
        x.value() >= 218 * pow2(149) ==> slider_value_from_mouse(i, x).same(slider(i).hi),
{
    let p = pow2(149);
    lemma_spans(i);
    lemma_along(x);
    let s = slider(i);
    let r = s.hi.sub(s.lo);
    let (left, wide) = (slider_x(), slider_w());
    let raw = x.sub(left).div(wide);
    let frac = along(x);
    lemma_dec_int(218);
    let right = dec(218, 1);
    assert(0 * p == 0 && 1 * p == p);
    lemma_representable(0, 0, 149);
    lemma_representable(200 * p as int, 200, 149);
    lemma_representable(p as int, 1, 149);
    crate::exact::lemma_sub_exact(left, left);
    crate::exact::lemma_sub_exact(right, left);
    assert((200 * p) * p == p * (200 * p) && 0 * p == 0 * (200 * p)) by (nonlinear_arith);
    crate::exact::lemma_div_exact(left.sub(left), wide, 0);
    crate::exact::lemma_div_exact(right.sub(left), wide, p as int);
    lemma_sub_order(x, x, left);
    lemma_div_order(x.sub(left), x.sub(left), wide);
    lemma_clamp(raw, dec(0, 1), dec(1, 1));
    reveal(Float::spec_lt);
    reveal(Float::spec_same);
    if x.value() <= 18 * p {
        lemma_sub_order(x, left, left);
        lemma_div_order(x.sub(left), left.sub(left), wide);
        lemma_units_order(0, frac.mag());
        lemma_mul_zero(r, frac);
        lemma_units_order(0, frac.mul(r).mag());
        lemma_add_zero(s.lo, frac.mul(r));
    }
    if x.value() >= 218 * p {
        lemma_sub_order(right, x, left);
        lemma_div_order(right.sub(left), x.sub(left), wide);
        lemma_whole_part(frac, r);
        lemma_add_order(frac.mul(r), r, s.lo);
        lemma_add_order(r, frac.mul(r), s.lo);
    }
}

/// The distance to a height between 64 and 192 pixels comes out exactly where it is at
/// most 64 pixels and the point is not above 64 pixels.
proof fn lemma_near_distance(y: Float, c: Float, k: nat)
    requires
        y.finite(),
        c.finite(),
        c.value() == k * pow2(149),
        k <= 192,
        y.value() >= 64 * pow2(149),
        -64 * pow2(149) <= y.value() - c.value() <= 64 * pow2(149),
    ensures
        y.sub(c).finite(),
        y.sub(c).value() == y.value() - c.value(),
{
    let p = pow2(149);
    let q = pow2(132);
    lemma2_to64();
    lemma_pow2_pos(149);
    lemma_pow2_pos(132);
    lemma_pow2_adds(17, 132);
    lemma_pow2_adds(24, 131);
    lemma_pow2_adds(6, 149);
    lemma_value_bounded(y);
    let (m, e) = (significand(y.mag()), scale(y.mag()));
    assert(m < 0x100_0000);
    if e <= 131 {
        lemma_pow2_le(e, 131);
        assert(m * pow2(e) < 0x100_0000 * pow2(131)) by (nonlinear_arith)
            requires
                m < 0x100_0000,
                0 < pow2(e) <= pow2(131),
        {
            lemma_pow2_pos(e);
        }
    }
    let j = (e - 132) as nat;
    lemma_pow2_adds(j, 132);
    let a = m * pow2(j);
    assert(y.value() == a * q) by (nonlinear_arith)
        requires
            y.value() == m * pow2(e),
            pow2(e) == pow2(j) * q,
            a == m * pow2(j),
    ;
    let b = k * 0x2_0000;
    let d = a - b;
    assert(y.value() - c.value() == d * q) by (nonlinear_arith)
        requires
            y.value() == a * q,
            c.value() == k * p,
            p == 0x2_0000 * q,
            b == k * 0x2_0000,
            d == a - b,
    ;
    assert(-0x80_0000 <= d <= 0x80_0000) by (nonlinear_arith)
        requires
            -64 * p <= d * q <= 64 * p,
            p == 0x2_0000 * q,
            q > 0,
    ;
    assert((-d) * q == -(d * q)) by (nonlinear_arith);
    assert(d >= 0 ==> d * q >= 0) by (nonlinear_arith)
        requires
            q > 0,
    ;
    assert(d < 0 ==> d * q < 0) by (nonlinear_arith)
        requires
            q > 0,
    ;
    lemma_representable(d * q, size(d), 132);
    crate::exact::lemma_sub_exact(y, c);
}

/// A slider is grasped within ten pixels of its ends and twelve pixels of its height,
/// ends included, and nowhere else.
pub proof fn sliders_are_grasped_near_their_groove(i: usize, m: Vec2)
    requires
        i < SLIDERS,
    ensures
        slider_hit(i, m) <==> {
            &&& !m.x.nan() && !m.y.nan()
            &&& 8 * pow2(149) <= m.x.value() <= 228 * pow2(149)
            &&& -12 * pow2(149) <= m.y.value() - slider(i).y.value() <= 12 * pow2(149)
        },
{
    let p = pow2(149);
    lemma_pow2_pos(149);
    lemma_dec_int(8);
    lemma_dec_int(10);
    lemma_dec_int(12);
    lemma_dec_int(18);
    lemma_dec_int(200);
    lemma_dec_int(92);
    lemma_dec_int(124);
    lemma_dec_int(156);
    lemma_representable(8 * p as int, 8, 149);
    lemma_representable(218 * p as int, 218, 149);
    lemma_representable(228 * p as int, 228, 149);
    crate::exact::lemma_sub_exact(slider_x(), dec(10, 1));
    crate::exact::lemma_add_exact(slider_x(), slider_w());
    crate::exact::lemma_add_exact(slider_x().add(slider_w()), dec(10, 1));
    reveal(Float::spec_le);
    let (y, c) = (m.y, slider(i).y);
    let k: nat = if i == 0 {
        92
    } else if i == 1 {
        124
    } else {
        156
    };
    assert(c.finite() && c.value() == k * p);
    lemma_distance(y, c, k);
}

/// What the distance to a slider says.
proof fn lemma_distance(y: Float, c: Float, k: nat)
    requires
        c.finite(),
        c.value() == k * pow2(149),
        92 <= k <= 192,
    ensures
        y.sub(c).abs().le(dec(12, 1)) <==> !y.nan() && -12 * pow2(149) <= y.value() - c.value() <= 12
            * pow2(149),
{
    let p = pow2(149);
    lemma_pow2_pos(149);
    lemma_dec_int(12);
    reveal(Float::spec_le);
    reveal(Float::spec_abs);
    let g = y.sub(c);
    lemma_signed(false, g.mag());
    if y.nan() {
        lemma_negated(c);
        lemma_nan(y, c.neg());
    } else {
        lemma_value_bounded(y);
        lemma_negated(c);
        lemma_dec_int(64);
        lemma_dec_int((k - 64) as u64);
        lemma_dec_int((k + 64) as u64);
        let (top, near, far) = (dec(64, 1), dec((k - 64) as u64, 1), dec((k + 64) as u64, 1));
        assert((k - 64) * p == k * p - 64 * p && (k + 64) * p == k * p + 64 * p) by (nonlinear_arith);
        assert(28 * p <= (k - 64) * p) by (nonlinear_arith)
            requires
                k >= 92,
                p > 0,
        ;
        lemma_sub_order(y, y, c);
        lemma_representable(64 * p - k * p, (k - 64) as nat, 149);
        lemma_representable(-64 * p, 64, 149);
        lemma_representable(64 * p as int, 64, 149);
        crate::exact::lemma_sub_exact(top, c);
        crate::exact::lemma_sub_exact(near, c);
        crate::exact::lemma_sub_exact(far, c);
        if y.value() <= 64 * p {
            lemma_sub_order(y, top, c);
        } else if y.value() - c.value() < -64 * p {
            lemma_sub_order(y, near, c);
        } else if y.value() - c.value() > 64 * p {
            lemma_sub_order(far, y, c);
        } else {
            assert(k * p <= 192 * p) by (nonlinear_arith)
                requires
                    k <= 192,
                    p > 0,
            ;
            crate::float::lemma_fits(256, 149);
            lemma_units_order(0x7f80_0000, round_magnitude(256 * p, 1));
            lemma_near_distance(y, c, k);
        }
        lemma_value_bounded(g);
    }
}

/// No point is on two sliders.
pub proof fn no_point_is_on_two_sliders(i: usize, j: usize, m: Vec2)
    requires
        i < SLIDERS,
        j < SLIDERS,
        i != j,
    ensures
        !(slider_hit(i, m) && slider_hit(j, m)),
{
    sliders_are_grasped_near_their_groove(i, m);
    sliders_are_grasped_near_their_groove(j, m);
    lemma_pow2_pos(149);
    lemma_dec_int(92);
    lemma_dec_int(124);
    lemma_dec_int(156);
}

/// How far along its length a slider is for a place of the mouse.
spec fn along(x: Float) -> Float {
    x.sub(slider_x()).div(slider_w()).clamp(dec(0, 1), dec(1, 1))
}

proof fn lemma_along(x: Float)
    requires
        !x.nan(),
    ensures
        along(x).finite(),
        0 <= along(x).value() <= pow2(149),
        dec(0, 1).finite() && dec(0, 1).value() == 0,
        dec(1, 1).finite() && dec(1, 1).value() == pow2(149),
        slider_x().finite() && slider_x().value() == 18 * pow2(149),
        slider_w().finite() && slider_w().value() == 200 * pow2(149),
        pow2(149) > 0,
{
    let p = pow2(149);
    lemma_pow2_pos(149);
    lemma_dec_int(0);
    lemma_dec_int(1);
    lemma_dec_int(18);
    lemma_dec_int(200);
    assert(0 * p == 0 && 1 * p == p);
    lemma_sub_order(x, x, slider_x());
    lemma_div_order(x.sub(slider_x()), x.sub(slider_x()), slider_w());
    lemma_clamp(x.sub(slider_x()).div(slider_w()), dec(0, 1), dec(1, 1));
}

/// The further right the mouse, the larger the value of a slider.
pub proof fn slider_values_keep_the_order(i: usize, x: Float, y: Float)
    requires
        i < SLIDERS,
        x.le(y),
    ensures
        slider_value_from_mouse(i, x).le(slider_value_from_mouse(i, y)),
{
    reveal(Float::spec_le);
    lemma_along(x);
    lemma_along(y);
    lemma_spans(i);
    let (lo, hi) = (slider(i).lo, slider(i).hi);
    let r = hi.sub(lo);
    lemma_pow2_pos(147);
    lemma_sub_order(x, y, slider_x());
    lemma_div_order(x.sub(slider_x()), y.sub(slider_x()), slider_w());
    lemma_clamp_order(
        x.sub(slider_x()).div(slider_w()),
        y.sub(slider_x()).div(slider_w()),
        dec(0, 1),
        dec(1, 1),
    );
    lemma_mul_order(along(x), along(y), r);
    lemma_add_order(along(x).mul(r), along(y).mul(r), lo);
}

/// Whatever a slider shows, its knob is on its groove.
pub proof fn knobs_stay_on_the_groove(i: usize, value: Float)
    requires
        i < SLIDERS,
        !value.nan(),
    ensures
        slider_x().le(knob(i, value)),
        knob(i, value).le(slider_x().add(slider_w())),
{
    reveal(Float::spec_le);
    let p = pow2(149);
    let (lo, hi) = (slider(i).lo, slider(i).hi);
    let r = hi.sub(lo);
    lemma_spans(i);
    lemma_pow2_pos(147);
    lemma_along(value);
    lemma_sub_order(value, value, lo);
    lemma_div_order(value.sub(lo), value.sub(lo), r);
    let c = value.sub(lo).div(r).clamp(dec(0, 1), dec(1, 1));
    lemma_clamp(value.sub(lo).div(r), dec(0, 1), dec(1, 1));
    lemma_knob_place(c);
}

/// A knob that is drawn a part `c` along the groove.
proof fn lemma_knob_place(c: Float)
    requires
        c.finite(),
        0 <= c.value() <= pow2(149),
    ensures
        !slider_x().add(c.mul(slider_w())).nan(),
        18 * pow2(149) <= slider_x().add(c.mul(slider_w())).value() <= 218 * pow2(149),
        0 <= c.mul(slider_w()).value() <= 200 * pow2(149),
        c.mul(slider_w()).finite(),
        slider_x().add(slider_w()).value() == 218 * pow2(149),
        !slider_x().add(slider_w()).nan(),
{
    let p = pow2(149);
    lemma_dec_int(0);
    lemma_along(dec(0, 1));
    lemma_part(c, slider_w());
    lemma_sum(slider_x(), c.mul(slider_w()));
    let h = c.mul(slider_w()).value();
    lemma_nearest_order(18 * p as int, 1, 18 * p + h, 1);
    lemma_nearest_order(18 * p + h, 1, 218 * p as int, 1);
    lemma_representable(18 * p as int, 18, 149);
    lemma_representable(218 * p as int, 218, 149);
    lemma_nearest_exact(18 * p as int);
    lemma_nearest_exact(218 * p as int);
    lemma_sum(slider_x(), slider_w());
}

/// What the value of a slider says of the place of the mouse, up to rounding.
proof fn lemma_there(x: Float)
    requires
        x.finite(),
        18 * pow2(149) <= x.value() <= 218 * pow2(149),
    ensures
        -(3 * pow2(133)) <= 2 * (200 * along(x).value() - (x.value() - 18 * pow2(149))) <= 3 * pow2(
            133,
        ),
{
    let p = pow2(149);
    lemma_along(x);
    lemma2_to64();
    lemma_pow2_adds(8, 149);
    lemma_pow2_adds(1, 149);
    lemma_pow2_adds(7, 126);
    lemma_pow2_pos(126);
    let gap = x.value() - 18 * p;
    let d = x.sub(slider_x());
    lemma_gap(x, slider_x());
    lemma_off_by(gap, 1, 133);
    lemma_nearest_order(0, 1, gap, 1);
    lemma_nearest_order(gap, 1, 200 * p as int, 1);
    assert(0 * p == 0);
    lemma_representable(0, 0, 149);
    lemma_representable(200 * p as int, 200, 149);
    lemma_nearest_exact(0);
    lemma_nearest_exact(200 * p as int);
    lemma_value_bounded(d);
    assert(1 * pow2(133) == pow2(133));
    let v = d.value();
    let den = 200 * p;
    lemma_quotient(d, slider_w());
    assert(0 <= v * p < den * pow2(150)) by (nonlinear_arith)
        requires
            0 <= v <= den,
            den == 200 * p,
            p > 0,
            pow2(150) == 2 * p,
    ;
    lemma_off_by(v * p, den, 126);
    let f = nearest_value(v * p, den);
    assert(-(200 * pow2(126)) <= 2 * (200 * f - v) <= 200 * pow2(126)) by (nonlinear_arith)
        requires
            -(den * pow2(126)) <= 2 * (f * den - v * p) <= den * pow2(126),
            den == 200 * p,
            p > 0,
    ;
    // within nothing and one already
    assert(0 * den <= (v * p) * 1 && (v * p) * 1 <= p * den) by (nonlinear_arith)
        requires
            0 <= v <= den,
            p > 0,
    ;
    lemma_nearest_order(0, 1, v * p, den);
    lemma_nearest_order(v * p, den, p as int, 1);
    assert(1 * p == p);
    lemma_representable(p as int, 1, 149);
    lemma_nearest_exact(p as int);
    lemma_clamp(d.div(slider_w()), dec(0, 1), dec(1, 1));
    assert(along(x).value() == f);
}

/// What the knob of a slider says of its value, up to rounding.
proof fn lemma_back(lo: Float, hi: Float, f: Float)
    requires
        spans(lo, hi),
        f.finite(),
        0 <= f.value() <= pow2(149),
    ensures
        ({
            let v = lo.add(f.mul(hi.sub(lo)));
            let c = v.sub(lo).div(hi.sub(lo)).clamp(dec(0, 1), dec(1, 1));
            &&& c.finite()
            &&& 0 <= c.value() <= pow2(149)
            &&& -pow2(131) <= 2 * (c.value() - f.value()) <= pow2(131)
        }),
{
    let p = pow2(149);
    let r = hi.sub(lo);
    let (fv, rv, lv) = (f.value(), r.value(), lo.value());
    lemma_dec_int(0);
    lemma_along(dec(0, 1));
    lemma2_to64();
    lemma_pow2_pos(147);
    lemma_pow2_pos(126);
    lemma_pow2_adds(1, 149);
    lemma_pow2_adds(2, 149);
    lemma_pow2_adds(1, 150);
    lemma_pow2_adds(2, 147);
    lemma_pow2_adds(1, 148);
    lemma_pow2_adds(1, 126);
    lemma_pow2_adds(2, 126);
    lemma_pow2_adds(4, 126);
    lemma_pow2_adds(5, 126);
    lemma_pow2_adds(24, 126);
    lemma_pow2_adds(21, 126);
    let t = pow2(126);
    // along the range
    lemma_product(f, r);
    lemma_part(f, r);
    let g = f.mul(r);
    assert(0 <= fv * rv < p * pow2(150)) by (nonlinear_arith)
        requires
            0 <= fv <= p,
            0 < rv < pow2(150),
            p > 0,
    ;
    lemma_off_by(fv * rv, p, 126);
    let gv = g.value();
    // the value
    let v = lo.add(g);
    lemma_sum(lo, g);
    lemma_off_by(lv + gv, 1, 127);
    lemma_slider(lo, hi, f);
    let vv = v.value();
    // what the value is above the start
    let w = v.sub(lo);
    lemma_gap(v, lo);
    lemma_off_by(vv - lv, 1, 127);
    lemma_value_bounded(w);
    lemma_nearest_order(0, 1, vv - lv, 1);
    assert(0 * p == 0 && 1 * p == p);
    lemma_representable(0, 0, 149);
    lemma_nearest_exact(0);
    let wv = w.value();
    assert(1 * pow2(127) == pow2(127));
    assert(-4 * t <= 2 * (wv - gv) <= 4 * t);
    assert(0 <= wv <= 2 * rv);
    // and how far along the range that is
    lemma_quotient(w, r);
    let rn = rv as nat;
    assert(0 <= wv * p < rn * pow2(151)) by (nonlinear_arith)
        requires
            0 <= wv <= 2 * rn,
            rn > 0,
            p > 0,
            pow2(151) == 4 * p,
    ;
    lemma_off_by(wv * p, rn, 127);
    let x = w.div(r);
    let xv = x.value();
    let e = xv - fv;
    lemma_compose(xv, fv, gv, wv, rv, p as int, t as int);
    lemma_clamp(x, dec(0, 1), dec(1, 1));
    reveal(Float::spec_lt);
}

/// Puts the errors of three roundings together.
proof fn lemma_compose(x: int, f: int, g: int, w: int, r: int, p: int, t: int)
    requires
        p > 0,
        t > 0,
        r > 0,
        p <= 4 * r,
        -(p * t) <= 2 * (g * p - f * r) <= p * t,
        -4 * t <= 2 * (w - g) <= 4 * t,
        -(r * (2 * t)) <= 2 * (x * r - w * p) <= r * (2 * t),
    ensures
        -32 * t <= 2 * (x - f) <= 32 * t,
{
    let d = w - g;
    assert(-4 * (t * p) <= 2 * (d * p) <= 4 * (t * p)) by (nonlinear_arith)
        requires
            -4 * t <= 2 * d <= 4 * t,
            p > 0,
    ;
    assert(d * p == w * p - g * p) by (nonlinear_arith)
        requires
            d == w - g,
    ;
    assert(t * p == p * t && r * (2 * t) == 2 * (t * r)) by (nonlinear_arith);
    assert(t * p <= 4 * (t * r)) by (nonlinear_arith)
        requires
            p <= 4 * r,
            t > 0,
    ;
    let e = x - f;
    assert(e * r == x * r - f * r) by (nonlinear_arith)
        requires
            e == x - f,
    ;
    let (er, xr, fr, wp, gp, tr, tp) = (e * r, x * r, f * r, w * p, g * p, t * r, t * p);
    assert(-2 * tr <= 2 * (xr - wp) <= 2 * tr);
    assert(-4 * tp <= 2 * (wp - gp) <= 4 * tp);
    assert(-tp <= 2 * (gp - fr) <= tp);
    assert(-22 * tr <= 2 * er <= 22 * tr);
    assert(-22 * t <= 2 * e <= 22 * t) by (nonlinear_arith)
        requires
            -22 * (t * r) <= 2 * (e * r) <= 22 * (t * r),
            r > 0,
    ;
}

/// The knob of a slider lies under the mouse that set it, to a thousandth of a pixel.
pub proof fn knobs_lie_under_the_mouse(i: usize, x: Float)
    requires
        i < SLIDERS,
        slider_x().le(x),
        x.le(slider_x().add(slider_w())),
    ensures
        ({
            let k = knob(i, slider_value_from_mouse(i, x));
            &&& k.finite()
            &&& -pow2(149) <= 1024 * (k.value() - x.value()) <= pow2(149)
        }),
{
    let p = pow2(149);
    let (lo, hi) = (slider(i).lo, slider(i).hi);
    let r = hi.sub(lo);
    reveal(Float::spec_le);
    lemma_dec_int(0);
    lemma_pow2_pos(149);
    assert(0 * p == 0);
    lemma_knob_place(dec(0, 1));
    lemma_along(x);
    lemma_value_bounded(x);
    crate::float::lemma_fits(218, 149);
    lemma_units_order(0x7f80_0000, round_magnitude(218 * p, 1));
    assert(x.finite());
    lemma_spans(i);
    lemma_there(x);
    let f = along(x);
    lemma_back(lo, hi, f);
    let v = slider_value_from_mouse(i, x);
    let c = v.sub(lo).div(r).clamp(dec(0, 1), dec(1, 1));
    lemma_knob_place(c);
    lemma2_to64();
    lemma_pow2_adds(8, 149);
    lemma_pow2_adds(2, 131);
    lemma_pow2_adds(16, 133);
    lemma_pow2_pos(131);
    let cv = c.value();
    let h = c.mul(slider_w());
    lemma_product(c, slider_w());
    assert(0 <= cv * (200 * p) < p * pow2(157)) by (nonlinear_arith)
        requires
            0 <= cv <= p,
            p > 0,
            pow2(157) == 256 * p,
    ;
    lemma_off_by(cv * (200 * p), p, 133);
    let hv = h.value();
    assert(-pow2(133) <= 2 * (hv - 200 * cv) <= pow2(133)) by (nonlinear_arith)
        requires
            -(p * pow2(133)) <= 2 * (hv * p - cv * (200 * p)) <= p * pow2(133),
            p > 0,
    ;
    lemma_sum(slider_x(), h);
    lemma_off_by(18 * p + hv, 1, 133);
    assert(1 * pow2(133) == pow2(133));
    let k = slider_x().add(h);
    lemma_value_bounded(k);
}

} // verus!
