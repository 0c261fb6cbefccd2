//! What keys and mouse do to the row and the settings, and what a frame keeps of the
//! balls, counted against exact arithmetic.

use vstd::prelude::*;
use vstd::arithmetic::power2::pow2;
use crate::config::Config;
use crate::cradle::{Ball, ball_r, string_l};
use crate::exact::lemma_dec_int;
use crate::float::{Float, dec, of_nat};
use crate::near::{abs, between, near, num, tiny, lemma_abs_num, lemma_abs_product, lemma_add_near, lemma_compare, lemma_dec_near, lemma_div_near, lemma_int_num, lemma_le_times, lemma_mul_near, lemma_nat_num, lemma_near_clamp, lemma_near_div, lemma_near_mul, lemma_near_sub, lemma_neg_num, lemma_num_order, lemma_sub_near, lemma_times_dec, lemma_tiny};
use crate::order::lemma_product;
use crate::session::{Grip, Keys, Mouse, Row, after_keys, camera, extended, grasped, gripped, nudged, pulled_row, rush, slid, tuned};
use crate::session_laws::{distance, nearest_ball_is_grasped, reach_squared};
use crate::sliders::{slider_at, slider_value_from_mouse};
use crate::vector::Vec2;

verus! {

/// A setting that is lowered or raised by `by` hundredths.
proof fn lemma_nudged(x: Float, down: bool, up: bool, by: u64, lo: Float, hi: Float)
    requires
        x.finite(),
        lo.finite(),
        hi.finite(),
        0real <= num(lo) <= num(hi) <= 2real,
        num(lo) <= num(x) <= num(hi),
        0 < by <= 100,
    ensures
        ({
            let b = by as real / 100real;
            let lower: real = if down {
                between(num(x) - b, num(lo), num(hi))
            } else {
                num(x)
            };
            let then: real = if up {
                between(lower + b, num(lo), num(hi))
            } else {
                lower
            };
            near(nudged(x, down, up, dec(by, 100), lo, hi), then, 1real / 1000000real)
        }),
{
    lemma_tiny();
    let b = by as real / 100real;
    lemma_dec_near(by, 100);
    lemma_sub_near(x, dec(by, 100));
    let d = x.sub(dec(by, 100));
    lemma_near_clamp(d, num(x) - b, 1real / 0x30_0000real, lo, hi);
    let y = if down {
        d.clamp(lo, hi)
    } else {
        x
    };
    lemma_add_near(y, dec(by, 100));
    let lower: real = if down {
        between(num(x) - b, num(lo), num(hi))
    } else {
        num(x)
    };
    lemma_near_clamp(y.add(dec(by, 100)), lower + b, 1real / 1000000real, lo, hi);
}

/// One of two keys lowers a setting and the other raises it, between its ends.
pub open spec fn stepped(x: real, down: bool, up: bool, by: real, lo: real, hi: real) -> real {
    let lower: real = if down {
        between(x - by, lo, hi)
    } else {
        x
    };
    if up {
        between(lower + by, lo, hi)
    } else {
        lower
    }
}

/// The keys for sound and time: one turns the sound off and on, two change the volume by
/// a twentieth between nothing and one, two change the pace by a tenth between a twentieth
/// and two; and nothing else changes.
pub proof fn keys_tune_sound_and_time(c: Config, keys: Keys)
    requires
        c.volume.finite(),
        0real <= num(c.volume) <= 1real,
        c.time_scale.finite(),
        num(dec(5, 100)) <= num(c.time_scale) <= 2real,
    ensures
        ({
            let t = tuned(c, keys);
            &&& t.mute == if keys.mute {
                !c.mute
            } else {
                c.mute
            }
            &&& near(
                t.volume,
                stepped(num(c.volume), keys.softer, keys.louder, 5real / 100real, 0real, 1real),
                1real / 1000000real,
            )
            &&& near(
                t.time_scale,
                stepped(
                    num(c.time_scale),
                    keys.slower,
                    keys.faster,
                    10real / 100real,
                    num(dec(5, 100)),
                    2real,
                ),
                1real / 1000000real,
            )
            &&& t.damping == c.damping && t.room == c.room && t.n_balls == c.n_balls
        }),
        near(dec(5, 100), 5real / 100real, 1real / 100000000real),
{
    lemma_tiny();
    lemma_int_num(0);
    lemma_int_num(1);
    lemma_int_num(2);
    lemma_dec_near(5, 100);
    lemma_nudged(c.volume, keys.softer, keys.louder, 5, dec(0, 1), dec(1, 1));
    assert(dec(1, 10) == dec(10, 100)) by {
        lemma_tenth();
    }
    lemma_nudged(c.time_scale, keys.slower, keys.faster, 10, dec(5, 100), dec(2, 1));
}

/// Ten hundredths are a tenth.
proof fn lemma_tenth()
    ensures
        dec(1, 10) == dec(10, 100),
{
    reveal(crate::float::spec_dec);
    vstd::arithmetic::power2::lemma_pow2_pos(149);
    crate::rounding::lemma_round_scale(1 * pow2(149), 10, 10);
    assert((1 * pow2(149)) * 10 == 10 * pow2(149));
}

/// Ball `i` of a row of `n` hangs `28 * (2 * i + 1 - n)` pixels right of the middle of the
/// screen; the first `k` are pulled to the left by 0.9, the others hang straight down, and
/// none moves.
pub proof fn rows_are_hung_around_the_middle(n: nat, sw: Float, k: nat, i: nat)
    requires
        i < n <= 7,
        sw.finite(),
        abs(num(sw)) <= 0x1_0000real,
    ensures
        pulled_row(n, sw, k).len() == n,
        ({
            let b = pulled_row(n, sw, k)[i as int];
            &&& near(
                b.pivot_x,
                num(sw) / 2real + 28real * (2real * i as real + 1real - n as real),
                (abs(num(sw)) + 1000real) / 0x10_0000real,
            )
            &&& i < k ==> near(b.theta, -9real / 10real, 1real / 10000000real)
            &&& i >= k ==> b.theta.value() == 0
            &&& b.omega.value() == 0
        }),
{
    lemma_tiny();
    lemma_dec_int(0);
    assert(0 * pow2(149) == 0);
    lemma_dec_near(9, 10);
    lemma_neg_num(dec(9, 10));
    lemma_times_dec(1, 2, sw);
    lemma_place(n, i);
    let h = of_nat(i).sub(of_nat(n).sub(dec(1, 1)).div(dec(2, 1))).mul(dec(2, 1).mul(ball_r()));
    lemma_add_near(sw.mul(dec(1, 2)), h);
}

/// The place of a ball in its row.
proof fn lemma_place(n: nat, i: nat)
    requires
        i < n <= 7,
    ensures
        near(
            of_nat(i).sub(of_nat(n).sub(dec(1, 1)).div(dec(2, 1))).mul(dec(2, 1).mul(ball_r())),
            28real * (2real * i as real + 1real - n as real),
            1real / 2000real,
        ),
{
    lemma_tiny();
    lemma_int_num(1);
    lemma_int_num(2);
    lemma_int_num(28);
    lemma_nat_num(n);
    lemma_nat_num(i);
    let (x, y) = (n as real, i as real);
    lemma_sub_near(of_nat(n), dec(1, 1));
    let a = of_nat(n).sub(dec(1, 1));
    lemma_near_div(a, x - 1real, 7real / 0x100_0000real, dec(2, 1), 2real, 4real);
    let b = a.div(dec(2, 1));
    let c = of_nat(i).sub(b);
    lemma_near_sub(of_nat(i), y, 0real, b, (x - 1real) / 2real, 8real / 0x100_0000real, 8real);
    lemma_times_dec(2, 1, ball_r());
    let d = dec(2, 1).mul(ball_r());
    let z = y - (x - 1real) / 2real;
    lemma_near_mul(c, z, 16real / 0x100_0000real, 8real, d, 56real, 1real / 0x1_0000real, 57real);
    assert(z * 56real == 28real * (2real * y + 1real - x)) by (nonlinear_arith)
        requires
            z == y - (x - 1real) / 2real,
    ;
}

/// Which of the keys that pull balls aside counts: the last one for which there are
/// enough balls, or none.
pub open spec fn pulled_by(keys: Keys, n: nat) -> nat {
    if keys.pull4 && n >= 4 {
        4
    } else if keys.pull3 && n >= 3 {
        3
    } else if keys.pull2 && n >= 2 {
        2
    } else if keys.pull1 && n >= 1 {
        1
    } else {
        0
    }
}

/// The keys for the row: one more ball up to seven, one fewer down to three; a key that
/// pulls hangs the row anew with as many balls aside; else a change of the count hangs it
/// at rest, and a reset with one ball aside; else it stays. A held ball is let go where the
/// count changes and at a reset.
pub proof fn keys_change_the_row(r: Row, keys: Keys, sw: Float)
    requires
        3 <= r.n <= 7,
    ensures
        ({
            let s = after_keys(r, keys, sw);
            let grown: nat = if keys.more && r.n < 7 {
                r.n + 1
            } else {
                r.n
            };
            let changed = (keys.more && r.n < 7) || (keys.fewer && grown > 3);
            &&& s.n == if keys.fewer && grown > 3 {
                (grown - 1) as nat
            } else {
                grown
            }
            &&& s.balls == if pulled_by(keys, s.n) > 0 {
                pulled_row(s.n, sw, pulled_by(keys, s.n))
            } else if changed {
                pulled_row(s.n, sw, 0)
            } else if keys.reset {
                pulled_row(r.n, sw, 1)
            } else {
                r.balls
            }
            &&& s.dragging == if changed || keys.reset {
                None
            } else {
                r.dragging
            }
        }),
{
}

/// A slider sets what it is for: the first the damping, the second the room, the third the
/// pace; and nothing else.
pub proof fn sliders_set_their_setting(c: Config, i: usize, x: Float)
    requires
        i < 3,
    ensures
        ({
            let s = slid(c, Some(i), x);
            let v = slider_value_from_mouse(i, x);
            &&& s.damping == if i == 0 {
                v
            } else {
                c.damping
            }
            &&& s.room == if i == 1 {
                v
            } else {
                c.room
            }
            &&& s.time_scale == if i == 2 {
                v
            } else {
                c.time_scale
            }
            &&& s.volume == c.volume && s.mute == c.mute && s.n_balls == c.n_balls
        }),
        slid(c, None, x) == c,
{
}

/// The mouse takes hold of a slider or else of a ball when its button goes down, moves the
/// slider it holds, and lets go of both when its button goes up; letting go of the slider
/// for the room asks for new sounds.
pub proof fn mouse_takes_and_lets_go(g: Grip, mouse: Mouse, places: Seq<Vec2>)
    ensures
        ({
            let s = gripped(g, mouse, places);
            let slider = if mouse.pressed {
                slider_at(mouse.at)
            } else {
                g.active_slider
            };
            &&& mouse.released ==> s.dragging is None && s.active_slider is None
            &&& !mouse.released ==> s.active_slider == slider
            &&& !mouse.released && mouse.pressed && slider is None ==> s.dragging == grasped(
                places,
                mouse.at,
            )
            &&& !mouse.released && (!mouse.pressed || slider is Some) ==> s.dragging == g.dragging
            &&& s.need_rebuild == (g.need_rebuild || (mouse.released && slider == Some(1usize)))
            &&& slider is None ==> s.config == g.config
            &&& slider matches Some(i) ==> s.config == slid(g.config, Some(i), mouse.at.x)
        }),
{
}

/// The square of the distance between two points.
pub open spec fn square_distance(p: Vec2, q: Vec2) -> real {
    (num(p.x) - num(q.x)) * (num(p.x) - num(q.x)) + (num(p.y) - num(q.y)) * (num(p.y) - num(q.y))
}

/// Whether a point is one that a screen can show.
pub open spec fn shown(p: Vec2) -> bool {
    p.x.finite() && p.y.finite() && abs(num(p.x)) <= 0x1_0000real && abs(num(p.y)) <= 0x1_0000real
}

/// The square of a number that is close.
pub proof fn lemma_square(a: Float, x: real)
    requires
        near(a, x, abs(x) / 0x100_0000real),
        abs(x) <= 0x2_0000real,
    ensures
        near(a.mul(a), x * x, (x * x) / 0x30_0000real + tiny()),
        x * x >= 0real,
        x * x <= 0x4_0000_0000real,
{
    lemma_tiny();
    let (u, m) = (num(a), abs(x));
    let e = m / 0x100_0000real;
    lemma_abs_product(x, x, m, m);
    lemma_abs_product(x, x, 0x2_0000real, 0x2_0000real);
    lemma_abs_product(u - x, u + x, e, 3real * m);
    assert((u - x) * (u + x) == u * u - x * x) by (nonlinear_arith);
    let q = m * m;
    assert(e * (3real * m) == 3real * q / 0x100_0000real) by (nonlinear_arith)
        requires
            e == m / 0x100_0000real,
            q == m * m,
    ;
    assert(x * x == q) by (nonlinear_arith)
        requires
            q == m * m,
            m == x || m == -x,
    ;
    lemma_abs_product(u, u, 2real * m, 2real * m);
    assert((2real * m) * (2real * m) == 4real * q) by (nonlinear_arith)
        requires
            q == m * m,
    ;
    lemma_mul_near(a, a);
}

/// The square of a distance comes out to a millionth.
pub proof fn distances_are_square(p: Vec2, q: Vec2)
    requires
        shown(p),
        shown(q),
    ensures
        near(
            p.sub(q).length_squared(),
            square_distance(p, q),
            square_distance(p, q) / 0x20_0000real + 4real * tiny(),
        ),
        0real <= square_distance(p, q) <= 0x8_0000_0000real,
{
    lemma_tiny();
    lemma_sub_near(p.x, q.x);
    lemma_sub_near(p.y, q.y);
    let d = p.sub(q);
    lemma_square(d.x, num(p.x) - num(q.x));
    lemma_square(d.y, num(p.y) - num(q.y));
    lemma_add_near(d.x.mul(d.x), d.y.mul(d.y));
}

/// The reach of the mouse, squared.
proof fn lemma_reach()
    ensures
        near(
            ball_r().mul(dec(18, 10)).mul(ball_r().mul(dec(18, 10))),
            254016real / 100real,
            1real / 100real,
        ),
{
    lemma_tiny();
    lemma_int_num(28);
    lemma_times_dec(18, 10, ball_r());
    let r = ball_r().mul(dec(18, 10));
    let x = 504real / 10real;
    lemma_near_mul(r, x, 1real / 0x1_0000real, 51real, r, x, 1real / 0x1_0000real, 51real);
    assert(x * x == 254016real / 100real) by (nonlinear_arith)
        requires
            x == 504real / 10real,
    ;
}

/// The ball that a press grasps is within 50.4 pixels of the mouse, 1.8 times its radius, and
/// no other is nearer, up to a millionth; and where a ball is within that reach, one is
/// grasped.
pub proof fn presses_grasp_the_nearest_ball(places: Seq<Vec2>, at: Vec2, j: int)
    requires
        places.len() <= usize::MAX,
        0 <= j < places.len(),
        shown(at),
        forall|i: int| 0 <= i < places.len() ==> shown(#[trigger] places[i]),
    ensures
        square_distance(places[j], at) <= 2540real ==> grasped(places, at) is Some,
        grasped(places, at) matches Some(i) ==> {
            &&& i < places.len()
            &&& square_distance(places[i as int], at) <= 254100real / 100real
            &&& square_distance(places[i as int], at) <= square_distance(places[j], at)
                + square_distance(places[j], at) / 0x8_0000real + 16real * tiny()
        },
{
    lemma_tiny();
    nearest_ball_is_grasped(places, at);
    lemma_reach();
    distances_are_square(places[j], at);
    assert(distance(places, at, j) == places[j].sub(at).length_squared());
    let r = reach_squared();
    lemma_compare(distance(places, at, j), r);
    if let Some(i) = grasped(places, at) {
        distances_are_square(places[i as int], at);
        lemma_compare(distance(places, at, i as int), r);
        lemma_compare(distance(places, at, j), distance(places, at, i as int));
    }
}

/// Whether a product is below nothing.
proof fn lemma_opposite(a: Float, b: Float)
    requires
        a.finite(),
        b.finite(),
        abs(num(a)) <= 0x1_0000real,
        abs(num(b)) <= 0x1_0000real,
    ensures
        num(a) * num(b) < -(2real * tiny()) ==> a.mul(b).lt(dec(0, 1)),
        num(a) * num(b) >= 0real ==> !a.mul(b).lt(dec(0, 1)),
{
    lemma_tiny();
    lemma_int_num(0);
    lemma_dec_int(0);
    assert(0 * pow2(149) == 0);
    let (x, y) = (num(a), num(b));
    lemma_abs_product(x, y, 0x1_0000real, 0x1_0000real);
    lemma_mul_near(a, b);
    lemma_compare(a.mul(b), dec(0, 1));
    if x * y >= 0real {
        lemma_product(a, b);
        lemma_num_order(dec(0, 1), a);
        lemma_num_order(dec(0, 1), b);
        lemma_num_order(a, dec(0, 1));
        lemma_num_order(b, dec(0, 1));
        let (u, v) = (a.value(), b.value());
        assert((x >= 0real && y >= 0real) || (x <= 0real && y <= 0real)) by (nonlinear_arith)
            requires
                x * y >= 0real,
        ;
        assert(u * v >= 0) by (nonlinear_arith)
            requires
                (u >= 0 && v >= 0) || (u <= 0 && v <= 0),
        ;
        lemma_num_order(dec(0, 1), a.mul(b));
    }
}

/// Whether the numbers of a ball are ones that it can have.
pub open spec fn steady(prev: Float, b: Ball) -> bool {
    &&& prev.finite() && abs(num(prev)) <= 0x1_0000real
    &&& b.theta.finite() && abs(num(b.theta)) <= 0x1_0000real
    &&& b.omega.finite() && abs(num(b.omega)) <= 0x1_0000real
}

/// The speed of a ball.
proof fn lemma_speed(omega: Float)
    requires
        omega.finite(),
        abs(num(omega)) <= 0x1_0000real,
    ensures
        near(
            string_l().mul(omega.abs()),
            250real * abs(num(omega)),
            250real * abs(num(omega)) / 0x40_0000real + tiny(),
        ),
{
    lemma_abs_num(omega);
    lemma_times_dec(250, 1, omega.abs());
}

/// The sweep that is heard is that of a ball whose angle has changed its side since the
/// last frame, at 250 times its angular velocity, at its place; and of no slower one: every
/// ball among the first `k` that has changed its side is as slow, up to a millionth.
pub proof fn balls_that_cross_the_bottom_rush(
    prev: Seq<Float>,
    balls: Seq<Ball>,
    places: Seq<Vec2>,
    sw: Float,
    k: nat,
)
    requires
        k <= balls.len(),
        prev.len() == balls.len() == places.len(),
        forall|i: int| 0 <= i < k ==> steady(#[trigger] prev[i], balls[i]),
    ensures
        ({
            let r = rush(prev, balls, places, sw, k);
            &&& r.0.finite() && num(r.0) >= 0real
            &&& num(r.0) == 0real || exists|i: int|
                0 <= i < k && num(prev[i]) * num(#[trigger] balls[i].theta) < 0real && r.1 == places[i].x
                    && near(
                    r.0,
                    250real * abs(num(balls[i].omega)),
                    250real * abs(num(balls[i].omega)) / 0x40_0000real + tiny(),
                )
            &&& forall|i: int|
                0 <= i < k && num(prev[i]) * num(#[trigger] balls[i].theta) < -(2real * tiny()) ==> num(r.0)
                    >= 250real * abs(num(balls[i].omega)) - 250real * abs(num(balls[i].omega)) / 0x40_0000real
                    - tiny()
        }),
    decreases k,
{
    lemma_int_num(0);
    lemma_tiny();
    if k > 0 {
        let j = k - 1;
        balls_that_cross_the_bottom_rush(prev, balls, places, sw, j as nat);
        let best = rush(prev, balls, places, sw, j as nat);
        let r = rush(prev, balls, places, sw, k);
        assert(steady(prev[j], balls[j]));
        lemma_opposite(prev[j], balls[j].theta);
        lemma_speed(balls[j].omega);
        let sp = string_l().mul(balls[j].omega.abs());
        lemma_compare(best.0, sp);
        let crossed = prev[j].mul(balls[j].theta).lt(dec(0, 1));
        if crossed && best.0.lt(sp) {
            assert(r == (sp, places[j].x));
            assert(num(prev[j]) * num(balls[j].theta) < 0real);
        } else {
            assert(r == best);
        }
    }
}

/// A trail is extended at its end, and keeps the last 22 places.
pub proof fn trails_remember_the_last_places(trail: Seq<Vec2>, p: Vec2)
    requires
        trail.len() <= 22,
    ensures
        extended(trail, p).len() == if trail.len() < 22 {
            trail.len() + 1
        } else {
            22
        },
        extended(trail, p).last() == p,
        forall|i: int|
            0 <= i < extended(trail, p).len() - 1 ==> #[trigger] extended(trail, p)[i] == trail[i
                + trail.len() - (extended(trail, p).len() - 1)],
{
}

/// The view shows the screen from edge to edge, with its middle where the shaking puts it.
pub proof fn cameras_show_the_screen(sw: Float, sh: Float, off: Vec2)
    requires
        sw.finite(),
        sh.finite(),
        1real <= num(sw) <= 0x1_0000real,
        1real <= num(sh) <= 0x1_0000real,
        off.x.finite(),
        off.y.finite(),
        abs(num(off.x)) <= 0x400real,
        abs(num(off.y)) <= 0x400real,
    ensures
        ({
            let v = camera(sw, sh, off);
            &&& near(v.zoom.x, 2real / num(sw), 1real / 0x10_0000real)
            &&& near(v.zoom.y, 2real / num(sh), 1real / 0x10_0000real)
            &&& near(v.target.x, num(sw) / 2real + num(off.x), (num(sw) + 1000real) / 0x10_0000real)
            &&& near(v.target.y, num(sh) / 2real + num(off.y), (num(sh) + 1000real) / 0x10_0000real)
        }),
{
    lemma_half_and_more(sw, off.x);
    lemma_half_and_more(sh, off.y);
    lemma_two_over(sw);
    lemma_two_over(sh);
}

proof fn lemma_half_and_more(a: Float, b: Float)
    requires
        a.finite(),
        b.finite(),
        1real <= num(a) <= 0x1_0000real,
        abs(num(b)) <= 0x400real,
    ensures
        near(a.mul(dec(5, 10)).add(b), num(a) / 2real + num(b), (num(a) + 1000real) / 0x10_0000real),
{
    lemma_tiny();
    lemma_times_dec(5, 10, a);
    lemma_add_near(a.mul(dec(5, 10)), b);
}

proof fn lemma_two_over(a: Float)
    requires
        a.finite(),
        1real <= num(a) <= 0x1_0000real,
    ensures
        near(dec(2, 1).div(a), 2real / num(a), 1real / 0x10_0000real),
{
    lemma_tiny();
    lemma_int_num(2);
    let x = num(a);
    lemma_le_times(1real, x, 0x1_0000_0000_0000_0000real);
    lemma_div_near(dec(2, 1), a);
    let q = 2real / x;
    assert(0real <= q <= 2real) by (nonlinear_arith)
        requires
            q == 2real / x,
            x >= 1real,
    ;
}

} // verus!
