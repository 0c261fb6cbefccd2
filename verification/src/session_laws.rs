//! What holds of a running cradle whatever happens in a frame.

use vstd::prelude::*;
use vstd::arithmetic::power2::{pow2, lemma_pow2_pos};
use crate::bounds::{at_most, lemma_add_at_most, lemma_clamp, lemma_dec_order, lemma_mul_at_most, lemma_nan, lemma_saturated_at_most};
use crate::config::Config;
use crate::cradle::{Ball, Impact, Sweep, ball_r, resolved, string_l, sweep_once, swept, swung};
use crate::cradle_laws::no_time_no_motion;
use crate::dust::{Particle, aged, alive, moved, puff_size, speed_full, strength};
use crate::exact::{lemma_add_zero, lemma_dec_int, lemma_mul_zero, lemma_sub_zero};
use crate::float::{Float, dec, of_nat, lemma_difference, lemma_of_nat_exact, lemma_signed, lemma_units_order};
use crate::order::{lemma_mul_order, lemma_whole_part};
use crate::rounding::{round_magnitude, lemma_round_monotone, lemma_round_zero};
use crate::session::{calmed, clack, grasped, nearest, rush, shaken, sweep, times};
use crate::vector::Vec2;

verus! {

/// The length of the longest frame.
pub open spec fn longest() -> Float {
    dec(1, 1).div(dec(30, 1))
}

proof fn lemma_longest()
    ensures
        at_most(longest(), 1),
        !longest().negative(),
        longest().units() > 0,
{
    reveal(Float::spec_div);
    lemma_dec_int(1);
    lemma_dec_int(30);
    lemma_pow2_pos(149);
    let p = pow2(149);
    let (num, den) = ((1 * p) * p, 30 * p);
    lemma_units_order(0, dec(30, 1).mag());
    assert((1 * p) * p * 1 <= (1 * p) * (30 * p)) by (nonlinear_arith)
        requires
            p > 0,
    ;
    lemma_round_monotone((1 * p) * p, 30 * p, 1 * p, 1);
    crate::float::lemma_fits(1, 149);
    let r = round_magnitude((1 * p) * p, 30 * p);
    lemma_units_order(round_magnitude(1 * p, 1), r);
    lemma_signed(false, r);
    vstd::arithmetic::power2::lemma_pow2_adds(5, 144);
    vstd::arithmetic::power2::lemma2_to64();
    lemma_pow2_pos(144);
    crate::float::lemma_fits(1, 144);
    let q = pow2(144);
    assert((1 * q) * (30 * p) <= (1 * p) * p * 1) by (nonlinear_arith)
        requires
            p == 32 * q,
            q > 0,
    ;
    lemma_round_monotone(1 * q, 1, (1 * p) * p, 30 * p);
    lemma_units_order(r, round_magnitude(1 * q, 1));
}

/// However long a frame takes, the toy moves on by a thirtieth of a second at most.
pub proof fn long_frames_are_cut(frame_time: Float, paused: bool, time_scale: Float)
    ensures
        times(frame_time, paused, time_scale).real_dt.le(longest()),
{
    lemma_longest();
    reveal(Float::spec_lt);
    reveal(Float::spec_le);
}

/// While the toy is paused no time passes for it.
pub proof fn pause_stops_time(frame_time: Float, time_scale: Float)
    requires
        frame_time.finite(),
    ensures
        times(frame_time, true, time_scale).sim_dt.same(dec(0, 1)),
        times(frame_time, true, time_scale).dt.same(dec(0, 1)),
{
    let t = times(frame_time, true, time_scale);
    lemma_longest();
    lemma_dec_int(0);
    lemma_of_nat_exact(16);
    lemma_pow2_pos(149);
    let p = pow2(149);
    reveal(Float::spec_div);
    reveal(Float::spec_same);
    lemma_units_order(0, of_nat(16).mag());
    lemma_units_order(0, dec(0, 1).mag());
    lemma_units_order(0, 0);
    lemma_mul_zero(t.real_dt, dec(0, 1));
    lemma_signed(true, 0);
    lemma_signed(false, 0);
    assert(t.sim_dt.units() * p == 0) by (nonlinear_arith)
        requires
            t.sim_dt.units() == 0,
    ;
    lemma_round_zero(of_nat(16).units());
    assert(t.dt.finite() && t.dt.mag() == 0);
}

/// While the toy is paused no ball moves.
pub proof fn paused_balls_stand_still(b: Ball, sin: Float, damping: Float, frame_time: Float, time_scale: Float)
    requires
        frame_time.finite(),
        b.theta.finite(),
        b.omega.finite(),
        sin.units() <= pow2(149),
        damping.units() <= pow2(149),
    ensures
        ({
            let after = swung(b, sin, damping, times(frame_time, true, time_scale).dt);
            after.theta.same(b.theta) && after.omega.same(b.omega) && after.pivot_x == b.pivot_x
        }),
{
    let dt = times(frame_time, true, time_scale).dt;
    pause_stops_time(frame_time, time_scale);
    lemma_dec_int(0);
    lemma_units_order(0, dt.mag());
    reveal(Float::spec_same);
    no_time_no_motion(b, sin, damping, dt);
    let after = swung(b, sin, damping, dt);
    lemma_units_order(after.theta.mag(), b.theta.mag());
    lemma_units_order(after.omega.mag(), b.omega.mag());
}

/// Whether two particles are the same, number by number.
pub open spec fn same_particle(p: Particle, q: Particle) -> bool {
    &&& p.pos.x.same(q.pos.x) && p.pos.y.same(q.pos.y)
    &&& p.vel.x.same(q.vel.x) && p.vel.y.same(q.vel.y)
    &&& p.life.same(q.life)
    &&& p.life0 == q.life0 && p.size == q.size && p.spark == q.spark
}

/// Whether the numbers that move a particle are finite.
pub open spec fn tame(p: Particle) -> bool {
    p.pos.x.finite() && p.pos.y.finite() && p.vel.x.finite() && p.vel.y.finite() && p.life.finite()
}

/// A velocity that is not slowed down, and a place that is not left.
proof fn lemma_hangs(pos: Float, vel: Float, keep: Float, dt: Float)
    requires
        pos.finite(),
        vel.finite(),
        keep.finite(),
        keep.value() == pow2(149),
        dt.mag() == 0,
    ensures
        vel.mul(keep).same(vel),
        pos.add(vel.mul(keep).mul(dt)).same(pos),
{
    lemma_pow2_pos(149);
    lemma_dec_int(1);
    assert(1 * pow2(149) == pow2(149));
    lemma_whole_part(keep, vel);
    lemma_mul_order(vel, vel, keep);
    lemma_mul_zero(vel.mul(keep), dt);
    lemma_add_zero(pos, vel.mul(keep).mul(dt));
    reveal(Float::spec_same);
}

/// While no time passes a living particle stays as it is.
proof fn lemma_particle_hangs(p: Particle, dt: Float)
    requires
        tame(p),
        alive(p),
        dt.mag() == 0,
    ensures
        same_particle(moved(p, dt), p),
        alive(moved(p, dt)),
{
    lemma_pow2_pos(149);
    lemma_dec_int(0);
    lemma_dec_int(1);
    lemma_dec_int(2);
    lemma_dec_int(900);
    lemma_dec_order(0, 1, 9, 10);
    assert(0 * pow2(149) == 0 && 1 * pow2(149) == pow2(149));
    lemma_units_order(0, 0);
    let fall = dec(900, 1).mul(dt);
    let slow = dec(2, 1).mul(dt);
    lemma_mul_zero(dec(900, 1), dt);
    lemma_mul_zero(dec(2, 1), dt);
    assert(slow.min(dec(9, 10)) == slow) by {
        reveal(Float::spec_lt);
    }
    lemma_sub_zero(dec(1, 1), slow);
    let keep = dec(1, 1).sub(slow);
    lemma_add_zero(p.vel.y, fall);
    let vy = p.vel.y.add(fall);
    lemma_hangs(p.pos.x, p.vel.x, keep, dt);
    lemma_hangs(p.pos.y, vy, keep, dt);
    lemma_sub_zero(p.life, dt);
    reveal(Float::spec_same);
    reveal(Float::spec_lt);
}

/// While no time passes the dust hangs in the air.
pub proof fn dust_hangs_while_no_time_passes(s: Seq<Particle>, dt: Float)
    requires
        dt.mag() == 0,
        forall|i: int| 0 <= i < s.len() ==> tame(#[trigger] s[i]) && alive(s[i]),
    ensures
        aged(s, dt).len() == s.len(),
        forall|i: int| 0 <= i < s.len() ==> same_particle(#[trigger] aged(s, dt)[i], s[i]),
{
    let m = s.map_values(|p: Particle| moved(p, dt));
    let f = |p: Particle| alive(p);
    assert forall|i: int| 0 <= i < s.len() implies alive(#[trigger] m[i]) && same_particle(m[i], s[i]) by {
        lemma_particle_hangs(s[i], dt);
    }
    lemma_all_stay(m, f);
}

proof fn lemma_all_stay(m: Seq<Particle>, f: spec_fn(Particle) -> bool)
    requires
        forall|i: int| 0 <= i < m.len() ==> f(#[trigger] m[i]),
    ensures
        m.filter(f) == m,
    decreases m.len(),
{
    reveal(Seq::filter);
    if m.len() > 0 {
        lemma_all_stay(m.drop_last(), f);
        assert(m.drop_last().push(m.last()) =~= m);
    }
}

/// While the toy is paused the dust hangs in the air.
pub proof fn paused_dust_hangs_in_the_air(s: Seq<Particle>, frame_time: Float, time_scale: Float)
    requires
        frame_time.finite(),
        forall|i: int| 0 <= i < s.len() ==> tame(#[trigger] s[i]) && alive(s[i]),
    ensures
        aged(s, times(frame_time, true, time_scale).sim_dt).len() == s.len(),
        forall|i: int|
            0 <= i < s.len() ==> same_particle(
                #[trigger] aged(s, times(frame_time, true, time_scale).sim_dt)[i],
                s[i],
            ),
{
    let dt = times(frame_time, true, time_scale).sim_dt;
    pause_stops_time(frame_time, time_scale);
    lemma_dec_int(0);
    lemma_units_order(0, dt.mag());
    reveal(Float::spec_same);
    dust_hangs_while_no_time_passes(s, dt);
}

/// Whether an amplitude of shaking is between nothing and the most there is.
pub open spec fn within_reach(shake: Float) -> bool {
    dec(0, 1).le(shake) && shake.le(dec(16, 1))
}

/// No impact shakes the screen further than it may shake.
pub proof fn impacts_shake_within_reach(shake: Float, speed: Float)
    requires
        within_reach(shake),
    ensures
        within_reach(shaken(shake, speed)),
{
    lemma_dec_int(0);
    lemma_dec_int(1);
    lemma_dec_int(16);
    lemma_dec_order(0, 1, 1, 1);
    reveal(Float::spec_lt);
    reveal(Float::spec_le);
    let raw = speed.sub(dec(600, 1)).div(speed_full());
    let k = raw.clamp(dec(0, 1), dec(1, 1));
    lemma_clamp(raw, dec(0, 1), dec(1, 1));
    if !raw.nan() {
        lemma_mul_at_most(k, dec(16, 1), 1, 16);
        let s = k.mul(dec(16, 1));
        if k.negative() {
            lemma_units_order(0, k.mag());
            lemma_mul_zero(dec(16, 1), k);
            lemma_units_order(0, s.mag());
        }
        assert(0 <= s.value() <= 16 * pow2(149));
    } else {
        lemma_nan(raw, dec(16, 1));
    }
}

/// Shaking dies down, and never below nothing.
pub proof fn shaking_dies_down(shake: Float, dt: Float)
    requires
        within_reach(shake),
        dt.finite(),
        dec(0, 1).le(dt),
        dt.le(dec(1, 1)),
    ensures
        within_reach(calmed(shake, dt)),
        calmed(shake, dt).le(shake),
{
    lemma_dec_int(0);
    lemma_dec_int(1);
    lemma_dec_int(16);
    lemma_dec_int(70);
    reveal(Float::spec_lt);
    reveal(Float::spec_le);
    lemma_units_order(0x7f80_0000, dec(16, 1).mag());
    lemma_units_order(shake.mag(), 0x7f80_0000);
    assert(shake.finite());
    let loss = dec(70, 1).mul(dt);
    lemma_mul_at_most(dec(70, 1), dt, 70, 1);
    assert(loss.value() >= 0) by {
        if dt.negative() {
            lemma_units_order(0, dt.mag());
            lemma_mul_zero(dec(70, 1), dt);
            lemma_units_order(0, loss.mag());
        }
    }
    let d = shake.sub(loss);
    lemma_difference(shake, loss);
    let gap = shake.value() - loss.value();
    if gap > 0 {
        lemma_round_monotone(gap as nat, 1, shake.units(), 1);
        crate::float::lemma_round_exact(shake.mag());
        let m = round_magnitude(gap as nat, 1);
        lemma_signed(false, m);
        lemma_units_order(shake.mag(), m);
    } else if gap < 0 {
        let back = (-gap) as nat;
        let p = pow2(149);
        assert(back <= 70 * p);
        lemma_round_monotone(back, 1, 70 * p, 1);
        crate::float::lemma_fits(70, 149);
        lemma_signed(true, round_magnitude(back, 1));
        lemma_units_order(round_magnitude(70 * p, 1), round_magnitude(back, 1));
    } else {
        lemma_signed(true, 0);
        lemma_signed(false, 0);
        lemma_units_order(0, 0);
    }
}

/// Muted, every sound is silent.
pub proof fn muted_is_silent(impact: Impact, speed: Float, x: Float, sw: Float, c: Config)
    requires
        c.mute,
    ensures
        clack(impact, sw, c).volume == dec(0, 1),
        sweep(speed, x, sw, c).volume == dec(0, 1),
{
}

/// An impact kicks up between six and twenty-four particles.
pub proof fn puffs_are_small(impact: Float)
    requires
        !impact.nan(),
    ensures
        6 <= puff_size(impact) <= 24,
{
    lemma_dec_int(0);
    lemma_dec_int(1);
    lemma_dec_int(6);
    lemma_dec_int(18);
    lemma_dec_int(1300);
    lemma_dec_order(0, 1, 1, 1);
    lemma_pow2_pos(149);
    let p = pow2(149);
    let raw = impact.div(speed_full());
    assert(!raw.nan()) by {
        reveal(Float::spec_div);
        lemma_units_order(0, speed_full().mag());
        let r = round_magnitude(impact.units() * p, speed_full().units());
        assert(r <= 0x7f80_0000);
        lemma_signed(true, r);
        lemma_signed(false, r);
        lemma_signed(true, 0x7f80_0000);
        lemma_signed(false, 0x7f80_0000);
    }
    let s = strength(impact);
    lemma_clamp(raw, dec(0, 1), dec(1, 1));
    lemma_mul_at_most(s, dec(18, 1), 1, 18);
    let extra = s.mul(dec(18, 1));
    assert(extra.value() >= 0) by {
        if s.negative() {
            lemma_units_order(0, s.mag());
            lemma_mul_zero(dec(18, 1), s);
            lemma_units_order(0, extra.mag());
        }
    }
    lemma_add_at_most(dec(6, 1), extra, 6, 18);
    let n = dec(6, 1).add(extra);
    lemma_saturated_at_most(n, 24, usize::MAX as nat);
    assert(n.value() >= 6 * p && !n.negative()) by {
        reveal(Float::spec_add);
        let t = (6 * p + extra.value()) as nat;
        lemma_round_monotone(6 * p, 1, t, 1);
        crate::float::lemma_fits(6, 149);
        lemma_signed(false, round_magnitude(t, 1));
        lemma_units_order(round_magnitude(t, 1), round_magnitude(6 * p, 1));
    }
    reveal(Float::saturated);
    vstd::arithmetic::div_mod::lemma_div_is_ordered((6 * p) as int, n.units() as int, p as int);
    vstd::arithmetic::div_mod::lemma_div_multiples_vanish(6, p as int);
}

/// The square of the distance from ball `i` to a point.
pub open spec fn distance(places: Seq<Vec2>, at: Vec2, i: int) -> Float {
    places[i].sub(at).length_squared()
}

/// The square of the distance within which a ball can be grasped.
pub open spec fn reach_squared() -> Float {
    ball_r().mul(dec(18, 10)).mul(ball_r().mul(dec(18, 10)))
}

proof fn lemma_nearest(places: Seq<Vec2>, at: Vec2, k: nat)
    requires
        k <= places.len() <= usize::MAX,
    ensures
        match nearest(places, at, k).0 {
            Some(i) => {
                &&& i < k
                &&& nearest(places, at, k).1 == distance(places, at, i as int)
                &&& distance(places, at, i as int).lt(reach_squared())
            },
            None => nearest(places, at, k).1 == reach_squared(),
        },
        forall|j: int| 0 <= j < k ==> !(#[trigger] distance(places, at, j)).lt(nearest(places, at, k).1),
    decreases k,
{
    reveal(Float::spec_lt);
    if k > 0 {
        lemma_nearest(places, at, (k - 1) as nat);
    }
}

/// The ball that is grasped is within reach, and no ball is nearer; where none is
/// grasped, none is within reach.
pub proof fn nearest_ball_is_grasped(places: Seq<Vec2>, at: Vec2)
    requires
        places.len() <= usize::MAX,
    ensures
        match grasped(places, at) {
            Some(i) => {
                &&& i < places.len()
                &&& distance(places, at, i as int).lt(reach_squared())
                &&& forall|j: int|
                    0 <= j < places.len() ==> !(#[trigger] distance(places, at, j)).lt(
                        distance(places, at, i as int),
                    )
            },
            None => forall|j: int|
                0 <= j < places.len() ==> !(#[trigger] distance(places, at, j)).lt(reach_squared()),
        },
{
    lemma_nearest(places, at, places.len());
}

/// The speed of a ball.
pub open spec fn speed_of(balls: Seq<Ball>, i: int) -> Float {
    string_l().mul(balls[i].omega.abs())
}

/// No ball that passed the bottom did so faster than the one that is heard.
pub proof fn fastest_ball_is_heard(prev: Seq<Float>, balls: Seq<Ball>, places: Seq<Vec2>, sw: Float, k: nat, i: int)
    requires
        0 <= i < k,
        prev[i].mul(balls[i].theta).lt(dec(0, 1)),
    ensures
        !rush(prev, balls, places, sw, k).0.lt(speed_of(balls, i)),
    decreases k,
{
    reveal(Float::spec_lt);
    if i < k - 1 {
        fastest_ball_is_heard(prev, balls, places, sw, (k - 1) as nat, i);
    }
}

proof fn lemma_swept_impact(places: Seq<Vec2>, dragging: Option<usize>, s: Sweep, k: nat)
    ensures
        swept(places, dragging, s, k).impact == s.impact || s.impact.speed.lt(
            swept(places, dragging, s, k).impact.speed,
        ),
    decreases k,
{
    reveal(Float::spec_lt);
    if k > 0 {
        lemma_swept_impact(places, dragging, s, (k - 1) as nat);
    }
}

/// Collisions keep the hardest impact, unless there is a harder one.
pub proof fn hardest_impact_is_kept(places: Seq<Vec2>, dragging: Option<usize>, s: Sweep, passes: nat)
    ensures
        resolved(places, dragging, s, passes).impact == s.impact || s.impact.speed.lt(
            resolved(places, dragging, s, passes).impact.speed,
        ),
    decreases passes,
{
    reveal(Float::spec_lt);
    if passes > 0 {
        let t = sweep_once(places, dragging, s);
        lemma_swept_impact(
            places,
            dragging,
            Sweep { any: false, ..s },
            (s.omegas.len() - 1) as nat,
        );
        if t.any {
            hardest_impact_is_kept(places, dragging, t, (passes - 1) as nat);
        }
    }
}

} // verus!
