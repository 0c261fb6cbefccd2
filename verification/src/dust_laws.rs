//! What the dust does, counted against exact arithmetic.

use vstd::prelude::*;
use crate::click::TAU;
use crate::dust::{Chance, Particle, aged, alive, direction_range, dusted, kicked_up, life_range, moved, newest, puff, puff_size, size_range, sparks, speed_full, speed_range, strength};
use crate::float::{Float, dec};
use crate::near::{abs, between, near, num, tiny, lemma_abs_product, lemma_add_near, lemma_bits, lemma_compare, lemma_dec_near, lemma_div_near, lemma_extremes, lemma_int_num, lemma_integer_part, lemma_mul_near, lemma_near_clamp, lemma_near_mul, lemma_sub_near, lemma_times_dec, lemma_tiny};
use crate::vector::Vec2;

verus! {

/// An impact of 1300 pixels per second counts as a full one.
pub proof fn strength_is_out_of_full_speed(impact: Float)
    requires
        impact.finite(),
        abs(num(impact)) <= 0x10_0000real,
    ensures
        near(strength(impact), between(num(impact) / 1300real, 0real, 1real), 1real / 0x40_0000real),
        0real <= num(strength(impact)) <= 1real,
{
    lemma_tiny();
    lemma_int_num(0);
    lemma_int_num(1);
    lemma_int_num(1300);
    lemma_div_near(impact, speed_full());
    let t = impact.div(speed_full());
    lemma_near_clamp(t, num(t), 0real, dec(0, 1), dec(1, 1));
}

/// An impact kicks up six particles, and up to eighteen more the harder it is.
pub proof fn puffs_grow_with_the_impact(impact: Float)
    requires
        impact.finite(),
        abs(num(impact)) <= 0x10_0000real,
    ensures
        ({
            let x = 6real + 18real * between(num(impact) / 1300real, 0real, 1real);
            x - 1real - 1real / 10000real < puff_size(impact) as real <= x + 1real / 10000real
        }),
{
    lemma_tiny();
    strength_is_out_of_full_speed(impact);
    lemma_int_num(6);
    let s = strength(impact);
    lemma_times_dec(18, 1, s);
    let f = s.mul(dec(18, 1));
    lemma_add_near(dec(6, 1), f);
    lemma_integer_part(dec(6, 1).add(f), usize::MAX as nat);
}

/// The first five particles of an impact faster than 585 pixels per second are sparks.
pub proof fn hard_impacts_spark(impact: Float, k: int)
    requires
        impact.finite(),
        abs(num(impact)) <= 0x10_0000real,
    ensures
        num(impact) >= 5851real / 10real && k < 5 ==> sparks(impact, k),
        num(impact) <= 5849real / 10real || k >= 5 ==> !sparks(impact, k),
{
    lemma_tiny();
    strength_is_out_of_full_speed(impact);
    lemma_dec_near(45, 100);
    lemma_compare(dec(45, 100), strength(impact));
}

/// Whether what was drawn for a particle is from the ranges there are.
pub open spec fn likely(c: Chance) -> bool {
    &&& c.sin.finite() && abs(num(c.sin)) <= 1real
    &&& c.cos.finite() && abs(num(c.cos)) <= 1real
    &&& c.speed.finite() && 0real <= num(c.speed) <= 100real
    &&& c.size.finite() && 0real <= num(c.size) <= 10real
}

/// A particle starts where the impact is, flies in its direction at its own speed and
/// 0.22 times that of the impact, and upwards by 30 more; a spark is 1.5 larger.
pub proof fn particles_fly_from_the_impact(at: Vec2, impact: Float, c: Chance, k: int)
    requires
        impact.finite(),
        0real <= num(impact) <= 0x1_0000real,
        likely(c),
    ensures
        ({
            let p = kicked_up(at, impact, c, k);
            let v = num(c.speed) + 22real * num(impact) / 100real;
            let e = (v + 1000real) / 0x10_0000real;
            &&& p.pos == at
            &&& near(p.vel.x, num(c.cos) * v, e)
            &&& near(p.vel.y, num(c.sin) * v - 30real, e)
            &&& p.life == c.life && p.life0 == c.life0
            &&& p.spark == sparks(impact, k)
            &&& near(
                p.size,
                if p.spark {
                    num(c.size) + 15real / 10real
                } else {
                    num(c.size)
                },
                1real / 100000real,
            )
        }),
{
    lemma_tiny();
    lemma_times_dec(22, 100, impact);
    let f = impact.mul(dec(22, 100));
    let g = c.speed.add(f);
    lemma_add_near(c.speed, f);
    let v = num(c.speed) + 22real * num(impact) / 100real;
    let w = num(g);
    assert(abs(w - v) <= v / 0x20_0000real + 2real * tiny());
    lemma_along(c.cos, g, v);
    lemma_along(c.sin, g, v);
    lemma_int_num(30);
    lemma_sub_near(c.sin.mul(g), dec(30, 1));
    lemma_dec_near(15, 10);
    lemma_int_num(0);
    lemma_add_near(c.size, dec(15, 10));
    lemma_add_near(c.size, dec(0, 1));
}

/// A speed in a direction.
proof fn lemma_along(a: Float, g: Float, v: real)
    requires
        a.finite(),
        abs(num(a)) <= 1real,
        g.finite(),
        0real <= v <= 0x1_0000real,
        abs(num(g) - v) <= v / 0x20_0000real + 2real * tiny(),
    ensures
        near(a.mul(g), num(a) * v, (v + 100real) / 0x18_0000real),
        abs(num(a) * v) <= v,
{
    lemma_tiny();
    let (x, w) = (num(a), num(g));
    lemma_abs_product(x, w, 1real, 2real * v + 1real);
    lemma_abs_product(x, v, 1real, v);
    lemma_abs_product(x, w - v, 1real, v / 0x20_0000real + 2real * tiny());
    assert(x * (w - v) == x * w - x * v) by (nonlinear_arith);
    lemma_mul_near(a, g);
}

/// Only the 500 newest particles are kept, in their order.
pub proof fn the_newest_are_kept(s: Seq<Particle>)
    ensures
        newest(s).len() == if s.len() < 500 {
            s.len()
        } else {
            500
        },
        forall|i: int|
            0 <= i < newest(s).len() ==> #[trigger] newest(s)[i] == s[s.len() - newest(s).len() + i],
{
}

/// Whether a particle moves as one can.
pub open spec fn airborne(p: Particle) -> bool {
    &&& p.pos.x.finite() && abs(num(p.pos.x)) <= 0x1_0000real
    &&& p.pos.y.finite() && abs(num(p.pos.y)) <= 0x1_0000real
    &&& p.vel.x.finite() && abs(num(p.vel.x)) <= 0x1000real
    &&& p.vel.y.finite() && abs(num(p.vel.y)) <= 0x1000real
    &&& p.life.finite() && abs(num(p.life)) <= 0x10real
}

/// The share of its velocity that a particle keeps: it loses twice the time, nine tenths at
/// most.
pub open spec fn kept(dt: real) -> real {
    if 2real * dt < 9real / 10real {
        1real - 2real * dt
    } else {
        1real / 10real
    }
}

proof fn lemma_kept(dt: Float)
    requires
        dt.finite(),
        0real <= num(dt) <= 1real,
    ensures
        near(
            dec(1, 1).sub(dec(2, 1).mul(dt).min(dec(9, 10))),
            kept(num(dt)),
            1real / 0x20_0000real,
        ),
        0real <= kept(num(dt)) <= 1real,
{
    lemma_tiny();
    lemma_int_num(1);
    lemma_dec_near(9, 10);
    lemma_times_dec(2, 1, dt);
    let f = dec(2, 1).mul(dt);
    lemma_extremes(f, dec(9, 10));
    lemma_sub_near(dec(1, 1), f.min(dec(9, 10)));
}

/// A velocity that is slowed down, and the place it leads to.
proof fn lemma_flight(pos: Float, vel: Float, v: real, keep: Float, k: real, dt: Float)
    requires
        pos.finite() && abs(num(pos)) <= 0x1_0000real,
        near(vel, v, 1real / 0x400real),
        abs(v) <= 0x1400real,
        near(keep, k, 1real / 0x20_0000real),
        0real <= k <= 1real,
        dt.finite(),
        0real <= num(dt) <= 1real,
    ensures
        near(vel.mul(keep), v * k, 1real / 150real),
        near(pos.add(vel.mul(keep).mul(dt)), num(pos) + v * k * num(dt), 1real / 60real),
{
    lemma_tiny();
    let t = num(dt);
    lemma_near_mul(vel, v, 1real / 0x400real, 0x1401real, keep, k, 1real / 0x20_0000real, 2real);
    lemma_abs_product(v, k, 0x1400real, 1real);
    let f = vel.mul(keep);
    lemma_near_mul(f, v * k, 1real / 150real, 0x1401real, dt, t, 0real, 1real);
    lemma_abs_product(v * k, t, 0x1400real, 1real);
    lemma_add_near(pos, f.mul(dt));
}

/// A particle falls by 900 pixels per second squared, the air slows it down, it flies on
/// at the velocity that is left, and its time runs.
pub proof fn particles_fall_and_slow_down(p: Particle, dt: Float)
    requires
        airborne(p),
        dt.finite(),
        0real <= num(dt) <= 1real,
    ensures
        ({
            let q = moved(p, dt);
            let (t, k) = (num(dt), kept(num(dt)));
            let (vx, vy) = (num(p.vel.x), num(p.vel.y) + 900real * num(dt));
            &&& near(q.vel.x, vx * k, 1real / 150real)
            &&& near(q.vel.y, vy * k, 1real / 150real)
            &&& near(q.pos.x, num(p.pos.x) + vx * k * t, 1real / 60real)
            &&& near(q.pos.y, num(p.pos.y) + vy * k * t, 1real / 60real)
            &&& near(q.life, num(p.life) - t, 1real / 0x8_0000real)
            &&& q.life0 == p.life0 && q.size == p.size && q.spark == p.spark
        }),
{
    lemma_tiny();
    lemma_kept(dt);
    lemma_times_dec(900, 1, dt);
    let fall = dec(900, 1).mul(dt);
    lemma_add_near(p.vel.y, fall);
    let keep = dec(1, 1).sub(dec(2, 1).mul(dt).min(dec(9, 10)));
    lemma_flight(p.pos.x, p.vel.x, num(p.vel.x), keep, kept(num(dt)), dt);
    lemma_flight(
        p.pos.y,
        p.vel.y.add(fall),
        num(p.vel.y) + 900real * num(dt),
        keep,
        kept(num(dt)),
        dt,
    );
    lemma_sub_near(p.life, dt);
}

/// Every particle that has time left after the update is still there, and none whose time
/// is up.
pub proof fn particles_live_out_their_time(s: Seq<Particle>, dt: Float, j: int)
    requires
        0 <= j < s.len(),
        moved(s[j], dt).life.finite(),
    ensures
        num(moved(s[j], dt).life) > 0real ==> aged(s, dt).contains(moved(s[j], dt)),
        num(moved(s[j], dt).life) <= 0real ==> !aged(s, dt).contains(moved(s[j], dt)),
        aged(s, dt).len() <= s.len(),
{
    lemma_int_num(0);
    let q = moved(s[j], dt);
    lemma_compare(dec(0, 1), q.life);
    let m = s.map_values(|p: Particle| moved(p, dt));
    let f = |p: Particle| alive(p);
    broadcast use Seq::lemma_filter_contains, Seq::lemma_filter_pred, Seq::lemma_filter_len;

    assert(m[j] == q);
    assert(m.contains(q));
    if aged(s, dt).contains(q) {
        let i = choose|i: int| 0 <= i < aged(s, dt).len() && aged(s, dt)[i] == q;
        assert(f(m.filter(f)[i]));
    }
}

/// Directions are drawn from a full turn, speeds from 30 to 90 pixels per second, lifetimes
/// from 0.3 to 0.6 seconds and sizes from 1.5 to 3.5 pixels.
pub proof fn particles_are_drawn_from_their_ranges()
    ensures
        near(direction_range().lo, 0real, 0real),
        near(direction_range().hi, 6283185307real / 1000000000real, 1real / 1000000real),
        near(speed_range().lo, 30real, 0real),
        near(speed_range().hi, 90real, 0real),
        near(life_range().lo, 3real / 10real, 1real / 1000000real),
        near(life_range().hi, 6real / 10real, 1real / 1000000real),
        near(size_range().lo, 15real / 10real, 1real / 1000000real),
        near(size_range().hi, 35real / 10real, 1real / 1000000real),
{
    lemma_tiny();
    lemma_int_num(0);
    lemma_int_num(30);
    lemma_int_num(90);
    lemma_bits(TAU, 13176795, 128);
    lemma_dec_near(30, 100);
    lemma_dec_near(60, 100);
    lemma_dec_near(15, 10);
    lemma_dec_near(35, 10);
}

/// A puff has a particle for everything that was drawn, in that order, and comes after the
/// particles that were there.
pub proof fn puffs_come_last(s: Seq<Particle>, at: Vec2, impact: Float, chances: Seq<Chance>, k: int)
    requires
        0 <= k < chances.len() <= 500,
    ensures
        puff(at, impact, chances).len() == chances.len(),
        puff(at, impact, chances)[k] == kicked_up(at, impact, chances[k], k),
        dusted(s, at, impact, chances).len() == if s.len() + chances.len() < 500 {
            s.len() + chances.len()
        } else {
            500
        },
        ({
            let t = dusted(s, at, impact, chances);
            t[t.len() - chances.len() + k] == kicked_up(at, impact, chances[k], k)
        }),
        forall|i: int|
            0 <= i < dusted(s, at, impact, chances).len() - chances.len() ==> #[trigger] dusted(
                s,
                at,
                impact,
                chances,
            )[i] == s[s.len() - (dusted(s, at, impact, chances).len() - chances.len()) + i],
{
}

} // verus!
