//! The puff of dust and sparks that an impact kicks up.
//!
//! The numbers that differ from puff to puff are drawn by the caller; this module
//! says from which ranges, and what becomes of them.

use vstd::prelude::*;
use crate::click::TAU;
use crate::float::{Float, fl, dec};
use crate::vector::{Vec2, vec2};

verus! {

/// A speck of dust, or a spark.
#[derive(Clone, Copy, Debug)]
pub struct Particle {
    pub pos: Vec2,
    pub vel: Vec2,
    pub life: Float,
    pub life0: Float,
    pub size: Float,
    pub spark: bool,
}

/// The most particles that are kept.
pub const MAX_PARTICLES: usize = 500;

/// What is drawn for one particle: the sine and cosine of its direction, its own
/// speed, two lifetimes and a size.
#[derive(Clone, Copy, Debug)]
pub struct Chance {
    pub sin: Float,
    pub cos: Float,
    pub speed: Float,
    pub life0: Float,
    pub life: Float,
    pub size: Float,
}

/// A range to draw from.
#[derive(Clone, Copy, Debug)]
pub struct Range {
    pub lo: Float,
    pub hi: Float,
}

/// The directions to draw from, all around.
#[verifier::allow_in_spec]
pub fn direction_range() -> Range
    returns
        (Range { lo: dec(0, 1), hi: fl(TAU) }),
{
    Range { lo: dec(0, 1), hi: fl(TAU) }
}

/// The speeds to draw from.
#[verifier::allow_in_spec]
pub fn speed_range() -> Range
    returns
        (Range { lo: dec(30, 1), hi: dec(90, 1) }),
{
    Range { lo: dec(30, 1), hi: dec(90, 1) }
}

/// The lifetimes to draw from, in seconds.
#[verifier::allow_in_spec]
pub fn life_range() -> Range
    returns
        (Range { lo: dec(30, 100), hi: dec(60, 100) }),
{
    Range { lo: dec(30, 100), hi: dec(60, 100) }
}

/// The sizes to draw from.
#[verifier::allow_in_spec]
pub fn size_range() -> Range
    returns
        (Range { lo: dec(15, 10), hi: dec(35, 10) }),
{
    Range { lo: dec(15, 10), hi: dec(35, 10) }
}

/// The impact speed that counts as a full one.
#[verifier::allow_in_spec]
pub fn speed_full() -> Float
    returns
        dec(1300, 1),
{
    dec(1300, 1)
}

/// How hard an impact is, from zero to one.
pub open spec fn strength(impact: Float) -> Float {
    impact.div(speed_full()).clamp(dec(0, 1), dec(1, 1))
}

/// How many particles an impact kicks up.
pub open spec fn puff_size(impact: Float) -> nat {
    dec(6, 1).add(strength(impact).mul(dec(18, 1))).saturated(usize::MAX as nat)
}

/// How many particles an impact kicks up.
pub fn dust_count(impact: Float) -> (n: usize)
    ensures
        n == puff_size(impact),
{
    let strength = impact.div(speed_full()).clamp(dec(0, 1), dec(1, 1));
    dec(6, 1).add(strength.mul(dec(18, 1))).to_usize()
}

/// Whether particle `k` of a puff is a spark: the first five of a hard impact are.
pub open spec fn sparks(impact: Float, k: int) -> bool {
    dec(45, 100).lt(strength(impact)) && k < 5
}

/// Particle `k` of a puff.
pub open spec fn kicked_up(at: Vec2, impact: Float, c: Chance, k: int) -> Particle {
    let speed = c.speed.add(impact.mul(dec(22, 100)));
    Particle {
        pos: at,
        vel: vec2(c.cos.mul(speed), c.sin.mul(speed).sub(dec(30, 1))),
        life: c.life,
        life0: c.life0,
        size: c.size.add(
            if sparks(impact, k) {
                dec(15, 10)
            } else {
                dec(0, 1)
            },
        ),
        spark: sparks(impact, k),
    }
}

/// The particles of a puff.
pub open spec fn puff(at: Vec2, impact: Float, chances: Seq<Chance>) -> Seq<Particle> {
    Seq::new(chances.len(), |k: int| kicked_up(at, impact, chances[k], k))
}

/// The last particles of a list, as many as are kept.
pub open spec fn newest(s: Seq<Particle>) -> Seq<Particle> {
    if s.len() > MAX_PARTICLES {
        s.skip(s.len() - MAX_PARTICLES)
    } else {
        s
    }
}

/// The particles after a puff.
pub open spec fn dusted(s: Seq<Particle>, at: Vec2, impact: Float, chances: Seq<Chance>) -> Seq<Particle> {
    newest(s + puff(at, impact, chances))
}

/// Kicks up a puff, and forgets the oldest particles where there are too many.
/// `chances` holds what was drawn for each particle of the puff.
pub fn spawn_dust(particles: &mut Vec<Particle>, at: Vec2, impact: Float, chances: &Vec<Chance>)
    requires
        chances@.len() == puff_size(impact),
    ensures
        final(particles)@ == dusted(old(particles)@, at, impact, chances@),
        final(particles)@.len() <= MAX_PARTICLES,
{
    let strength = impact.div(speed_full()).clamp(dec(0, 1), dec(1, 1));
    let hard = dec(45, 100).lt(strength);
    let push = impact.mul(dec(22, 100));
    let n = chances.len();
    for k in 0..n
        invariant
            n == chances@.len(),
            hard == dec(45, 100).lt(crate::dust::strength(impact)),
            push == impact.mul(dec(22, 100)),
            particles@ == old(particles)@ + puff(at, impact, chances@).take(k as int),
    {
        let c = chances[k];
        let spark = hard && k < 5;
        let speed = c.speed.add(push);
        particles.push(
            Particle {
                pos: at,
                vel: vec2(c.cos.mul(speed), c.sin.mul(speed).sub(dec(30, 1))),
                life: c.life,
                life0: c.life0,
                size: c.size.add(
                    if spark {
                        dec(15, 10)
                    } else {
                        dec(0, 1)
                    },
                ),
                spark,
            },
        );
        let ghost p = puff(at, impact, chances@);
        assert(p.take(k + 1) =~= p.take(k as int).push(p[k as int]));
        assert(particles@ =~= old(particles)@ + p.take(k + 1));
    }
    let ghost p = puff(at, impact, chances@);
    assert(p.take(n as int) =~= p);
    if particles.len() > MAX_PARTICLES {
        let drop = particles.len() - MAX_PARTICLES;
        let kept = particles.split_off(drop);
        *particles = kept;
        assert(particles@ =~= newest(old(particles)@ + p));
    }
}

/// A particle after a short time `dt`: it falls, the air slows it down, and it ages.
pub open spec fn moved(p: Particle, dt: Float) -> Particle {
    let vel = vec2(p.vel.x, p.vel.y.add(dec(900, 1).mul(dt))).scale(
        dec(1, 1).sub(dec(2, 1).mul(dt).min(dec(9, 10))),
    );
    Particle { pos: p.pos.add(vel.scale(dt)), vel, life: p.life.sub(dt), ..p }
}

/// Whether a particle has time left.
pub open spec fn alive(p: Particle) -> bool {
    dec(0, 1).lt(p.life)
}

/// The particles after a short time `dt`: those that have time left, in their order.
pub open spec fn aged(s: Seq<Particle>, dt: Float) -> Seq<Particle> {
    s.map_values(|p: Particle| moved(p, dt)).filter(|p: Particle| alive(p))
}

/// Lets the particles fly for a short time `dt`, and drops those whose time is up.
pub fn update_particles(particles: &mut Vec<Particle>, dt: Float)
    ensures
        final(particles)@ == aged(old(particles)@, dt),
        final(particles)@.len() <= old(particles)@.len(),
{
    let fall = dec(900, 1).mul(dt);
    let drag = dec(1, 1).sub(dec(2, 1).mul(dt).min(dec(9, 10)));
    let zero = dec(0, 1);
    let mut kept: Vec<Particle> = Vec::new();
    let n = particles.len();
    let ghost m = particles@.map_values(|p: Particle| moved(p, dt));
    let ghost f = |p: Particle| alive(p);
    proof {
        reveal(Seq::filter);
    }
    for i in 0..n
        invariant
            n == particles@.len() == m.len(),
            particles@ == old(particles)@,
            m == particles@.map_values(|p: Particle| moved(p, dt)),
            f == (|p: Particle| alive(p)),
            fall == dec(900, 1).mul(dt),
            drag == dec(1, 1).sub(dec(2, 1).mul(dt).min(dec(9, 10))),
            zero == dec(0, 1),
            kept@ == m.take(i as int).filter(f),
            kept@.len() <= i,
    {
        let p = particles[i];
        let vel = vec2(p.vel.x, p.vel.y.add(fall)).scale(drag);
        let q = Particle {
            pos: p.pos.add(vel.scale(dt)),
            vel,
            life: p.life.sub(dt),
            life0: p.life0,
            size: p.size,
            spark: p.spark,
        };
        proof {
            reveal(Seq::filter);
            assert(m[i as int] == q);
            assert(m.take(i + 1).drop_last() =~= m.take(i as int));
            assert(m.take(i + 1).last() == q);
        }
        if zero.lt(q.life) {
            kept.push(q);
        }
    }
    assert(m.take(n as int) =~= m);
    *particles = kept;
}

/// What is left after an update has time left, and comes from a particle that was
/// there before.
pub proof fn only_the_living_stay(s: Seq<Particle>, dt: Float, i: int)
    requires
        0 <= i < aged(s, dt).len(),
    ensures
        alive(aged(s, dt)[i]),
        exists|j: int| 0 <= j < s.len() && aged(s, dt)[i] == moved(#[trigger] s[j], dt),
{
    let m = s.map_values(|p: Particle| moved(p, dt));
    let f = |p: Particle| alive(p);
    broadcast use Seq::lemma_filter_contains_rev, Seq::lemma_filter_pred;

    let x = m.filter(f)[i];
    assert(m.filter(f).contains(x));
    assert(m.contains(x));
    let j = choose|j: int| 0 <= j < m.len() && m[j] == x;
    assert(m[j] == moved(s[j], dt));
}

} // verus!
