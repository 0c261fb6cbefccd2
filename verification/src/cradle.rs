//! The row of pendulums: how it is hung, how it swings and how balls collide.
//!
//! The balls have equal masses, so a head-on elastic collision exchanges the two
//! angular velocities. Sweeping that exchange along the row sends as many balls
//! out at one end as came in at the other.

use vstd::prelude::*;
use crate::float::{Float, dec, of_nat};
use crate::vector::{Vec2, vec2};

verus! {

/// A ball on its string: angle from the vertical, angular velocity, and where the
/// string is tied.
#[derive(Clone, Copy, Debug)]
pub struct Ball {
    pub theta: Float,
    pub omega: Float,
    pub pivot_x: Float,
}

/// The radius of a ball, in pixels.
#[verifier::allow_in_spec]
pub fn ball_r() -> Float
    returns
        dec(28, 1),
{
    dec(28, 1)
}

/// The length of a string, from the bar to the centre of a ball.
#[verifier::allow_in_spec]
pub fn string_l() -> Float
    returns
        dec(250, 1),
{
    dec(250, 1)
}

/// The height of the bar on the screen.
#[verifier::allow_in_spec]
pub fn pivot_y() -> Float
    returns
        dec(130, 1),
{
    dec(130, 1)
}

/// Gravity, in pixels per second squared.
#[verifier::allow_in_spec]
pub fn gravity() -> Float
    returns
        dec(2600, 1),
{
    dec(2600, 1)
}

impl Ball {
    /// The centre of the ball, given the sine and cosine of its angle.
    #[verifier::allow_in_spec]
    pub fn pos(&self, sin: Float, cos: Float) -> Vec2
        returns
            vec2(
                self.pivot_x.add(string_l().mul(sin)),
                pivot_y().add(string_l().mul(cos)),
            ),
    {
        vec2(
            self.pivot_x.add(string_l().mul(sin)),
            pivot_y().add(string_l().mul(cos)),
        )
    }
}

/// The sine and the cosine of an angle.
#[derive(Clone, Copy, Debug)]
pub struct Turn {
    pub sin: Float,
    pub cos: Float,
}

/// The centres of a row of balls, given the sines and cosines of their angles.
pub open spec fn centres(balls: Seq<Ball>, turns: Seq<Turn>) -> Seq<Vec2> {
    Seq::new(balls.len(), |i: int| balls[i].pos(turns[i].sin, turns[i].cos))
}

/// The centres of a row of balls, given the sines and cosines of their angles.
pub fn places(balls: &Vec<Ball>, turns: &Vec<Turn>) -> (v: Vec<Vec2>)
    requires
        balls@.len() == turns@.len(),
    ensures
        v@ == centres(balls@, turns@),
{
    let mut v: Vec<Vec2> = Vec::new();
    for i in 0..balls.len()
        invariant
            balls@.len() == turns@.len(),
            v@.len() == i,
            forall|j: int| 0 <= j < i ==> #[trigger] v@[j] == centres(balls@, turns@)[j],
    {
        v.push(balls[i].pos(turns[i].sin, turns[i].cos));
    }
    assert(v@ =~= centres(balls@, turns@));
    v
}

/// Ball `i` of a row of `n` at rest, hung around the middle of the screen with
/// neighbours one diameter apart.
pub open spec fn resting_ball(n: nat, screen_w: Float, i: nat) -> Ball {
    Ball {
        theta: dec(0, 1),
        omega: dec(0, 1),
        pivot_x: screen_w.mul(dec(1, 2)).add(
            of_nat(i).sub(of_nat(n).sub(dec(1, 1)).div(dec(2, 1))).mul(dec(2, 1).mul(ball_r())),
        ),
    }
}

/// A row of `n` balls at rest.
pub fn make_balls(n: usize, screen_w: Float) -> (balls: Vec<Ball>)
    ensures
        balls@.len() == n,
        forall|i: int| 0 <= i < n ==> balls@[i] == #[trigger] resting_ball(n as nat, screen_w, i as nat),
{
    let spacing = dec(2, 1).mul(ball_r());
    let center_x = screen_w.mul(dec(1, 2));
    let half = Float::of_usize(n).sub(dec(1, 1)).div(dec(2, 1));
    let rest = dec(0, 1);
    let mut balls: Vec<Ball> = Vec::new();
    for i in 0..n
        invariant
            balls@.len() == i,
            spacing == dec(2, 1).mul(ball_r()),
            center_x == screen_w.mul(dec(1, 2)),
            half == of_nat(n as nat).sub(dec(1, 1)).div(dec(2, 1)),
            rest == dec(0, 1),
            forall|j: int| 0 <= j < i ==> balls@[j] == #[trigger] resting_ball(n as nat, screen_w, j as nat),
    {
        balls.push(
            Ball {
                theta: rest,
                omega: rest,
                pivot_x: center_x.add(Float::of_usize(i).sub(half).mul(spacing)),
            },
        );
    }
    balls
}

/// A ball after a short time `dt` of swinging, given the sine of its angle before.
pub open spec fn swung(b: Ball, sin: Float, damping: Float, dt: Float) -> Ball {
    let pulled = b.omega.add(gravity().div(string_l()).neg().mul(sin).mul(dt));
    let omega = pulled.sub(damping.mul(pulled).mul(dt));
    Ball { theta: b.theta.add(omega.mul(dt)), omega, pivot_x: b.pivot_x }
}

/// Whether ball `i` is held.
pub open spec fn held(dragging: Option<usize>, i: int) -> bool {
    dragging matches Some(d) && d == i
}

/// A row after a step of swinging, in which the held ball takes no part.
pub open spec fn swung_row(balls: Seq<Ball>, sines: Seq<Float>, dragging: Option<usize>, damping: Float, dt: Float) -> Seq<Ball> {
    Seq::new(
        balls.len(),
        |i: int|
            if held(dragging, i) {
                balls[i]
            } else {
                swung(balls[i], sines[i], damping, dt)
            },
    )
}

/// Lets every ball swing for a short time `dt`, but for the one that is held.
/// `sines` are the sines of the angles.
pub fn integrate(balls: &mut Vec<Ball>, sines: &Vec<Float>, dragging: Option<usize>, damping: Float, dt: Float)
    requires
        old(balls)@.len() == sines@.len(),
    ensures
        final(balls)@ == swung_row(old(balls)@, sines@, dragging, damping, dt),
        final(balls)@.len() == old(balls)@.len(),
        forall|i: int|
            0 <= i < final(balls)@.len() ==> #[trigger] final(balls)@[i] == if held(dragging, i) {
                old(balls)@[i]
            } else {
                swung(old(balls)@[i], sines@[i], damping, dt)
            },
{
    let k = gravity().div(string_l()).neg();
    let n = balls.len();
    for i in 0..n
        invariant
            n == balls@.len() == sines@.len() == old(balls)@.len(),
            k == gravity().div(string_l()).neg(),
            forall|j: int| i <= j < n ==> #[trigger] balls@[j] == old(balls)@[j],
            forall|j: int|
                0 <= j < i ==> #[trigger] balls@[j] == if held(dragging, j) {
                    old(balls)@[j]
                } else {
                    swung(old(balls)@[j], sines@[j], damping, dt)
                },
    {
        let is_held = match dragging {
            Some(d) => d == i,
            None => false,
        };
        if !is_held {
            let b = balls[i];
            let pulled = b.omega.add(k.mul(sines[i]).mul(dt));
            let omega = pulled.sub(damping.mul(pulled).mul(dt));
            balls.set(i, Ball { theta: b.theta.add(omega.mul(dt)), omega, pivot_x: b.pivot_x });
        }
    }
    assert(balls@ =~= swung_row(old(balls)@, sines@, dragging, damping, dt));
}

/// The hardest impact so far: its closing speed and where it happened.
#[derive(Clone, Copy, Debug)]
pub struct Impact {
    pub speed: Float,
    pub at: Vec2,
}

/// How fast two neighbours with these angular velocities approach.
#[verifier::allow_in_spec]
pub fn closing(a: Float, b: Float) -> Float
    returns
        string_l().mul(a.sub(b)),
{
    string_l().mul(a.sub(b))
}

/// Whether two balls at these places are in contact.
pub open spec fn touching(p: Vec2, q: Vec2) -> bool {
    q.sub(p).length().le(dec(2, 1).mul(ball_r()))
}

/// Whether a closing speed counts as an approach.
pub open spec fn approaching(a: Float, b: Float) -> bool {
    dec(1, 10000).lt(closing(a, b))
}

/// What a sweep of the row works on.
#[verifier::ext_equal]
pub struct Sweep {
    pub omegas: Seq<Float>,
    pub impact: Impact,
    pub any: bool,
}

/// Whether balls `i` and `i + 1` collide.
pub open spec fn collides(places: Seq<Vec2>, dragging: Option<usize>, omegas: Seq<Float>, i: int) -> bool {
    &&& !held(dragging, i)
    &&& !held(dragging, i + 1)
    &&& touching(places[i], places[i + 1])
    &&& approaching(omegas[i], omegas[i + 1])
}

/// The two entries at `i` and `i + 1` exchanged.
pub open spec fn exchanged(omegas: Seq<Float>, i: int) -> Seq<Float> {
    omegas.update(i, omegas[i + 1]).update(i + 1, omegas[i])
}

/// The row after balls `i` and `i + 1` have met.
pub open spec fn meet(places: Seq<Vec2>, dragging: Option<usize>, s: Sweep, i: int) -> Sweep {
    if collides(places, dragging, s.omegas, i) {
        let speed = closing(s.omegas[i], s.omegas[i + 1]);
        Sweep {
            omegas: exchanged(s.omegas, i),
            impact: if s.impact.speed.lt(speed) {
                Impact { speed, at: places[i].add(places[i + 1]).scale(dec(1, 2)) }
            } else {
                s.impact
            },
            any: true,
        }
    } else {
        s
    }
}

/// The row after its first `k` pairs have met, from left to right.
pub open spec fn swept(places: Seq<Vec2>, dragging: Option<usize>, s: Sweep, k: nat) -> Sweep
    decreases k,
{
    if k == 0 {
        s
    } else {
        meet(places, dragging, swept(places, dragging, s, (k - 1) as nat), k - 1)
    }
}

/// One sweep over the whole row.
pub open spec fn sweep_once(places: Seq<Vec2>, dragging: Option<usize>, s: Sweep) -> Sweep {
    swept(places, dragging, Sweep { any: false, ..s }, (s.omegas.len() - 1) as nat)
}

/// At most `passes` sweeps, stopping after one in which no pair collided.
pub open spec fn resolved(places: Seq<Vec2>, dragging: Option<usize>, s: Sweep, passes: nat) -> Sweep
    decreases passes,
{
    if passes == 0 {
        s
    } else {
        let t = sweep_once(places, dragging, s);
        if t.any {
            resolved(places, dragging, t, (passes - 1) as nat)
        } else {
            t
        }
    }
}

/// The angular velocities of a row.
pub open spec fn omegas(balls: Seq<Ball>) -> Seq<Float> {
    Seq::new(balls.len(), |i: int| balls[i].omega)
}

/// Whether two rows differ in their angular velocities only.
pub open spec fn same_places(a: Seq<Ball>, b: Seq<Ball>) -> bool {
    &&& a.len() == b.len()
    &&& forall|i: int|
        0 <= i < a.len() ==> (#[trigger] a[i]).theta == b[i].theta && a[i].pivot_x == b[i].pivot_x
}

/// Exchanges the angular velocities of neighbours that touch and approach, sweeping
/// the row until nothing collides any more, at most once per ball. `places` are the
/// centres of the balls; `impact` keeps the hardest impact.
pub fn collide(balls: &mut Vec<Ball>, places: &Vec<Vec2>, dragging: Option<usize>, impact: &mut Impact)
    requires
        old(balls)@.len() >= 1,
        old(balls)@.len() == places@.len(),
    ensures
        same_places(old(balls)@, final(balls)@),
        ({
            let r = resolved(
                places@,
                dragging,
                Sweep { omegas: omegas(old(balls)@), impact: *old(impact), any: false },
                old(balls)@.len(),
            );
            omegas(final(balls)@) == r.omegas && *final(impact) == r.impact
        }),
{
    let n = balls.len();
    let reach = dec(2, 1).mul(ball_r());
    let threshold = dec(1, 10000);
    let half = dec(1, 2);
    let mut pass: usize = 0;
    let mut any = true;
    let ghost start = Sweep { omegas: omegas(balls@), impact: *impact, any: false };
    let ghost mut cur = start;
    while pass < n && any
        invariant
            n == balls@.len() == places@.len() == old(balls)@.len(),
            n >= 1,
            pass <= n,
            reach == dec(2, 1).mul(ball_r()),
            threshold == dec(1, 10000),
            half == dec(1, 2),
            same_places(old(balls)@, balls@),
            cur.omegas == omegas(balls@),
            cur.impact == *impact,
            start == (Sweep { omegas: omegas(old(balls)@), impact: *old(impact), any: false }),
            any ==> resolved(places@, dragging, start, n as nat) == resolved(
                places@,
                dragging,
                cur,
                (n - pass) as nat,
            ),
            !any ==> resolved(places@, dragging, start, n as nat) == cur,
        decreases n - pass,
    {
        any = false;
        let ghost base = Sweep { any: false, ..cur };
        let ghost before = cur;
        proof {
            cur = base;
        }
        let mut i: usize = 0;
        while i < n - 1
            invariant
                n == balls@.len() == places@.len() == old(balls)@.len(),
                n >= 1,
                i <= n - 1,
                reach == dec(2, 1).mul(ball_r()),
                threshold == dec(1, 10000),
                half == dec(1, 2),
                same_places(old(balls)@, balls@),
                cur.omegas == omegas(balls@),
                cur.impact == *impact,
                cur.any == any,
                cur == swept(places@, dragging, base, i as nat),
            decreases n - i,
        {
            let ghost prev = cur;
            let is_held = match dragging {
                Some(d) => d == i || d == i + 1,
                None => false,
            };
            proof {
                cur = meet(places@, dragging, cur, i as int);
            }
            if !is_held {
                let (p, q) = (places[i], places[i + 1]);
                let (a, b) = (balls[i], balls[i + 1]);
                let speed = closing(a.omega, b.omega);
                if q.sub(p).length().le(reach) && threshold.lt(speed) {
                    if impact.speed.lt(speed) {
                        *impact = Impact { speed, at: p.add(q).scale(half) };
                    }
                    balls.set(i, Ball { theta: a.theta, omega: b.omega, pivot_x: a.pivot_x });
                    balls.set(i + 1, Ball { theta: b.theta, omega: a.omega, pivot_x: b.pivot_x });
                    any = true;
                    assert(exchanged(prev.omegas, i as int) =~= omegas(balls@));
                }
            }
            i = i + 1;
        }
        proof {
            assert(omegas(balls@).len() == n);
            assert(cur == sweep_once(places@, dragging, before));
        }
        pass = pass + 1;
    }
}

} // verus!
