//! What is on the screen, as a list of shapes in the order in which they are drawn.

use vstd::prelude::*;
use crate::cradle::{Ball, Turn, ball_r, centres, gravity, held, pivot_y, places, string_l};
use crate::dust::Particle;
use crate::float::{Float, dec, of_nat};
use crate::sliders::{SLIDERS, slider, slider_w, slider_x};
use crate::vector::Vec2;

verus! {

/// A colour and how opaque it is, each from zero to one.
#[derive(Clone, Copy, Debug)]
pub struct Color {
    pub r: Float,
    pub g: Float,
    pub b: Float,
    pub a: Float,
}

/// What a piece of text says. Numbers are put into words where the text is drawn.
#[derive(Clone, Copy, Debug)]
pub enum Caption {
    /// The name of the toy.
    Title,
    /// How many balls there are.
    Balls { count: usize },
    /// How loud it is, in percent, and whether it is muted or paused.
    Volume { percent: Float, mute: bool, paused: bool },
    /// Which keys do what.
    Help,
    /// The name and the value of a slider.
    Slider { index: usize, value: Float },
    /// The heading of the energy bar.
    Energy,
    /// Kinetic and potential energy.
    Energies { kinetic: Float, potential: Float },
    /// The momentum of the row.
    Momentum { value: Float },
    /// The notice shown while the sounds are rendered anew.
    Updating,
}

/// One shape, or a piece of text.
#[derive(Clone, Copy, Debug)]
pub enum Draw {
    Clear { color: Color },
    Rectangle { x: Float, y: Float, w: Float, h: Float, color: Color },
    Line { x1: Float, y1: Float, x2: Float, y2: Float, thickness: Float, color: Color },
    Circle { x: Float, y: Float, r: Float, color: Color },
    Ellipse { x: Float, y: Float, w: Float, h: Float, rotation: Float, color: Color },
    Text { caption: Caption, x: Float, y: Float, size: Float, color: Color },
}

/// The state that the sliders and the captions show.
#[derive(Clone, Copy, Debug)]
pub struct Ui {
    pub damping: Float,
    pub room: Float,
    pub time_scale: Float,
    pub volume: Float,
    pub mute: bool,
    pub paused: bool,
}

/// The colour with these components, in hundredths.
#[verifier::allow_in_spec]
pub fn shade(r: u64, g: u64, b: u64, a: u64) -> Color
    requires
        r <= 100,
        g <= 100,
        b <= 100,
        a <= 100,
    returns
        (Color { r: dec(r, 100), g: dec(g, 100), b: dec(b, 100), a: dec(a, 100) }),
{
    Color { r: dec(r, 100), g: dec(g, 100), b: dec(b, 100), a: dec(a, 100) }
}

/// A colour, made as opaque as `a`.
#[verifier::allow_in_spec]
pub fn faded(c: Color, a: Float) -> Color
    returns
        (Color { a, ..c }),
{
    Color { r: c.r, g: c.g, b: c.b, a }
}

/// The notice shown while the sounds are rendered anew.
pub open spec fn notice(sw: Float, sh: Float) -> Seq<Draw> {
    seq![
        Draw::Clear { color: shade(8, 9, 12, 100) },
        Draw::Text {
            caption: Caption::Updating,
            x: sw.mul(dec(5, 10)).sub(dec(150, 1)),
            y: sh.mul(dec(5, 10)),
            size: dec(28, 1),
            color: shade(85, 87, 95, 100),
        },
    ]
}

/// The notice shown while the sounds are rendered anew.
pub fn draw_notice(sw: Float, sh: Float) -> (out: Vec<Draw>)
    ensures
        out@ == notice(sw, sh),
{
    let mut out: Vec<Draw> = Vec::new();
    out.push(Draw::Clear { color: shade(8, 9, 12, 100) });
    out.push(
        Draw::Text {
            caption: Caption::Updating,
            x: sw.mul(dec(5, 10)).sub(dec(150, 1)),
            y: sh.mul(dec(5, 10)),
            size: dec(28, 1),
            color: shade(85, 87, 95, 100),
        },
    );
    assert(out@ =~= notice(sw, sh));
    out
}

/// The wall and the floor.
pub open spec fn backdrop(sw: Float, sh: Float) -> Seq<Draw> {
    seq![
        Draw::Clear { color: shade(8, 9, 12, 100) },
        Draw::Rectangle {
            x: dec(0, 1),
            y: sh.mul(dec(55, 100)),
            w: sw,
            h: sh.mul(dec(45, 100)),
            color: shade(5, 6, 9, 100),
        },
    ]
}

fn draw_backdrop(out: &mut Vec<Draw>, sw: Float, sh: Float)
    ensures
        final(out)@ == old(out)@ + backdrop(sw, sh),
{
    out.push(Draw::Clear { color: shade(8, 9, 12, 100) });
    out.push(
        Draw::Rectangle {
            x: dec(0, 1),
            y: sh.mul(dec(55, 100)),
            w: sw,
            h: sh.mul(dec(45, 100)),
            color: shade(5, 6, 9, 100),
        },
    );
    assert(out@ =~= old(out)@ + backdrop(sw, sh));
}

/// The left end of the bar.
pub open spec fn bar_left(balls: Seq<Ball>, sw: Float) -> Float {
    (if balls.len() > 0 {
        balls[0].pivot_x
    } else {
        sw.mul(dec(5, 10))
    }).sub(ball_r()).sub(dec(30, 1))
}

/// The right end of the bar.
pub open spec fn bar_right(balls: Seq<Ball>, sw: Float) -> Float {
    (if balls.len() > 0 {
        balls.last().pivot_x
    } else {
        sw.mul(dec(5, 10))
    }).add(ball_r()).add(dec(30, 1))
}

/// A leg of the frame at `x`, and its foot.
pub open spec fn leg(x: Float, sh: Float) -> Seq<Draw> {
    seq![
        Draw::Rectangle {
            x,
            y: pivot_y().sub(dec(14, 1)),
            w: dec(12, 1),
            h: sh.mul(dec(78, 100)).sub(pivot_y()),
            color: shade(62, 65, 72, 100),
        },
        Draw::Rectangle {
            x: x.sub(dec(24, 1)),
            y: sh.mul(dec(78, 100)),
            w: dec(60, 1),
            h: dec(12, 1),
            color: shade(62, 65, 72, 100),
        },
    ]
}

/// The frame that the balls hang from.
pub open spec fn frame(balls: Seq<Ball>, sw: Float, sh: Float) -> Seq<Draw> {
    let left = bar_left(balls, sw);
    let right = bar_right(balls, sw);
    seq![
        Draw::Rectangle {
            x: left,
            y: pivot_y().sub(dec(14, 1)),
            w: right.sub(left),
            h: dec(16, 1),
            color: shade(62, 65, 72, 100),
        },
    ] + leg(left.add(dec(6, 1)), sh) + leg(right.sub(dec(18, 1)), sh)
}

fn draw_leg(out: &mut Vec<Draw>, x: Float, sh: Float)
    ensures
        final(out)@ == old(out)@ + leg(x, sh),
{
    let color = shade(62, 65, 72, 100);
    let floor = sh.mul(dec(78, 100));
    out.push(
        Draw::Rectangle {
            x,
            y: pivot_y().sub(dec(14, 1)),
            w: dec(12, 1),
            h: floor.sub(pivot_y()),
            color,
        },
    );
    out.push(
        Draw::Rectangle { x: x.sub(dec(24, 1)), y: floor, w: dec(60, 1), h: dec(12, 1), color },
    );
    assert(out@ =~= old(out)@ + leg(x, sh));
}

fn draw_frame(out: &mut Vec<Draw>, balls: &Vec<Ball>, sw: Float, sh: Float)
    ensures
        final(out)@ == old(out)@ + frame(balls@, sw, sh),
{
    let n = balls.len();
    let middle = sw.mul(dec(5, 10));
    let left = (if n > 0 {
        balls[0].pivot_x
    } else {
        middle
    }).sub(ball_r()).sub(dec(30, 1));
    let right = (if n > 0 {
        balls[n - 1].pivot_x
    } else {
        middle
    }).add(ball_r()).add(dec(30, 1));
    out.push(
        Draw::Rectangle {
            x: left,
            y: pivot_y().sub(dec(14, 1)),
            w: right.sub(left),
            h: dec(16, 1),
            color: shade(62, 65, 72, 100),
        },
    );
    draw_leg(out, left.add(dec(6, 1)), sh);
    draw_leg(out, right.sub(dec(18, 1)), sh);
    assert(out@ =~= old(out)@ + frame(balls@, sw, sh));
}

/// Segment `k` of a trail; the later, the thicker and the brighter.
pub open spec fn segment(trail: Seq<Vec2>, k: int) -> Draw {
    let a = of_nat(k as nat).div(of_nat(trail.len()));
    Draw::Line {
        x1: trail[k - 1].x,
        y1: trail[k - 1].y,
        x2: trail[k].x,
        y2: trail[k].y,
        thickness: dec(1, 1).add(a.mul(dec(35, 10))),
        color: faded(shade(45, 72, 100, 100), a.mul(dec(5, 10))),
    }
}

/// The segments of a trail.
pub open spec fn trail_lines(trail: Seq<Vec2>) -> Seq<Draw> {
    Seq::new(
        (if trail.len() > 0 {
            trail.len() - 1
        } else {
            0
        }) as nat,
        |j: int| segment(trail, j + 1),
    )
}

/// The places that a list of trails goes through.
pub open spec fn trail_points(trails: Seq<Vec<Vec2>>) -> Seq<Seq<Vec2>> {
    Seq::new(trails.len(), |i: int| trails[i]@)
}

/// The segments of the first `n` trails.
pub open spec fn all_trails(trails: Seq<Seq<Vec2>>, n: nat) -> Seq<Draw>
    decreases n,
{
    if n == 0 {
        Seq::empty()
    } else {
        all_trails(trails, (n - 1) as nat) + trail_lines(trails[n - 1])
    }
}

fn draw_trail(out: &mut Vec<Draw>, trail: &Vec<Vec2>)
    ensures
        final(out)@ == old(out)@ + trail_lines(trail@),
{
    let len = trail.len();
    let mut k: usize = 1;
    assert(out@ =~= old(out)@ + trail_lines(trail@).take(0));
    while k < len
        invariant
            len == trail@.len(),
            1 <= k,
            len > 0 ==> k <= len,
            len == 0 ==> k == 1,
            out@ == old(out)@ + trail_lines(trail@).take(k - 1),
        decreases len - k,
    {
        let a = Float::of_usize(k).div(Float::of_usize(len));
        let (p, q) = (trail[k - 1], trail[k]);
        out.push(
            Draw::Line {
                x1: p.x,
                y1: p.y,
                x2: q.x,
                y2: q.y,
                thickness: dec(1, 1).add(a.mul(dec(35, 10))),
                color: faded(shade(45, 72, 100, 100), a.mul(dec(5, 10))),
            },
        );
        let ghost s = trail_lines(trail@);
        assert(s.take(k as int) =~= s.take(k - 1).push(s[k - 1]));
        assert(out@ =~= old(out)@ + s.take(k as int));
        k = k + 1;
    }
    assert(trail_lines(trail@).take(k - 1) =~= trail_lines(trail@));
}

fn draw_trails(out: &mut Vec<Draw>, trails: &Vec<Vec<Vec2>>)
    ensures
        final(out)@ == old(out)@ + all_trails(trail_points(trails@), trails@.len()),
{
    let n = trails.len();
    assert(out@ =~= old(out)@ + all_trails(trail_points(trails@), 0));
    for i in 0..n
        invariant
            n == trails@.len(),
            out@ == old(out)@ + all_trails(trail_points(trails@), i as nat),
    {
        draw_trail(out, &trails[i]);
        assert(out@ =~= old(out)@ + all_trails(trail_points(trails@), (i + 1) as nat));
    }
}

/// The colour of a ball: golden while it is held.
pub open spec fn ball_color(is_held: bool) -> Color {
    if is_held {
        shade(95, 82, 45, 100)
    } else {
        shade(78, 80, 86, 100)
    }
}

/// A ball at `p` with its string, its shadow and its shine.
pub open spec fn ball_shapes(b: Ball, p: Vec2, is_held: bool, sh: Float) -> Seq<Draw> {
    let base = ball_color(is_held);
    seq![
        Draw::Line {
            x1: b.pivot_x,
            y1: pivot_y(),
            x2: p.x,
            y2: p.y,
            thickness: dec(2, 1),
            color: shade(80, 80, 85, 90),
        },
        Draw::Circle {
            x: b.pivot_x,
            y: pivot_y().sub(dec(2, 1)),
            r: dec(4, 1),
            color: shade(30, 32, 38, 100),
        },
        Draw::Ellipse {
            x: p.x,
            y: sh.mul(dec(78, 100)).add(dec(12, 1)),
            w: ball_r().mul(dec(9, 10)),
            h: ball_r().mul(dec(28, 100)),
            rotation: dec(0, 1),
            color: shade(0, 0, 0, 25),
        },
        Draw::Circle { x: p.x, y: p.y, r: ball_r(), color: shade(12, 13, 16, 100) },
        Draw::Circle { x: p.x, y: p.y, r: ball_r().sub(dec(25, 10)), color: base },
        Draw::Circle {
            x: p.x,
            y: p.y,
            r: ball_r().mul(dec(62, 100)),
            color: faded(base, dec(55, 100)),
        },
        Draw::Circle {
            x: p.x.sub(ball_r().mul(dec(32, 100))),
            y: p.y.sub(ball_r().mul(dec(34, 100))),
            r: ball_r().mul(dec(24, 100)),
            color: shade(100, 100, 100, 85),
        },
    ]
}

/// The first `n` balls.
pub open spec fn all_balls(balls: Seq<Ball>, at: Seq<Vec2>, dragging: Option<usize>, sh: Float, n: nat) -> Seq<Draw>
    decreases n,
{
    if n == 0 {
        Seq::empty()
    } else {
        all_balls(balls, at, dragging, sh, (n - 1) as nat) + ball_shapes(
            balls[n - 1],
            at[n - 1],
            held(dragging, n - 1),
            sh,
        )
    }
}

fn draw_ball(out: &mut Vec<Draw>, b: &Ball, p: Vec2, is_held: bool, sh: Float)
    ensures
        final(out)@ == old(out)@ + ball_shapes(*b, p, is_held, sh),
{
    let base = if is_held {
        shade(95, 82, 45, 100)
    } else {
        shade(78, 80, 86, 100)
    };
    out.push(
        Draw::Line {
            x1: b.pivot_x,
            y1: pivot_y(),
            x2: p.x,
            y2: p.y,
            thickness: dec(2, 1),
            color: shade(80, 80, 85, 90),
        },
    );
    out.push(
        Draw::Circle {
            x: b.pivot_x,
            y: pivot_y().sub(dec(2, 1)),
            r: dec(4, 1),
            color: shade(30, 32, 38, 100),
        },
    );
    out.push(
        Draw::Ellipse {
            x: p.x,
            y: sh.mul(dec(78, 100)).add(dec(12, 1)),
            w: ball_r().mul(dec(9, 10)),
            h: ball_r().mul(dec(28, 100)),
            rotation: dec(0, 1),
            color: shade(0, 0, 0, 25),
        },
    );
    out.push(Draw::Circle { x: p.x, y: p.y, r: ball_r(), color: shade(12, 13, 16, 100) });
    out.push(Draw::Circle { x: p.x, y: p.y, r: ball_r().sub(dec(25, 10)), color: base });
    out.push(
        Draw::Circle {
            x: p.x,
            y: p.y,
            r: ball_r().mul(dec(62, 100)),
            color: faded(base, dec(55, 100)),
        },
    );
    out.push(
        Draw::Circle {
            x: p.x.sub(ball_r().mul(dec(32, 100))),
            y: p.y.sub(ball_r().mul(dec(34, 100))),
            r: ball_r().mul(dec(24, 100)),
            color: shade(100, 100, 100, 85),
        },
    );
    assert(out@ =~= old(out)@ + ball_shapes(*b, p, is_held, sh));
}

fn draw_balls(out: &mut Vec<Draw>, balls: &Vec<Ball>, at: &Vec<Vec2>, dragging: Option<usize>, sh: Float)
    requires
        balls@.len() == at@.len(),
    ensures
        final(out)@ == old(out)@ + all_balls(balls@, at@, dragging, sh, balls@.len()),
{
    let n = balls.len();
    assert(out@ =~= old(out)@ + all_balls(balls@, at@, dragging, sh, 0));
    for i in 0..n
        invariant
            n == balls@.len() == at@.len(),
            out@ == old(out)@ + all_balls(balls@, at@, dragging, sh, i as nat),
    {
        let is_held = match dragging {
            Some(d) => d == i,
            None => false,
        };
        draw_ball(out, &balls[i], at[i], is_held, sh);
        assert(out@ =~= old(out)@ + all_balls(balls@, at@, dragging, sh, (i + 1) as nat));
    }
}

/// A particle, fading as its time runs out.
pub open spec fn speck(p: Particle) -> Draw {
    let a = p.life.div(p.life0).clamp(dec(0, 1), dec(1, 1));
    Draw::Circle {
        x: p.pos.x,
        y: p.pos.y,
        r: p.size.mul(a),
        color: if p.spark {
            faded(shade(100, 85, 45, 100), a)
        } else {
            faded(shade(85, 82, 75, 100), a.mul(dec(7, 10)))
        },
    }
}

/// The particles.
pub open spec fn specks(particles: Seq<Particle>) -> Seq<Draw> {
    Seq::new(particles.len(), |i: int| speck(particles[i]))
}

fn draw_particles(out: &mut Vec<Draw>, particles: &Vec<Particle>)
    ensures
        final(out)@ == old(out)@ + specks(particles@),
{
    let n = particles.len();
    let ghost s = specks(particles@);
    assert(out@ =~= old(out)@ + s.take(0));
    for i in 0..n
        invariant
            n == particles@.len(),
            s == specks(particles@),
            out@ == old(out)@ + s.take(i as int),
    {
        let p = particles[i];
        let a = p.life.div(p.life0).clamp(dec(0, 1), dec(1, 1));
        let color = if p.spark {
            faded(shade(100, 85, 45, 100), a)
        } else {
            faded(shade(85, 82, 75, 100), a.mul(dec(7, 10)))
        };
        out.push(Draw::Circle { x: p.pos.x, y: p.pos.y, r: p.size.mul(a), color });
        assert(s.take(i + 1) =~= s.take(i as int).push(s[i as int]));
        assert(out@ =~= old(out)@ + s.take(i + 1));
    }
    assert(s.take(n as int) =~= s);
}

/// The kinetic energy of the first `n` balls.
pub open spec fn kinetic(balls: Seq<Ball>, n: nat) -> Float
    decreases n,
{
    if n == 0 {
        dec(0, 1)
    } else {
        let v = string_l().mul(balls[n - 1].omega);
        kinetic(balls, (n - 1) as nat).add(dec(5, 10).mul(v).mul(v))
    }
}

/// The potential energy of the first `n` balls.
pub open spec fn potential(turns: Seq<Turn>, n: nat) -> Float
    decreases n,
{
    if n == 0 {
        dec(0, 1)
    } else {
        potential(turns, (n - 1) as nat).add(
            gravity().mul(string_l()).mul(dec(1, 1).sub(turns[n - 1].cos)),
        )
    }
}

/// The horizontal momentum of the first `n` balls.
pub open spec fn momentum(balls: Seq<Ball>, turns: Seq<Turn>, n: nat) -> Float
    decreases n,
{
    if n == 0 {
        dec(0, 1)
    } else {
        momentum(balls, turns, (n - 1) as nat).add(
            string_l().mul(balls[n - 1].omega).mul(turns[n - 1].cos),
        )
    }
}

/// What the readout shows.
#[derive(Clone, Copy, Debug)]
pub struct Energies {
    pub kinetic: Float,
    pub potential: Float,
    pub momentum: Float,
}

/// The energies and the momentum of a row.
pub open spec fn energies(balls: Seq<Ball>, turns: Seq<Turn>) -> Energies {
    Energies {
        kinetic: kinetic(balls, balls.len()),
        potential: potential(turns, balls.len()),
        momentum: momentum(balls, turns, balls.len()),
    }
}

/// The energies and the momentum of a row, given the sines and cosines of its angles.
pub fn measure(balls: &Vec<Ball>, turns: &Vec<Turn>) -> (e: Energies)
    requires
        balls@.len() == turns@.len(),
    ensures
        e == energies(balls@, turns@),
{
    let mut ke = dec(0, 1);
    let mut pe = dec(0, 1);
    let mut px = dec(0, 1);
    let weight = gravity().mul(string_l());
    for i in 0..balls.len()
        invariant
            balls@.len() == turns@.len(),
            weight == gravity().mul(string_l()),
            ke == kinetic(balls@, i as nat),
            pe == potential(turns@, i as nat),
            px == momentum(balls@, turns@, i as nat),
    {
        let v = string_l().mul(balls[i].omega);
        ke = ke.add(dec(5, 10).mul(v).mul(v));
        pe = pe.add(weight.mul(dec(1, 1).sub(turns[i].cos)));
        px = px.add(v.mul(turns[i].cos));
    }
    Energies { kinetic: ke, potential: pe, momentum: px }
}

/// The share of the kinetic energy in the total.
pub open spec fn kinetic_share(e: Energies) -> Float {
    e.kinetic.div(e.kinetic.add(e.potential).max(dec(1, 1000)))
}

/// The length of the momentum bar, negative to the left.
pub open spec fn momentum_bar(e: Energies) -> Float {
    e.momentum.div(dec(1500, 1)).clamp(dec(1, 1).neg(), dec(1, 1)).mul(
        dec(226, 1).mul(dec(5, 10)),
    )
}

/// The energy part of the readout.
pub open spec fn energy_shapes(e: Energies, sw: Float) -> Seq<Draw> {
    let x = sw.sub(dec(250, 1));
    let y = dec(84, 1);
    let w = dec(226, 1);
    let share = kinetic_share(e);
    seq![
        Draw::Rectangle {
            x: x.sub(dec(12, 1)),
            y: y.sub(dec(26, 1)),
            w: w.add(dec(24, 1)),
            h: dec(104, 1),
            color: shade(0, 0, 0, 30),
        },
        Draw::Text {
            caption: Caption::Energy,
            x,
            y: y.sub(dec(6, 1)),
            size: dec(18, 1),
            color: shade(75, 78, 85, 100),
        },
        Draw::Rectangle { x, y, w, h: dec(14, 1), color: shade(18, 20, 26, 100) },
        Draw::Rectangle { x, y, w: w.mul(share), h: dec(14, 1), color: shade(40, 70, 100, 100) },
        Draw::Rectangle {
            x: x.add(w.mul(share)),
            y,
            w: w.mul(dec(1, 1).sub(share)),
            h: dec(14, 1),
            color: shade(45, 85, 55, 100),
        },
        Draw::Text {
            caption: Caption::Energies {
                kinetic: e.kinetic.div(dec(1000, 1)),
                potential: e.potential.div(dec(1000, 1)),
            },
            x,
            y: y.add(dec(34, 1)),
            size: dec(18, 1),
            color: shade(70, 73, 80, 100),
        },
    ]
}

/// The momentum part of the readout.
pub open spec fn momentum_shapes(e: Energies, sw: Float) -> Seq<Draw> {
    let x = sw.sub(dec(250, 1));
    let my = dec(84, 1).add(dec(52, 1));
    let cx = x.add(dec(226, 1).mul(dec(5, 10)));
    let m = momentum_bar(e);
    seq![
        Draw::Line {
            x1: cx,
            y1: my.sub(dec(6, 1)),
            x2: cx,
            y2: my.add(dec(6, 1)),
            thickness: dec(1, 1),
            color: shade(60, 60, 66, 80),
        },
        if dec(0, 1).le(m) {
            Draw::Rectangle {
                x: cx,
                y: my.sub(dec(4, 1)),
                w: m,
                h: dec(8, 1),
                color: shade(100, 78, 35, 100),
            }
        } else {
            Draw::Rectangle {
                x: cx.add(m),
                y: my.sub(dec(4, 1)),
                w: m.neg(),
                h: dec(8, 1),
                color: shade(100, 78, 35, 100),
            }
        },
        Draw::Text {
            caption: Caption::Momentum { value: e.momentum.div(dec(1000, 1)) },
            x,
            y: my.add(dec(24, 1)),
            size: dec(18, 1),
            color: shade(70, 73, 80, 100),
        },
    ]
}

/// The readout at the top right.
pub open spec fn readout(balls: Seq<Ball>, turns: Seq<Turn>, sw: Float) -> Seq<Draw> {
    energy_shapes(energies(balls, turns), sw) + momentum_shapes(energies(balls, turns), sw)
}

fn draw_energy(out: &mut Vec<Draw>, e: &Energies, sw: Float)
    ensures
        final(out)@ == old(out)@ + energy_shapes(*e, sw),
{
    let x = sw.sub(dec(250, 1));
    let y = dec(84, 1);
    let w = dec(226, 1);
    let share = e.kinetic.div(e.kinetic.add(e.potential).max(dec(1, 1000)));
    out.push(
        Draw::Rectangle {
            x: x.sub(dec(12, 1)),
            y: y.sub(dec(26, 1)),
            w: w.add(dec(24, 1)),
            h: dec(104, 1),
            color: shade(0, 0, 0, 30),
        },
    );
    out.push(
        Draw::Text {
            caption: Caption::Energy,
            x,
            y: y.sub(dec(6, 1)),
            size: dec(18, 1),
            color: shade(75, 78, 85, 100),
        },
    );
    out.push(Draw::Rectangle { x, y, w, h: dec(14, 1), color: shade(18, 20, 26, 100) });
    out.push(
        Draw::Rectangle { x, y, w: w.mul(share), h: dec(14, 1), color: shade(40, 70, 100, 100) },
    );
    out.push(
        Draw::Rectangle {
            x: x.add(w.mul(share)),
            y,
            w: w.mul(dec(1, 1).sub(share)),
            h: dec(14, 1),
            color: shade(45, 85, 55, 100),
        },
    );
    out.push(
        Draw::Text {
            caption: Caption::Energies {
                kinetic: e.kinetic.div(dec(1000, 1)),
                potential: e.potential.div(dec(1000, 1)),
            },
            x,
            y: y.add(dec(34, 1)),
            size: dec(18, 1),
            color: shade(70, 73, 80, 100),
        },
    );
    assert(out@ =~= old(out)@ + energy_shapes(*e, sw));
}

fn draw_momentum(out: &mut Vec<Draw>, e: &Energies, sw: Float)
    ensures
        final(out)@ == old(out)@ + momentum_shapes(*e, sw),
{
    let x = sw.sub(dec(250, 1));
    let my = dec(84, 1).add(dec(52, 1));
    let half = dec(226, 1).mul(dec(5, 10));
    let cx = x.add(half);
    out.push(
        Draw::Line {
            x1: cx,
            y1: my.sub(dec(6, 1)),
            x2: cx,
            y2: my.add(dec(6, 1)),
            thickness: dec(1, 1),
            color: shade(60, 60, 66, 80),
        },
    );
    let m = e.momentum.div(dec(1500, 1)).clamp(dec(1, 1).neg(), dec(1, 1)).mul(half);
    let color = shade(100, 78, 35, 100);
    if dec(0, 1).le(m) {
        out.push(Draw::Rectangle { x: cx, y: my.sub(dec(4, 1)), w: m, h: dec(8, 1), color });
    } else {
        out.push(
            Draw::Rectangle {
                x: cx.add(m),
                y: my.sub(dec(4, 1)),
                w: m.neg(),
                h: dec(8, 1),
                color,
            },
        );
    }
    out.push(
        Draw::Text {
            caption: Caption::Momentum { value: e.momentum.div(dec(1000, 1)) },
            x,
            y: my.add(dec(24, 1)),
            size: dec(18, 1),
            color: shade(70, 73, 80, 100),
        },
    );
    assert(out@ =~= old(out)@ + momentum_shapes(*e, sw));
}

/// Adds the readout: the energies and the momentum of the row.
pub fn draw_readout(out: &mut Vec<Draw>, balls: &Vec<Ball>, turns: &Vec<Turn>, sw: Float)
    requires
        balls@.len() == turns@.len(),
    ensures
        final(out)@ == old(out)@ + readout(balls@, turns@, sw),
{
    let e = measure(balls, turns);
    draw_energy(out, &e, sw);
    draw_momentum(out, &e, sw);
    assert(out@ =~= old(out)@ + readout(balls@, turns@, sw));
}

/// The value that slider `i` shows.
pub open spec fn slider_value(ui: Ui, i: nat) -> Float {
    if i == 0 {
        ui.damping
    } else if i == 1 {
        ui.room
    } else {
        ui.time_scale
    }
}

/// Where the knob of slider `i` is drawn for a value.
pub open spec fn knob(i: usize, value: Float) -> Float {
    slider_x().add(
        value.sub(slider(i).lo).div(slider(i).hi.sub(slider(i).lo)).clamp(dec(0, 1), dec(1, 1)).mul(
            slider_w(),
        ),
    )
}

/// Slider `i`: its groove, the part up to the knob, the knob and its caption.
pub open spec fn slider_shapes(ui: Ui, i: nat) -> Seq<Draw> {
    let s = slider(i as usize);
    let value = slider_value(ui, i);
    let kx = knob(i as usize, value);
    seq![
        Draw::Line {
            x1: slider_x(),
            y1: s.y,
            x2: slider_x().add(slider_w()),
            y2: s.y,
            thickness: dec(4, 1),
            color: shade(20, 22, 28, 100),
        },
        Draw::Line {
            x1: slider_x(),
            y1: s.y,
            x2: kx,
            y2: s.y,
            thickness: dec(4, 1),
            color: shade(45, 72, 100, 100),
        },
        Draw::Circle { x: kx, y: s.y, r: dec(7, 1), color: shade(90, 92, 98, 100) },
        Draw::Text {
            caption: Caption::Slider { index: i as usize, value },
            x: slider_x().add(slider_w()).add(dec(14, 1)),
            y: s.y.add(dec(5, 1)),
            size: dec(18, 1),
            color: shade(72, 75, 82, 100),
        },
    ]
}

/// The three sliders.
pub open spec fn all_sliders(ui: Ui) -> Seq<Draw> {
    slider_shapes(ui, 0) + slider_shapes(ui, 1) + slider_shapes(ui, 2)
}

fn draw_slider(out: &mut Vec<Draw>, i: usize, value: Float, ui: &Ui)
    requires
        i < SLIDERS,
        value == slider_value(*ui, i as nat),
    ensures
        final(out)@ == old(out)@ + slider_shapes(*ui, i as nat),
{
    let s = slider(i);
    let x2 = slider_x().add(slider_w());
    out.push(
        Draw::Line {
            x1: slider_x(),
            y1: s.y,
            x2,
            y2: s.y,
            thickness: dec(4, 1),
            color: shade(20, 22, 28, 100),
        },
    );
    let frac = value.sub(s.lo).div(s.hi.sub(s.lo)).clamp(dec(0, 1), dec(1, 1));
    let kx = slider_x().add(frac.mul(slider_w()));
    out.push(
        Draw::Line {
            x1: slider_x(),
            y1: s.y,
            x2: kx,
            y2: s.y,
            thickness: dec(4, 1),
            color: shade(45, 72, 100, 100),
        },
    );
    out.push(Draw::Circle { x: kx, y: s.y, r: dec(7, 1), color: shade(90, 92, 98, 100) });
    out.push(
        Draw::Text {
            caption: Caption::Slider { index: i, value },
            x: x2.add(dec(14, 1)),
            y: s.y.add(dec(5, 1)),
            size: dec(18, 1),
            color: shade(72, 75, 82, 100),
        },
    );
    assert(out@ =~= old(out)@ + slider_shapes(*ui, i as nat));
}

/// Adds the sliders.
pub fn draw_sliders(out: &mut Vec<Draw>, ui: &Ui)
    ensures
        final(out)@ == old(out)@ + all_sliders(*ui),
{
    draw_slider(out, 0, ui.damping, ui);
    draw_slider(out, 1, ui.room, ui);
    draw_slider(out, 2, ui.time_scale, ui);
    assert(out@ =~= old(out)@ + all_sliders(*ui));
}

/// The captions in the corners.
pub open spec fn captions(count: nat, ui: Ui, sh: Float) -> Seq<Draw> {
    seq![
        Draw::Text {
            caption: Caption::Title,
            x: dec(18, 1),
            y: dec(36, 1),
            size: dec(30, 1),
            color: shade(85, 87, 95, 100),
        },
        Draw::Text {
            caption: Caption::Balls { count: count as usize },
            x: dec(18, 1),
            y: dec(60, 1),
            size: dec(18, 1),
            color: shade(55, 58, 66, 100),
        },
        Draw::Text {
            caption: Caption::Volume {
                percent: ui.volume.mul(dec(100, 1)),
                mute: ui.mute,
                paused: ui.paused,
            },
            x: dec(18, 1),
            y: sh.sub(dec(42, 1)),
            size: dec(18, 1),
            color: shade(70, 72, 80, 90),
        },
        Draw::Text {
            caption: Caption::Help,
            x: dec(18, 1),
            y: sh.sub(dec(18, 1)),
            size: dec(18, 1),
            color: shade(70, 72, 80, 90),
        },
    ]
}

fn draw_captions(out: &mut Vec<Draw>, count: usize, ui: &Ui, sh: Float)
    ensures
        final(out)@ == old(out)@ + captions(count as nat, *ui, sh),
{
    let dim = shade(70, 72, 80, 90);
    out.push(
        Draw::Text {
            caption: Caption::Title,
            x: dec(18, 1),
            y: dec(36, 1),
            size: dec(30, 1),
            color: shade(85, 87, 95, 100),
        },
    );
    out.push(
        Draw::Text {
            caption: Caption::Balls { count },
            x: dec(18, 1),
            y: dec(60, 1),
            size: dec(18, 1),
            color: shade(55, 58, 66, 100),
        },
    );
    out.push(
        Draw::Text {
            caption: Caption::Volume {
                percent: ui.volume.mul(dec(100, 1)),
                mute: ui.mute,
                paused: ui.paused,
            },
            x: dec(18, 1),
            y: sh.sub(dec(42, 1)),
            size: dec(18, 1),
            color: dim,
        },
    );
    out.push(
        Draw::Text {
            caption: Caption::Help,
            x: dec(18, 1),
            y: sh.sub(dec(18, 1)),
            size: dec(18, 1),
            color: dim,
        },
    );
    assert(out@ =~= old(out)@ + captions(count as nat, *ui, sh));
}

/// The whole screen, from back to front.
pub open spec fn scene(
    balls: Seq<Ball>,
    turns: Seq<Turn>,
    trails: Seq<Seq<Vec2>>,
    particles: Seq<Particle>,
    dragging: Option<usize>,
    ui: Ui,
    sw: Float,
    sh: Float,
) -> Seq<Draw> {
    backdrop(sw, sh) + frame(balls, sw, sh) + all_trails(trails, trails.len()) + all_balls(
        balls,
        centres(balls, turns),
        dragging,
        sh,
        balls.len(),
    ) + specks(particles) + readout(balls, turns, sw) + all_sliders(ui) + captions(
        balls.len(),
        ui,
        sh,
    )
}

/// The whole screen, from back to front. `turns` are the sines and cosines of the
/// angles of the balls.
pub fn draw_scene(
    balls: &Vec<Ball>,
    turns: &Vec<Turn>,
    trails: &Vec<Vec<Vec2>>,
    particles: &Vec<Particle>,
    dragging: Option<usize>,
    ui: &Ui,
    sw: Float,
    sh: Float,
) -> (out: Vec<Draw>)
    requires
        balls@.len() == turns@.len(),
    ensures
        out@ == scene(
            balls@,
            turns@,
            trail_points(trails@),
            particles@,
            dragging,
            *ui,
            sw,
            sh,
        ),
{
    let mut out: Vec<Draw> = Vec::new();
    let at = places(balls, turns);
    draw_backdrop(&mut out, sw, sh);
    draw_frame(&mut out, balls, sw, sh);
    draw_trails(&mut out, trails);
    draw_balls(&mut out, balls, &at, dragging, sh);
    draw_particles(&mut out, particles);
    draw_readout(&mut out, balls, turns, sw);
    draw_sliders(&mut out, ui);
    draw_captions(&mut out, balls.len(), ui, sh);
    assert(Seq::<Draw>::empty() + backdrop(sw, sh) =~= backdrop(sw, sh));
    out
}

} // verus!
