//! A running cradle: what keys and the mouse do to it, how a frame passes, and which
//! sounds, dust and shaking follow.
//!
//! A frame is a number of calls in order. Between them the caller evaluates sines,
//! cosines and an arctangent, draws random numbers, plays the sounds it is told to
//! play, and draws the shapes it is given.

use vstd::prelude::*;
use crate::bank::{PAN_STEPS, PITCH_STEPS, WHOOSH_STEPS, bank_index, gain, nearest_pan, nearest_step, pan_index, step_index};
use crate::config::{Config, same_settings};
use crate::cradle::{Ball, Impact, Sweep, Turn, ball_r, collide, held, integrate, make_balls, omegas, pivot_y, resolved, resting_ball, string_l, swung_row};
use crate::dust::{Chance, MAX_PARTICLES, Particle, aged, dusted, puff_size, spawn_dust, speed_full, update_particles};
use crate::float::{Float, dec, of_nat};
use crate::scene::{Draw, Ui, draw_scene, scene, trail_points};
use crate::settings_laws::{keys_keep_settings_in_range, mouse_keeps_settings_in_range};
use crate::sliders::{SLIDERS, find_slider, slider_at, slider_value_from_mouse};
use crate::vector::{Vec2, vec2};

verus! {

/// The number of steps that the physics takes in a frame.
pub const SUBSTEPS: u32 = 16;

/// The most places that a trail remembers.
pub const TRAIL_LEN: usize = 22;

/// The keys that were pressed since the last frame.
#[derive(Clone, Copy, Debug)]
pub struct Keys {
    pub reset: bool,
    pub more: bool,
    pub fewer: bool,
    pub pull1: bool,
    pub pull2: bool,
    pub pull3: bool,
    pub pull4: bool,
    pub mute: bool,
    pub softer: bool,
    pub louder: bool,
    pub slower: bool,
    pub faster: bool,
    pub pause: bool,
    pub quit: bool,
}

/// The mouse: where it is, and whether its button went down or up.
#[derive(Clone, Copy, Debug)]
pub struct Mouse {
    pub at: Vec2,
    pub pressed: bool,
    pub released: bool,
}

/// A sound to play: its place in its bank, and how loud.
#[derive(Clone, Copy, Debug)]
pub struct Voice {
    pub index: usize,
    pub volume: Float,
}

/// The times of a frame: as it passed, as the toy sees it, and one step of it.
#[derive(Clone, Copy, Debug)]
pub struct Times {
    pub real_dt: Float,
    pub sim_dt: Float,
    pub dt: Float,
}

/// The view of the world: its magnification, and the point in the middle.
#[derive(Clone, Copy, Debug)]
pub struct Viewpoint {
    pub zoom: Vec2,
    pub target: Vec2,
}

/// A running cradle.
#[derive(Debug)]
pub struct Session {
    config: Config,
    paused: bool,
    last_saved: Config,
    balls: Vec<Ball>,
    trails: Vec<Vec<Vec2>>,
    prev_theta: Vec<Float>,
    particles: Vec<Particle>,
    dragging: Option<usize>,
    active_slider: Option<usize>,
    need_rebuild: bool,
    shake: Float,
}

/// What a session is made of: the settings, those that were saved last, whether time
/// stands still; the balls, the trails behind them and their angles a frame ago; the
/// particles; what the mouse holds; whether the clacks have to be rendered anew; and how
/// far the screen shakes.
#[verifier::ext_equal]
pub struct State {
    pub config: Config,
    pub paused: bool,
    pub last_saved: Config,
    pub balls: Seq<Ball>,
    pub trails: Seq<Seq<Vec2>>,
    pub prev_theta: Seq<Float>,
    pub particles: Seq<Particle>,
    pub dragging: Option<usize>,
    pub active_slider: Option<usize>,
    pub need_rebuild: bool,
    pub shake: Float,
}

impl View for Session {
    type V = State;

    closed spec fn view(&self) -> State {
        State {
            config: self.config,
            paused: self.paused,
            last_saved: self.last_saved,
            balls: self.balls@,
            trails: trail_points(self.trails@),
            prev_theta: self.prev_theta@,
            particles: self.particles@,
            dragging: self.dragging,
            active_slider: self.active_slider,
            need_rebuild: self.need_rebuild,
            shake: self.shake,
        }
    }
}

impl State {
    /// What holds of a session at any time.
    pub open spec fn sound(&self) -> bool {
        &&& self.config.clamped() == self.config
        &&& self.balls.len() == self.config.n_balls
        &&& self.dragging matches Some(i) ==> i < self.config.n_balls
        &&& self.active_slider matches Some(i) ==> i < SLIDERS
        &&& self.trails.len() == self.prev_theta.len()
        &&& forall|i: int| 0 <= i < self.trails.len() ==> (#[trigger] self.trails[i]).len() <= TRAIL_LEN
        &&& self.particles.len() <= MAX_PARTICLES
    }

    /// What holds from the time the buffers are brought in line until the end of a
    /// frame: there is a trail for every ball.
    pub open spec fn ready(&self) -> bool {
        self.sound() && self.trails.len() == self.config.n_balls
    }

    /// What the keys for balls act on.
    pub open spec fn row(&self) -> Row {
        Row { n: self.config.n_balls as nat, balls: self.balls, dragging: self.dragging }
    }

    /// What the mouse acts on.
    pub open spec fn grip(&self) -> Grip {
        Grip {
            config: self.config,
            dragging: self.dragging,
            active_slider: self.active_slider,
            need_rebuild: self.need_rebuild,
        }
    }

    /// What the sliders and the captions show.
    pub open spec fn ui(&self) -> Ui {
        Ui {
            damping: self.config.damping,
            room: self.config.room,
            time_scale: self.config.time_scale,
            volume: self.config.volume,
            mute: self.config.mute,
            paused: self.paused,
        }
    }
}

/// A session with the first ball of `config`'s row pulled aside, before anything happens.
pub open spec fn beginning(config: Config, sw: Float) -> State {
    State {
        config,
        paused: false,
        last_saved: config,
        balls: pulled_row(config.n_balls as nat, sw, 1),
        trails: no_trails(config.n_balls as nat),
        prev_theta: Seq::new(config.n_balls as nat, |i: int| dec(0, 1)),
        particles: Seq::empty(),
        dragging: None,
        active_slider: None,
        need_rebuild: false,
        shake: dec(0, 1),
    }
}

/// The angle of a ball that is pulled aside.
#[verifier::allow_in_spec]
pub fn pulled_theta() -> Float
    returns
        dec(9, 10).neg(),
{
    dec(9, 10).neg()
}

/// A row of `n` balls at rest, with the first `k` pulled aside.
pub open spec fn pulled_row(n: nat, sw: Float, k: nat) -> Seq<Ball> {
    Seq::new(
        n,
        |i: int|
            if i < k {
                Ball { theta: pulled_theta(), ..resting_ball(n, sw, i as nat) }
            } else {
                resting_ball(n, sw, i as nat)
            },
    )
}

fn pull_row(n: usize, sw: Float, k: usize) -> (balls: Vec<Ball>)
    requires
        k <= n,
    ensures
        balls@ == pulled_row(n as nat, sw, k as nat),
{
    let mut balls = make_balls(n, sw);
    let ghost rest = balls@;
    for i in 0..k
        invariant
            k <= n == balls@.len(),
            rest.len() == n,
            forall|j: int| 0 <= j < n ==> rest[j] == #[trigger] resting_ball(n as nat, sw, j as nat),
            forall|j: int| 0 <= j < i ==> #[trigger] balls@[j] == (Ball { theta: pulled_theta(), ..rest[j] }),
            forall|j: int| i <= j < n ==> #[trigger] balls@[j] == rest[j],
    {
        let b = balls[i];
        balls.set(i, Ball { theta: pulled_theta(), omega: b.omega, pivot_x: b.pivot_x });
    }
    assert forall|j: int| 0 <= j < n implies #[trigger] balls@[j] == pulled_row(n as nat, sw, k as nat)[j] by {
        assert(rest[j] == resting_ball(n as nat, sw, j as nat));
    }
    assert(balls@ =~= pulled_row(n as nat, sw, k as nat));
    balls
}

/// The angles of a row.
pub open spec fn thetas(balls: Seq<Ball>) -> Seq<Float> {
    Seq::new(balls.len(), |i: int| balls[i].theta)
}

fn angles(balls: &Vec<Ball>) -> (v: Vec<Float>)
    ensures
        v@ == thetas(balls@),
{
    let mut v: Vec<Float> = Vec::new();
    for i in 0..balls.len()
        invariant
            v@.len() == i,
            forall|j: int| 0 <= j < i ==> #[trigger] v@[j] == balls@[j].theta,
    {
        v.push(balls[i].theta);
    }
    assert(v@ =~= thetas(balls@));
    v
}

/// As many trails, all empty.
pub open spec fn no_trails(n: nat) -> Seq<Seq<Vec2>> {
    Seq::new(n, |i: int| Seq::empty())
}

fn empty_trails(n: usize) -> (v: Vec<Vec<Vec2>>)
    ensures
        trail_points(v@) == no_trails(n as nat),
{
    let mut v: Vec<Vec<Vec2>> = Vec::new();
    for i in 0..n
        invariant
            v@.len() == i,
            forall|j: int| 0 <= j < i ==> (#[trigger] v@[j])@.len() == 0,
    {
        v.push(Vec::new());
    }
    assert(trail_points(v@) =~= no_trails(n as nat)) by {
        assert forall|j: int| 0 <= j < n implies trail_points(v@)[j] == no_trails(n as nat)[j] by {
            assert(v@[j]@ =~= Seq::empty());
        }
    }
    v
}

/// What the keys for balls act on.
#[verifier::ext_equal]
pub struct Row {
    pub n: nat,
    pub balls: Seq<Ball>,
    pub dragging: Option<usize>,
}

/// The row after a key that hangs it anew with `k` balls pulled aside.
pub open spec fn rehung(r: Row, sw: Float, k: nat) -> Row {
    Row { balls: pulled_row(r.n, sw, k), ..r }
}

/// The row after the key for a reset.
pub open spec fn after_reset(r: Row, pressed: bool, sw: Float) -> Row {
    if pressed {
        Row { dragging: None, ..rehung(r, sw, 1) }
    } else {
        r
    }
}

/// The row after the keys for more and fewer balls.
pub open spec fn after_count(r: Row, more: bool, fewer: bool, sw: Float) -> Row {
    let grown = if more && r.n < 7 {
        Row { dragging: None, ..rehung(Row { n: r.n + 1, ..r }, sw, 0) }
    } else {
        r
    };
    if fewer && grown.n > 3 {
        Row { dragging: None, ..rehung(Row { n: (grown.n - 1) as nat, ..grown }, sw, 0) }
    } else {
        grown
    }
}

/// The row after the key that pulls `k` balls aside.
pub open spec fn after_pull(r: Row, pressed: bool, k: nat, sw: Float) -> Row {
    if pressed && k <= r.n {
        rehung(r, sw, k)
    } else {
        r
    }
}

/// The row after all keys, in the order in which they are looked at.
pub open spec fn after_keys(r: Row, keys: Keys, sw: Float) -> Row {
    let r = after_count(after_reset(r, keys.reset, sw), keys.more, keys.fewer, sw);
    let r = after_pull(after_pull(r, keys.pull1, 1, sw), keys.pull2, 2, sw);
    after_pull(after_pull(r, keys.pull3, 3, sw), keys.pull4, 4, sw)
}

/// A session after its keys.
pub open spec fn pressed(s: State, keys: Keys, sw: Float) -> State {
    let r = after_keys(s.row(), keys, sw);
    State {
        config: Config { n_balls: r.n as usize, ..tuned(s.config, keys) },
        paused: s.paused != keys.pause,
        balls: r.balls,
        dragging: r.dragging,
        ..s
    }
}

/// The settings to save where the keys ask to leave.
pub open spec fn left(s: State, keys: Keys) -> Option<Config> {
    if keys.quit {
        Some(s.config)
    } else {
        None
    }
}

/// A setting that one key lowers and another raises, held within its range.
pub open spec fn nudged(x: Float, down: bool, up: bool, by: Float, lo: Float, hi: Float) -> Float {
    let x = if down {
        x.sub(by).clamp(lo, hi)
    } else {
        x
    };
    if up {
        x.add(by).clamp(lo, hi)
    } else {
        x
    }
}

/// The settings after the keys for sound and time.
pub open spec fn tuned(c: Config, keys: Keys) -> Config {
    Config {
        mute: c.mute != keys.mute,
        volume: nudged(c.volume, keys.softer, keys.louder, dec(5, 100), dec(0, 1), dec(1, 1)),
        time_scale: nudged(
            c.time_scale,
            keys.slower,
            keys.faster,
            dec(1, 10),
            dec(5, 100),
            dec(2, 1),
        ),
        ..c
    }
}

/// Which ball is nearest to `at` among the first `k`, and how far: one within reach,
/// and the leftmost where two are as near.
pub open spec fn nearest(places: Seq<Vec2>, at: Vec2, k: nat) -> (Option<usize>, Float)
    decreases k,
{
    if k == 0 {
        let reach = ball_r().mul(dec(18, 10));
        (None, reach.mul(reach))
    } else {
        let best = nearest(places, at, (k - 1) as nat);
        let d = places[k - 1].sub(at).length_squared();
        if d.lt(best.1) {
            (Some((k - 1) as usize), d)
        } else {
            best
        }
    }
}

/// The ball that a press of the mouse grasps.
pub open spec fn grasped(places: Seq<Vec2>, at: Vec2) -> Option<usize> {
    nearest(places, at, places.len()).0
}

fn grasp(places: &Vec<Vec2>, at: Vec2) -> (r: Option<usize>)
    ensures
        r == grasped(places@, at),
        r matches Some(i) ==> i < places@.len(),
{
    let mut best: Option<usize> = None;
    let reach = ball_r().mul(dec(18, 10));
    let mut best_d = reach.mul(reach);
    for i in 0..places.len()
        invariant
            (best, best_d) == nearest(places@, at, i as nat),
            best matches Some(j) ==> j < i,
    {
        let d = places[i].sub(at).length_squared();
        if d.lt(best_d) {
            best_d = d;
            best = Some(i);
        }
    }
    best
}

/// The settings with a slider's value set from the mouse.
pub open spec fn slid(c: Config, active: Option<usize>, x: Float) -> Config {
    match active {
        Some(i) => {
            let v = slider_value_from_mouse(i, x);
            if i == 0 {
                Config { damping: v, ..c }
            } else if i == 1 {
                Config { room: v, ..c }
            } else {
                Config { time_scale: v, ..c }
            }
        },
        None => c,
    }
}

/// What the mouse acts on.
#[verifier::ext_equal]
pub struct Grip {
    pub config: Config,
    pub dragging: Option<usize>,
    pub active_slider: Option<usize>,
    pub need_rebuild: bool,
}

/// What the mouse leaves: a press takes hold of a slider or, where there is none, of
/// a ball; a slider follows the mouse; a release lets go, and asks for new sounds
/// where the room was changed.
pub open spec fn gripped(g: Grip, mouse: Mouse, places: Seq<Vec2>) -> Grip {
    let found = slider_at(mouse.at);
    let held = if mouse.pressed {
        Grip {
            active_slider: found,
            dragging: if found is None {
                grasped(places, mouse.at)
            } else {
                g.dragging
            },
            ..g
        }
    } else {
        g
    };
    let moved = Grip { config: slid(held.config, held.active_slider, mouse.at.x), ..held };
    if mouse.released {
        Grip {
            need_rebuild: moved.need_rebuild || moved.active_slider == Some(1usize),
            active_slider: None,
            dragging: None,
            ..moved
        }
    } else {
        moved
    }
}

/// The direction from the pivot of the held ball to the mouse: across, and down.
pub open spec fn pull_of(balls: Seq<Ball>, dragging: Option<usize>, at: Vec2) -> Option<Vec2> {
    match dragging {
        Some(i) => Some(
            vec2(at.x.sub(balls[i as int].pivot_x), at.y.sub(pivot_y()).max(dec(10, 1))),
        ),
        None => None,
    }
}

/// A ball that is held and turned to an angle, as far as the frame allows: it stops there.
pub open spec fn turned(b: Ball, angle: Float) -> Ball {
    Ball {
        theta: angle.clamp(dec(135, 100).neg(), dec(135, 100)),
        omega: dec(0, 1),
        pivot_x: b.pivot_x,
    }
}

/// The times of a frame that took `frame_time` seconds.
pub open spec fn times(frame_time: Float, paused: bool, time_scale: Float) -> Times {
    let real_dt = frame_time.min(dec(1, 1).div(dec(30, 1)));
    let sim_dt = real_dt.mul(
        if paused {
            dec(0, 1)
        } else {
            time_scale
        },
    );
    Times { real_dt, sim_dt, dt: sim_dt.div(of_nat(SUBSTEPS as nat)) }
}

/// A row with other angular velocities.
pub open spec fn with_omegas(balls: Seq<Ball>, omegas: Seq<Float>) -> Seq<Ball> {
    Seq::new(balls.len(), |i: int| Ball { omega: omegas[i], ..balls[i] })
}

/// The clack of an impact.
pub open spec fn clack(impact: Impact, sw: Float, c: Config) -> Voice {
    let t = impact.speed.div(speed_full());
    Voice {
        index: (nearest_step(t, PITCH_STEPS as nat) * PAN_STEPS + nearest_pan(
            impact.at.x,
            sw,
            c.n_balls as nat,
        )) as usize,
        volume: gain(dec(12, 100).add(dec(88, 100).mul(t.min(dec(1, 1)))), c.volume, c.mute),
    }
}

/// Whether an impact is heard and seen.
pub open spec fn heard(impact: Impact, dragging: Option<usize>) -> bool {
    dec(40, 1).lt(impact.speed) && dragging is None
}

/// How far the screen shakes after an impact.
pub open spec fn shaken(shake: Float, speed: Float) -> Float {
    if dec(600, 1).lt(speed) {
        shake.max(
            speed.sub(dec(600, 1)).div(speed_full()).clamp(dec(0, 1), dec(1, 1)).mul(dec(16, 1)),
        )
    } else {
        shake
    }
}

/// How far the screen still shakes after `dt` seconds.
pub open spec fn calmed(shake: Float, dt: Float) -> Float {
    shake.sub(dec(70, 1).mul(dt)).max(dec(0, 1))
}

/// The fastest ball that passed the bottom among the first `k`: its speed and place.
pub open spec fn rush(prev: Seq<Float>, balls: Seq<Ball>, places: Seq<Vec2>, sw: Float, k: nat) -> (Float, Float)
    decreases k,
{
    if k == 0 {
        (dec(0, 1), sw.mul(dec(5, 10)))
    } else {
        let best = rush(prev, balls, places, sw, (k - 1) as nat);
        let sp = string_l().mul(balls[k - 1].omega.abs());
        if prev[k - 1].mul(balls[k - 1].theta).lt(dec(0, 1)) && best.0.lt(sp) {
            (sp, places[k - 1].x)
        } else {
            best
        }
    }
}

/// The sweep of a ball that rushes through the bottom at `speed`, at `x`.
pub open spec fn sweep(speed: Float, x: Float, sw: Float, c: Config) -> Voice {
    let t = speed.sub(dec(260, 1)).div(dec(1500, 1).sub(dec(260, 1)));
    Voice {
        index: (nearest_step(t, WHOOSH_STEPS as nat) * PAN_STEPS + nearest_pan(
            x,
            sw,
            c.n_balls as nat,
        )) as usize,
        volume: gain(
            dec(10, 100).add(dec(45, 100).mul(t.clamp(dec(0, 1), dec(1, 1)))),
            c.volume,
            c.mute,
        ),
    }
}

/// The sweep that is heard in a frame, if any.
pub open spec fn rush_voice(s: State, places: Seq<Vec2>, sw: Float) -> Option<Voice> {
    let r = rush(s.prev_theta, s.balls, places, sw, s.balls.len());
    if dec(260, 1).lt(r.0) && s.dragging is None {
        Some(sweep(r.0, r.1, sw, s.config))
    } else {
        None
    }
}

/// A session whose buffers are in line with the number of balls.
pub open spec fn fitted(s: State) -> State {
    if s.trails.len() == s.config.n_balls {
        s
    } else {
        State { trails: no_trails(s.balls.len()), prev_theta: thetas(s.balls), ..s }
    }
}

/// The settings that are to be saved.
pub open spec fn unsaved(s: State) -> Option<Config> {
    if !same_settings(s.config, s.last_saved) && s.active_slider is None {
        Some(s.config)
    } else {
        None
    }
}

/// Whether the screen shakes enough to be seen.
pub open spec fn shakes(shake: Float) -> bool {
    dec(1, 10).lt(shake)
}

/// The impact that a frame starts from: none, in the middle of the screen.
pub open spec fn impact_before(sw: Float, sh: Float) -> Impact {
    Impact { speed: dec(0, 1), at: vec2(sw.mul(dec(5, 10)), sh.mul(dec(5, 10))) }
}

/// A session after its mouse.
pub open spec fn moused(s: State, mouse: Mouse, places: Seq<Vec2>) -> State {
    let g = gripped(s.grip(), mouse, places);
    State {
        config: g.config,
        dragging: g.dragging,
        active_slider: g.active_slider,
        need_rebuild: g.need_rebuild,
        ..s
    }
}

/// A session whose held ball is turned to an angle.
pub open spec fn dragged(s: State, angle: Float) -> State {
    State {
        balls: match s.dragging {
            Some(i) => s.balls.update(i as int, turned(s.balls[i as int], angle)),
            None => s.balls,
        },
        ..s
    }
}

/// A session after the first half of a step.
pub open spec fn swung_state(s: State, sines: Seq<Float>, dt: Float) -> State {
    State { balls: swung_row(s.balls, sines, s.dragging, s.config.damping, dt), ..s }
}

/// What a session's row makes of its collisions.
pub open spec fn knocked(s: State, places: Seq<Vec2>, impact: Impact) -> Sweep {
    resolved(
        places,
        s.dragging,
        Sweep { omegas: omegas(s.balls), impact, any: false },
        s.balls.len(),
    )
}

/// A session after its collisions: its balls have other velocities.
pub open spec fn knocked_state(s: State, places: Seq<Vec2>, impact: Impact) -> State {
    State { balls: with_omegas(s.balls, knocked(s, places, impact).omegas), ..s }
}

/// A session with the dust of an impact.
pub open spec fn dusty(s: State, impact: Impact, chances: Seq<Chance>) -> State {
    State { particles: dusted(s.particles, impact.at, impact.speed, chances), ..s }
}

/// A session that remembers where its balls are.
pub open spec fn watched(s: State) -> State {
    State { prev_theta: thetas(s.balls), ..s }
}

/// A session whose settings have been saved, where they had to be.
pub open spec fn after_saving(s: State) -> State {
    State {
        last_saved: if unsaved(s) is Some {
            s.config
        } else {
            s.last_saved
        },
        ..s
    }
}

/// A session whose sounds have been rendered anew.
pub open spec fn after_rebuild(s: State) -> State {
    State { need_rebuild: false, ..s }
}

/// The clack that is heard of an impact, if any.
pub open spec fn strike_voice(s: State, impact: Impact, sw: Float) -> Option<Voice> {
    if heard(impact, s.dragging) {
        Some(clack(impact, sw, s.config))
    } else {
        None
    }
}

/// A session after an impact: it shakes where the impact is heard.
pub open spec fn struck(s: State, impact: Impact) -> State {
    State {
        shake: if heard(impact, s.dragging) {
            shaken(s.shake, impact.speed)
        } else {
            s.shake
        },
        ..s
    }
}

/// A session after a frame has passed.
pub open spec fn passed(s: State, places: Seq<Vec2>, t: Times) -> State {
    State {
        trails: all_extended(s.trails, places),
        particles: aged(s.particles, t.sim_dt),
        shake: calmed(s.shake, t.real_dt),
        ..s
    }
}

/// The trails with one more place each.
pub open spec fn all_extended(trails: Seq<Seq<Vec2>>, places: Seq<Vec2>) -> Seq<Seq<Vec2>> {
    Seq::new(trails.len(), |i: int| extended(trails[i], places[i]))
}

/// A trail with one more place, without the oldest where it is too long.
pub open spec fn extended(trail: Seq<Vec2>, p: Vec2) -> Seq<Vec2> {
    if trail.len() + 1 > TRAIL_LEN {
        trail.push(p).skip(1)
    } else {
        trail.push(p)
    }
}

fn extend(trail: &mut Vec<Vec2>, p: Vec2)
    requires
        old(trail)@.len() <= TRAIL_LEN,
    ensures
        final(trail)@ == extended(old(trail)@, p),
        final(trail)@.len() <= TRAIL_LEN,
{
    trail.push(p);
    if trail.len() > TRAIL_LEN {
        trail.remove(0);
        assert(trail@ =~= old(trail)@.push(p).skip(1));
    }
}

/// The view, shifted by `off`. The vertical magnification is positive, which keeps
/// the vertical axis pointing down.
#[verifier::allow_in_spec]
pub fn camera(sw: Float, sh: Float, off: Vec2) -> Viewpoint
    returns
        (Viewpoint {
            zoom: vec2(dec(2, 1).div(sw), dec(2, 1).div(sh)),
            target: vec2(sw.mul(dec(5, 10)).add(off.x), sh.mul(dec(5, 10)).add(off.y)),
        }),
{
    Viewpoint {
        zoom: vec2(dec(2, 1).div(sw), dec(2, 1).div(sh)),
        target: vec2(sw.mul(dec(5, 10)).add(off.x), sh.mul(dec(5, 10)).add(off.y)),
    }
}

impl Session {
    /// A cradle with the first ball pulled aside.
    pub fn start(config: Config, sw: Float) -> (s: Session)
        requires
            config.clamped() == config,
        ensures
            s@ == beginning(config, sw),
            s@.ready(),
    {
        let n = config.n_balls;
        let resting = make_balls(n, sw);
        let prev_theta = angles(&resting);
        assert(prev_theta@ =~= Seq::new(n as nat, |i: int| dec(0, 1))) by {
            assert forall|i: int| 0 <= i < n implies prev_theta@[i] == dec(0, 1) by {
                assert(resting@[i] == resting_ball(n as nat, sw, i as nat));
            }
        }
        let s = Session {
            config,
            paused: false,
            last_saved: config,
            balls: pull_row(n, sw, 1),
            trails: empty_trails(n),
            prev_theta,
            particles: Vec::new(),
            dragging: None,
            active_slider: None,
            need_rebuild: false,
            shake: dec(0, 1),
        };
        assert(s@ =~= beginning(config, sw));
        s
    }

    /// The settings.
    pub fn config(&self) -> (c: Config)
        ensures
            c == self@.config,
    {
        self.config
    }

    /// Whether time stands still.
    pub fn is_paused(&self) -> (r: bool)
        ensures
            r == self@.paused,
    {
        self.paused
    }

    /// The balls, from left to right.
    pub fn balls(&self) -> (v: &Vec<Ball>)
        ensures
            v@ == self@.balls,
    {
        &self.balls
    }

    /// The trails behind the balls.
    pub fn trails(&self) -> (v: &Vec<Vec<Vec2>>)
        ensures
            trail_points(v@) == self@.trails,
    {
        &self.trails
    }

    /// The particles, the oldest first.
    pub fn particles(&self) -> (v: &Vec<Particle>)
        ensures
            v@ == self@.particles,
    {
        &self.particles
    }

    /// The ball that is held.
    pub fn dragging(&self) -> (r: Option<usize>)
        ensures
            r == self@.dragging,
    {
        self.dragging
    }

    /// The slider that is held.
    pub fn active_slider(&self) -> (r: Option<usize>)
        ensures
            r == self@.active_slider,
    {
        self.active_slider
    }

    /// How far the screen shakes, in pixels.
    pub fn shake(&self) -> (r: Float)
        ensures
            r == self@.shake,
    {
        self.shake
    }

    /// The settings to save where the keys ask to leave.
    pub fn leave(&self, keys: &Keys) -> (r: Option<Config>)
        ensures
            r == left(self@, *keys),
    {
        if keys.quit {
            Some(self.config)
        } else {
            None
        }
    }

    fn count_keys(&mut self, keys: &Keys, sw: Float)
        requires
            3 <= old(self).config.n_balls <= 7,
        ensures
            3 <= final(self).config.n_balls <= 7,
            ({
                let r = after_count(
                    after_reset(old(self)@.row(), keys.reset, sw),
                    keys.more,
                    keys.fewer,
                    sw,
                );
                &&& final(self)@.row() == r
                &&& final(self)@ == (State {
                    config: Config { n_balls: r.n as usize, ..old(self)@.config },
                    balls: r.balls,
                    dragging: r.dragging,
                    ..old(self)@
                })
            }),
    {
        if keys.reset {
            self.balls = pull_row(self.config.n_balls, sw, 1);
            self.dragging = None;
        }
        if keys.more && self.config.n_balls < 7 {
            self.config.n_balls = self.config.n_balls + 1;
            self.balls = pull_row(self.config.n_balls, sw, 0);
            self.dragging = None;
        }
        if keys.fewer && self.config.n_balls > 3 {
            self.config.n_balls = self.config.n_balls - 1;
            self.balls = pull_row(self.config.n_balls, sw, 0);
            self.dragging = None;
        }
    }

    fn pull_key(&mut self, pressed: bool, k: usize, sw: Float)
        ensures
            final(self)@.row() == after_pull(old(self)@.row(), pressed, k as nat, sw),
            final(self)@ == (State { balls: final(self)@.balls, ..old(self)@ }),
    {
        if pressed && k <= self.config.n_balls {
            self.balls = pull_row(self.config.n_balls, sw, k);
        }
    }

    fn row_keys(&mut self, keys: &Keys, sw: Float)
        requires
            3 <= old(self).config.n_balls <= 7,
        ensures
            final(self)@.row() == after_keys(old(self)@.row(), *keys, sw),
            final(self)@ == (State {
                config: Config { n_balls: final(self)@.config.n_balls, ..old(self)@.config },
                balls: final(self)@.balls,
                dragging: final(self)@.dragging,
                ..old(self)@
            }),
    {
        self.count_keys(keys, sw);
        self.pull_key(keys.pull1, 1, sw);
        self.pull_key(keys.pull2, 2, sw);
        self.pull_key(keys.pull3, 3, sw);
        self.pull_key(keys.pull4, 4, sw);
    }

    fn tune_keys(&mut self, keys: &Keys)
        ensures
            final(self)@ == (State {
                config: tuned(old(self)@.config, *keys),
                paused: old(self)@.paused != keys.pause,
                ..old(self)@
            }),
    {
        if keys.mute {
            self.config.mute = !self.config.mute;
        }
        if keys.softer {
            self.config.volume = self.config.volume.sub(dec(5, 100)).clamp(dec(0, 1), dec(1, 1));
        }
        if keys.louder {
            self.config.volume = self.config.volume.add(dec(5, 100)).clamp(dec(0, 1), dec(1, 1));
        }
        if keys.slower {
            self.config.time_scale = self.config.time_scale.sub(dec(1, 10)).clamp(dec(5, 100), dec(2, 1));
        }
        if keys.faster {
            self.config.time_scale = self.config.time_scale.add(dec(1, 10)).clamp(dec(5, 100), dec(2, 1));
        }
        if keys.pause {
            self.paused = !self.paused;
        }
    }

    /// Does what the keys ask for.
    pub fn press_keys(&mut self, keys: &Keys, sw: Float)
        requires
            old(self)@.sound(),
        ensures
            final(self)@.sound(),
            final(self)@ == pressed(old(self)@, *keys, sw),
    {
        self.row_keys(keys, sw);
        self.tune_keys(keys);
        proof {
            lemma_row_keeps(old(self)@.row(), *keys, sw);
            keys_keep_settings_in_range(old(self)@.config, *keys, self.config.n_balls);
        }
    }

    /// Does what the mouse asks for. `places` are the centres of the balls. Where a
    /// ball is held, the direction to the mouse comes back, whose angle `drag_to` takes.
    pub fn use_mouse(&mut self, mouse: &Mouse, places: &Vec<Vec2>) -> (pull: Option<Vec2>)
        requires
            old(self)@.sound(),
            places@.len() == old(self)@.balls.len(),
        ensures
            final(self)@.sound(),
            final(self)@ == moused(old(self)@, *mouse, places@),
            pull == pull_of(final(self)@.balls, final(self)@.dragging, mouse.at),
    {
        if mouse.pressed {
            self.active_slider = find_slider(mouse.at);
            if self.active_slider.is_none() {
                self.dragging = grasp(places, mouse.at);
            }
        }
        if let Some(i) = self.active_slider {
            let v = slider_value_from_mouse(i, mouse.at.x);
            if i == 0 {
                self.config.damping = v;
            } else if i == 1 {
                self.config.room = v;
            } else {
                self.config.time_scale = v;
            }
        }
        if mouse.released {
            if let Some(i) = self.active_slider {
                if i == 1 {
                    self.need_rebuild = true;
                }
            }
            self.active_slider = None;
            self.dragging = None;
        }
        proof {
            mouse_keeps_settings_in_range(old(self)@.grip(), *mouse, places@);
        }
        match self.dragging {
            Some(i) => Some(
                vec2(
                    mouse.at.x.sub(self.balls[i].pivot_x),
                    mouse.at.y.sub(pivot_y()).max(dec(10, 1)),
                ),
            ),
            None => None,
        }
    }

    /// Turns the held ball to `angle`, as far as the frame allows, and stops it.
    pub fn drag_to(&mut self, angle: Float)
        requires
            old(self)@.sound(),
        ensures
            final(self)@.sound(),
            final(self)@ == dragged(old(self)@, angle),
    {
        if let Some(i) = self.dragging {
            let b = self.balls[i];
            self.balls.set(
                i,
                Ball {
                    theta: angle.clamp(dec(135, 100).neg(), dec(135, 100)),
                    omega: dec(0, 1),
                    pivot_x: b.pivot_x,
                },
            );
        }
    }

    /// Brings the buffers that belong to each ball in line with the number of balls.
    pub fn fit_buffers(&mut self)
        requires
            old(self)@.sound(),
        ensures
            final(self)@.ready(),
            final(self)@ == fitted(old(self)@),
    {
        if self.trails.len() != self.balls.len() {
            self.trails = empty_trails(self.balls.len());
            self.prev_theta = angles(&self.balls);
        }
    }

    /// The times of a frame that took `frame_time` seconds.
    pub fn frame_times(&self, frame_time: Float) -> (t: Times)
        ensures
            t == times(frame_time, self@.paused, self@.config.time_scale),
    {
        let real_dt = frame_time.min(dec(1, 1).div(dec(30, 1)));
        let sim_dt = real_dt.mul(
            if self.paused {
                dec(0, 1)
            } else {
                self.config.time_scale
            },
        );
        Times { real_dt, sim_dt, dt: sim_dt.div(Float::of_u64(SUBSTEPS as u64)) }
    }

    /// The impact that a frame starts from: none, in the middle of the screen.
    pub fn no_impact(sw: Float, sh: Float) -> (i: Impact)
        ensures
            i == impact_before(sw, sh),
    {
        Impact { speed: dec(0, 1), at: vec2(sw.mul(dec(5, 10)), sh.mul(dec(5, 10))) }
    }

    /// The first half of a step: the balls swing. `sines` are those of their angles.
    pub fn swing(&mut self, sines: &Vec<Float>, dt: Float)
        requires
            old(self)@.ready(),
            sines@.len() == old(self)@.balls.len(),
        ensures
            final(self)@.ready(),
            final(self)@ == swung_state(old(self)@, sines@, dt),
    {
        integrate(&mut self.balls, sines, self.dragging, self.config.damping, dt);
    }

    /// The second half of a step: the balls collide. `places` are their centres.
    pub fn knock(&mut self, places: &Vec<Vec2>, impact: &mut Impact)
        requires
            old(self)@.ready(),
            places@.len() == old(self)@.balls.len(),
        ensures
            final(self)@.ready(),
            final(self)@ == knocked_state(old(self)@, places@, *old(impact)),
            *final(impact) == knocked(old(self)@, places@, *old(impact)).impact,
    {
        collide(&mut self.balls, places, self.dragging, impact);
        proof {
            let w = omegas(self.balls@);
            assert forall|i: int| 0 <= i < self.balls@.len() implies #[trigger] self.balls@[i]
                == with_omegas(old(self)@.balls, w)[i] by {
                assert(w[i] == self.balls@[i].omega);
                assert(old(self)@.balls[i].theta == self.balls@[i].theta);
            }
            assert(self.balls@ =~= with_omegas(old(self)@.balls, w));
        }
    }

    /// What the hardest impact of the frame leads to: a clack and some shaking where
    /// it is hard enough and no ball is held. The dust is `kick_up_dust`'s.
    pub fn strike(&mut self, impact: &Impact, sw: Float) -> (voice: Option<Voice>)
        requires
            old(self)@.ready(),
        ensures
            final(self)@.ready(),
            voice == strike_voice(old(self)@, *impact, sw),
            voice matches Some(v) ==> v.index < PITCH_STEPS * PAN_STEPS,
            final(self)@ == struck(old(self)@, *impact),
    {
        if !dec(40, 1).lt(impact.speed) || self.dragging.is_some() {
            return None;
        }
        let t = impact.speed.div(speed_full());
        let index = bank_index(
            step_index(t, PITCH_STEPS),
            pan_index(impact.at.x, sw, self.config.n_balls),
        );
        let volume = gain(
            dec(12, 100).add(dec(88, 100).mul(t.min(dec(1, 1)))),
            self.config.volume,
            self.config.mute,
        );
        if dec(600, 1).lt(impact.speed) {
            let s = impact.speed.sub(dec(600, 1)).div(speed_full()).clamp(dec(0, 1), dec(1, 1)).mul(
                dec(16, 1),
            );
            self.shake = self.shake.max(s);
        }
        Some(Voice { index, volume })
    }

    /// Kicks up the dust of an impact that was heard.
    pub fn kick_up_dust(&mut self, impact: &Impact, chances: &Vec<Chance>)
        requires
            old(self)@.ready(),
            chances@.len() == puff_size(impact.speed),
        ensures
            final(self)@.ready(),
            final(self)@ == dusty(old(self)@, *impact, chances@),
    {
        spawn_dust(&mut self.particles, impact.at, impact.speed, chances);
    }

    /// The sweep of the fastest ball that passed the bottom in this frame, where it is
    /// fast enough and no ball is held. `places` are the centres of the balls.
    pub fn rush_past(&mut self, places: &Vec<Vec2>, sw: Float) -> (voice: Option<Voice>)
        requires
            old(self)@.ready(),
            places@.len() == old(self)@.balls.len(),
        ensures
            final(self)@.ready(),
            final(self)@ == watched(old(self)@),
            voice == rush_voice(old(self)@, places@, sw),
            voice matches Some(v) ==> v.index < WHOOSH_STEPS * PAN_STEPS,
    {
        let zero = dec(0, 1);
        let mut speed = zero;
        let mut x = sw.mul(dec(5, 10));
        for i in 0..self.balls.len()
            invariant
                self.balls@.len() == self.prev_theta@.len() == places@.len(),
                zero == dec(0, 1),
                (speed, x) == rush(self.prev_theta@, self.balls@, places@, sw, i as nat),
        {
            let b = self.balls[i];
            if self.prev_theta[i].mul(b.theta).lt(zero) {
                let sp = string_l().mul(b.omega.abs());
                if speed.lt(sp) {
                    speed = sp;
                    x = places[i].x;
                }
            }
        }
        self.prev_theta = angles(&self.balls);
        if dec(260, 1).lt(speed) && self.dragging.is_none() {
            let t = speed.sub(dec(260, 1)).div(dec(1500, 1).sub(dec(260, 1)));
            let index = bank_index(
                step_index(t, WHOOSH_STEPS),
                pan_index(x, sw, self.config.n_balls),
            );
            let volume = gain(
                dec(10, 100).add(dec(45, 100).mul(t.clamp(zero, dec(1, 1)))),
                self.config.volume,
                self.config.mute,
            );
            Some(Voice { index, volume })
        } else {
            None
        }
    }

    /// Lets the frame pass for trails, particles and shaking. `places` are the centres
    /// of the balls.
    pub fn pass(&mut self, places: &Vec<Vec2>, t: &Times)
        requires
            old(self)@.ready(),
            places@.len() == old(self)@.balls.len(),
        ensures
            final(self)@.ready(),
            final(self)@ == passed(old(self)@, places@, *t),
    {
        let n = self.trails.len();
        let ghost before = self.trails@;
        assert forall|j: int| 0 <= j < n implies (#[trigger] self.trails@[j])@.len() <= TRAIL_LEN by {
            assert(trail_points(before)[j].len() <= TRAIL_LEN);
        }
        for i in 0..n
            invariant
                n == self.trails@.len() == places@.len() == before.len(),
                before == old(self).trails@,
                *self == (Session { trails: self.trails, ..*old(self) }),
                forall|j: int| 0 <= j < n ==> (#[trigger] self.trails@[j])@.len() <= TRAIL_LEN,
                forall|j: int| i <= j < n ==> #[trigger] self.trails@[j] == before[j],
                forall|j: int|
                    0 <= j < i ==> (#[trigger] self.trails@[j])@ == extended(before[j]@, places@[j]),
        {
            extend(&mut self.trails[i], places[i]);
        }
        update_particles(&mut self.particles, t.sim_dt);
        self.shake = self.shake.sub(dec(70, 1).mul(t.real_dt)).max(dec(0, 1));
        proof {
            let was = trail_points(before);
            assert(trail_points(self.trails@) =~= all_extended(was, places@));
            assert forall|j: int| 0 <= j < n implies (#[trigger] self@.trails[j]).len() <= TRAIL_LEN by {
                assert(self.trails@[j]@.len() <= TRAIL_LEN);
            }
        }
    }

    /// Whether the screen shakes enough to be seen.
    pub fn is_shaking(&self) -> (r: bool)
        ensures
            r == shakes(self@.shake),
    {
        dec(1, 10).lt(self.shake)
    }

    /// The screen. `turns` are the sines and cosines of the angles of the balls.
    pub fn draw(&self, turns: &Vec<Turn>, sw: Float, sh: Float) -> (out: Vec<Draw>)
        requires
            turns@.len() == self@.balls.len(),
        ensures
            out@ == scene(
                self@.balls,
                turns@,
                self@.trails,
                self@.particles,
                self@.dragging,
                self@.ui(),
                sw,
                sh,
            ),
    {
        let ui = Ui {
            damping: self.config.damping,
            room: self.config.room,
            time_scale: self.config.time_scale,
            volume: self.config.volume,
            mute: self.config.mute,
            paused: self.paused,
        };
        draw_scene(&self.balls, turns, &self.trails, &self.particles, self.dragging, &ui, sw, sh)
    }

    /// The settings to save, where they differ from what was saved last and no slider
    /// is being moved. They then count as saved.
    pub fn take_unsaved(&mut self) -> (r: Option<Config>)
        ensures
            r == unsaved(old(self)@),
            final(self)@ == after_saving(old(self)@),
    {
        if self.config != self.last_saved && self.active_slider.is_none() {
            self.last_saved = self.config;
            Some(self.config)
        } else {
            None
        }
    }

    /// Whether the clacks have to be rendered anew before the next frame. They then
    /// count as rendered.
    pub fn take_rebuild(&mut self) -> (r: bool)
        ensures
            r == old(self)@.need_rebuild,
            final(self)@ == after_rebuild(old(self)@),
    {
        let r = self.need_rebuild;
        self.need_rebuild = false;
        r
    }
}

/// Keys leave a row of three to seven balls, and hold none that is not there.
proof fn lemma_row_keeps(r: Row, keys: Keys, sw: Float)
    requires
        3 <= r.n <= 7,
        r.balls.len() == r.n,
        r.dragging matches Some(i) ==> i < r.n,
    ensures
        ({
            let s = after_keys(r, keys, sw);
            &&& 3 <= s.n <= 7
            &&& s.balls.len() == s.n
            &&& s.dragging matches Some(i) ==> i < s.n
        }),
{
}

} // verus!
