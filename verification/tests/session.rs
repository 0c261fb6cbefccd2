//! A running cradle.

use newtons_cradle::config::Config;
use newtons_cradle::cradle::{places, Impact, Turn};
use newtons_cradle::dust::{dust_count, Chance};
use newtons_cradle::float::{fl, Float};
use newtons_cradle::session::{camera, Keys, Mouse, Session, SUBSTEPS};
use newtons_cradle::vector::{vec2, Vec2};

fn f(x: f32) -> Float {
    fl(x.to_bits())
}

fn back(x: Float) -> f32 {
    f32::from_bits(x.bits)
}

fn no_keys() -> Keys {
    Keys {
        reset: false,
        more: false,
        fewer: false,
        pull1: false,
        pull2: false,
        pull3: false,
        pull4: false,
        mute: false,
        softer: false,
        louder: false,
        slower: false,
        faster: false,
        pause: false,
        quit: false,
    }
}

fn start() -> Session {
    Session::start(Config::default(), f(1000.0))
}

fn turns(s: &Session) -> Vec<Turn> {
    s.balls()
        .iter()
        .map(|b| Turn { sin: f(back(b.theta).sin()), cos: f(back(b.theta).cos()) })
        .collect()
}

fn centres(s: &Session) -> Vec<Vec2> {
    places(s.balls(), &turns(s))
}

fn thetas(s: &Session) -> Vec<f32> {
    s.balls().iter().map(|b| back(b.theta)).collect()
}

fn mouse(x: f32, y: f32, pressed: bool, released: bool) -> Mouse {
    Mouse { at: vec2(f(x), f(y)), pressed, released }
}

/// One step of the physics.
fn step(s: &mut Session, dt: Float, impact: &mut Impact) {
    let sines = s.balls().iter().map(|b| f(back(b.theta).sin())).collect();
    s.swing(&sines, dt);
    let at = centres(s);
    s.knock(&at, impact);
}

/// Lets the balls swing as if their angles had these sines, which sets their velocities.
fn push(s: &mut Session, sines: &[f32], dt: f32) {
    s.swing(&sines.iter().map(|&x| f(x)).collect(), f(dt));
}

fn pause(s: &mut Session) {
    s.press_keys(&Keys { pause: true, ..no_keys() }, f(1000.0));
}

#[test]
fn a_session_starts_with_one_ball_pulled() {
    let mut s = start();
    assert_eq!(thetas(&s), vec![-0.9, 0.0, 0.0, 0.0, 0.0]);
    assert_eq!(s.trails().len(), 5);
    assert!(s.trails().iter().all(|t| t.is_empty()));
    assert!(s.particles().is_empty() && s.dragging().is_none() && s.active_slider().is_none());
    assert!(!s.is_paused() && !s.take_rebuild());
    assert_eq!(back(s.shake()), 0.0);
    assert!(s.config() == Config::default() && s.take_unsaved().is_none());
    let at = centres(&s);
    assert!(s.rush_past(&at, f(1000.0)).is_none());
}

#[test]
fn leaving_saves_the_settings() {
    let mut s = start();
    assert!(s.leave(&no_keys()).is_none());
    s.press_keys(&Keys { more: true, ..no_keys() }, f(1000.0));
    assert_eq!(s.leave(&Keys { quit: true, ..no_keys() }).unwrap().n_balls, 6);
}

#[test]
fn keys_pull_balls_aside() {
    let mut s = start();
    s.press_keys(&Keys { pull2: true, ..no_keys() }, f(1000.0));
    assert_eq!(thetas(&s), vec![-0.9, -0.9, 0.0, 0.0, 0.0]);
    s.press_keys(&Keys { pull1: true, pull3: true, ..no_keys() }, f(1000.0));
    assert_eq!(thetas(&s), vec![-0.9, -0.9, -0.9, 0.0, 0.0]);
    s.press_keys(&Keys { reset: true, ..no_keys() }, f(1000.0));
    assert_eq!(thetas(&s), vec![-0.9, 0.0, 0.0, 0.0, 0.0]);
    s.press_keys(&Keys { pull4: true, ..no_keys() }, f(1000.0));
    assert_eq!(thetas(&s), vec![-0.9, -0.9, -0.9, -0.9, 0.0]);
}

#[test]
fn keys_change_the_number_of_balls_within_bounds() {
    let mut s = start();
    for want in [6usize, 7, 7, 7] {
        s.press_keys(&Keys { more: true, ..no_keys() }, f(1000.0));
        assert_eq!((s.config().n_balls, s.balls().len()), (want, want));
        assert!(thetas(&s).iter().all(|&t| t == 0.0));
    }
    for want in [6usize, 5, 4, 3, 3] {
        s.press_keys(&Keys { fewer: true, ..no_keys() }, f(1000.0));
        assert_eq!((s.config().n_balls, s.balls().len()), (want, want));
    }
    s.press_keys(&Keys { pull4: true, ..no_keys() }, f(1000.0));
    assert_eq!(thetas(&s), vec![0.0; 3]);
}

#[test]
fn keys_change_sound_and_time_within_bounds() {
    let mut s = start();
    s.press_keys(&Keys { mute: true, pause: true, ..no_keys() }, f(1000.0));
    assert!(s.config().mute && s.is_paused());
    s.press_keys(&Keys { mute: true, pause: true, softer: true, slower: true, ..no_keys() }, f(1000.0));
    assert!(!s.config().mute && !s.is_paused());
    assert_eq!(back(s.config().volume), 0.8f32 - 0.05);
    assert_eq!(back(s.config().time_scale), 1.0f32 - 0.1);
    for _ in 0..40 {
        s.press_keys(&Keys { louder: true, faster: true, ..no_keys() }, f(1000.0));
        assert!(s.config().clamped() == s.config());
    }
    assert_eq!((back(s.config().volume), back(s.config().time_scale)), (1.0, 2.0));
    for _ in 0..40 {
        s.press_keys(&Keys { softer: true, slower: true, ..no_keys() }, f(1000.0));
        assert!(s.config().clamped() == s.config());
    }
    assert_eq!((back(s.config().volume), back(s.config().time_scale)), (0.0, 0.05));
}

#[test]
fn the_mouse_grasps_the_nearest_ball() {
    let mut s = start();
    let at = centres(&s);
    let pull = s.use_mouse(&mouse(530.0, 385.0, true, false), &at);
    assert_eq!(s.dragging(), Some(3));
    let p = pull.unwrap();
    assert_eq!((back(p.x), back(p.y)), (530.0 - 556.0, 385.0 - 130.0));
    let angle = back(p.x).atan2(back(p.y));
    s.drag_to(f(angle));
    assert_eq!(back(s.balls()[3].theta), angle);
    assert_eq!(back(s.balls()[3].omega), 0.0);
    assert_eq!(thetas(&s)[2], 0.0);
    assert!(s.use_mouse(&mouse(530.0, 385.0, false, true), &at).is_none());
    assert!(s.dragging().is_none());
    assert!(s.use_mouse(&mouse(530.0, 600.0, true, false), &at).is_none());
    assert!(s.dragging().is_none());
}

#[test]
fn a_moving_ball_stops_when_it_is_dragged() {
    let mut s = start();
    push(&mut s, &[0.0, 0.0, -0.5, 0.0, 0.0], 0.125);
    assert!(back(s.balls()[2].omega) > 0.0);
    let at = centres(&s);
    s.use_mouse(&Mouse { at: at[2], pressed: true, released: false }, &at);
    assert_eq!(s.dragging(), Some(2));
    s.drag_to(f(0.25));
    assert_eq!((back(s.balls()[2].theta), back(s.balls()[2].omega)), (0.25, 0.0));
    push(&mut s, &[-0.5; 5], 0.125);
    assert_eq!((back(s.balls()[2].theta), back(s.balls()[2].omega)), (0.25, 0.0));
}

#[test]
fn of_two_balls_as_near_the_left_one_is_grasped() {
    let mut s = start();
    let at = centres(&s);
    s.use_mouse(&mouse(528.0, 380.0, true, false), &at);
    assert_eq!(s.dragging(), Some(2));
}

#[test]
fn a_held_ball_turns_only_so_far() {
    let mut s = start();
    let at = centres(&s);
    let p = s.use_mouse(&mouse(500.0, 380.0, true, false), &at).unwrap();
    assert_eq!((back(p.x), back(p.y)), (0.0, 250.0));
    s.drag_to(f(1.5));
    assert_eq!(back(s.balls()[2].theta), 1.35);
    s.drag_to(f(-1.5));
    assert_eq!(back(s.balls()[2].theta), -1.35);
    let p = s.use_mouse(&mouse(900.0, 20.0, false, false), &at).unwrap();
    assert_eq!(back(p.y), 10.0);
}

#[test]
fn letting_nothing_go_changes_nothing() {
    let mut s = start();
    s.drag_to(f(1.0));
    assert_eq!(thetas(&s), vec![-0.9, 0.0, 0.0, 0.0, 0.0]);
}

#[test]
fn sliders_follow_the_mouse() {
    let mut s = start();
    let at = centres(&s);
    assert!(s.use_mouse(&mouse(118.0, 92.0, true, false), &at).is_none());
    assert_eq!(s.active_slider(), Some(0));
    assert_eq!(back(s.config().damping), 0.125);
    s.use_mouse(&mouse(9999.0, 500.0, false, false), &at);
    assert_eq!(back(s.config().damping), 0.25);
    s.use_mouse(&mouse(18.0, 92.0, false, true), &at);
    assert_eq!(s.active_slider(), None);
    assert_eq!(back(s.config().damping), 0.0);
    assert!(!s.take_rebuild());
    s.use_mouse(&mouse(218.0, 156.0, true, true), &at);
    assert_eq!(back(s.config().time_scale), 2.0);
    assert!(!s.take_rebuild());
    assert!(s.config().clamped() == s.config());
}

#[test]
fn a_changed_room_asks_for_new_sounds_once() {
    let mut s = start();
    let at = centres(&s);
    s.use_mouse(&mouse(18.0, 124.0, true, false), &at);
    assert_eq!(back(s.config().room), 0.4);
    s.use_mouse(&mouse(218.0, 124.0, false, true), &at);
    assert_eq!(back(s.config().room), 1.8);
    assert!(s.take_rebuild());
    assert!(!s.take_rebuild());
}

#[test]
fn settings_are_saved_once_and_not_while_sliding() {
    let mut s = start();
    assert!(s.take_unsaved().is_none());
    let at = centres(&s);
    s.use_mouse(&mouse(118.0, 92.0, true, false), &at);
    assert!(s.take_unsaved().is_none());
    s.use_mouse(&mouse(118.0, 92.0, false, true), &at);
    let c = s.take_unsaved().unwrap();
    assert_eq!(back(c.damping), 0.125);
    assert!(c == s.config());
    assert!(s.take_unsaved().is_none());
    s.press_keys(&Keys { more: true, ..no_keys() }, f(1000.0));
    assert_eq!(s.take_unsaved().unwrap().n_balls, 6);
}

#[test]
fn buffers_follow_the_number_of_balls() {
    let mut s = start();
    s.fit_buffers();
    let at = centres(&s);
    s.pass(&at, &s.frame_times(f(0.01)));
    s.fit_buffers();
    assert_eq!(s.trails()[0].len(), 1);
    s.press_keys(&Keys { more: true, ..no_keys() }, f(1000.0));
    s.press_keys(&Keys { pull1: true, ..no_keys() }, f(1000.0));
    s.fit_buffers();
    assert_eq!(s.trails().len(), 6);
    assert!(s.trails().iter().all(|t| t.is_empty()));
    push(&mut s, &[-0.5, 0.0, 0.0, 0.0, 0.0, 0.0], 1.0);
    assert!(back(s.balls()[0].theta) > 0.0);
    let at = centres(&s);
    assert!(s.rush_past(&at, f(1000.0)).is_some());
}

#[test]
fn frames_are_scaled_and_cut() {
    let mut s = start();
    s.press_keys(&Keys { slower: true, ..no_keys() }, f(1000.0));
    let scale = back(s.config().time_scale);
    let t = s.frame_times(f(0.01));
    assert_eq!((back(t.real_dt), back(t.sim_dt)), (0.01, 0.01 * scale));
    assert_eq!(back(t.dt), 0.01f32 * scale / 16.0);
    assert_eq!(back(s.frame_times(f(9.0)).real_dt), 1.0 / 30.0);
    assert_eq!(back(s.frame_times(f(f32::NAN)).real_dt), 1.0 / 30.0);
    pause(&mut s);
    let t = s.frame_times(f(0.01));
    assert_eq!((back(t.real_dt), back(t.sim_dt), back(t.dt)), (0.01, 0.0, 0.0));
    assert_eq!(SUBSTEPS, 16);
}

#[test]
fn a_paused_cradle_stands_still() {
    let mut s = start();
    let chance = Chance { sin: f(0.5), cos: f(0.5), speed: f(50.0), life0: f(0.5), life: f(0.5), size: f(2.0) };
    let hit = Impact { speed: f(500.0), at: vec2(f(1.0), f(2.0)) };
    s.kick_up_dust(&hit, &vec![chance; dust_count(hit.speed)]);
    pause(&mut s);
    let t = s.frame_times(f(0.02));
    let mut impact = Session::no_impact(f(1000.0), f(640.0));
    assert_eq!((back(impact.speed), back(impact.at.x), back(impact.at.y)), (0.0, 500.0, 320.0));
    for _ in 0..SUBSTEPS {
        step(&mut s, t.dt, &mut impact);
    }
    assert_eq!(thetas(&s), vec![-0.9, 0.0, 0.0, 0.0, 0.0]);
    assert_eq!(back(impact.speed), 0.0);
    let before = s.particles().clone();
    let at = centres(&s);
    s.pass(&at, &t);
    assert_eq!(s.particles().len(), before.len());
    for (p, q) in s.particles().iter().zip(&before) {
        assert_eq!((back(p.pos.x), back(p.pos.y)), (back(q.pos.x), back(q.pos.y)));
        assert_eq!((back(p.vel.x), back(p.vel.y)), (back(q.vel.x), back(q.vel.y)));
        assert_eq!(back(p.life), back(q.life));
    }
}

#[test]
fn the_pulled_ball_sends_the_last_one_out() {
    let mut s = start();
    let mut heard = 0;
    let mut furthest = 0.0f32;
    for _ in 0..120 {
        s.fit_buffers();
        let t = s.frame_times(f(1.0 / 60.0));
        let mut impact = Session::no_impact(f(1000.0), f(640.0));
        for _ in 0..SUBSTEPS {
            step(&mut s, t.dt, &mut impact);
        }
        if let Some(v) = s.strike(&impact, f(1000.0)) {
            assert!(v.index < 60);
            heard += 1;
            let n = dust_count(impact.speed);
            let c = Chance { sin: f(0.0), cos: f(1.0), speed: f(50.0), life0: f(0.5), life: f(0.5), size: f(2.0) };
            s.kick_up_dust(&impact, &vec![c; n]);
            assert!(s.particles().len() >= n);
        }
        let at = centres(&s);
        s.rush_past(&at, f(1000.0));
        s.pass(&at, &t);
        furthest = furthest.max(back(s.balls()[4].theta));
        assert!(s.trails().iter().all(|t| t.len() <= 22));
        assert!(s.particles().len() <= 500);
        assert!((0.0..=16.0).contains(&back(s.shake())));
    }
    assert!(heard > 0);
    assert!(furthest > 0.8, "{}", furthest);
    assert!(s.trails().iter().all(|t| t.len() == 22));
}

#[test]
fn hard_impacts_clack_and_shake() {
    let mut s = start();
    let hit = |speed: f32, x: f32| Impact { speed: f(speed), at: vec2(f(x), f(380.0)) };
    assert!(s.strike(&hit(40.0, 500.0), f(1000.0)).is_none());
    let v = s.strike(&hit(41.0, 500.0), f(1000.0)).unwrap();
    assert_eq!(v.index, 2);
    assert_eq!(back(v.volume), (0.12 + 0.88 * (41.0f32 / 1300.0)) * 0.8);
    assert_eq!(back(s.shake()), 0.0);
    let v = s.strike(&hit(650.0, 0.0), f(1000.0)).unwrap();
    assert_eq!(v.index, 30);
    assert_eq!(back(s.shake()), ((650.0f32 - 600.0) / 1300.0) * 16.0);
    let v = s.strike(&hit(9000.0, 1000.0), f(1000.0)).unwrap();
    assert_eq!(v.index, 59);
    assert_eq!(back(v.volume), (0.12f32 + 0.88) * 0.8);
    assert_eq!(back(s.shake()), 16.0);
    s.strike(&hit(700.0, 500.0), f(1000.0));
    assert_eq!(back(s.shake()), 16.0);
    s.press_keys(&Keys { mute: true, ..no_keys() }, f(1000.0));
    assert_eq!(back(s.strike(&hit(900.0, 500.0), f(1000.0)).unwrap().volume), 0.0);
    let at = centres(&s);
    s.use_mouse(&mouse(500.0, 380.0, true, false), &at);
    assert!(s.strike(&hit(900.0, 500.0), f(1000.0)).is_none());
}

#[test]
fn the_fastest_ball_through_the_bottom_sweeps() {
    let mut s = start();
    s.press_keys(&Keys { pull3: true, ..no_keys() }, f(1000.0));
    let at = centres(&s);
    assert!(s.rush_past(&at, f(1000.0)).is_none());
    push(&mut s, &[-0.3, -0.35, -0.05, 0.0, 0.9], 0.5);
    let w: Vec<f32> = s.balls().iter().map(|b| back(b.omega)).collect();
    let at = centres(&s);
    assert!(w[1] > w[0] && thetas(&s)[1] < 0.0);
    assert!(s.rush_past(&at, f(1000.0)).is_none());
    push(&mut s, &[0.0, 0.0, 0.0, 0.0, 0.0], 1.0);
    let at = centres(&s);
    let t = thetas(&s);
    assert!(t[0] > 0.0 && t[1] > 0.0 && t[2] < 0.0);
    let speed = 250.0 * back(s.balls()[1].omega).abs();
    let v = s.rush_past(&at, f(1000.0)).unwrap();
    let u = (speed - 260.0) / (1500.0 - 260.0);
    let pan = ((back(at[1].x) - 500.0) / 140.0).clamp(-1.0, 1.0) * 0.5 + 0.5;
    let index = (u.clamp(0.0, 1.0) * 4.0).round() as usize * 5 + (pan * 4.0).round() as usize;
    assert_eq!(v.index, index);
    assert_eq!(back(v.volume), (0.10 + 0.45 * u.clamp(0.0, 1.0)) * 0.8);
    assert!(s.rush_past(&at, f(1000.0)).is_none());
}

#[test]
fn a_held_ball_keeps_the_sweeps_quiet() {
    let mut s = start();
    let at = centres(&s);
    s.rush_past(&at, f(1000.0));
    push(&mut s, &[-0.5, 0.0, 0.0, 0.0, 0.0], 1.0);
    let at = centres(&s);
    s.use_mouse(&mouse(556.0, 380.0, true, false), &at);
    assert_eq!(s.dragging(), Some(3));
    assert!(s.rush_past(&at, f(1000.0)).is_none());
}

#[test]
fn slow_balls_make_no_sweep() {
    let mut s = start();
    let at = centres(&s);
    s.rush_past(&at, f(1000.0));
    push(&mut s, &[-0.1, 0.0, 0.0, 0.0, 0.0], 1.0);
    let w = back(s.balls()[0].omega);
    assert!(w > 0.9 && w < 1.04 && back(s.balls()[0].theta) > 0.0);
    let at = centres(&s);
    assert!(s.rush_past(&at, f(1000.0)).is_none());
}

#[test]
fn trails_remember_the_last_places() {
    let mut s = start();
    let t = s.frame_times(f(0.0));
    for i in 0..30 {
        let at = vec![vec2(f(i as f32), f(0.0)); 5];
        s.pass(&at, &t);
    }
    assert!(s.trails().iter().all(|t| t.len() == 22));
    assert_eq!(back(s.trails()[2][0].x), 8.0);
    assert_eq!(back(s.trails()[2][21].x), 29.0);
}

#[test]
fn shaking_dies_down_to_nothing() {
    let mut s = start();
    s.strike(&Impact { speed: f(9000.0), at: vec2(f(0.0), f(0.0)) }, f(1000.0));
    assert_eq!(back(s.shake()), 16.0);
    let at = centres(&s);
    let t = s.frame_times(f(0.02));
    s.pass(&at, &t);
    assert_eq!(back(s.shake()), 16.0 - 70.0 * 0.02);
    assert!(s.is_shaking());
    for _ in 0..20 {
        s.pass(&at, &t);
    }
    assert_eq!(back(s.shake()), 0.0);
    assert!(!s.is_shaking());
}

#[test]
fn the_camera_looks_at_the_middle() {
    let v = camera(f(1000.0), f(640.0), vec2(f(3.0), f(-2.0)));
    assert_eq!((back(v.zoom.x), back(v.zoom.y)), (2.0 / 1000.0, 2.0 / 640.0));
    assert_eq!((back(v.target.x), back(v.target.y)), (503.0, 318.0));
}

#[test]
fn a_session_draws_its_balls() {
    let s = start();
    let out = s.draw(&turns(&s), f(1000.0), f(640.0));
    assert_eq!(out.len(), 2 + 5 + 35 + 9 + 12 + 4);
}
