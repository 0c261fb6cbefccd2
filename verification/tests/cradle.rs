//! The row of balls: hanging, swinging and colliding.

use newtons_cradle::cradle::{closing, collide, integrate, make_balls, places, Ball, Impact, Turn};
use newtons_cradle::float::{fl, Float};
use newtons_cradle::scene::measure;
use newtons_cradle::vector::{vec2, Vec2};

fn f(x: f32) -> Float {
    fl(x.to_bits())
}

fn back(x: Float) -> f32 {
    f32::from_bits(x.bits)
}

fn turns(balls: &Vec<Ball>) -> Vec<Turn> {
    balls
        .iter()
        .map(|b| Turn { sin: f(back(b.theta).sin()), cos: f(back(b.theta).cos()) })
        .collect()
}

fn row(omegas: &[f32]) -> (Vec<Ball>, Vec<Vec2>) {
    let mut balls = make_balls(omegas.len(), f(1000.0));
    for (b, &w) in balls.iter_mut().zip(omegas) {
        b.omega = f(w);
    }
    let at = places(&balls, &turns(&balls));
    (balls, at)
}

fn omegas(balls: &Vec<Ball>) -> Vec<f32> {
    balls.iter().map(|b| back(b.omega)).collect()
}

fn quiet() -> Impact {
    Impact { speed: f(0.0), at: vec2(f(500.0), f(320.0)) }
}

#[test]
fn balls_hang_around_the_middle() {
    let balls = make_balls(5, f(1000.0));
    let x: Vec<f32> = balls.iter().map(|b| back(b.pivot_x)).collect();
    assert_eq!(x, vec![388.0, 444.0, 500.0, 556.0, 612.0]);
    let balls = make_balls(4, f(1000.0));
    let x: Vec<f32> = balls.iter().map(|b| back(b.pivot_x)).collect();
    assert_eq!(x, vec![416.0, 472.0, 528.0, 584.0]);
    assert!(balls.iter().all(|b| back(b.theta) == 0.0 && back(b.omega) == 0.0));
    assert_eq!(make_balls(0, f(1000.0)).len(), 0);
}

#[test]
fn a_ball_hangs_below_its_pivot() {
    let b = Ball { theta: f(-0.9), omega: f(0.0), pivot_x: f(388.0) };
    let p = b.pos(f((-0.9f32).sin()), f((-0.9f32).cos()));
    assert_eq!(back(p.x), 388.0 + 250.0 * (-0.9f32).sin());
    assert_eq!(back(p.y), 130.0 + 250.0 * (-0.9f32).cos());
}

#[test]
fn swinging_follows_the_pendulum_equation() {
    let mut balls = make_balls(3, f(1000.0));
    let start = [(-0.9f32, 0.25f32), (0.4, -1.5), (0.0, 2.0)];
    for (b, &(t, w)) in balls.iter_mut().zip(&start) {
        b.theta = f(t);
        b.omega = f(w);
    }
    let sines: Vec<Float> = start.iter().map(|&(t, _)| f(t.sin())).collect();
    let (damping, dt) = (0.04f32, 1.0f32 / 960.0);
    integrate(&mut balls, &sines, Some(1), f(damping), f(dt));
    for (i, &(t, w)) in start.iter().enumerate() {
        let (mut theta, mut omega) = (t, w);
        if i != 1 {
            let alpha = -(2600.0f32 / 250.0) * t.sin();
            omega += alpha * dt;
            omega -= damping * omega * dt;
            theta += omega * dt;
        }
        assert_eq!(back(balls[i].theta), theta);
        assert_eq!(back(balls[i].omega), omega);
    }
}

#[test]
fn no_time_means_no_motion() {
    let mut balls = make_balls(3, f(1000.0));
    balls[0].theta = f(-0.9);
    balls[0].omega = f(0.5);
    let sines: Vec<Float> = balls.iter().map(|b| f(back(b.theta).sin())).collect();
    integrate(&mut balls, &sines, None, f(0.04), f(0.0));
    assert_eq!(back(balls[0].theta), -0.9);
    assert_eq!(back(balls[0].omega), 0.5);
}

#[test]
fn a_ball_at_rest_stays_at_rest() {
    let mut balls = make_balls(3, f(1000.0));
    integrate(&mut balls, &vec![f(0.0); 3], None, f(0.04), f(0.01));
    assert!(balls.iter().all(|b| back(b.theta) == 0.0 && back(b.omega) == 0.0));
}

#[test]
fn one_in_one_out() {
    let (mut balls, at) = row(&[3.0, 0.0, 0.0, 0.0, 0.0]);
    let mut impact = quiet();
    collide(&mut balls, &at, None, &mut impact);
    assert_eq!(omegas(&balls), vec![0.0, 0.0, 0.0, 0.0, 3.0]);
    assert_eq!(back(impact.speed), 750.0);
    assert_eq!((back(impact.at.x), back(impact.at.y)), (416.0, 380.0));
}

#[test]
fn two_in_two_out() {
    let (mut balls, at) = row(&[3.0, 3.0, 0.0, 0.0, 0.0]);
    let mut impact = quiet();
    collide(&mut balls, &at, None, &mut impact);
    assert_eq!(omegas(&balls), vec![0.0, 0.0, 0.0, 3.0, 3.0]);
}

#[test]
fn collisions_keep_the_velocities() {
    let (mut balls, at) = row(&[1.0, -2.0, 3.5, 0.25, -4.0, 0.5]);
    let mut impact = quiet();
    collide(&mut balls, &at, None, &mut impact);
    let mut w = omegas(&balls);
    assert_eq!(w, vec![-4.0, -2.0, 0.25, 0.5, 1.0, 3.5]);
    w.sort_by(|a, b| a.partial_cmp(b).unwrap());
    assert_eq!(w, vec![-4.0, -2.0, 0.25, 0.5, 1.0, 3.5]);
    assert_eq!(back(impact.speed), 250.0 * 7.5);
}

#[test]
fn a_collision_of_two_keeps_momentum_and_energy() {
    for (a, b) in [(3.0f32, -1.5f32), (0.7, 0.1), (1e18, -1e18), (1e-20, -1e-20)] {
        let (mut balls, at) = row(&[a, b]);
        let before = measure(&balls, &turns(&balls));
        collide(&mut balls, &at, None, &mut quiet());
        let after = measure(&balls, &turns(&balls));
        assert_eq!(before.kinetic.bits, after.kinetic.bits);
        let w = omegas(&balls);
        assert_eq!(w[0] as f64 + w[1] as f64, a as f64 + b as f64);
    }
}

#[test]
fn a_held_ball_takes_no_part() {
    let (mut balls, at) = row(&[3.0, 0.0, 0.0]);
    let mut impact = quiet();
    collide(&mut balls, &at, Some(1), &mut impact);
    assert_eq!(omegas(&balls), vec![3.0, 0.0, 0.0]);
    assert_eq!(back(impact.speed), 0.0);
    assert_eq!(back(impact.at.x), 500.0);
}

#[test]
fn balls_that_part_do_not_collide() {
    let (mut balls, at) = row(&[-1.0, 1.0]);
    let mut impact = quiet();
    collide(&mut balls, &at, None, &mut impact);
    assert_eq!(omegas(&balls), vec![-1.0, 1.0]);
    assert_eq!(back(impact.speed), 0.0);
}

#[test]
fn a_creeping_approach_is_no_collision() {
    let (mut balls, at) = row(&[0.0000002, 0.0]);
    let mut impact = quiet();
    collide(&mut balls, &at, None, &mut impact);
    assert_eq!(omegas(&balls), vec![0.0000002, 0.0]);
    assert!(back(closing(f(0.0000002), f(0.0))) <= 1e-4);
}

#[test]
fn balls_apart_do_not_collide() {
    let (mut balls, mut at) = row(&[3.0, 0.0]);
    at[0].x = f(back(at[0].x) - 1.0);
    let mut impact = quiet();
    collide(&mut balls, &at, None, &mut impact);
    assert_eq!(omegas(&balls), vec![3.0, 0.0]);
}

#[test]
fn neighbours_at_rest_touch_on_screens_of_any_width() {
    for w in [640.0f32, 800.0, 1000.0, 1280.0, 1366.0, 1920.0, 3840.0] {
        for n in 3..8 {
            let balls = make_balls(n, f(w));
            let at = places(&balls, &vec![Turn { sin: f(0.0), cos: f(1.0) }; n]);
            for i in 1..n {
                assert_eq!(back(at[i].sub(at[i - 1]).length()), 56.0);
            }
        }
    }
}

#[test]
fn on_any_screen_neighbours_hang_one_diameter_apart_up_to_rounding() {
    for k in 0..2000 {
        let w = 640.0 + k as f32 * 0.517;
        let balls = make_balls(7, f(w));
        for i in 1..7 {
            let d = back(balls[i].pivot_x) as f64 - back(balls[i - 1].pivot_x) as f64;
            assert!((d - 56.0).abs() <= 1.0 / 8192.0);
        }
    }
}

#[test]
fn a_softer_impact_does_not_replace_a_harder_one() {
    let (mut balls, at) = row(&[1.0, 0.0]);
    let mut impact = Impact { speed: f(900.0), at: vec2(f(1.0), f(2.0)) };
    collide(&mut balls, &at, None, &mut impact);
    assert_eq!(back(impact.speed), 900.0);
    assert_eq!(back(impact.at.x), 1.0);
    assert_eq!(omegas(&balls), vec![0.0, 1.0]);
}

#[test]
fn vectors_add_scale_and_measure() {
    let (a, b) = (vec2(f(3.0), f(-4.0)), vec2(f(0.5), f(0.25)));
    assert_eq!((back(a.add(b).x), back(a.add(b).y)), (3.5, -3.75));
    assert_eq!((back(a.sub(b).x), back(a.sub(b).y)), (2.5, -4.25));
    assert_eq!((back(a.scale(f(0.5)).x), back(a.scale(f(0.5)).y)), (1.5, -2.0));
    assert_eq!(back(a.length_squared()), 25.0);
    assert_eq!(back(a.length()), 5.0);
}
