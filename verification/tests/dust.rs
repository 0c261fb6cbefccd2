//! Dust and sparks.

use newtons_cradle::dust::{
    direction_range, dust_count, life_range, size_range, spawn_dust, speed_range, update_particles, Chance, Particle,
};
use newtons_cradle::float::{fl, Float};
use newtons_cradle::vector::vec2;

fn f(x: f32) -> Float {
    fl(x.to_bits())
}

fn back(x: Float) -> f32 {
    f32::from_bits(x.bits)
}

fn chances(n: usize) -> Vec<Chance> {
    (0..n)
        .map(|i| {
            let a = i as f32 * 0.7;
            Chance {
                sin: f(a.sin()),
                cos: f(a.cos()),
                speed: f(30.0 + i as f32),
                life0: f(0.5),
                life: f(0.3 + i as f32 * 0.01),
                size: f(2.0),
            }
        })
        .collect()
}

fn speck(life: f32) -> Particle {
    Particle {
        pos: vec2(f(10.0), f(20.0)),
        vel: vec2(f(3.0), f(-5.0)),
        life: f(life),
        life0: f(0.6),
        size: f(2.0),
        spark: false,
    }
}

#[test]
fn ranges_to_draw_from() {
    let r = direction_range();
    assert_eq!((back(r.lo), back(r.hi)), (0.0, std::f32::consts::TAU));
    let r = speed_range();
    assert_eq!((back(r.lo), back(r.hi)), (30.0, 90.0));
    let r = life_range();
    assert_eq!((back(r.lo), back(r.hi)), (0.30, 0.60));
    let r = size_range();
    assert_eq!((back(r.lo), back(r.hi)), (1.5, 3.5));
}

#[test]
fn harder_impacts_kick_up_more_dust() {
    for (impact, want) in [(-5.0f32, 6), (0.0, 6), (41.0, 6), (650.0, 15), (1300.0, 24), (1e9, 24)] {
        assert_eq!(dust_count(f(impact)), want);
    }
    assert_eq!(dust_count(f(f32::INFINITY)), 24);
    assert_eq!(dust_count(f(f32::NAN)), 0);
}

#[test]
fn a_soft_puff_has_no_sparks() {
    let mut v = Vec::new();
    let impact = 500.0f32;
    let n = dust_count(f(impact));
    let c = chances(n);
    spawn_dust(&mut v, vec2(f(1.0), f(2.0)), f(impact), &c);
    assert_eq!(v.len(), n);
    for (p, c) in v.iter().zip(&c) {
        let speed = back(c.speed) + impact * 0.22;
        assert_eq!(back(p.pos.x), 1.0);
        assert_eq!(back(p.pos.y), 2.0);
        assert_eq!(back(p.vel.x), back(c.cos) * speed);
        assert_eq!(back(p.vel.y), back(c.sin) * speed - 30.0);
        assert_eq!(back(p.life), back(c.life));
        assert_eq!(back(p.life0), 0.5);
        assert_eq!(back(p.size), 2.0);
        assert!(!p.spark);
    }
}

#[test]
fn a_hard_puff_begins_with_sparks() {
    let mut v = Vec::new();
    spawn_dust(&mut v, vec2(f(1.0), f(2.0)), f(1300.0), &chances(24));
    for (k, p) in v.iter().enumerate() {
        assert_eq!(p.spark, k < 5);
        assert_eq!(back(p.size), if k < 5 { 3.5 } else { 2.0 });
    }
}

#[test]
fn the_oldest_particles_make_room() {
    let mut v: Vec<Particle> = (0..495).map(|i| speck(1.0 + i as f32)).collect();
    spawn_dust(&mut v, vec2(f(0.0), f(0.0)), f(1300.0), &chances(24));
    assert_eq!(v.len(), 500);
    assert_eq!(back(v[0].life), 20.0);
    assert_eq!(back(v[475].life), 495.0);
    assert_eq!(back(v[476].life), 0.3);
}

#[test]
fn particles_fall_slow_down_and_age() {
    let mut v = vec![speck(0.5)];
    let dt = 0.02f32;
    update_particles(&mut v, f(dt));
    let mut vel = (3.0f32, -5.0f32 + 900.0 * dt);
    let k = 1.0 - (2.0 * dt).min(0.9);
    vel = (vel.0 * k, vel.1 * k);
    assert_eq!((back(v[0].vel.x), back(v[0].vel.y)), vel);
    assert_eq!((back(v[0].pos.x), back(v[0].pos.y)), (10.0 + vel.0 * dt, 20.0 + vel.1 * dt));
    assert_eq!(back(v[0].life), 0.5 - dt);
    assert_eq!(back(v[0].life0), 0.6);
}

#[test]
fn only_the_living_stay_in_their_order() {
    let mut v = vec![speck(0.5), speck(0.1), speck(0.125), speck(0.7), speck(f32::NAN)];
    update_particles(&mut v, f(0.125));
    let lives: Vec<f32> = v.iter().map(|p| back(p.life)).collect();
    assert_eq!(lives, vec![0.375, 0.7 - 0.125]);
}

#[test]
fn while_paused_dust_hangs_in_the_air() {
    let mut v = vec![speck(0.5)];
    update_particles(&mut v, f(0.0));
    assert_eq!((back(v[0].pos.x), back(v[0].pos.y)), (10.0, 20.0));
    assert_eq!((back(v[0].vel.x), back(v[0].vel.y)), (3.0, -5.0));
    assert_eq!(back(v[0].life), 0.5);
}
