//! The sounds, sample by sample against the machine's own arithmetic.

use newtons_cradle::bank::{
    bank_index, clack_pitch, clack_place, gain, pan_angle, pan_index, pan_position, pan_to_stereo, step_index, stereo_wav,
    whoosh_pitch, whoosh_place,
};
use newtons_cradle::click::{
    burst_tau, click_decays, click_len, click_phases, partial, render_dry_click, render_room_click, Waves,
};
use newtons_cradle::config::Config;
use newtons_cradle::float::{fl, Float};
use newtons_cradle::noise::noise_gen;
use newtons_cradle::reverb::{allpass, comb, normalize, reverberate, room_tail_len};
use newtons_cradle::wav::encode_wav;
use newtons_cradle::whoosh::{arc_angles, filter_angles, render_whoosh, sweep_angles, whoosh_len};

const TAU: f32 = std::f32::consts::TAU;
const PI: f32 = std::f32::consts::PI;

fn f(x: f32) -> Float {
    fl(x.to_bits())
}

fn back(x: Float) -> f32 {
    f32::from_bits(x.bits)
}

fn all(v: &[f32]) -> Vec<Float> {
    v.iter().map(|&x| f(x)).collect()
}

fn map(v: &Vec<Float>, g: fn(f32) -> f32) -> Vec<Float> {
    v.iter().map(|&x| f(g(back(x)))).collect()
}

fn assert_same(got: &Vec<Float>, want: &[f32]) {
    assert_eq!(got.len(), want.len());
    for i in 0..want.len() {
        assert_eq!(got[i].bits, want[i].to_bits(), "sample {}: {} {}", i, back(got[i]), want[i]);
    }
}

fn noise(seed: &mut u32) -> f32 {
    *seed ^= *seed << 13;
    *seed ^= *seed >> 17;
    *seed ^= *seed << 5;
    (*seed as f32 / u32::MAX as f32) * 2.0 - 1.0
}

fn waves(base: f32) -> Waves {
    let mut w = Waves { sines: vec![], decays: vec![], burst: map(&click_decays(burst_tau()), f32::exp) };
    for k in 0..4 {
        w.sines.push(map(&click_phases(f(base), k), f32::sin));
        w.decays.push(map(&click_decays(partial(k).tau), f32::exp));
    }
    w
}

fn dry_click(base: f32) -> Vec<f32> {
    let partials = [
        (1.00f32, 1.00f32, 0.050f32),
        (2.76, 0.60, 0.038),
        (5.40, 0.32, 0.026),
        (8.93, 0.16, 0.018),
    ];
    let mut seed = 0x9E37_79B9 ^ (base as u32).wrapping_mul(2_654_435_761);
    (0..5733)
        .map(|i| {
            let t = i as f32 / 44100.0;
            let mut v = 0.0;
            for &(ratio, amp, tau) in &partials {
                v += amp * (TAU * base * ratio * t).sin() * (-t / tau).exp();
            }
            v += noise(&mut seed) * (-t / 0.0018).exp() * 0.7;
            v
        })
        .collect()
}

fn room(dry: &[f32], rs: f32) -> Vec<f32> {
    let total = dry.len() + (44100.0 * (0.55 * (0.5 + 0.85 * rs))) as usize;
    let mut x = vec![0.0f32; total];
    x[..dry.len()].copy_from_slice(dry);
    let mut wet = vec![0.0f32; total];
    for &(d, g) in &[(1116usize, 0.80f32), (1188, 0.79), (1277, 0.81), (1356, 0.78)] {
        let d = ((d as f32 * (0.7 + 0.5 * rs)) as usize).max(1);
        let g = (g * (0.90 + 0.07 * rs)).min(0.93);
        let mut buf = vec![0.0f32; total];
        for n in 0..total {
            let fb = if n >= d { buf[n - d] } else { 0.0 };
            buf[n] = x[n] + g * fb;
        }
        for n in 0..total {
            wet[n] += buf[n] * 0.25;
        }
    }
    for &(d, g) in &[(556usize, 0.5f32), (441, 0.5)] {
        let d = ((d as f32 * (0.8 + 0.3 * rs)) as usize).max(1);
        let (mut v, mut out) = (vec![0.0f32; total], vec![0.0f32; total]);
        for n in 0..total {
            let vd = if n >= d { v[n - d] } else { 0.0 };
            v[n] = wet[n] + g * vd;
            out[n] = -g * v[n] + vd;
        }
        wet = out;
    }
    let mut mix: Vec<f32> = (0..total).map(|n| x[n] + 0.9 * wet[n]).collect();
    for &(dt, g) in &[(0.071f32, 0.45f32), (0.113, 0.30), (0.161, 0.20)] {
        let d = ((dt * (0.6 + 0.8 * rs)) * 44100.0) as usize;
        for n in d..total {
            mix[n] += g * x[n - d];
        }
    }
    level(&mut mix, 0.9);
    mix
}

fn level(buf: &mut Vec<f32>, target: f32) {
    let peak = buf.iter().fold(1e-6f32, |m, &s| m.max(s.abs()));
    let g = target / peak;
    for s in buf {
        *s *= g;
    }
}

#[test]
fn wav_bytes_are_exact() {
    let v = encode_wav(&all(&[0.0, 1.0, -1.0, 0.5, 2.0, -7.0, f32::NAN]), 44100, 2);
    let mut want: Vec<u8> = b"RIFF".to_vec();
    want.extend_from_slice(&(36u32 + 14).to_le_bytes());
    want.extend_from_slice(b"WAVEfmt ");
    want.extend_from_slice(&[16, 0, 0, 0, 1, 0, 2, 0]);
    want.extend_from_slice(&44100u32.to_le_bytes());
    want.extend_from_slice(&176400u32.to_le_bytes());
    want.extend_from_slice(&[4, 0, 16, 0]);
    want.extend_from_slice(b"data");
    want.extend_from_slice(&14u32.to_le_bytes());
    for s in [0i16, 32767, -32767, 16383, 32767, -32767, 0] {
        want.extend_from_slice(&s.to_le_bytes());
    }
    assert_eq!(v, want);
    assert_eq!(encode_wav(&vec![], 8000, 1).len(), 44);
}

#[test]
fn wav_samples_read_back() {
    let s: Vec<f32> = (0..200).map(|i| (i as f32 * 0.37).sin() * 1.1).collect();
    let v = encode_wav(&all(&s), 44100, 1);
    for i in 0..s.len() {
        let got = i16::from_le_bytes([v[44 + 2 * i], v[45 + 2 * i]]);
        assert_eq!(got, (s[i].clamp(-1.0, 1.0) * 32767.0) as i16);
    }
}

#[test]
fn noise_is_reproducible_and_bounded() {
    for start in [1u32, 0x9E37_79B9, 0x1234_5678, u32::MAX] {
        let mut n = noise_gen(start);
        let mut seed = start;
        for _ in 0..2000 {
            let want = noise(&mut seed);
            assert_eq!(back(n.sample()), want);
            assert_eq!(n.seed, seed);
            assert!(seed != 0);
            assert!((-1.0..=1.0).contains(&want));
        }
    }
    assert_eq!(back(noise_gen(0).sample()), -1.0);
}

#[test]
fn xorshift_steps_are_known() {
    let mut n = noise_gen(1);
    n.sample();
    assert_eq!(n.seed, 270369);
    n.sample();
    assert_eq!(n.seed, 67634689);
}

#[test]
fn different_states_have_different_successors() {
    let mut next: Vec<u32> = (0..20000u32)
        .map(|i| {
            let mut n = noise_gen(i.wrapping_mul(0x9E37_79B1));
            n.sample();
            n.seed
        })
        .collect();
    next.sort();
    next.dedup();
    assert_eq!(next.len(), 20000);
}

#[test]
fn levelling_brings_the_peak_to_the_target() {
    let mut want = vec![0.1f32, -0.5, 0.25, 0.0];
    let mut got = all(&want);
    level(&mut want, 0.9);
    normalize(&mut got, f(0.9));
    assert_same(&got, &want);
    assert_eq!(back(got[1]), -0.9);
    let mut got = all(&[0.0, 0.0]);
    normalize(&mut got, f(0.9));
    assert_same(&got, &[0.0, 0.0]);
    let mut got = all(&[1e30, -3e38, 1e-30]);
    normalize(&mut got, f(0.85));
    assert!(got.iter().all(|&s| back(s).abs() <= 1.0));
}

#[test]
fn a_comb_repeats_its_input() {
    let got = comb(&all(&[1.0, 0.0, 0.0, 0.0, 0.0]), 2, f(0.5));
    assert_same(&got, &[1.0, 0.0, 0.5, 0.0, 0.25]);
}

#[test]
fn an_allpass_smears_its_input() {
    let got = allpass(&all(&[1.0, 0.0, 0.0, 0.0]), 1, f(0.5));
    assert_same(&got, &[-0.5, 0.75, 0.375, 0.1875]);
}

#[test]
fn dry_clacks_agree_with_the_machine() {
    assert_eq!(click_len(), 5733);
    for base in [720.0f32, 1500.0] {
        assert_same(&render_dry_click(f(base), &waves(base)), &dry_click(base));
    }
}

#[test]
fn rooms_agree_with_the_machine() {
    let dry = [1.0f32, -0.5, 0.25];
    for rs in [0.4f32, 1.8] {
        assert_same(&reverberate(&all(&dry), f(rs)), &room(&dry, rs));
    }
}

#[test]
fn a_clack_in_a_room_agrees_with_the_machine() {
    let base = 1074.5454f32;
    let got = render_room_click(f(base), &waves(base), f(1.0));
    assert_same(&got, &room(&dry_click(base), 1.0));
    let peak = got.iter().fold(0.0f32, |m, &s| m.max(back(s).abs()));
    assert!((peak - 0.9).abs() < 1e-6);
}

#[test]
fn rooms_of_allowed_sizes_are_small() {
    for rs in [0.4f32, 1.0, 1.8, -3.0, 99.0, f32::NAN] {
        let c = Config { room: f(rs), ..Config::default() }.clamped();
        let n = room_tail_len(c.room);
        assert!(n <= 132300);
        assert_eq!(n, (44100.0 * (0.55 * (0.5 + 0.85 * rs.clamp(0.4, 1.8)))) as usize);
    }
    assert!(click_len() <= 44100 && whoosh_len() <= 44100);
}

#[test]
fn sweeps_agree_with_the_machine() {
    let n = whoosh_len();
    assert_eq!(n, 9702);
    let center = 380.0f32;
    let sines = map(&sweep_angles(), f32::sin);
    let w = filter_angles(f(center), &sines);
    let arc: Vec<Float> = arc_angles().iter().map(|&a| f(back(a).sin().powf(1.4))).collect();
    let got = render_whoosh(f(center), &map(&w, f32::sin), &map(&w, f32::cos), &arc);

    let mut seed = 0x1234_5678 ^ (center as u32).wrapping_mul(40_503);
    let (mut x1, mut x2, mut y1, mut y2) = (0.0f32, 0.0f32, 0.0f32, 0.0f32);
    let q = 1.4f32;
    let mut want = vec![0.0f32; n];
    for (i, sample) in want.iter_mut().enumerate() {
        let u = i as f32 / n as f32;
        let sweep = 1.0 + 0.30 * (TAU * 0.5 * u).sin() - 0.15 * u;
        let fc = (center * sweep).clamp(120.0, 6000.0);
        let w0 = TAU * fc / 44100.0;
        let (sw, cw) = (w0.sin(), w0.cos());
        let alpha = sw / (2.0 * q);
        let (b0, b2, a0, a1, a2) = (alpha, -alpha, 1.0 + alpha, -2.0 * cw, 1.0 - alpha);
        let xn = noise(&mut seed);
        let yn = (b0 * xn + b2 * x2 - a1 * y1 - a2 * y2) / a0;
        x2 = x1;
        x1 = xn;
        y2 = y1;
        y1 = yn;
        *sample = yn * ((PI * u).sin().powf(1.4) * (1.0 - 0.25 * u));
    }
    level(&mut want, 0.85);
    let peak = got.iter().fold(0.0f32, |m, &s| m.max(back(s).abs()));
    assert!((peak - 0.85).abs() < 1e-6);
    for i in 0..n {
        let (a, b) = (back(got[i]), want[i]);
        assert!(a.to_bits() == b.to_bits() || a.is_nan() && b.is_nan(), "sample {}", i);
    }
}

#[test]
fn pitches_grade_from_soft_to_hard() {
    assert_eq!(back(clack_pitch(0)), 720.0);
    assert_eq!(back(clack_pitch(11)), 1500.0);
    assert_eq!(back(clack_pitch(5)), 720.0 + 780.0f32 * 5.0 / 11.0);
    assert_eq!(back(whoosh_pitch(0)), 380.0);
    assert_eq!(back(whoosh_pitch(4)), 1100.0);
    assert_eq!(back(whoosh_pitch(1)), 560.0);
}

#[test]
fn stereo_positions_go_from_left_to_right() {
    let pans: Vec<f32> = (0..5).map(|j| back(pan_position(j))).collect();
    assert_eq!(pans, vec![-1.0, -0.5, 0.0, 0.5, 1.0]);
    assert_eq!(back(pan_angle(f(0.0))), 0.5 * std::f32::consts::FRAC_PI_2);
    assert_eq!(back(pan_angle(f(-5.0))), 0.0);
    assert_eq!(back(pan_angle(f(5.0))), std::f32::consts::FRAC_PI_2);
    let got = pan_to_stereo(&all(&[1.0, -0.5]), f(0.25), f(0.75));
    assert_same(&got, &[0.25, 0.75, -0.125, -0.375]);
}

#[test]
fn a_stereo_file_holds_both_channels() {
    let v = stereo_wav(&all(&[1.0, -0.5]), f(0.5), f(1.0));
    let want = encode_wav(&all(&[0.5, 1.0, -0.25, -0.5]), 44100, 2);
    assert_eq!(v, want);
    assert_eq!(v.len(), 52);
}

#[test]
fn steps_are_the_nearest_ones() {
    for (t, want) in [(-1.0f32, 0), (0.0, 0), (0.045, 0), (0.0455, 1), (0.5, 6), (1.0, 11), (7.0, 11)] {
        assert_eq!(step_index(f(t), 12), want, "{}", t);
    }
    assert_eq!(step_index(f(f32::NAN), 12), 0);
    assert_eq!(step_index(f(0.7), 1), 0);
    for i in 0..1000 {
        let t = i as f32 * 0.0013 - 0.1;
        for steps in [1usize, 5, 12] {
            let want = ((t.clamp(0.0, 1.0) * (steps as f32 - 1.0)).round() as usize).min(steps - 1);
            assert_eq!(step_index(f(t), steps), want);
        }
    }
}

#[test]
fn pans_follow_the_place_on_screen() {
    for (x, want) in [(0.0f32, 0), (430.0, 1), (500.0, 2), (570.0, 3), (1000.0, 4)] {
        assert_eq!(pan_index(f(x), f(1000.0), 5), want, "{}", x);
    }
    assert_eq!(pan_index(f(500.0), f(1000.0), 0), 0);
}

#[test]
fn gain_is_volume_unless_muted() {
    assert_eq!(back(gain(f(0.5), f(0.8), false)), 0.5f32 * 0.8);
    assert_eq!(back(gain(f(0.5), f(0.8), true)), 0.0);
}

#[test]
fn bank_places_are_all_different() {
    let mut seen = vec![false; 60];
    for step in 0..12 {
        for pan in 0..5 {
            let i = bank_index(step, pan);
            assert!(!seen[i]);
            seen[i] = true;
            assert_eq!((i / 5, i % 5), (step, pan));
        }
    }
    assert!(seen.iter().all(|&s| s));
    assert_eq!(bank_index(4, 4), 24);
}

#[test]
fn places_in_a_bank_follow_pitch_and_pan() {
    for n in 0..60 {
        let (pitch, pan) = clack_place(n);
        assert_eq!(back(pitch), 720.0 + 780.0f32 * (n / 5) as f32 / 11.0);
        assert_eq!(back(pan), (n % 5) as f32 / 4.0 * 2.0 - 1.0);
        assert_eq!(bank_index(n / 5, n % 5), n);
    }
    for n in 0..25 {
        let (center, pan) = whoosh_place(n);
        assert_eq!(back(center), 380.0 + 720.0f32 * (n / 5) as f32 / 4.0);
        assert_eq!(back(pan), (n % 5) as f32 / 4.0 * 2.0 - 1.0);
    }
}

#[test]
fn every_step_and_pan_can_be_chosen() {
    for steps in [2usize, 5, 12, 1000] {
        for k in 0..steps {
            assert_eq!(step_index(f(k as f32 / (steps as f32 - 1.0)), steps), k);
        }
    }
    for n in 1..8usize {
        let (left, right) = (500.0 - 28.0 * n as f32, 500.0 + 28.0 * n as f32);
        assert_eq!(pan_index(f(left), f(1000.0), n), 0);
        assert_eq!(pan_index(f(right), f(1000.0), n), 4);
        let mut last = 0;
        for x in 0..1000 {
            let p = pan_index(f(x as f32), f(1000.0), n);
            assert!(last <= p);
            last = p;
        }
    }
}

#[test]
fn panning_keeps_the_power_and_the_order() {
    let mono = all(&[10.0, -3.5, 0.25]);
    let mut last: Option<Vec<Float>> = None;
    for k in -20..=20 {
        let angle = back(pan_angle(f(k as f32 * 0.06)));
        assert!((0.0..=std::f32::consts::FRAC_PI_2).contains(&angle));
        let out = pan_to_stereo(&mono, f(angle.cos()), f(angle.sin()));
        for i in 0..3 {
            let (l, r, m) = (back(out[2 * i]), back(out[2 * i + 1]), back(mono[i]));
            assert!((l * l + r * r - m * m).abs() < 1e-3);
            if let Some(p) = &last {
                assert!(l.abs() <= back(p[2 * i]).abs() + 1e-5);
                assert!(r.abs() >= back(p[2 * i + 1]).abs() - 1e-5);
            }
        }
        last = Some(out);
    }
    assert_eq!(pan_angle(f(7.0)).bits, pan_angle(f(1.0)).bits);
}

#[test]
fn larger_rooms_sound_longer() {
    let mut last = 0;
    for k in 0..200 {
        let n = room_tail_len(f(k as f32 * 0.01));
        assert!(last <= n);
        last = n;
    }
}

#[test]
fn low_sweeps_are_alike() {
    let sines = map(&sweep_angles(), f32::sin);
    let want = filter_angles(f(0.5), &sines);
    for center in [0.0f32, -1e30, 0.999, f32::MIN] {
        let got = filter_angles(f(center), &sines);
        assert!(got.iter().zip(&want).all(|(a, b)| a.bits == b.bits));
    }
    let (s, c) = (vec![f(0.1); whoosh_len()], vec![f(0.9); whoosh_len()]);
    let a = render_whoosh(f(-5.0), &s, &c, &s);
    let b = render_whoosh(f(0.75), &s, &c, &s);
    assert!(a.iter().zip(&b).all(|(x, y)| x.bits == y.bits));
}

#[test]
fn levelling_scales_every_sample_to_any_level() {
    let raw = [0.5f32, -2.0, 1e-3, 0.0, 1.75];
    for target in [1e-30f32, 1e-3, 0.25, 0.9, 1.0] {
        let mut got = all(&raw);
        normalize(&mut got, f(target));
        for i in 0..raw.len() {
            let want = raw[i] as f64 * target as f64 / 2.0;
            assert!((back(got[i]) as f64 - want).abs() <= 1e-6);
        }
        let mut zero = all(&[0.0, -0.0]);
        normalize(&mut zero, f(target));
        assert!(zero.iter().all(|&s| back(s) == 0.0));
    }
}
