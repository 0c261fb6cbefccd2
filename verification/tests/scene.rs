//! Sliders and shapes.

use newtons_cradle::captions::{figures, words};
use newtons_cradle::cradle::{make_balls, Ball, Turn};
use newtons_cradle::dust::Particle;
use newtons_cradle::float::{fl, Float};
use newtons_cradle::scene::{draw_notice, draw_readout, draw_scene, draw_sliders, measure, Caption, Color, Draw, Ui};
use newtons_cradle::sliders::{find_slider, slider, slider_hit, slider_label, slider_value_from_mouse};
use newtons_cradle::vector::vec2;

fn f(x: f32) -> Float {
    fl(x.to_bits())
}

fn back(x: Float) -> f32 {
    f32::from_bits(x.bits)
}

fn ui() -> Ui {
    Ui { damping: f(0.125), room: f(1.8), time_scale: f(0.05), volume: f(0.8), mute: true, paused: false }
}

fn rgba(c: Color) -> (f32, f32, f32, f32) {
    (back(c.r), back(c.g), back(c.b), back(c.a))
}

fn rectangle(d: &Draw) -> (f32, f32, f32, f32, (f32, f32, f32, f32)) {
    match *d {
        Draw::Rectangle { x, y, w, h, color } => (back(x), back(y), back(w), back(h), rgba(color)),
        _ => panic!("{:?}", d),
    }
}

fn circle(d: &Draw) -> (f32, f32, f32, (f32, f32, f32, f32)) {
    match *d {
        Draw::Circle { x, y, r, color } => (back(x), back(y), back(r), rgba(color)),
        _ => panic!("{:?}", d),
    }
}

fn line(d: &Draw) -> (f32, f32, f32, f32, f32, (f32, f32, f32, f32)) {
    match *d {
        Draw::Line { x1, y1, x2, y2, thickness, color } => {
            (back(x1), back(y1), back(x2), back(y2), back(thickness), rgba(color))
        }
        _ => panic!("{:?}", d),
    }
}

fn text(d: &Draw) -> (Caption, f32, f32, f32, (f32, f32, f32, f32)) {
    match *d {
        Draw::Text { caption, x, y, size, color } => (caption, back(x), back(y), back(size), rgba(color)),
        _ => panic!("{:?}", d),
    }
}

fn at_rest(n: usize) -> Vec<Turn> {
    vec![Turn { sin: f(0.0), cos: f(1.0) }; n]
}

#[test]
fn sliders_are_hit_near_their_groove() {
    assert!(slider_hit(0, vec2(f(18.0), f(92.0))));
    assert!(slider_hit(0, vec2(f(8.0), f(104.0))));
    assert!(slider_hit(0, vec2(f(228.0), f(80.0))));
    assert!(!slider_hit(0, vec2(f(7.9), f(92.0))));
    assert!(!slider_hit(0, vec2(f(228.1), f(92.0))));
    assert!(!slider_hit(0, vec2(f(100.0), f(104.1))));
    assert!(!slider_hit(0, vec2(f(f32::NAN), f(92.0))));
    assert_eq!(find_slider(vec2(f(100.0), f(92.0))), Some(0));
    assert_eq!(find_slider(vec2(f(100.0), f(124.0))), Some(1));
    assert_eq!(find_slider(vec2(f(100.0), f(156.0))), Some(2));
    assert_eq!(find_slider(vec2(f(100.0), f(108.0))), None);
    assert_eq!(find_slider(vec2(f(100.0), f(300.0))), None);
}

#[test]
fn sliders_have_names() {
    let names: Vec<&str> = (0..3).map(slider_label).collect();
    assert_eq!(names, vec!["air damping", "room size", "time scale"]);
}

#[test]
fn slider_values_span_their_range() {
    for (i, lo, hi) in [(0usize, 0.0f32, 0.25f32), (1, 0.4, 1.8), (2, 0.05, 2.0)] {
        assert_eq!((back(slider(i).lo), back(slider(i).hi)), (lo, hi));
        assert_eq!(back(slider_value_from_mouse(i, f(18.0))), lo);
        assert_eq!(back(slider_value_from_mouse(i, f(-500.0))), lo);
        assert_eq!(back(slider_value_from_mouse(i, f(218.0))), hi);
        assert_eq!(back(slider_value_from_mouse(i, f(9999.0))), hi);
        for k in 0..400 {
            let mx = k as f32 * 0.61;
            let frac = ((mx - 18.0) / 200.0).clamp(0.0, 1.0);
            let v = back(slider_value_from_mouse(i, f(mx)));
            assert_eq!(v, lo + frac * (hi - lo));
            assert!(lo <= v && v <= hi);
        }
    }
}

#[test]
fn sliders_show_their_values() {
    let mut out = Vec::new();
    draw_sliders(&mut out, &ui());
    assert_eq!(out.len(), 12);
    assert_eq!(line(&out[0]), (18.0, 92.0, 218.0, 92.0, 4.0, (0.20, 0.22, 0.28, 1.0)));
    assert_eq!(line(&out[1]), (18.0, 92.0, 118.0, 92.0, 4.0, (0.45, 0.72, 1.0, 1.0)));
    assert_eq!(circle(&out[2]), (118.0, 92.0, 7.0, (0.9, 0.92, 0.98, 1.0)));
    let (c, x, y, size, color) = text(&out[3]);
    assert_eq!((x, y, size, color), (232.0, 97.0, 18.0, (0.72, 0.75, 0.82, 1.0)));
    assert!(matches!(c, Caption::Slider { index: 0, value } if back(value) == 0.125));
    assert_eq!(circle(&out[6]).0, 218.0);
    assert_eq!(circle(&out[10]).0, 18.0);
    assert!(matches!(text(&out[11]).0, Caption::Slider { index: 2, value } if back(value) == 0.05));
}

#[test]
fn energies_add_up_over_the_row() {
    let balls: Vec<Ball> = [(0.3f32, 1.5f32), (-0.2, -0.5), (0.0, 2.0)]
        .iter()
        .map(|&(t, w)| Ball { theta: f(t), omega: f(w), pivot_x: f(0.0) })
        .collect();
    let turns: Vec<Turn> =
        balls.iter().map(|b| Turn { sin: f(back(b.theta).sin()), cos: f(back(b.theta).cos()) }).collect();
    let (mut ke, mut pe, mut px) = (0.0f32, 0.0f32, 0.0f32);
    for b in &balls {
        let v = 250.0 * back(b.omega);
        ke += 0.5 * v * v;
        pe += 2600.0 * 250.0 * (1.0 - back(b.theta).cos());
        px += v * back(b.theta).cos();
    }
    let e = measure(&balls, &turns);
    assert_eq!((back(e.kinetic), back(e.potential), back(e.momentum)), (ke, pe, px));

    let mut out = Vec::new();
    draw_readout(&mut out, &balls, &turns, f(1000.0));
    assert_eq!(out.len(), 9);
    let share = ke / (ke + pe).max(1e-3);
    assert_eq!(rectangle(&out[0]), (738.0, 58.0, 250.0, 104.0, (0.0, 0.0, 0.0, 0.30)));
    assert_eq!(rectangle(&out[2]), (750.0, 84.0, 226.0, 14.0, (0.18, 0.20, 0.26, 1.0)));
    assert_eq!(rectangle(&out[3]).2, 226.0 * share);
    assert_eq!(rectangle(&out[4]).0, 750.0 + 226.0 * share);
    assert_eq!(rectangle(&out[4]).2, 226.0 * (1.0 - share));
    assert!(matches!(text(&out[5]).0, Caption::Energies { kinetic, potential }
        if back(kinetic) == ke / 1000.0 && back(potential) == pe / 1000.0));
    assert_eq!(line(&out[6]), (863.0, 130.0, 863.0, 142.0, 1.0, (0.6, 0.6, 0.66, 0.8)));
    assert_eq!(rectangle(&out[7]).0, 863.0);
    assert_eq!(rectangle(&out[7]).2, (px / 1500.0).clamp(-1.0, 1.0) * 113.0);
    assert!(matches!(text(&out[8]).0, Caption::Momentum { value } if back(value) == px / 1000.0));
}

#[test]
fn momentum_to_the_left_is_drawn_to_the_left() {
    let balls = vec![Ball { theta: f(0.0), omega: f(-3.0), pivot_x: f(0.0) }];
    let mut out = Vec::new();
    draw_readout(&mut out, &balls, &at_rest(1), f(1000.0));
    assert_eq!(rectangle(&out[7]), (806.5, 132.0, 56.5, 8.0, (1.0, 0.78, 0.35, 1.0)));
    let mut out = Vec::new();
    draw_readout(&mut out, &vec![], &vec![], f(1000.0));
    assert_eq!(rectangle(&out[3]).2, 0.0);
    assert_eq!(rectangle(&out[7]).2, 0.0);
}

#[test]
fn the_scene_is_drawn_from_back_to_front() {
    let balls = make_balls(3, f(1000.0));
    let trails = vec![vec![vec2(f(1.0), f(2.0)), vec2(f(3.0), f(4.0)), vec2(f(5.0), f(6.0))], vec![], vec![]];
    let speck = Particle {
        pos: vec2(f(7.0), f(8.0)),
        vel: vec2(f(0.0), f(0.0)),
        life: f(0.3),
        life0: f(0.6),
        size: f(3.0),
        spark: false,
    };
    let spark = Particle { life: f(0.9), spark: true, ..speck };
    let out = draw_scene(&balls, &at_rest(3), &trails, &vec![speck, spark], Some(1), &ui(), f(1000.0), f(640.0));
    assert_eq!(out.len(), 2 + 5 + 2 + 21 + 2 + 9 + 12 + 4);
    assert!(matches!(out[0], Draw::Clear { color } if rgba(color) == (0.08, 0.09, 0.12, 1.0)));
    assert_eq!(rectangle(&out[1]), (0.0, 640.0 * 0.55, 1000.0, 640.0 * 0.45, (0.05, 0.06, 0.09, 1.0)));
    let metal = (0.62, 0.65, 0.72, 1.0);
    assert_eq!(rectangle(&out[2]), (386.0, 116.0, 228.0, 16.0, metal));
    assert_eq!(rectangle(&out[3]), (392.0, 116.0, 12.0, 640.0 * 0.78 - 130.0, metal));
    assert_eq!(rectangle(&out[4]), (368.0, 640.0 * 0.78, 60.0, 12.0, metal));
    assert_eq!(rectangle(&out[5]).0, 596.0);
    assert_eq!(rectangle(&out[6]).0, 572.0);
    let a = 1.0f32 / 3.0;
    assert_eq!(line(&out[7]), (1.0, 2.0, 3.0, 4.0, 1.0 + a * 3.5, (0.45, 0.72, 1.0, a * 0.5)));
    let a = 2.0f32 / 3.0;
    assert_eq!(line(&out[8]), (3.0, 4.0, 5.0, 6.0, 1.0 + a * 3.5, (0.45, 0.72, 1.0, a * 0.5)));
    assert_eq!(line(&out[9]), (444.0, 130.0, 444.0, 380.0, 2.0, (0.8, 0.8, 0.85, 0.9)));
    assert_eq!(circle(&out[10]), (444.0, 128.0, 4.0, (0.3, 0.32, 0.38, 1.0)));
    match out[11] {
        Draw::Ellipse { x, y, w, h, rotation, color } => {
            assert_eq!((back(x), back(y)), (444.0, 640.0 * 0.78 + 12.0));
            assert_eq!((back(w), back(h), back(rotation)), (28.0 * 0.9, 28.0 * 0.28, 0.0));
            assert_eq!(rgba(color), (0.0, 0.0, 0.0, 0.25));
        }
        _ => panic!("{:?}", out[11]),
    }
    assert_eq!(circle(&out[12]), (444.0, 380.0, 28.0, (0.12, 0.13, 0.16, 1.0)));
    assert_eq!(circle(&out[13]), (444.0, 380.0, 25.5, (0.78, 0.80, 0.86, 1.0)));
    assert_eq!(circle(&out[14]), (444.0, 380.0, 28.0 * 0.62, (0.78, 0.80, 0.86, 0.55)));
    assert_eq!(
        circle(&out[15]),
        (444.0 - 28.0 * 0.32, 380.0 - 28.0 * 0.34, 28.0 * 0.24, (1.0, 1.0, 1.0, 0.85))
    );
    assert_eq!(circle(&out[20]).3, (0.95, 0.82, 0.45, 1.0));
    assert_eq!(circle(&out[27]).3, (0.78, 0.80, 0.86, 1.0));
    assert_eq!(circle(&out[30]), (7.0, 8.0, 1.5, (0.85, 0.82, 0.75, 0.5 * 0.7)));
    assert_eq!(circle(&out[31]), (7.0, 8.0, 3.0, (1.0, 0.85, 0.45, 1.0)));
    assert!(matches!(text(&out[33]).0, Caption::Energy));
    assert!(matches!(text(&out[44]).0, Caption::Slider { index: 0, .. }));
    let (c, x, y, size, color) = text(&out[53]);
    assert!(matches!(c, Caption::Title));
    assert_eq!((x, y, size, color), (18.0, 36.0, 30.0, (0.85, 0.87, 0.95, 1.0)));
    let (c, x, y, size, color) = text(&out[54]);
    assert!(matches!(c, Caption::Balls { count: 3 }));
    assert_eq!((x, y, size, color), (18.0, 60.0, 18.0, (0.55, 0.58, 0.66, 1.0)));
    let (c, x, y, size, color) = text(&out[55]);
    assert!(matches!(c, Caption::Volume { percent, mute: true, paused: false } if back(percent) == 0.8 * 100.0));
    assert_eq!((x, y, size, color), (18.0, 598.0, 18.0, (0.7, 0.72, 0.8, 0.9)));
    let (c, x, y, size, color) = text(&out[56]);
    assert!(matches!(c, Caption::Help));
    assert_eq!((x, y, size, color), (18.0, 622.0, 18.0, (0.7, 0.72, 0.8, 0.9)));
}

#[test]
fn an_empty_row_has_its_frame_in_the_middle() {
    let out = draw_scene(&vec![], &vec![], &vec![], &vec![], None, &ui(), f(1000.0), f(640.0));
    assert_eq!(rectangle(&out[2]).0, 442.0);
    assert_eq!(rectangle(&out[2]).2, 116.0);
    assert_eq!(out.len(), 2 + 5 + 9 + 12 + 4);
}

#[test]
fn a_notice_is_shown_while_rendering() {
    let out = draw_notice(f(1000.0), f(640.0));
    assert_eq!(out.len(), 2);
    assert!(matches!(out[0], Draw::Clear { .. }));
    let (c, x, y, size, color) = text(&out[1]);
    assert!(matches!(c, Caption::Updating));
    assert_eq!((x, y, size, color), (350.0, 320.0, 28.0, (0.85, 0.87, 0.95, 1.0)));
}

#[test]
fn captions_name_their_numbers() {
    let of = |c: Caption| -> Vec<(f32, usize, bool)> {
        figures(&c).iter().map(|g| (back(g.value), g.decimals, g.plus)).collect()
    };
    assert_eq!(of(Caption::Title), vec![]);
    assert_eq!(of(Caption::Balls { count: 5 }), vec![]);
    assert_eq!(of(Caption::Volume { percent: f(80.0), mute: false, paused: false }), vec![(80.0, 0, false)]);
    assert_eq!(of(Caption::Slider { index: 0, value: f(0.04) }), vec![(0.04, 3, false)]);
    assert_eq!(of(Caption::Slider { index: 1, value: f(1.5) }), vec![(1.5, 2, false)]);
    assert_eq!(
        of(Caption::Energies { kinetic: f(1.0), potential: f(2.0) }),
        vec![(1.0, 0, false), (2.0, 0, false)]
    );
    assert_eq!(of(Caption::Momentum { value: f(-3.0) }), vec![(-3.0, 0, true)]);
}

#[test]
fn captions_in_words() {
    let say = |c: Caption, texts: &[&str]| words(&c, &texts.iter().map(|t| (*t).to_owned()).collect());
    assert_eq!(say(Caption::Title, &[]), "Newton's Cradle");
    assert_eq!(say(Caption::Balls { count: 5 }, &["60"]), "balls: 5   fps: 60");
    let volume = |mute: bool, paused: bool| Caption::Volume { percent: f(80.0), mute, paused };
    assert_eq!(say(volume(false, false), &["80"]), "vol 80%   ");
    assert_eq!(say(volume(true, false), &["80"]), "vol 80% (muted)   ");
    assert_eq!(say(volume(true, true), &["80"]), "vol 80% (muted)   PAUSED");
    assert_eq!(say(Caption::Slider { index: 0, value: f(0.04) }, &["0.040"]), "air damping: 0.040");
    assert_eq!(say(Caption::Slider { index: 1, value: f(1.0) }, &["1.00"]), "room size: 1.00x");
    assert_eq!(say(Caption::Slider { index: 2, value: f(1.0) }, &["1.00"]), "time scale: 1.00x");
    assert_eq!(say(Caption::Energy, &[]), "ENERGY (a.u.)");
    let e = Caption::Energies { kinetic: f(1.0), potential: f(2.0) };
    assert_eq!(say(e, &["1", "2"]), "KE 1   PE 2");
    assert_eq!(say(Caption::Momentum { value: f(3.0) }, &["+3"]), "momentum +3");
    assert_eq!(say(Caption::Updating, &[]), "updating room acoustics...");
    assert!(say(Caption::Help, &[]).starts_with("drag ball/sliders  |  1-4 pull"));
    assert!(say(Caption::Help, &[]).ends_with("Space pause  |  Esc quit"));
}

#[test]
fn knobs_lie_under_the_mouse_that_set_them() {
    for i in 0..3usize {
        let mut last = f32::NEG_INFINITY;
        for k in 0..=2000 {
            let mx = 18.0 + k as f32 * 0.1;
            let v = slider_value_from_mouse(i, f(mx));
            assert!(last <= back(v));
            last = back(v);
            let mut out = Vec::new();
            let u = Ui { damping: v, room: v, time_scale: v, ..ui() };
            draw_sliders(&mut out, &u);
            assert!((circle(&out[4 * i + 2]).0 - mx).abs() < 0.001);
        }
    }
    let mut out = Vec::new();
    let wild = Ui { damping: f(9.0), room: f(f32::NEG_INFINITY), time_scale: f(f32::INFINITY), ..ui() };
    draw_sliders(&mut out, &wild);
    assert_eq!((circle(&out[2]).0, circle(&out[6]).0, circle(&out[10]).0), (218.0, 18.0, 218.0));
}

#[test]
fn no_point_is_on_two_sliders() {
    for k in 0..4000 {
        let m = vec2(f(100.0), f(60.0 + k as f32 * 0.03));
        assert!((0..3).filter(|&i| slider_hit(i, m)).count() <= 1);
    }
}
