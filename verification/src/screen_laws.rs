//! What else is seen on the screen: trails, particles, readout, sliders and captions.

use vstd::prelude::*;
use crate::cradle::{Ball, Turn};
use crate::dust::Particle;
use crate::float::{Float, dec, of_nat};
use crate::near::{abs, between, near, num, tiny, lemma_abs_product, lemma_add_near, lemma_compare, lemma_dec_near, lemma_div_near, lemma_extremes, lemma_int_num, lemma_le_times, lemma_nat_num, lemma_near_clamp, lemma_near_div, lemma_near_mul, lemma_near_quotient, lemma_near_sub, lemma_neg_num, lemma_sub_near, lemma_times_dec, lemma_tiny};
use crate::scene::{Caption, Draw, Energies, Ui, all_sliders, all_trails, captions, energies, energy_shapes, kinetic_share, knob, momentum_bar, momentum_shapes, readout, scene, segment, slider_shapes, speck};
use crate::scene_laws::{block, disc, on_screen, segments, slack, stroke, tint, tinted, words, lemma_beside, lemma_scene, lemma_shade, lemma_trail_count};
use crate::sliders::{slider, slider_value_from_mouse, slider_w, slider_x};
use crate::vector::Vec2;

verus! {

proof fn lemma_trail_parts(trails: Seq<Seq<Vec2>>, n: nat, i: int, j: int)
    requires
        0 <= i < n,
        0 <= j < trails[i].len() - 1,
    ensures
        segments(trails, i as nat) + j < all_trails(trails, n).len(),
        all_trails(trails, n)[segments(trails, i as nat) + j] == segment(trails[i], j + 1),
    decreases n,
{
    lemma_trail_count(trails, n);
    lemma_trail_count(trails, (n - 1) as nat);
    if i < n - 1 {
        lemma_trail_parts(trails, (n - 1) as nat, i, j);
    }
}

/// Behind every ball its trail is drawn from place to place, the later the thicker, from
/// one to four and a half pixels, and the more opaque, up to a half.
pub proof fn trails_follow_the_balls(
    balls: Seq<Ball>,
    turns: Seq<Turn>,
    trails: Seq<Seq<Vec2>>,
    particles: Seq<Particle>,
    dragging: Option<usize>,
    ui: Ui,
    sw: Float,
    sh: Float,
    i: int,
    k: int,
)
    requires
        0 <= i < trails.len(),
        1 <= k < trails[i].len() <= 0x1_0000,
    ensures
        ({
            let s = scene(balls, turns, trails, particles, dragging, ui, sw, sh);
            let d = s[7 + segments(trails, i as nat) + k - 1];
            let (p, q) = (trails[i][k - 1], trails[i][k]);
            let a = k as real / trails[i].len() as real;
            &&& d matches Draw::Line { x1, y1, x2, y2, thickness, .. } && x1 == p.x && y1 == p.y && x2
                == q.x && y2 == q.y && near(thickness, 1real + 7real * a / 2real, 1real / 100000real)
            &&& tinted(tint(d), 45real / 100real, 72real / 100real, 1real, a / 2real)
        }),
{
    let s = scene(balls, turns, trails, particles, dragging, ui, sw, sh);
    lemma_scene(balls, turns, trails, particles, dragging, ui, sw, sh);
    lemma_trail_count(trails, trails.len());
    lemma_trail_parts(trails, trails.len(), i, k - 1);
    let b: int = 7int + segments(trails, trails.len());
    let at: int = segments(trails, i as nat) + k - 1;
    assert(s.subrange(7, b)[at] == s[7 + at]);
    lemma_segment(trails[i], k);
}

proof fn lemma_segment(trail: Seq<Vec2>, k: int)
    requires
        1 <= k < trail.len() <= 0x1_0000,
    ensures
        ({
            let d = segment(trail, k);
            let a = k as real / trail.len() as real;
            &&& d matches Draw::Line { thickness, .. } && near(thickness, 1real + 7real * a / 2real, 1real / 100000real)
            &&& tinted(tint(d), 45real / 100real, 72real / 100real, 1real, a / 2real)
        }),
{
    lemma_tiny();
    lemma_int_num(1);
    lemma_nat_num(k as nat);
    lemma_nat_num(trail.len());
    let (x, y) = (k as real, trail.len() as real);
    let f = of_nat(k as nat).div(of_nat(trail.len()));
    lemma_near_div(of_nat(k as nat), x, 0real, of_nat(trail.len()), y, 1real);
    let a = x / y;
    assert(0real <= a <= 1real) by (nonlinear_arith)
        requires
            a == x / y,
            0real <= x <= y,
            y > 0real,
    ;
    assert(0real / y == 0real) by (nonlinear_arith)
        requires
            y > 0real,
    ;
    lemma_times_dec(35, 10, f);
    lemma_add_near(dec(1, 1), f.mul(dec(35, 10)));
    lemma_times_dec(5, 10, f);
    lemma_shade(45, 72, 100, 100);
}

/// Every particle is a disc where it is, which shrinks and fades as its time runs out; a
/// spark is golden, dust is grey and fainter.
pub proof fn particles_fade(
    balls: Seq<Ball>,
    turns: Seq<Turn>,
    trails: Seq<Seq<Vec2>>,
    particles: Seq<Particle>,
    dragging: Option<usize>,
    ui: Ui,
    sw: Float,
    sh: Float,
    i: int,
)
    requires
        0 <= i < particles.len(),
        particles[i].life.finite() && abs(num(particles[i].life)) <= 16real,
        particles[i].life0.finite() && 1real / 10real <= num(particles[i].life0) <= 16real,
        particles[i].size.finite() && abs(num(particles[i].size)) <= 16real,
    ensures
        ({
            let s = scene(balls, turns, trails, particles, dragging, ui, sw, sh);
            let d = s[7 + segments(trails, trails.len()) + 7 * balls.len() + i];
            let p = particles[i];
            let a = between(num(p.life) / num(p.life0), 0real, 1real);
            &&& d matches Draw::Circle { x, y, r, .. } && x == p.pos.x && y == p.pos.y && near(
                r,
                num(p.size) * a,
                1real / 1000real,
            )
            &&& near(tint(d).a, if p.spark { a } else { 7real * a / 10real }, 1real / 10000real)
            &&& near(tint(d).r, if p.spark { 1real } else { 85real / 100real }, 1real / 1000000real)
            &&& near(tint(d).g, if p.spark { 85real / 100real } else { 82real / 100real }, 1real / 1000000real)
            &&& near(tint(d).b, if p.spark { 45real / 100real } else { 75real / 100real }, 1real / 1000000real)
        }),
{
    let s = scene(balls, turns, trails, particles, dragging, ui, sw, sh);
    lemma_scene(balls, turns, trails, particles, dragging, ui, sw, sh);
    let p: int = 7int + segments(trails, trails.len()) + 7 * balls.len();
    assert(s.subrange(p, p + particles.len())[i] == s[p + i]);
    lemma_speck(particles[i]);
}

proof fn lemma_speck(p: Particle)
    requires
        p.life.finite() && abs(num(p.life)) <= 16real,
        p.life0.finite() && 1real / 10real <= num(p.life0) <= 16real,
        p.size.finite() && abs(num(p.size)) <= 16real,
    ensures
        ({
            let d = speck(p);
            let a = between(num(p.life) / num(p.life0), 0real, 1real);
            &&& d matches Draw::Circle { r, .. } && near(r, num(p.size) * a, 1real / 1000real)
            &&& near(tint(d).a, if p.spark { a } else { 7real * a / 10real }, 1real / 10000real)
            &&& near(tint(d).r, if p.spark { 1real } else { 85real / 100real }, 1real / 1000000real)
            &&& near(tint(d).g, if p.spark { 85real / 100real } else { 82real / 100real }, 1real / 1000000real)
            &&& near(tint(d).b, if p.spark { 45real / 100real } else { 75real / 100real }, 1real / 1000000real)
        }),
{
    lemma_tiny();
    lemma_int_num(0);
    lemma_int_num(1);
    lemma_shade(100, 85, 45, 100);
    lemma_shade(85, 82, 75, 100);
    let (x, y) = (num(p.life), num(p.life0));
    let q = p.life.div(p.life0);
    lemma_near_quotient(p.life, x, 0real, p.life0, y, 0real, 1real / 10real, 161real);
    assert(near(q, x / y, 1real / 50000real));
    let f = q.clamp(dec(0, 1), dec(1, 1));
    lemma_near_clamp(q, x / y, 1real / 50000real, dec(0, 1), dec(1, 1));
    let a = between(x / y, 0real, 1real);
    lemma_near_mul(p.size, num(p.size), 0real, 16real, f, a, 1real / 50000real, 2real);
    lemma_times_dec(7, 10, f);
}

/// A frame of the readout: everything is placed from the right edge of the screen.
proof fn lemma_readout_x(sw: Float)
    requires
        on_screen(sw),
    ensures
        near(sw.sub(dec(250, 1)), num(sw) - 250real, slack(sw) / 8real),
        near(sw.sub(dec(250, 1)).sub(dec(12, 1)), num(sw) - 262real, slack(sw) / 4real),
        near(
            sw.sub(dec(250, 1)).add(dec(226, 1).mul(dec(5, 10))),
            num(sw) - 137real,
            slack(sw) / 2real,
        ),
{
    lemma_tiny();
    lemma_beside(sw, 250);
    let x = sw.sub(dec(250, 1));
    lemma_beside(x, 12);
    lemma_int_num(226);
    lemma_times_dec(5, 10, dec(226, 1));
    lemma_add_near(x, dec(226, 1).mul(dec(5, 10)));
}

/// Whether energies and momentum are ones that a row can have.
pub open spec fn bounded(e: Energies) -> bool {
    &&& e.kinetic.finite() && 0real <= num(e.kinetic) <= 0x100_0000_0000real
    &&& e.potential.finite() && 0real <= num(e.potential) <= 0x100_0000_0000real
    &&& e.momentum.finite() && abs(num(e.momentum)) <= 0x100_0000real
}

/// What the energies are counted against: their sum, or a thousandth where it is less.
pub open spec fn in_all(k: real, p: real) -> real {
    if k + p < 1real / 1000real {
        1real / 1000real
    } else {
        k + p
    }
}

proof fn lemma_share(e: Energies)
    requires
        bounded(e),
    ensures
        near(
            kinetic_share(e),
            num(e.kinetic) / in_all(num(e.kinetic), num(e.potential)),
            1real / 0x20_0000real,
        ),
        0real <= num(e.kinetic) / in_all(num(e.kinetic), num(e.potential)) <= 1real,
{
    lemma_tiny();
    let (k, p) = (num(e.kinetic), num(e.potential));
    lemma_add_near(e.kinetic, e.potential);
    lemma_dec_near(1, 1000);
    let sum = e.kinetic.add(e.potential);
    lemma_extremes(sum, dec(1, 1000));
    let d = sum.max(dec(1, 1000));
    let (x, y) = (num(d), in_all(k, p));
    assert(abs(x - y) <= y / 0x80_0000real);
    lemma_le_times(1real / 2000real, x, 0x1_0000_0000_0000_0000real);
    lemma_div_near(e.kinetic, d);
    let (q, r) = (k / x, k / y);
    assert(q * x == k && 0real <= q && q <= 2real) by (nonlinear_arith)
        requires
            q == k / x,
            x > 0real,
            0real <= k <= 2real * x,
    ;
    assert(r * y == k && 0real <= r && r <= 1real) by (nonlinear_arith)
        requires
            r == k / y,
            y > 0real,
            0real <= k <= y,
    ;
    let f = y / 0x80_0000real;
    assert(abs(q - r) <= 2real / 0x80_0000real) by {
        lemma_abs_product(q, y - x, 2real, f);
        assert((q - r) * y == q * (y - x)) by (nonlinear_arith)
            requires
                q * x == k,
                r * y == k,
        ;
        let g = q - r;
        let h = 2real / 0x80_0000real;
        assert(h * y == 2real * f) by (nonlinear_arith)
            requires
                h == 2real / 0x80_0000real,
                f == y / 0x80_0000real,
        ;
        assert(g <= h && -h <= g) by (nonlinear_arith)
            requires
                -(h * y) <= g * y <= h * y,
                y > 0real,
        ;
    }
}

/// The bars of the energy readout.
proof fn lemma_bars(e: Energies, sw: Float, x: Float)
    requires
        bounded(e),
        on_screen(sw),
        x == sw.sub(dec(250, 1)),
    ensures
        ({
            let q = num(e.kinetic) / in_all(num(e.kinetic), num(e.potential));
            let w = dec(226, 1);
            let s = kinetic_share(e);
            &&& near(w.mul(s), 226real * q, 1real / 2000real)
            &&& near(x.add(w.mul(s)), num(sw) - 250real + 226real * q, slack(sw))
            &&& near(w.mul(dec(1, 1).sub(s)), 226real - 226real * q, 1real / 2000real)
        }),
{
    lemma_tiny();
    lemma_share(e);
    lemma_readout_x(sw);
    lemma_int_num(1);
    let s = kinetic_share(e);
    lemma_times_dec(226, 1, s);
    lemma_add_near(x, dec(226, 1).mul(s));
    lemma_sub_near(dec(1, 1), s);
    lemma_times_dec(226, 1, dec(1, 1).sub(s));
}

/// The fixed lengths of the readout.
proof fn lemma_readout_lengths(f: real)
    requires
        f >= 1real / 2000real,
    ensures
        near(dec(84, 1), 84real, f),
        near(dec(226, 1), 226real, f),
        near(dec(104, 1), 104real, f),
        near(dec(14, 1), 14real, f),
        near(dec(18, 1), 18real, f),
        near(dec(8, 1), 8real, f),
        near(dec(1, 1), 1real, f),
        near(dec(84, 1).sub(dec(26, 1)), 58real, f),
        near(dec(84, 1).sub(dec(6, 1)), 78real, f),
        near(dec(84, 1).add(dec(34, 1)), 118real, f),
        near(dec(226, 1).add(dec(24, 1)), 250real, f),
        near(dec(84, 1).add(dec(52, 1)).sub(dec(6, 1)), 130real, f),
        near(dec(84, 1).add(dec(52, 1)).add(dec(6, 1)), 142real, f),
        near(dec(84, 1).add(dec(52, 1)).sub(dec(4, 1)), 132real, f),
        near(dec(84, 1).add(dec(52, 1)).add(dec(24, 1)), 160real, f),
{
    lemma_int_num(84);
    lemma_int_num(226);
    lemma_int_num(104);
    lemma_int_num(14);
    lemma_int_num(18);
    lemma_int_num(8);
    lemma_int_num(1);
    lemma_beside(dec(84, 1), 26);
    lemma_beside(dec(84, 1), 6);
    lemma_beside(dec(84, 1), 34);
    lemma_beside(dec(226, 1), 24);
    lemma_beside(dec(84, 1), 52);
    let my = dec(84, 1).add(dec(52, 1));
    lemma_beside(my, 6);
    lemma_beside(my, 4);
    lemma_beside(my, 24);
}

/// The shapes of the energy readout, where `q` is the share of the kinetic energy.
proof fn lemma_energy_shapes(e: Energies, sw: Float, q: real, f: real)
    requires
        ({
            let (x, w, s) = (sw.sub(dec(250, 1)), dec(226, 1), kinetic_share(e));
            &&& near(x, num(sw) - 250real, f)
            &&& near(x.sub(dec(12, 1)), num(sw) - 262real, f)
            &&& near(w.mul(s), 226real * q, f)
            &&& near(x.add(w.mul(s)), num(sw) - 250real + 226real * q, f)
            &&& near(w.mul(dec(1, 1).sub(s)), 226real - 226real * q, f)
        }),
        f >= 1real / 2000real,
    ensures
        ({
            let s = energy_shapes(e, sw);
            let x = num(sw) - 250real;
            &&& block(s[0], x - 12real, 58real, 250real, 104real, f)
            &&& words(s[1], Caption::Energy, x, 78real, 18real, f)
            &&& block(s[2], x, 84real, 226real, 14real, f)
            &&& block(s[3], x, 84real, 226real * q, 14real, f)
            &&& block(s[4], x + 226real * q, 84real, 226real - 226real * q, 14real, f)
        }),
{
    lemma_readout_lengths(f);
}

/// The energies in words.
proof fn lemma_energy_words(e: Energies, sw: Float)
    requires
        bounded(e),
        on_screen(sw),
    ensures
        ({
            let s = energy_shapes(e, sw);
            let x = num(sw) - 250real;
            let f = slack(sw);
            &&& s[5] matches Draw::Text { caption: Caption::Energies { kinetic, potential }, x: tx, y, size, .. }
                && near(tx, x, f) && near(y, 118real, f) && near(size, 18real, f) && near(
                kinetic,
                num(e.kinetic) / 1000real,
                num(e.kinetic) / 1000000000real + tiny(),
            ) && near(potential, num(e.potential) / 1000real, num(e.potential) / 1000000000real + tiny())
        }),
{
    lemma_readout_x(sw);
    lemma_readout_lengths(slack(sw));
    lemma_thousandth(e.kinetic);
    lemma_thousandth(e.potential);
}

proof fn lemma_thousandth(a: Float)
    requires
        a.finite(),
        abs(num(a)) <= 0x100_0000_0000real,
    ensures
        near(a.div(dec(1000, 1)), num(a) / 1000real, abs(num(a)) / 1000000000real + tiny()),
{
    lemma_int_num(1000);
    lemma_div_near(a, dec(1000, 1));
}

/// The colours of the energy readout.
proof fn lemma_energy_colours(e: Energies, sw: Float)
    ensures
        ({
            let s = energy_shapes(e, sw);
            &&& s.len() == 6
            &&& tinted(tint(s[0]), 0real, 0real, 0real, 30real / 100real)
            &&& tinted(tint(s[1]), 75real / 100real, 78real / 100real, 85real / 100real, 1real)
            &&& tinted(tint(s[2]), 18real / 100real, 20real / 100real, 26real / 100real, 1real)
            &&& tinted(tint(s[3]), 40real / 100real, 70real / 100real, 1real, 1real)
            &&& tinted(tint(s[4]), 45real / 100real, 85real / 100real, 55real / 100real, 1real)
            &&& tinted(tint(s[5]), 70real / 100real, 73real / 100real, 80real / 100real, 1real)
        }),
{
    lemma_shade(0, 0, 0, 30);
    lemma_shade(75, 78, 85, 100);
    lemma_shade(18, 20, 26, 100);
    lemma_shade(40, 70, 100, 100);
    lemma_shade(45, 85, 55, 100);
    lemma_shade(70, 73, 80, 100);
}

/// The energy readout stands at the right edge: a dark field, a heading, and a bar of 226
/// pixels of which the kinetic part is blue and the rest green; below it both energies, in
/// thousands.
pub proof fn energies_are_shown(
    balls: Seq<Ball>,
    turns: Seq<Turn>,
    trails: Seq<Seq<Vec2>>,
    particles: Seq<Particle>,
    dragging: Option<usize>,
    ui: Ui,
    sw: Float,
    sh: Float,
)
    requires
        bounded(energies(balls, turns)),
        on_screen(sw),
    ensures
        ({
            let s = scene(balls, turns, trails, particles, dragging, ui, sw, sh);
            let r = 7int + segments(trails, trails.len()) + 7 * balls.len() + particles.len();
            let e = energies(balls, turns);
            let x = num(sw) - 250real;
            let q = num(e.kinetic) / in_all(num(e.kinetic), num(e.potential));
            let f = slack(sw);
            &&& block(s[r], x - 12real, 58real, 250real, 104real, f)
            &&& tinted(tint(s[r]), 0real, 0real, 0real, 30real / 100real)
            &&& words(s[r + 1], Caption::Energy, x, 78real, 18real, f)
            &&& tinted(tint(s[r + 1]), 75real / 100real, 78real / 100real, 85real / 100real, 1real)
            &&& block(s[r + 2], x, 84real, 226real, 14real, f)
            &&& tinted(tint(s[r + 2]), 18real / 100real, 20real / 100real, 26real / 100real, 1real)
            &&& block(s[r + 3], x, 84real, 226real * q, 14real, f)
            &&& tinted(tint(s[r + 3]), 40real / 100real, 70real / 100real, 1real, 1real)
            &&& block(s[r + 4], x + 226real * q, 84real, 226real - 226real * q, 14real, f)
            &&& tinted(tint(s[r + 4]), 45real / 100real, 85real / 100real, 55real / 100real, 1real)
            &&& s[r + 5] matches Draw::Text { caption: Caption::Energies { kinetic, potential }, x: tx, y, size, .. }
                && near(tx, x, f) && near(y, 118real, f) && near(size, 18real, f) && near(
                kinetic,
                num(e.kinetic) / 1000real,
                num(e.kinetic) / 1000000000real + tiny(),
            ) && near(potential, num(e.potential) / 1000real, num(e.potential) / 1000000000real + tiny())
            &&& tinted(tint(s[r + 5]), 70real / 100real, 73real / 100real, 80real / 100real, 1real)
        }),
{
    let s = scene(balls, turns, trails, particles, dragging, ui, sw, sh);
    let e = energies(balls, turns);
    lemma_scene(balls, turns, trails, particles, dragging, ui, sw, sh);
    lemma_energy_colours(e, sw);
    lemma_readout_x(sw);
    lemma_bars(e, sw, sw.sub(dec(250, 1)));
    lemma_energy_shapes(
        e,
        sw,
        num(e.kinetic) / in_all(num(e.kinetic), num(e.potential)),
        slack(sw),
    );
    lemma_energy_words(e, sw);
    let r: int = 7int + segments(trails, trails.len()) + 7 * balls.len() + particles.len();
    let own = energy_shapes(e, sw);
    let part = s.subrange(r, r + 9);
    assert(part == readout(balls, turns, sw));
    assert(part[0] == own[0] && part[1] == own[1] && part[2] == own[2] && part[3] == own[3]);
    assert(part[4] == own[4] && part[5] == own[5]);
    assert(s[r] == part[0] && s[r + 1] == part[1] && s[r + 2] == part[2] && s[r + 3] == part[3]);
    assert(s[r + 4] == part[4] && s[r + 5] == part[5]);
}

/// The length of the momentum bar: half the width of the readout at a momentum of 1500.
proof fn lemma_momentum_bar(e: Energies)
    requires
        bounded(e),
    ensures
        near(
            momentum_bar(e),
            113real * between(num(e.momentum) / 1500real, -1real, 1real),
            1real / 8000real,
        ),
{
    lemma_tiny();
    lemma_int_num(1);
    lemma_int_num(1500);
    lemma_int_num(226);
    lemma_neg_num(dec(1, 1));
    let p = num(e.momentum);
    lemma_div_near(e.momentum, dec(1500, 1));
    let q = e.momentum.div(dec(1500, 1));
    lemma_near_clamp(q, num(q), 0real, dec(1, 1).neg(), dec(1, 1));
    let c = q.clamp(dec(1, 1).neg(), dec(1, 1));
    let b = between(p / 1500real, -1real, 1real);
    assert(near(c, b, 1real / 0x80_0000real));
    lemma_times_dec(5, 10, dec(226, 1));
    let h = dec(226, 1).mul(dec(5, 10));
    lemma_near_mul(c, b, 1real / 0x80_0000real, 2real, h, 113real, 1real / 30000real, 114real);
    assert(b * 113real == 113real * b) by (nonlinear_arith);
}

/// The momentum bar, from the middle of the readout.
proof fn lemma_momentum_block(e: Energies, sw: Float)
    requires
        bounded(e),
        on_screen(sw),
    ensures
        ({
            let s = momentum_shapes(e, sw);
            let x = num(sw) - 250real;
            let m = 113real * between(num(e.momentum) / 1500real, -1real, 1real);
            let f = slack(sw);
            &&& num(e.momentum) >= 1real ==> block(s[1], x + 113real, 132real, m, 8real, f)
            &&& num(e.momentum) <= -1real ==> block(s[1], x + 113real + m, 132real, -m, 8real, f)
        }),
{
    let x = sw.sub(dec(250, 1));
    let cx = x.add(dec(226, 1).mul(dec(5, 10)));
    lemma_readout_x(sw);
    lemma_readout_lengths(slack(sw));
    lemma_momentum_bar(e);
    let m = momentum_bar(e);
    lemma_int_num(0);
    lemma_compare(dec(0, 1), m);
    lemma_neg_num(m);
    lemma_add_near(cx, m);
}

/// The shapes of the momentum readout.
proof fn lemma_momentum_shapes(e: Energies, sw: Float)
    requires
        bounded(e),
        on_screen(sw),
    ensures
        ({
            let s = momentum_shapes(e, sw);
            let x = num(sw) - 250real;
            let m = 113real * between(num(e.momentum) / 1500real, -1real, 1real);
            let f = slack(sw);
            &&& stroke(s[0], x + 113real, 130real, x + 113real, 142real, 1real, f)
            &&& num(e.momentum) >= 1real ==> block(s[1], x + 113real, 132real, m, 8real, f)
            &&& num(e.momentum) <= -1real ==> block(s[1], x + 113real + m, 132real, -m, 8real, f)
            &&& s[2] matches Draw::Text { caption: Caption::Momentum { value }, x: tx, y, size, .. } && near(
                tx,
                x,
                f,
            ) && near(y, 160real, f) && near(size, 18real, f) && near(
                value,
                num(e.momentum) / 1000real,
                abs(num(e.momentum)) / 1000000000real + tiny(),
            )
        }),
{
    lemma_readout_x(sw);
    lemma_readout_lengths(slack(sw));
    lemma_momentum_block(e, sw);
    lemma_thousandth(e.momentum);
}

/// The momentum readout: a mark in the middle, and from it a golden bar, to the right for a
/// momentum to the right and to the left for one to the left, half of 226 pixels at 1500;
/// below it the momentum, in thousands.
pub proof fn momentum_is_shown(
    balls: Seq<Ball>,
    turns: Seq<Turn>,
    trails: Seq<Seq<Vec2>>,
    particles: Seq<Particle>,
    dragging: Option<usize>,
    ui: Ui,
    sw: Float,
    sh: Float,
)
    requires
        bounded(energies(balls, turns)),
        on_screen(sw),
    ensures
        ({
            let s = scene(balls, turns, trails, particles, dragging, ui, sw, sh);
            let r = 7int + segments(trails, trails.len()) + 7 * balls.len() + particles.len();
            let e = energies(balls, turns);
            let x = num(sw) - 250real;
            let m = 113real * between(num(e.momentum) / 1500real, -1real, 1real);
            let f = slack(sw);
            &&& stroke(s[r + 6], x + 113real, 130real, x + 113real, 142real, 1real, f)
            &&& tinted(tint(s[r + 6]), 60real / 100real, 60real / 100real, 66real / 100real, 80real / 100real)
            &&& num(e.momentum) >= 1real ==> block(s[r + 7], x + 113real, 132real, m, 8real, f)
            &&& num(e.momentum) <= -1real ==> block(s[r + 7], x + 113real + m, 132real, -m, 8real, f)
            &&& tinted(tint(s[r + 7]), 1real, 78real / 100real, 35real / 100real, 1real)
            &&& s[r + 8] matches Draw::Text { caption: Caption::Momentum { value }, x: tx, y, size, .. }
                && near(tx, x, f) && near(y, 160real, f) && near(size, 18real, f) && near(
                value,
                num(e.momentum) / 1000real,
                abs(num(e.momentum)) / 1000000000real + tiny(),
            )
            &&& tinted(tint(s[r + 8]), 70real / 100real, 73real / 100real, 80real / 100real, 1real)
        }),
{
    let s = scene(balls, turns, trails, particles, dragging, ui, sw, sh);
    let e = energies(balls, turns);
    lemma_scene(balls, turns, trails, particles, dragging, ui, sw, sh);
    lemma_momentum_shapes(e, sw);
    let r: int = 7int + segments(trails, trails.len()) + 7 * balls.len() + particles.len();
    let own = momentum_shapes(e, sw);
    let part = s.subrange(r, r + 9);
    assert(part == readout(balls, turns, sw));
    assert(part[6] == own[0] && part[7] == own[1] && part[8] == own[2]);
    assert(s[r + 6] == part[6] && s[r + 7] == part[7] && s[r + 8] == part[8]);
    lemma_shade(60, 60, 66, 80);
    lemma_shade(100, 78, 35, 100);
    lemma_shade(70, 73, 80, 100);
}

/// The height and the range of slider `i`.
pub open spec fn slider_height(i: int) -> real {
    if i == 0 {
        92real
    } else if i == 1 {
        124real
    } else {
        156real
    }
}

/// The lower end of slider `i`.
pub open spec fn slider_low(i: int) -> real {
    if i == 0 {
        0real
    } else if i == 1 {
        4real / 10real
    } else {
        5real / 100real
    }
}

/// The upper end of slider `i`.
pub open spec fn slider_high(i: int) -> real {
    if i == 0 {
        25real / 100real
    } else if i == 1 {
        18real / 10real
    } else {
        2real
    }
}

/// Sliders stand at 92, 124 and 156 pixels and go from 0 to 0.25, from 0.4 to 1.8 and from
/// 0.05 to 2.
pub proof fn sliders_have_their_ranges(i: usize)
    requires
        i < 3,
    ensures
        near(slider(i).y, slider_height(i as int), 0real),
        near(slider(i).lo, slider_low(i as int), 1real / 0x80_0000real),
        near(slider(i).hi, slider_high(i as int), 1real / 0x40_0000real),
        near(
            slider(i).hi.sub(slider(i).lo),
            slider_high(i as int) - slider_low(i as int),
            1real / 0x18_0000real,
        ),
{
    lemma_tiny();
    lemma_int_num(0);
    lemma_int_num(2);
    lemma_int_num(92);
    lemma_int_num(124);
    lemma_int_num(156);
    lemma_dec_near(25, 100);
    lemma_dec_near(4, 10);
    lemma_dec_near(18, 10);
    lemma_dec_near(5, 100);
    lemma_sub_near(slider(i).hi, slider(i).lo);
}

/// The knob of a slider lies on its groove where its value lies in its range.
pub proof fn knobs_show_the_value(i: usize, value: Float)
    requires
        i < 3,
        value.finite(),
        abs(num(value)) <= 16real,
    ensures
        near(
            knob(i, value),
            18real + 200real * between(
                (num(value) - slider_low(i as int)) / (slider_high(i as int) - slider_low(i as int)),
                0real,
                1real,
            ),
            1real / 10real,
        ),
{
    lemma_tiny();
    lemma_int_num(0);
    lemma_int_num(1);
    lemma_int_num(18);
    sliders_have_their_ranges(i);
    let (lo, hi, v) = (slider_low(i as int), slider_high(i as int), num(value));
    let s = slider(i);
    let d = value.sub(s.lo);
    lemma_near_sub(value, v, 0real, s.lo, lo, 1real / 0x80_0000real, 20real);
    let r = s.hi.sub(s.lo);
    lemma_near_quotient(
        d,
        v - lo,
        22real / 0x100_0000real,
        r,
        hi - lo,
        1real / 0x18_0000real,
        24real / 100real,
        80real,
    );
    let q = d.div(r);
    let x = (v - lo) / (hi - lo);
    assert(near(q, x, 1real / 2500real));
    lemma_near_clamp(q, x, 1real / 2500real, dec(0, 1), dec(1, 1));
    let c = q.clamp(dec(0, 1), dec(1, 1));
    lemma_times_dec(200, 1, c);
    lemma_add_near(slider_x(), c.mul(slider_w()));
}

/// The value of a slider whose knob is under `mx` lies in its range as far as the mouse lies
/// along its groove, which runs from 18 to 218 pixels.
pub proof fn sliders_follow_the_mouse(i: usize, mx: Float)
    requires
        i < 3,
        on_screen(mx),
    ensures
        near(
            slider_value_from_mouse(i, mx),
            slider_low(i as int) + (slider_high(i as int) - slider_low(i as int)) * between(
                (num(mx) - 18real) / 200real,
                0real,
                1real,
            ),
            1real / 5000real,
        ),
{
    lemma_tiny();
    lemma_int_num(0);
    lemma_int_num(1);
    lemma_int_num(200);
    sliders_have_their_ranges(i);
    lemma_beside(mx, 18);
    let (lo, hi, m) = (slider_low(i as int), slider_high(i as int), num(mx));
    let d = mx.sub(slider_x());
    lemma_near_div(d, m - 18real, 1real / 200real, slider_w(), 200real, 400real);
    let q = d.div(slider_w());
    let x = (m - 18real) / 200real;
    assert(near(q, x, 1real / 20000real));
    lemma_near_clamp(q, x, 1real / 20000real, dec(0, 1), dec(1, 1));
    let c = q.clamp(dec(0, 1), dec(1, 1));
    let b = between(x, 0real, 1real);
    let r = slider(i).hi.sub(slider(i).lo);
    lemma_near_mul(
        c,
        b,
        1real / 20000real,
        2real,
        r,
        hi - lo,
        1real / 0x18_0000real,
        2real,
    );
    assert(b * (hi - lo) == (hi - lo) * b) by (nonlinear_arith);
    lemma_abs_product(b, hi - lo, 1real, 2real);
    lemma_add_near(slider(i).lo, c.mul(r));
}

/// What slider `i` shows.
pub open spec fn setting(ui: Ui, i: int) -> Float {
    if i == 0 {
        ui.damping
    } else if i == 1 {
        ui.room
    } else {
        ui.time_scale
    }
}

proof fn lemma_slider_shapes(ui: Ui, i: int, x: real, y: real, e: real)
    requires
        0 <= i < 3,
        near(knob(i as usize, setting(ui, i)), x, e),
        near(slider(i as usize).y, y, 0real),
        0real <= y <= 200real,
        e == 1real / 10real,
    ensures
        ({
            let s = slider_shapes(ui, i as nat);
            &&& stroke(s[0], 18real, y, 218real, y, 4real, e)
            &&& stroke(s[1], 18real, y, x, y, 4real, e)
            &&& disc(s[2], x, y, 7real, e)
            &&& words(
                s[3],
                Caption::Slider { index: i as usize, value: setting(ui, i) },
                232real,
                y + 5real,
                18real,
                e,
            )
        }),
{
    lemma_int_num(4);
    lemma_int_num(7);
    lemma_int_num(18);
    lemma_int_num(200);
    lemma_beside(slider_x(), 200);
    let end = slider_x().add(slider_w());
    lemma_beside(end, 14);
    lemma_beside(slider(i as usize).y, 5);
}

proof fn lemma_slider_colours(ui: Ui, i: int)
    requires
        0 <= i < 3,
    ensures
        ({
            let s = slider_shapes(ui, i as nat);
            &&& tinted(tint(s[0]), 20real / 100real, 22real / 100real, 28real / 100real, 1real)
            &&& tinted(tint(s[1]), 45real / 100real, 72real / 100real, 1real, 1real)
            &&& tinted(tint(s[2]), 90real / 100real, 92real / 100real, 98real / 100real, 1real)
            &&& tinted(tint(s[3]), 72real / 100real, 75real / 100real, 82real / 100real, 1real)
        }),
{
    lemma_shade(20, 22, 28, 100);
    lemma_shade(45, 72, 100, 100);
    lemma_shade(90, 92, 98, 100);
    lemma_shade(72, 75, 82, 100);
}

/// Each slider is drawn as a groove from 18 to 218 pixels, a bright part up to its knob,
/// the knob where its value lies in its range, and its caption beside it.
pub proof fn sliders_are_drawn(
    balls: Seq<Ball>,
    turns: Seq<Turn>,
    trails: Seq<Seq<Vec2>>,
    particles: Seq<Particle>,
    dragging: Option<usize>,
    ui: Ui,
    sw: Float,
    sh: Float,
    i: int,
)
    requires
        0 <= i < 3,
        setting(ui, i).finite(),
        abs(num(setting(ui, i))) <= 16real,
    ensures
        ({
            let all = scene(balls, turns, trails, particles, dragging, ui, sw, sh);
            let r = 16int + segments(trails, trails.len()) + 7 * balls.len() + particles.len() + 4 * i;
            let s = all.subrange(r, r + 4);
            let y = slider_height(i);
            let (lo, hi) = (slider_low(i), slider_high(i));
            let x = 18real + 200real * between((num(setting(ui, i)) - lo) / (hi - lo), 0real, 1real);
            let e = 1real / 10real;
            &&& r + 4 <= all.len()
            &&& stroke(s[0], 18real, y, 218real, y, 4real, e)
            &&& stroke(s[1], 18real, y, x, y, 4real, e)
            &&& disc(s[2], x, y, 7real, e)
            &&& words(
                s[3],
                Caption::Slider { index: i as usize, value: setting(ui, i) },
                232real,
                y + 5real,
                18real,
                e,
            )
            &&& tinted(tint(s[0]), 20real / 100real, 22real / 100real, 28real / 100real, 1real)
            &&& tinted(tint(s[1]), 45real / 100real, 72real / 100real, 1real, 1real)
            &&& tinted(tint(s[2]), 90real / 100real, 92real / 100real, 98real / 100real, 1real)
            &&& tinted(tint(s[3]), 72real / 100real, 75real / 100real, 82real / 100real, 1real)
        }),
{
    let all = scene(balls, turns, trails, particles, dragging, ui, sw, sh);
    lemma_scene(balls, turns, trails, particles, dragging, ui, sw, sh);
    knobs_show_the_value(i as usize, setting(ui, i));
    sliders_have_their_ranges(i as usize);
    let (lo, hi) = (slider_low(i), slider_high(i));
    let x = 18real + 200real * between((num(setting(ui, i)) - lo) / (hi - lo), 0real, 1real);
    lemma_slider_shapes(ui, i, x, slider_height(i), 1real / 10real);
    lemma_slider_colours(ui, i);
    let b: int = 16int + segments(trails, trails.len()) + 7 * balls.len() + particles.len();
    let r = b + 4 * i;
    let part = all.subrange(b, b + 12);
    assert(part == all_sliders(ui));
    assert(all.subrange(r, r + 4) =~= part.subrange(4 * i, 4 * i + 4));
    assert(part.subrange(4 * i, 4 * i + 4) =~= slider_shapes(ui, i as nat));
}

/// The captions name the toy, count the balls, and tell the volume in percent, whether it is
/// muted or paused, and which keys do what; they stand in the corners at the left.
pub proof fn captions_stand_at_the_left(
    balls: Seq<Ball>,
    turns: Seq<Turn>,
    trails: Seq<Seq<Vec2>>,
    particles: Seq<Particle>,
    dragging: Option<usize>,
    ui: Ui,
    sw: Float,
    sh: Float,
)
    requires
        balls.len() <= 7,
        on_screen(sh),
        ui.volume.finite(),
        0real <= num(ui.volume) <= 1real,
    ensures
        ({
            let s = scene(balls, turns, trails, particles, dragging, ui, sw, sh);
            let r = 28int + segments(trails, trails.len()) + 7 * balls.len() + particles.len();
            let e = slack(sh);
            let h = num(sh);
            &&& s.len() == r + 4
            &&& words(s[r], Caption::Title, 18real, 36real, 30real, e)
            &&& tinted(tint(s[r]), 85real / 100real, 87real / 100real, 95real / 100real, 1real)
            &&& words(s[r + 1], Caption::Balls { count: balls.len() as usize }, 18real, 60real, 18real, e)
            &&& tinted(tint(s[r + 1]), 55real / 100real, 58real / 100real, 66real / 100real, 1real)
            &&& s[r + 2] matches Draw::Text { caption: Caption::Volume { percent, mute, paused }, x, y, size, .. }
                && near(percent, 100real * num(ui.volume), 1real / 10000real) && mute == ui.mute && paused
                == ui.paused && near(x, 18real, e) && near(y, h - 42real, e) && near(size, 18real, e)
            &&& tinted(tint(s[r + 2]), 70real / 100real, 72real / 100real, 80real / 100real, 90real / 100real)
            &&& words(s[r + 3], Caption::Help, 18real, h - 18real, 18real, e)
            &&& tinted(tint(s[r + 3]), 70real / 100real, 72real / 100real, 80real / 100real, 90real / 100real)
        }),
{
    let s = scene(balls, turns, trails, particles, dragging, ui, sw, sh);
    lemma_scene(balls, turns, trails, particles, dragging, ui, sw, sh);
    let r: int = 28int + segments(trails, trails.len()) + 7 * balls.len() + particles.len();
    let part = s.subrange(r, r + 4);
    assert(part == captions(balls.len(), ui, sh));
    assert(s[r] == part[0] && s[r + 1] == part[1] && s[r + 2] == part[2] && s[r + 3] == part[3]);
    lemma_tiny();
    lemma_int_num(18);
    lemma_int_num(30);
    lemma_int_num(36);
    lemma_int_num(60);
    lemma_beside(sh, 42);
    lemma_beside(sh, 18);
    lemma_times_dec(100, 1, ui.volume);
    lemma_shade(85, 87, 95, 100);
    lemma_shade(55, 58, 66, 100);
    lemma_shade(70, 72, 80, 90);
}

} // verus!
