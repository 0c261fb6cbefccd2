//! What holds of the sounds: how long they are, how loud, and where they stand.

use vstd::prelude::*;
use vstd::arithmetic::power2::{pow2, lemma_pow2_adds, lemma_pow2_pos, lemma2_to64};
use crate::bank::{PAN_STEPS, PITCH_STEPS, WHOOSH_STEPS, bank_index};
use crate::bounds::{at_most, lemma_add_at_most, lemma_clamp, lemma_dec_at_most, lemma_dec_is, lemma_dec_order, lemma_mul_at_most, lemma_nan, lemma_rounded_at_most, lemma_saturated_at_most};
use crate::click::{Waves, click_samples, dry_click};
use crate::config::Config;
use crate::exact::{lemma_dec_int, lemma_mul_zero, lemma_representable};
use crate::float::{Float, dec, magnitude_units, of_nat, spec_dec, lemma_difference, lemma_fits, lemma_of_nat_exact, lemma_rounded_units, lemma_signed, lemma_units_increase, lemma_units_order};
use crate::noise::{noise_at, noise_value, seed_after};
use crate::order::{lemma_add_order, lemma_gap, lemma_mul_order, lemma_nearest_exact, lemma_nearest_order, lemma_negated, lemma_off_by, lemma_product, lemma_quotient, lemma_relative, lemma_saturated_order, lemma_sum, lemma_value_bounded};
use crate::reverb::{normalized, peak, room_tail, roomed};
use crate::rounding::{binade, half_even, round_magnitude, lemma_binade_bounds, lemma_half_even_bounds, lemma_round_monotone};
use crate::session::State;
use crate::whoosh::{band_centre, filter_angle, progress, raw_whoosh, whoosh_samples, whoosh_seed};

verus! {

/// A clack lasts a second at most, and so does a sweep.
pub proof fn dry_sounds_are_short()
    ensures
        click_samples() <= 44100,
        whoosh_samples() <= 44100,
{
    lemma_of_nat_exact(44100);
    lemma_dec_at_most(13, 100, 1);
    lemma_dec_at_most(22, 100, 1);
    lemma_mul_at_most(of_nat(44100), dec(13, 100), 44100, 1);
    lemma_mul_at_most(of_nat(44100), dec(22, 100), 44100, 1);
    lemma_saturated_at_most(of_nat(44100).mul(dec(13, 100)), 44100, usize::MAX as nat);
    lemma_saturated_at_most(of_nat(44100).mul(dec(22, 100)), 44100, usize::MAX as nat);
}

/// A room of a size that the settings allow adds three seconds at most, so a clack
/// can be rendered in it whatever the machine.
pub proof fn rooms_are_small(c: Config)
    requires
        c.clamped() == c,
    ensures
        room_tail(c.room) <= 132300,
        click_samples() + room_tail(c.room) <= usize::MAX,
{
    dry_sounds_are_short();
    let rs = c.room;
    lemma_dec_order(4, 10, 18, 10);
    lemma_clamp(rs, dec(4, 10), dec(18, 10));
    lemma_of_nat_exact(44100);
    lemma_dec_at_most(85, 100, 1);
    lemma_dec_at_most(5, 10, 1);
    lemma_dec_at_most(55, 100, 1);
    lemma_dec_at_most(18, 10, 2);
    let a = dec(85, 100).mul(rs);
    let b = dec(5, 10).add(a);
    let t = dec(55, 100).mul(b);
    let n = of_nat(44100).mul(t);
    if rs.nan() {
        lemma_nan(dec(85, 100), rs);
        lemma_nan(dec(5, 10), a);
        lemma_nan(dec(55, 100), b);
        lemma_nan(of_nat(44100), t);
    } else {
        assert(at_most(rs, 2));
        lemma_mul_at_most(dec(85, 100), rs, 1, 2);
        lemma_add_at_most(dec(5, 10), a, 1, 2);
        lemma_mul_at_most(dec(55, 100), b, 1, 3);
        lemma_mul_at_most(of_nat(44100), t, 44100, 3);
    }
    lemma_saturated_at_most(n, 132300, usize::MAX as nat);
}

/// The clacks of a running session can be rendered and put into files, whatever was done
/// to its settings.
pub proof fn clacks_of_a_session_fit(s: State, base_freq: Float, w: Waves)
    requires
        s.sound(),
    ensures
        click_samples() + room_tail(s.config.room) <= usize::MAX,
        36 + 4 * roomed(dry_click(base_freq, w), s.config.room).len() <= u32::MAX,
{
    rooms_are_small(s.config);
    dry_sounds_are_short();
    pitch_does_not_change_the_length(base_freq, w, s.config.room);
}

/// A larger room never gives a shorter sound.
pub proof fn larger_rooms_sound_longer(rs: Float, other: Float)
    requires
        rs.le(other),
    ensures
        room_tail(rs) <= room_tail(other),
{
    reveal(Float::spec_le);
    lemma_pow2_pos(149);
    lemma_of_nat_exact(44100);
    lemma2_to64();
    lemma_dec_order(1, 2, 55, 100);
    lemma_dec_order(1, 2, 85, 100);
    lemma_dec_order(1, 2, 5, 10);
    lemma_pow2_adds(23, 125);
    lemma_pow2_pos(125);
    lemma_dec_is(1, 2, 24, 0x80_0000);
    let (a, b) = (dec(85, 100).mul(rs), dec(85, 100).mul(other));
    lemma_mul_order(rs, other, dec(85, 100));
    let (c, d) = (dec(5, 10).add(a), dec(5, 10).add(b));
    lemma_add_order(a, b, dec(5, 10));
    let (e, f) = (dec(55, 100).mul(c), dec(55, 100).mul(d));
    lemma_mul_order(c, d, dec(55, 100));
    lemma_mul_order(e, f, of_nat(44100));
    lemma_saturated_order(of_nat(44100).mul(e), of_nat(44100).mul(f), usize::MAX as nat);
}

/// How long a clack is depends on the room alone, and not on its pitch.
pub proof fn pitch_does_not_change_the_length(base_freq: Float, w: Waves, rs: Float)
    ensures
        roomed(dry_click(base_freq, w), rs).len() == click_samples() + room_tail(rs),
{
}

/// The share of a sweep that has passed is between nothing and one.
pub proof fn lemma_progress(i: nat)
    requires
        i < whoosh_samples(),
    ensures
        progress(i).finite(),
        0 <= progress(i).value() <= pow2(149),
{
    let p = pow2(149);
    let n = whoosh_samples();
    dry_sounds_are_short();
    lemma_pow2_pos(149);
    lemma_of_nat_exact(i);
    lemma_of_nat_exact(n);
    let (x, y) = (i * p, n * p);
    assert(y > 0 && (x * p) * 1 <= p * y && x * p >= 0) by (nonlinear_arith)
        requires
            x == i * p,
            y == n * p,
            i < n,
            p > 0,
    ;
    lemma_quotient(of_nat(i), of_nat(n));
    lemma_nearest_order(0, 1, (x * p) as int, y);
    lemma_nearest_order((x * p) as int, y, p as int, 1);
    assert(0 * p == 0 && 1 * p == p);
    lemma_representable(0, 0, 149);
    lemma_representable(p as int, 1, 149);
    lemma_nearest_exact(0);
    lemma_nearest_exact(p as int);
    lemma_fits(1, 149);
    lemma_units_order(0x7f80_0000, round_magnitude(1 * p, 1));
    lemma_value_bounded(progress(i));
}

/// The bend of a sweep is positive, and at most three.
proof fn lemma_bend(sine: Float, i: nat)
    requires
        i < whoosh_samples(),
        sine.finite(),
        sine.units() <= pow2(149),
    ensures
        ({
            let bend = dec(1, 1).add(dec(30, 100).mul(sine)).sub(dec(15, 100).mul(progress(i)));
            at_most(bend, 3) && bend.value() > 0
        }),
{
    let (p, h, q) = (pow2(149), pow2(148), pow2(147));
    lemma_progress(i);
    lemma_pow2_pos(147);
    lemma_pow2_pos(149);
    lemma2_to64();
    lemma_pow2_adds(1, 148);
    lemma_pow2_adds(1, 147);
    lemma_pow2_adds(23, 125);
    lemma_pow2_adds(23, 124);
    lemma_dec_is(1, 2, 24, 0x80_0000);
    lemma_dec_is(1, 4, 25, 0x80_0000);
    lemma_dec_order(30, 100, 1, 2);
    lemma_dec_order(15, 100, 1, 4);
    lemma_dec_at_most(30, 100, 1);
    lemma_dec_at_most(15, 100, 1);
    lemma_dec_int(1);
    assert(1 * p == p && 1 * h == h && 1 * q == q);
    lemma_representable(-h, 1, 148);
    lemma_representable(h as int, 1, 148);
    lemma_representable(q as int, 1, 147);
    lemma_nearest_exact(-h);
    lemma_nearest_exact(h as int);
    lemma_nearest_exact(q as int);
    let a = dec(30, 100).mul(sine);
    lemma_product(dec(30, 100), sine);
    let (x, y) = (dec(30, 100).value(), sine.value());
    assert((-h) * p <= (x * y) * 1) by (nonlinear_arith)
        requires
            0 <= x <= h,
            -p <= y <= p,
            p > 0,
    ;
    lemma_nearest_order(-h, 1, x * y, p);
    lemma_mul_at_most(dec(30, 100), sine, 1, 1);
    let b = dec(1, 1).add(a);
    lemma_sum(dec(1, 1), a);
    lemma_nearest_order(h as int, 1, p + a.value(), 1);
    lemma_add_at_most(dec(1, 1), a, 1, 1);
    let c = dec(15, 100).mul(progress(i));
    lemma_product(dec(15, 100), progress(i));
    let (z, u) = (dec(15, 100).value(), progress(i).value());
    assert((z * u) * 1 <= q * p) by (nonlinear_arith)
        requires
            0 <= z <= q,
            0 <= u <= p,
    ;
    lemma_nearest_order(z * u, p, q as int, 1);
    lemma_mul_at_most(dec(15, 100), progress(i), 1, 1);
    lemma_gap(b, c);
    lemma_nearest_order(q as int, 1, b.value() - c.value(), 1);
    lemma_negated(c);
    lemma_add_at_most(b, c.neg(), 2, 1);
}

/// The band of a sweep around less than one stays at its floor.
proof fn lemma_floor(center: Float, sine: Float, i: nat)
    requires
        i < whoosh_samples(),
        sine.finite(),
        sine.units() <= pow2(149),
        center.finite(),
        center.lt(dec(1, 1)),
    ensures
        band_centre(center, sine, i) == dec(120, 1),
{
    let p = pow2(149);
    lemma_pow2_pos(149);
    lemma_bend(sine, i);
    lemma_dec_int(1);
    lemma_dec_int(120);
    assert(1 * p == p);
    reveal(Float::spec_lt);
    let bend = dec(1, 1).add(dec(30, 100).mul(sine)).sub(dec(15, 100).mul(progress(i)));
    lemma_product(center, bend);
    let (x, y) = (center.value(), bend.value());
    if x >= 0 {
        lemma_mul_at_most(center, bend, 1, 3);
    } else {
        assert(x * y * 1 <= 0 * p) by (nonlinear_arith)
            requires
                x < 0,
                y > 0,
        ;
        lemma_nearest_order(x * y, p, 0, 1);
        assert(0 * p == 0);
        lemma_representable(0, 0, 149);
        lemma_nearest_exact(0);
    }
}

/// The sweeps around centres below one are all the same.
pub proof fn low_sweeps_are_alike(
    a: Float,
    b: Float,
    sine: Float,
    i: nat,
    sw: Seq<Float>,
    cw: Seq<Float>,
    arc: Seq<Float>,
)
    requires
        a.finite() && a.lt(dec(1, 1)),
        b.finite() && b.lt(dec(1, 1)),
        i < whoosh_samples(),
        sine.finite(),
        sine.units() <= pow2(149),
    ensures
        filter_angle(a, sine, i) == filter_angle(b, sine, i),
        raw_whoosh(a, sw, cw, arc) == raw_whoosh(b, sw, cw, arc),
{
    lemma_floor(a, sine, i);
    lemma_floor(b, sine, i);
    lemma_low_seed(a);
    lemma_low_seed(b);
    assert(whoosh_seed(a) == whoosh_seed(b));
    assert(raw_whoosh(a, sw, cw, arc) =~= raw_whoosh(b, sw, cw, arc));
}

proof fn lemma_low_seed(a: Float)
    requires
        a.finite(),
        a.lt(dec(1, 1)),
    ensures
        a.saturated(u32::MAX as nat) == 0,
{
    lemma_pow2_pos(149);
    lemma_dec_int(1);
    assert(1 * pow2(149) == pow2(149));
    reveal(Float::spec_lt);
    reveal(Float::saturated);
    if !a.negative() {
        vstd::arithmetic::div_mod::lemma_basic_div(a.units() as int, pow2(149) as int);
    }
}

/// Noise stays between minus one and one.
pub proof fn noise_is_within_full_scale(seed: u32, i: nat)
    ensures
        at_most(noise_at(seed, i), 1),
{
    let s = seed_after(seed, i + 1);
    let p = pow2(149);
    lemma_pow2_pos(149);
    let (a, b) = (of_nat(s as nat), of_nat(u32::MAX as nat));
    assert(a.finite() && b.finite() && !a.negative() && !b.negative() && a.units() <= b.units()
        && b.units() > 0) by {
        reveal(of_nat);
        lemma2_to64();
        lemma_pow2_adds(32, 149);
        assert(s as nat * p * 1 <= u32::MAX as nat * p * 1) by (nonlinear_arith)
            requires
                s <= u32::MAX,
        ;
        assert(u32::MAX as nat * p * 1 <= 1 * pow2(181) * 1) by (nonlinear_arith)
            requires
                pow2(181) == 0x1_0000_0000 * p,
        ;
        assert(1 * p * 1 <= u32::MAX as nat * p * 1) by (nonlinear_arith);
        lemma_round_monotone(s as nat * p, 1, u32::MAX as nat * p, 1);
        lemma_round_monotone(u32::MAX as nat * p, 1, 1 * pow2(181), 1);
        lemma_round_monotone(1 * p, 1, u32::MAX as nat * p, 1);
        lemma_fits(1, 181);
        lemma_fits(1, 149);
        let (ma, mb) = (round_magnitude(s as nat * p, 1), round_magnitude(u32::MAX as nat * p, 1));
        lemma_signed(false, ma);
        lemma_signed(false, mb);
        lemma_units_order(mb, ma);
        lemma_units_order(mb, round_magnitude(1 * p, 1));
    }
    let q = a.div(b);
    assert(at_most(q, 1) && !q.negative()) by {
        reveal(Float::spec_div);
        lemma_units_order(0, b.mag());
        let (x, y) = (a.units(), b.units());
        assert((x * p) * 1 <= (1 * p) * y) by (nonlinear_arith)
            requires
                x <= y,
        ;
        lemma_round_monotone(x * p, y, 1 * p, 1);
        lemma_fits(1, 149);
        let m = round_magnitude(x * p, y);
        lemma_signed(false, m);
        lemma_units_order(round_magnitude(1 * p, 1), m);
    }
    lemma_dec_int(2);
    lemma_dec_int(1);
    lemma_mul_at_most(q, dec(2, 1), 1, 2);
    let d = q.mul(dec(2, 1));
    lemma_difference(d, dec(1, 1));
    let v = d.value() - dec(1, 1).value();
    let size = (if v < 0 {
        -v
    } else {
        v
    }) as nat;
    assert(size <= 1 * p);
    lemma_round_monotone(size, 1, 1 * p, 1);
    lemma_fits(1, 149);
    lemma_units_order(round_magnitude(1 * p, 1), round_magnitude(size, 1));
    lemma_signed(true, round_magnitude(size, 1));
    lemma_signed(false, round_magnitude(size, 1));
    lemma_signed(true, 0);
    lemma_signed(false, 0);
    lemma_units_order(0, 0);
    assert(1 * p == p);
    assert(noise_value(s) == d.sub(dec(1, 1)));
}

proof fn lemma_peak(buf: Seq<Float>, n: nat)
    requires
        n <= buf.len(),
        forall|i: int| 0 <= i < buf.len() ==> (#[trigger] buf[i]).finite(),
    ensures
        peak(buf, n).finite(),
        !peak(buf, n).negative(),
        dec(1, 1000000).units() <= peak(buf, n).units(),
        forall|i: int| 0 <= i < n ==> (#[trigger] buf[i]).units() <= peak(buf, n).units(),
        peak(buf, n) == dec(1, 1000000) || exists|i: int|
            0 <= i < n && (#[trigger] buf[i]).units() == peak(buf, n).units(),
    decreases n,
{
    lemma_dec_order(0, 1, 1, 1000000);
    lemma_dec_at_most(1, 1000000, 1);
    reveal(Float::spec_lt);
    reveal(Float::spec_abs);
    if n > 0 {
        lemma_peak(buf, (n - 1) as nat);
        lemma_signed(false, buf[n - 1].mag());
    }
}

/// A level over a peak, times the peak, is no more than one, in spite of rounding.
proof fn lemma_level(t: Float, k: Float)
    requires
        t.finite(),
        k.finite(),
        !k.negative(),
        0 <= t.value(),
        16 * t.units() <= 15 * pow2(149),
        pow2(149) <= 0x10_0000 * k.units(),
    ensures
        t.div(k).finite(),
        t.div(k).units() * k.units() <= pow2(149) * pow2(149),
{
    reveal(Float::spec_div);
    let p = pow2(149);
    let (tu, ku) = (t.units(), k.units());
    lemma_pow2_pos(149);
    lemma_units_order(0, k.mag());
    let num = tu * p;
    assert(num <= 0x10_0000 * p * ku) by (nonlinear_arith)
        requires
            num == tu * p,
            tu <= p,
            p <= 0x10_0000 * ku,
    ;
    let negative = t.negative() != k.negative();
    lemma_rounded_at_most(negative, num, ku, 0x10_0000);
    let r = round_magnitude(num, ku);
    lemma_signed(negative, r);
    lemma_rounded_units(num, ku);
    let e = binade(num, ku);
    let q = pow2(e);
    lemma_pow2_pos(e);
    let h = half_even(num, ku * q);
    let g = h * q;
    assert(t.div(k).units() == g);
    assert(ku * q > 0) by (nonlinear_arith)
        requires
            ku > 0,
            q > 0,
    ;
    lemma_half_even_bounds(num, ku * q);
    lemma_binade_bounds(num, ku);
    assert(2 * (g * ku) <= 2 * num + ku * q) by (nonlinear_arith)
        requires
            2 * num >= (2 * h - 1) * (ku * q),
            g == h * q,
    ;
    assert(16 * num <= 15 * (p * p)) by (nonlinear_arith)
        requires
            num == tu * p,
            16 * tu <= 15 * p,
    ;
    if e > 0 {
        lemma_pow2_adds(23, e);
        lemma2_to64();
        assert(ku * (0x80_0000 * q) == 0x80_0000 * (ku * q)) by (nonlinear_arith);
        assert(ku * q <= num);
        assert(16 * (ku * q) <= p * p);
    } else {
        lemma2_to64();
        lemma_units_increase(k.mag(), 0x7f80_0000);
        assert(magnitude_units(0x7f80_0000) == 0x80_0000 * pow2(254));
        lemma_pow2_adds(23, 254);
        lemma_pow2_adds(149, 149);
        lemma_pow2_adds(21, 277);
        assert(ku * q == ku) by (nonlinear_arith)
            requires
                q == 1,
        ;
        assert(16 * ku <= p * p);
    }
}

/// A finite sound that is brought to a level below full scale stays within full
/// scale, so nothing is cut off when it is encoded.
pub proof fn levelled_sounds_stay_within_full_scale(buf: Seq<Float>, target: Float)
    requires
        forall|i: int| 0 <= i < buf.len() ==> (#[trigger] buf[i]).finite(),
        dec(0, 1).le(target),
        target.le(dec(15, 16)),
    ensures
        forall|i: int| 0 <= i < buf.len() ==> at_most(#[trigger] normalized(buf, target)[i], 1),
{
    let p = pow2(149);
    let k = peak(buf, buf.len());
    lemma_peak(buf, buf.len());
    lemma_pow2_pos(149);
    lemma_dec_int(0);
    lemma2_to64();
    lemma_dec_is(15, 16, 24, 15728640);
    lemma_pow2_adds(24, 125);
    assert(16 * dec(15, 16).value() == 15 * p);
    lemma_smallest_peak();
    reveal(Float::spec_le);
    lemma_units_order(0x7f80_0000, dec(15, 16).mag());
    lemma_units_order(target.mag(), 0x7f80_0000);
    if target.negative() {
        lemma_units_order(0, target.mag());
    }
    lemma_level(target, k);
    let g = target.div(k);
    assert forall|i: int| 0 <= i < buf.len() implies at_most(#[trigger] normalized(buf, target)[i], 1) by {
        reveal(Float::spec_mul);
        let s = buf[i];
        assert(s.units() <= k.units());
        assert(s.units() * g.units() <= 1 * p * p) by (nonlinear_arith)
            requires
                s.units() <= k.units(),
                g.units() * k.units() <= p * p,
        ;
        lemma_rounded_at_most(s.negative() != g.negative(), s.units() * g.units(), p, 1);
    }
}

/// A level over a peak, times the peak, is the level up to two parts in a million.
proof fn lemma_level_near(t: Float, k: Float)
    requires
        t.finite(),
        k.finite(),
        !k.negative(),
        !t.negative(),
        pow2(148) <= t.units() <= pow2(149),
        pow2(149) <= 0x10_0000 * k.units(),
    ensures
        t.div(k).finite(),
        !t.div(k).negative(),
        0x20_0000 * (t.div(k).units() * k.units()) <= 0x20_0001 * (t.units() * pow2(149)),
        0x20_0000 * (t.div(k).units() * k.units()) >= 0x1f_ffff * (t.units() * pow2(149)),
{
    reveal(Float::spec_div);
    let p = pow2(149);
    let (tu, ku) = (t.units(), k.units());
    lemma_pow2_pos(149);
    lemma_units_order(0, k.mag());
    let num = tu * p;
    assert(num <= 0x10_0000 * p * ku) by (nonlinear_arith)
        requires
            num == tu * p,
            tu <= p,
            p <= 0x10_0000 * ku,
    ;
    lemma_rounded_at_most(false, num, ku, 0x10_0000);
    let r = round_magnitude(num, ku);
    lemma_signed(false, r);
    if num >= ku * 0x100_0000 {
        lemma_relative(num, ku);
    } else {
        lemma_units_increase(k.mag(), 0x7f80_0000);
        assert(magnitude_units(0x7f80_0000) == 0x80_0000 * pow2(254));
        lemma2_to64();
        lemma_pow2_adds(23, 254);
        lemma_pow2_adds(148, 149);
        lemma_pow2_adds(20, 277);
        assert(num >= pow2(148) * p) by (nonlinear_arith)
            requires
                num == tu * p,
                tu >= pow2(148),
        ;
        assert(num >= 0x10_0000 * ku);
        assert(ku * pow2(24) == ku * 0x100_0000);
        lemma_off_by(num as int, ku, 0);
        assert(ku * pow2(0) == ku) by (nonlinear_arith)
            requires
                pow2(0) == 1,
        ;
    }
}

/// Bringing a sound to a level brings its loudest sample there, up to one part in a
/// million, and leaves it the loudest.
pub proof fn levelling_brings_the_peak_to_the_target(buf: Seq<Float>, target: Float, j: int)
    requires
        forall|i: int| 0 <= i < buf.len() ==> (#[trigger] buf[i]).finite(),
        0 <= j < buf.len(),
        forall|i: int| 0 <= i < buf.len() ==> (#[trigger] buf[i]).units() <= buf[j].units(),
        dec(1, 1000000).le(buf[j].abs()),
        dec(5, 10).le(target),
        target.le(dec(1, 1)),
    ensures
        normalized(buf, target)[j].finite(),
        normalized(buf, target)[j].negative() == buf[j].negative(),
        0x10_0000 * normalized(buf, target)[j].units() <= 0x10_0001 * target.units(),
        0x10_0000 * normalized(buf, target)[j].units() >= 0xf_ffff * target.units(),
        forall|i: int|
            0 <= i < buf.len() ==> (#[trigger] normalized(buf, target)[i]).units() <= normalized(
                buf,
                target,
            )[j].units(),
{
    let p = pow2(149);
    let k = peak(buf, buf.len());
    lemma_peak(buf, buf.len());
    lemma_pow2_pos(149);
    lemma_pow2_pos(148);
    lemma2_to64();
    lemma_pow2_adds(1, 148);
    lemma_pow2_adds(23, 125);
    lemma_dec_is(5, 10, 24, 0x80_0000);
    lemma_dec_int(1);
    assert(1 * p == p);
    lemma_smallest_peak();
    reveal(Float::spec_le);
    reveal(Float::spec_abs);
    lemma_signed(false, buf[j].mag());
    lemma_units_order(0x7f80_0000, dec(1, 1).mag());
    lemma_units_order(target.mag(), 0x7f80_0000);
    assert(target.finite() && !target.negative());
    assert(k.units() == buf[j].units());
    lemma_level_near(target, k);
    let g = target.div(k);
    let s = buf[j];
    let (su, gu, tu) = (s.units(), g.units(), target.units());
    let num = su * gu;
    assert(num == gu * k.units()) by (nonlinear_arith)
        requires
            num == su * gu,
            su == k.units(),
    ;
    lemma_pow2_adds(24, 149);
    lemma_pow2_adds(24, 124);
    lemma_pow2_adds(1, 123);
    lemma_pow2_pos(123);
    assert(tu * p >= 0x200_0000 * p) by (nonlinear_arith)
        requires
            tu >= 0x100_0000 * pow2(124),
            pow2(124) >= 2,
    ;
    assert(num >= p * 0x100_0000);
    assert(num <= 2 * p * p) by (nonlinear_arith)
        requires
            0x20_0000 * num <= 0x20_0001 * (tu * p),
            tu <= p,
            p > 0,
    ;
    lemma_rounded_at_most(s.negative() != g.negative(), num, p, 2);
    lemma_relative(num, p);
    let r = round_magnitude(num, p);
    lemma_signed(s.negative(), r);
    let u = magnitude_units(r);
    assert(s.mul(g).finite() && s.mul(g).units() == u && s.mul(g).negative() == s.negative()) by {
        reveal(Float::spec_mul);
    }
    assert(0x10_0000 * (u * p) <= 0x10_0001 * (tu * p));
    assert(0x10_0000 * (u * p) >= 0xf_ffff * (tu * p));
    assert(0x10_0000 * u <= 0x10_0001 * tu && 0x10_0000 * u >= 0xf_ffff * tu) by (nonlinear_arith)
        requires
            0x10_0000 * (u * p) <= 0x10_0001 * (tu * p),
            0x10_0000 * (u * p) >= 0xf_ffff * (tu * p),
            p > 0,
    ;
    assert forall|i: int| 0 <= i < buf.len() implies (#[trigger] normalized(buf, target)[i]).units()
        <= normalized(buf, target)[j].units() by {
        reveal(Float::spec_mul);
        let x = buf[i].units();
        assert(x <= su);
        assert((x * gu) * p <= (su * gu) * p) by (nonlinear_arith)
            requires
                x <= su,
        ;
        lemma_round_monotone(x * gu, p, su * gu, p);
        let m = round_magnitude(x * gu, p);
        lemma_signed(buf[i].negative() != g.negative(), m);
        lemma_units_order(r, m);
    }
}

/// Puts the roundings of a gain and of a product together.
proof fn lemma_scaled_near(u: int, s: int, g: int, t: int, k: int, p: int, q: int)
    requires
        p > 0,
        k > 0,
        q > 0,
        0 <= s <= k,
        0 <= t <= p,
        p == 0x100_0000 * q,
        k <= 8 * q * p,
        -(t * p + 0x80_0000 * k) <= 0x100_0000 * (g * k - t * p) <= t * p + 0x80_0000 * k,
        -(p * q) <= u * p - s * g <= p * q,
    ensures
        -(k * p) <= 0x10_0000 * (u * k - s * t) <= k * p,
{
    let e = g * k - t * p;
    let d = u * p - s * g;
    // what the gain is off by, times the sample
    assert(t * p <= p * p) by (nonlinear_arith)
        requires
            t <= p,
            p > 0,
    ;
    let f = 0x100_0000 * e;
    let b = p * p + 0x80_0000 * k;
    assert(-(k * b) <= s * f <= k * b) by (nonlinear_arith)
        requires
            -b <= f <= b,
            0 <= s <= k,
            b >= 0,
    ;
    assert(s * f == 0x100_0000 * (s * e)) by (nonlinear_arith)
        requires
            f == 0x100_0000 * e,
    ;
    assert(k * b == k * (p * p) + 0x80_0000 * (k * k)) by (nonlinear_arith)
        requires
            b == p * p + 0x80_0000 * k,
    ;
    assert(k * k <= 8 * (k * (q * p))) by (nonlinear_arith)
        requires
            k <= 8 * q * p,
            k > 0,
    ;
    assert(k * (p * p) == 0x100_0000 * (k * (q * p))) by (nonlinear_arith)
        requires
            p == 0x100_0000 * q,
    ;
    let w = k * (q * p);
    assert(-5 * w <= s * e <= 5 * w);
    // what the product is off by, times the peak
    assert(-w <= k * d <= w) by (nonlinear_arith)
        requires
            -(p * q) <= d <= p * q,
            k > 0,
            w == k * (q * p),
    ;
    let x = u * k - s * t;
    assert(x * p == k * d + s * e) by (nonlinear_arith)
        requires
            x == u * k - s * t,
            d == u * p - s * g,
            e == g * k - t * p,
    ;
    assert(0x10_0000 * (6 * w) <= (k * p) * p) by (nonlinear_arith)
        requires
            w == k * (q * p),
            p == 0x100_0000 * q,
            k > 0,
            q > 0,
    ;
    assert(-((k * p) * p) <= 0x10_0000 * (x * p) <= (k * p) * p);
    assert(-(k * p) <= 0x10_0000 * x <= k * p) by (nonlinear_arith)
        requires
            -((k * p) * p) <= 0x10_0000 * (x * p) <= (k * p) * p,
            p > 0,
    ;
}

/// The gain that brings a peak to a level, up to rounding.
proof fn lemma_gain_near(t: Float, k: Float)
    requires
        t.finite(),
        k.finite(),
        !k.negative(),
        0 <= t.value() <= pow2(149),
        pow2(149) <= 0x10_0000 * k.units(),
    ensures
        t.div(k).finite(),
        0 <= t.div(k).value(),
        ({
            let (g, ku, tp) = (t.div(k).units(), k.units(), t.units() * pow2(149));
            -(tp + 0x80_0000 * ku) <= 0x100_0000 * (g * ku - tp) <= tp + 0x80_0000 * ku
        }),
        k.units() <= 8 * pow2(125) * pow2(149),
{
    let p = pow2(149);
    let (tu, ku) = (t.units(), k.units());
    lemma_pow2_pos(149);
    lemma_value_bounded(t);
    lemma_value_bounded(k);
    lemma2_to64();
    let num = tu * p;
    lemma_quotient(t, k);
    let tv = t.value();
    assert(tv * p == num as int) by (nonlinear_arith)
        requires
            tv == tu,
            num == tu * p,
    ;
    assert(num <= 0x10_0000 * p * ku) by (nonlinear_arith)
        requires
            num == tu * p,
            tu <= p,
            p <= 0x10_0000 * ku,
    ;
    lemma_rounded_at_most(false, num, ku, 0x10_0000);
    let r = round_magnitude(num, ku);
    lemma_signed(false, r);
    lemma_units_order(r, 0x7f80_0000);
    let q = t.div(k);
    lemma_value_bounded(q);
    assert(q.units() == magnitude_units(r));
    lemma_units_increase(k.mag(), 0x7f80_0000);
    assert(magnitude_units(0x7f80_0000) == 0x80_0000 * pow2(254));
    lemma_pow2_adds(23, 254);
    lemma_pow2_adds(3, 125);
    lemma_pow2_adds(128, 149);
    if num >= ku * 0x100_0000 {
        lemma_relative(num, ku);
    } else {
        assert(ku * pow2(24) == ku * 0x100_0000);
        lemma_off_by(num as int, ku, 0);
        assert(ku * pow2(0) == ku) by (nonlinear_arith)
            requires
                pow2(0) == 1,
        ;
    }
}

/// Bringing a sound to a level multiplies every sample by the level over the peak, up to
/// a millionth.
pub proof fn levelling_scales_every_sample(buf: Seq<Float>, target: Float, i: int)
    requires
        forall|j: int| 0 <= j < buf.len() ==> (#[trigger] buf[j]).finite(),
        0 <= i < buf.len(),
        dec(0, 1).le(target),
        target.le(dec(1, 1)),
    ensures
        normalized(buf, target)[i].finite(),
        ({
            let k = peak(buf, buf.len()).value();
            let off = normalized(buf, target)[i].value() * k - buf[i].value() * target.value();
            k > 0 && -(k * pow2(149)) <= 0x10_0000 * off <= k * pow2(149)
        }),
{
    let (p, q) = (pow2(149), pow2(125));
    let k = peak(buf, buf.len());
    lemma_peak(buf, buf.len());
    lemma_pow2_pos(149);
    lemma_pow2_pos(125);
    lemma2_to64();
    lemma_pow2_adds(24, 125);
    lemma_pow2_adds(1, 149);
    lemma_pow2_adds(1, 125);
    lemma_dec_int(0);
    lemma_dec_int(1);
    assert(0 * p == 0 && 1 * p == p);
    lemma_smallest_peak();
    reveal(Float::spec_le);
    lemma_units_order(0x7f80_0000, dec(1, 1).mag());
    lemma_units_order(target.mag(), 0x7f80_0000);
    lemma_value_bounded(target);
    lemma_gain_near(target, k);
    let g = target.div(k);
    let s = buf[i];
    let (su, gu, ku, tu) = (s.units(), g.units(), k.units(), target.units());
    lemma_value_bounded(g);
    lemma_product(s, g);
    // the size of the product
    assert(su * gu <= gu * ku) by (nonlinear_arith)
        requires
            su <= ku,
    ;
    assert(tu * p <= p * p) by (nonlinear_arith)
        requires
            tu <= p,
    ;
    assert(p * p == 0x100_0000 * (q * p)) by (nonlinear_arith)
        requires
            p == 0x100_0000 * q,
    ;
    assert(8 * q * p == 8 * (q * p)) by (nonlinear_arith);
    assert(p * pow2(150) == 2 * (p * p)) by (nonlinear_arith)
        requires
            pow2(150) == 2 * p,
    ;
    assert(q * p > 0) by (nonlinear_arith)
        requires
            q > 0,
            p > 0,
    ;
    assert(su * gu < p * pow2(150));
    let y = s.mul(g);
    let sv = s.value();
    let gv = g.value();
    assert(sv * gv == su * gu || sv * gv == -(su * gu)) by (nonlinear_arith)
        requires
            gv == gu,
            sv == su || sv == -su,
    ;
    lemma_off_by(sv * gv, p, 126);
    assert(p * pow2(126) == 2 * (p * q)) by (nonlinear_arith)
        requires
            pow2(126) == 2 * q,
    ;
    lemma_value_bounded(y);
    let u = y.value();
    if s.negative() {
        assert((-u) * p == -(u * p)) by (nonlinear_arith);
        assert(su * gv == -(sv * gv)) by (nonlinear_arith)
            requires
                sv == -su,
        ;
        lemma_scaled_near(-u, su as int, gv, tu as int, ku as int, p as int, q as int);
        assert((-u) * ku - su * tu == -(u * ku - sv * tu)) by (nonlinear_arith)
            requires
                sv == -su,
        ;
    } else {
        lemma_scaled_near(u, su as int, gv, tu as int, ku as int, p as int, q as int);
    }
}

/// Bringing a sound to any level up to full scale brings its loudest sample there, up to
/// a millionth of full scale.
pub proof fn levelling_reaches_any_target(buf: Seq<Float>, target: Float, j: int)
    requires
        forall|i: int| 0 <= i < buf.len() ==> (#[trigger] buf[i]).finite(),
        0 <= j < buf.len(),
        forall|i: int| 0 <= i < buf.len() ==> (#[trigger] buf[i]).units() <= buf[j].units(),
        dec(1, 1000000).le(buf[j].abs()),
        dec(0, 1).le(target),
        target.le(dec(1, 1)),
    ensures
        normalized(buf, target)[j].finite(),
        -pow2(149) <= 0x10_0000 * (normalized(buf, target)[j].value() - if buf[j].negative() {
            -target.value()
        } else {
            target.value()
        }) <= pow2(149),
{
    let p = pow2(149);
    let k = peak(buf, buf.len());
    lemma_peak(buf, buf.len());
    lemma_smallest_peak();
    reveal(Float::spec_le);
    reveal(Float::spec_abs);
    lemma_signed(false, buf[j].mag());
    lemma_pow2_pos(149);
    assert(k.units() == buf[j].units());
    levelling_scales_every_sample(buf, target, j);
    let (u, kv, t) = (normalized(buf, target)[j].value(), k.value(), target.value());
    let s = buf[j].value();
    let want = if buf[j].negative() {
        -t
    } else {
        t
    };
    let d = u - want;
    assert(u * kv - s * t == d * kv) by (nonlinear_arith)
        requires
            d == u - want,
            s == kv && want == t || s == -kv && want == -t,
    ;
    assert(-p <= 0x10_0000 * d <= p) by (nonlinear_arith)
        requires
            -(kv * p) <= 0x10_0000 * (d * kv) <= kv * p,
            kv > 0,
    ;
}

/// Silence stays silence, whatever the level.
pub proof fn silence_is_levelled_to_silence(buf: Seq<Float>, target: Float, i: int)
    requires
        forall|j: int| 0 <= j < buf.len() ==> (#[trigger] buf[j]).mag() == 0,
        0 <= i < buf.len(),
        dec(0, 1).le(target),
        target.le(dec(1, 1)),
    ensures
        normalized(buf, target)[i].mag() == 0,
{
    let k = peak(buf, buf.len());
    lemma_peak(buf, buf.len());
    lemma_smallest_peak();
    lemma_dec_int(0);
    lemma_dec_int(1);
    lemma_pow2_pos(149);
    assert(0 * pow2(149) == 0 && 1 * pow2(149) == pow2(149));
    reveal(Float::spec_le);
    lemma_units_order(0x7f80_0000, dec(1, 1).mag());
    lemma_units_order(target.mag(), 0x7f80_0000);
    lemma_value_bounded(target);
    lemma_gain_near(target, k);
    lemma_mul_zero(target.div(k), buf[i]);
}

/// The smallest peak is at least one part in 2^20.
proof fn lemma_smallest_peak()
    ensures
        pow2(149) <= 0x10_0000 * dec(1, 1000000).units(),
        dec(1, 1000000).finite(),
        !dec(1, 1000000).negative(),
{
    reveal(spec_dec);
    let (p, q) = (pow2(149), pow2(129));
    lemma2_to64();
    lemma_pow2_adds(20, 129);
    assert((1 * q) * 1000000 <= (1nat * p) * 1) by (nonlinear_arith)
        requires
            p == 0x10_0000 * q,
    ;
    lemma_round_monotone(1 * q, 1, 1 * p, 1000000);
    lemma_fits(1, 129);
    lemma_dec_at_most(1, 1000000, 1);
    lemma_units_order(dec(1, 1000000).mag(), round_magnitude(1 * q, 1));
}

/// The levels that clacks and sweeps are brought to are below full scale.
pub proof fn levels_are_below_full_scale()
    ensures
        dec(0, 1).le(dec(9, 10)) && dec(9, 10).le(dec(15, 16)),
        dec(0, 1).le(dec(85, 100)) && dec(85, 100).le(dec(15, 16)),
{
    lemma_dec_order(0, 1, 9, 10);
    lemma_dec_order(9, 10, 15, 16);
    lemma_dec_order(0, 1, 85, 100);
    lemma_dec_order(85, 100, 15, 16);
    reveal(Float::spec_le);
}

/// Every sound of a bank has a place of its own, and the places leave no gap.
pub proof fn bank_places_are_distinct(step: usize, pan: usize)
    requires
        step < PITCH_STEPS,
        pan < PAN_STEPS,
    ensures
        bank_index(step, pan) < PITCH_STEPS * PAN_STEPS,
        step < WHOOSH_STEPS ==> bank_index(step, pan) < WHOOSH_STEPS * PAN_STEPS,
        bank_index(step, pan) / PAN_STEPS == step,
        bank_index(step, pan) % PAN_STEPS == pan,
{
}

} // verus!
