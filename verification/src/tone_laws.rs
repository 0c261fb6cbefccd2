//! What the clacks are made of and how the banks are laid out, counted against exact
//! arithmetic.

use vstd::prelude::*;
use vstd::arithmetic::power2::pow2;
use crate::bank::{FRAC_PI_2, clack_pitch_of, graded, pan_angle, pan_at, stereo, whoosh_pitch_of};
use crate::bounds::at_most;
use crate::click::{TAU, Waves, all_decays, all_phases, burst_tau, click_samples, click_seed, dry_click, partial, time_of, tone};
use crate::exact::{lemma_dec_int, lemma_representable, lemma_sub_exact};
use crate::float::{Float, dec, fl, of_nat, lemma_of_nat_exact};
use crate::near::{abs, between, near, num, lemma_abs_product, lemma_add_near, lemma_bits, lemma_dec_near, lemma_div_near, lemma_int_num, lemma_integer_part, lemma_le_times, lemma_mul_near, lemma_nat_near, lemma_nat_num, lemma_near_clamp, lemma_near_div, lemma_near_mul, lemma_neg_num, lemma_num_order, lemma_sub_near, lemma_times_dec, lemma_tiny};
use crate::noise::{noise_at, noise_value};
use crate::order::lemma_negated;
use crate::room_laws::{tame_waves, within};
use crate::sound_laws::noise_is_within_full_scale;
use crate::sweep_laws::sounds_have_their_lengths;
use crate::whoosh::whoosh_seed;

verus! {

/// Step `i` of `steps` even steps from `lo` to `hi`.
proof fn lemma_graded(lo: u64, hi: u64, i: nat, steps: nat)
    requires
        lo <= hi <= 0x800,
        2 <= steps <= 16,
        i < steps,
    ensures
        near(
            graded(dec(lo, 1), dec(hi, 1), i, steps),
            lo as real + ((hi as real - lo as real) * i as real) / (steps as real - 1real),
            1real / 100real,
        ),
{
    lemma_tiny();
    lemma_int_num(lo);
    lemma_int_num(hi);
    lemma_int_num(1);
    lemma_nat_num(i);
    lemma_nat_num(steps);
    lemma_nat_num((steps - 1) as nat);
    let (d, x) = (hi as real - lo as real, i as real);
    let g = dec(hi, 1).sub(dec(lo, 1));
    lemma_sub_near(dec(hi, 1), dec(lo, 1));
    lemma_near_mul(g, d, 1real / 0x2000real, 0x801real, of_nat(i), x, 0real, 16real);
    let f = g.mul(of_nat(i));
    let n = of_nat(steps).sub(dec(1, 1));
    lemma_count(steps);
    let k = steps as real - 1real;
    lemma_abs_product(d, x, 0x800real, 16real);
    lemma_le_times(1real, k, 0x9000real);
    lemma_near_div(f, d * x, 1real / 250real, n, k, 0x9000real);
    let e = (1real / 250real) / k;
    assert(e <= 1real / 250real) by (nonlinear_arith)
        requires
            e == (1real / 250real) / k,
            k >= 1real,
    ;
    let q = (d * x) / k;
    assert(0real <= q <= d) by (nonlinear_arith)
        requires
            q == (d * x) / k,
            d >= 0real,
            0real <= x <= k,
            k >= 1real,
    ;
    lemma_add_near(dec(lo, 1), f.div(n));
}

/// One less than a small count.
proof fn lemma_count(steps: nat)
    requires
        1 <= steps <= 16,
    ensures
        of_nat(steps).sub(dec(1, 1)).finite(),
        num(of_nat(steps).sub(dec(1, 1))) == steps as real - 1real,
{
    let k = (steps - 1) as nat;
    lemma_of_nat_exact(steps);
    lemma_of_nat_exact(k);
    lemma_dec_int(1);
    lemma_nat_num(k);
    let p = pow2(149);
    assert(steps * p - 1 * p == k * p) by (nonlinear_arith)
        requires
            k == steps - 1,
    ;
    assert(k * p >= 0) by (nonlinear_arith);
    lemma_representable(k * p as int, k, 149);
    lemma_sub_exact(of_nat(steps), dec(1, 1));
    lemma_num_order(of_nat(steps).sub(dec(1, 1)), of_nat(k));
}

/// The clacks rise in twelve even steps from 720 to 1500 hertz, and the sweeps in five from
/// 380 to 1100.
pub proof fn pitches_rise_in_even_steps(i: nat)
    ensures
        i < 12 ==> near(clack_pitch_of(i), 720real + 780real * i as real / 11real, 1real / 100real),
        i < 5 ==> near(whoosh_pitch_of(i), 380real + 180real * i as real, 1real / 100real),
{
    if i < 12 {
        lemma_graded(720, 1500, i, 12);
    }
    if i < 5 {
        lemma_graded(380, 1100, i, 5);
    }
}

/// The five stereo positions go evenly from the left to the right.
pub proof fn positions_go_from_left_to_right(j: nat)
    requires
        j < 5,
    ensures
        near(pan_at(j), j as real / 2real - 1real, 1real / 100000real),
{
    lemma_tiny();
    lemma_int_num(1);
    lemma_int_num(2);
    lemma_nat_num(j);
    lemma_count(5);
    let n = of_nat(5).sub(dec(1, 1));
    let x = j as real;
    lemma_near_div(of_nat(j), x, 0real, n, 4real, 1real);
    assert(0real / 4real == 0real);
    let a = of_nat(j).div(n);
    lemma_times_dec(2, 1, a);
    lemma_sub_near(a.mul(dec(2, 1)), dec(1, 1));
}

/// The angle of a stereo position goes evenly from nothing at the left to a quarter of a
/// turn at the right.
pub proof fn pan_angles_go_evenly(pan: Float)
    requires
        pan.finite(),
    ensures
        near(
            pan_angle(pan),
            (between(num(pan), -1real, 1real) + 1real) / 2real * (1570796327real / 1000000000real),
            1real / 100000real,
        ),
{
    lemma_tiny();
    lemma_int_num(1);
    lemma_neg_num(dec(1, 1));
    lemma_bits(FRAC_PI_2, 13176795, 126);
    lemma_near_clamp(pan, num(pan), 0real, dec(1, 1).neg(), dec(1, 1));
    let c = pan.clamp(dec(1, 1).neg(), dec(1, 1));
    lemma_times_dec(5, 10, c);
    lemma_dec_near(5, 10);
    let h = c.mul(dec(5, 10));
    lemma_add_near(h, dec(5, 10));
    let y = (num(c) + 1real) / 2real;
    lemma_near_mul(
        h.add(dec(5, 10)),
        y,
        1real / 0x10_0000real,
        2real,
        fl(FRAC_PI_2),
        1570796327real / 1000000000real,
        1real / 0x40_0000real,
        2real,
    );
}

/// On two channels every sample is heard left and right, each with its own gain.
pub proof fn channels_alternate(mono: Seq<Float>, lg: Float, rg: Float, i: int)
    requires
        0 <= i < mono.len(),
        mono[i].finite() && abs(num(mono[i])) <= 1real,
        lg.finite() && abs(num(lg)) <= 1real,
        rg.finite() && abs(num(rg)) <= 1real,
    ensures
        stereo(mono, lg, rg).len() == 2 * mono.len(),
        near(stereo(mono, lg, rg)[2 * i], num(mono[i]) * num(lg), 1real / 10000000real),
        near(stereo(mono, lg, rg)[2 * i + 1], num(mono[i]) * num(rg), 1real / 10000000real),
{
    lemma_tiny();
    lemma_abs_product(num(mono[i]), num(lg), 1real, 1real);
    lemma_abs_product(num(mono[i]), num(rg), 1real, 1real);
    lemma_mul_near(mono[i], lg);
    lemma_mul_near(mono[i], rg);
    assert((2 * i) / 2 == i && (2 * i + 1) / 2 == i);
}

/// The time of a sample, in seconds.
proof fn lemma_time(i: nat)
    requires
        i < 5733,
    ensures
        near(time_of(i), i as real / 44100real, 1real / 0x400_0000real),
        0real <= i as real / 44100real <= 14real / 100real,
{
    lemma_tiny();
    lemma_nat_num(i);
    lemma_nat_num(44100);
    lemma_near_div(of_nat(i), i as real, 0real, of_nat(44100), 44100real, 14real / 100real);
    assert(0real / 44100real == 0real);
}

/// The partials of a clack: pitches in the ratios 1, 2.76, 5.40 and 8.93 to the base, with
/// amplitudes 1, 0.60, 0.32 and 0.16, dying away in 50, 38, 26 and 18 thousandths of a
/// second.
pub proof fn partials_of_a_clack()
    ensures
        near(partial(0).ratio, 1real, 1real / 0x10_0000real),
        near(partial(1).ratio, 276real / 100real, 1real / 0x10_0000real),
        near(partial(2).ratio, 540real / 100real, 1real / 0x10_0000real),
        near(partial(3).ratio, 893real / 100real, 1real / 0x10_0000real),
        near(partial(0).amp, 1real, 1real / 0x10_0000real),
        near(partial(1).amp, 60real / 100real, 1real / 0x10_0000real),
        near(partial(2).amp, 32real / 100real, 1real / 0x10_0000real),
        near(partial(3).amp, 16real / 100real, 1real / 0x10_0000real),
        near(partial(0).tau, 50real / 1000real, 1real / 0x1000_0000real),
        near(partial(1).tau, 38real / 1000real, 1real / 0x1000_0000real),
        near(partial(2).tau, 26real / 1000real, 1real / 0x1000_0000real),
        near(partial(3).tau, 18real / 1000real, 1real / 0x1000_0000real),
        near(burst_tau(), 18real / 10000real, 1real / 0x1_0000_0000real),
{
    lemma_tiny();
    lemma_dec_near(1, 1);
    lemma_dec_near(276, 100);
    lemma_dec_near(540, 100);
    lemma_dec_near(893, 100);
    lemma_dec_near(60, 100);
    lemma_dec_near(32, 100);
    lemma_dec_near(16, 100);
    lemma_dec_near(50, 1000);
    lemma_dec_near(38, 1000);
    lemma_dec_near(26, 1000);
    lemma_dec_near(18, 1000);
    lemma_dec_near(18, 10000);
}

/// The phase of a partial turns by a full turn per period: twice pi times the base pitch
/// times the ratio times the time, up to a thousandth.
pub proof fn phases_turn_with_the_pitch(base_freq: Float, k: usize, i: nat)
    requires
        k < 4,
        i < 5733,
        base_freq.finite(),
        0real <= num(base_freq) <= 2000real,
    ensures
        all_phases(base_freq, k).len() == 5733,
        near(
            all_phases(base_freq, k)[i as int],
            6283185307real * num(base_freq) / 1000000000real * num(partial(k).ratio) * (i as real / 44100real),
            1real / 50real,
        ),
{
    lemma_tiny();
    sounds_have_their_lengths();
    partials_of_a_clack();
    lemma_time(i);
    lemma_bits(TAU, 13176795, 128);
    let (f, r, t) = (num(base_freq), num(partial(k).ratio), i as real / 44100real);
    let h = 13176795real / 0x20_0000real;
    lemma_abs_product(h, f, 7real, 2000real);
    lemma_mul_near(fl(TAU), base_freq);
    assert(h * f == 13176795real * f / 0x20_0000real) by (nonlinear_arith)
        requires
            h == 13176795real / 0x20_0000real,
    ;
    let a = fl(TAU).mul(base_freq);
    let w = 6283185307real * f / 1000000000real;
    assert(near(a, w, 1real / 200real));
    lemma_near_mul(a, w, 1real / 200real, 12600real, partial(k).ratio, r, 0real, 9real);
    let b = a.mul(partial(k).ratio);
    lemma_abs_product(w, r, 12600real, 9real);
    assert(near(b, w * r, 6real / 100real));
    lemma_near_mul(
        b,
        w * r,
        6real / 100real,
        113500real,
        time_of(i),
        t,
        1real / 0x400_0000real,
        15real / 100real,
    );
}

/// The exponent of a decay is minus the time over the decay time.
pub proof fn decays_follow_time(tau: Float, i: nat)
    requires
        i < 5733,
        tau.finite(),
        1real / 1000real <= num(tau) <= 1real,
    ensures
        all_decays(tau).len() == 5733,
        near(all_decays(tau)[i as int], -(i as real / 44100real) / num(tau), 1real / 10000real),
{
    lemma_tiny();
    sounds_have_their_lengths();
    lemma_time(i);
    lemma_neg_num(time_of(i));
    let (t, y) = (i as real / 44100real, num(tau));
    lemma_le_times(1real / 1000real, y, 0x100real);
    lemma_near_div(time_of(i).neg(), -t, 1real / 0x400_0000real, tau, y, 141real);
    let e = (1real / 0x400_0000real) / y;
    assert(e <= 1real / 60000real) by (nonlinear_arith)
        requires
            e == (1real / 0x400_0000real) / y,
            y >= 1real / 1000real,
    ;
}

/// What is at most one in size, in units and in reals.
proof fn lemma_at_most(a: Float)
    requires
        at_most(a, 1),
    ensures
        abs(num(a)) <= 1real,
{
    lemma_int_num(1);
    lemma_dec_int(1);
    lemma_neg_num(dec(1, 1));
    lemma_negated(dec(1, 1));
    lemma_num_order(a, dec(1, 1));
    lemma_num_order(dec(1, 1).neg(), a);
}

/// The first `k` partials at a sample, summed up exactly.
pub open spec fn chord(w: Waves, k: nat, i: int) -> real
    decreases k,
{
    if k == 0 {
        0real
    } else {
        chord(w, (k - 1) as nat, i) + num(partial((k - 1) as usize).amp) * num(w.sines@[k - 1]@[i]) * num(
            w.decays@[k - 1]@[i],
        )
    }
}

proof fn lemma_chord(w: Waves, k: nat, i: int)
    requires
        tame_waves(w),
        k <= 4,
        0 <= i < 5733,
    ensures
        near(tone(w, k, i), chord(w, k, i), 20real * k as real / 0x100_0000real),
        abs(chord(w, k, i)) <= 2real * k as real,
    decreases k,
{
    lemma_tiny();
    sounds_have_their_lengths();
    if k == 0 {
        lemma_int_num(0);
    } else {
        let j = (k - 1) as nat;
        lemma_chord(w, j, i);
        partials_of_a_clack();
        let (s, d) = (w.sines@[j as int]@, w.decays@[j as int]@);
        assert(within(s, 1) && within(d, 1));
        assert(s.len() == click_samples() && d.len() == click_samples());
        assert(at_most(s[i], 1) && at_most(d[i], 1));
        lemma_at_most(s[i]);
        lemma_at_most(d[i]);
        let amp = partial(j as usize).amp;
        let (a, x, y) = (num(amp), num(s[i]), num(d[i]));
        let t = 1real / 0x100_0000real;
        lemma_abs_product(a, x, 2real, 1real);
        lemma_near_mul(amp, a, 0real, 2real, s[i], x, 0real, 1real);
        lemma_near_mul(amp.mul(s[i]), a * x, 3real * t, 3real, d[i], y, 0real, 1real);
        lemma_abs_product(a * x, y, 2real, 1real);
        let f = amp.mul(s[i]).mul(d[i]);
        assert(near(f, a * x * y, 7real * t));
        lemma_add_near(tone(w, j, i), f);
    }
}

/// The noise spreads its states evenly from minus one to one.
pub proof fn noise_spreads_evenly(seed: u32)
    ensures
        near(noise_value(seed), 2real * seed as real / 4294967295real - 1real, 1real / 0x10_0000real),
{
    lemma_tiny();
    lemma_int_num(1);
    lemma_nat_near(seed as nat);
    lemma_nat_near(u32::MAX as nat);
    let (a, b) = (of_nat(seed as nat), of_nat(u32::MAX as nat));
    let (s, m) = (seed as real, 4294967295real);
    let (x, y) = (num(a), num(b));
    lemma_le_times(1real, y, 0x1_0000_0000_0000_0000real);
    lemma_div_near(a, b);
    let q = x / y;
    assert(q * y == x && 0real - 1real / 1000real <= q <= 1001real / 1000real) by (nonlinear_arith)
        requires
            q == x / y,
            y >= 4294966000real,
            -1real <= x <= 4294968000real,
    ;
    lemma_abs_product(q, m - y, 1001real / 1000real, 257real);
    assert(q * (m - y) == q * m - x) by (nonlinear_arith)
        requires
            q * y == x,
    ;
    assert(q * m == 4294967295real * q) by (nonlinear_arith)
        requires
            m == 4294967295real,
    ;
    let d = a.div(b);
    lemma_times_dec(2, 1, d);
    lemma_sub_near(d.mul(dec(2, 1)), dec(1, 1));
}

/// A sample of a clack is its four partials, each a sine that dies away, and 0.7 times a
/// burst of noise that dies away.
pub proof fn clacks_ring_and_hiss(base_freq: Float, w: Waves, i: int)
    requires
        tame_waves(w),
        0 <= i < 5733,
    ensures
        dry_click(base_freq, w).len() == 5733,
        near(
            dry_click(base_freq, w)[i],
            chord(w, 4, i) + 7real * (num(noise_at(click_seed(base_freq), i as nat)) * num(w.burst@[i])) / 10real,
            1real / 100000real,
        ),
{
    lemma_tiny();
    sounds_have_their_lengths();
    lemma_chord(w, 4, i);
    let hiss = noise_at(click_seed(base_freq), i as nat);
    noise_is_within_full_scale(click_seed(base_freq), i as nat);
    assert(at_most(w.burst@[i], 1));
    lemma_at_most(w.burst@[i]);
    lemma_at_most(hiss);
    lemma_abs_product(num(hiss), num(w.burst@[i]), 1real, 1real);
    lemma_mul_near(hiss, w.burst@[i]);
    let f = hiss.mul(w.burst@[i]);
    lemma_times_dec(7, 10, f);
    lemma_add_near(tone(w, 4, i), f.mul(dec(7, 10)));
}

/// The noise of a sound starts at a seed that its pitch in whole cycles per second gives: a
/// multiple of the pitch, in 32 bits, with some of the bits turned over.
pub proof fn noise_starts_by_the_pitch(f: Float, p: nat)
    requires
        f.finite(),
        p < u32::MAX,
        p as real <= num(f) < p as real + 1real,
    ensures
        (click_seed(f) ^ 0x9E37_79B9u32) as int == (p * 2_654_435_761) % 0x1_0000_0000,
        (whoosh_seed(f) ^ 0x1234_5678u32) as int == (p * 40_503) % 0x1_0000_0000,
{
    lemma_integer_part(f, u32::MAX as nat);
    let n = f.saturated(u32::MAX as nat);
    assert(n == p);
    let a: u32 = (n as u32).wrapping_mul(2_654_435_761);
    let b: u32 = (n as u32).wrapping_mul(40_503);
    assert((0x9E37_79B9u32 ^ a) ^ 0x9E37_79B9u32 == a) by (bit_vector);
    assert((0x1234_5678u32 ^ b) ^ 0x1234_5678u32 == b) by (bit_vector);
    assert(a as int == (p * 2_654_435_761) % 0x1_0000_0000);
    assert(b as int == (p * 40_503) % 0x1_0000_0000);
}

} // verus!
