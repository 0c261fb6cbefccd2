//! How large the sounds get on their way, and that they come out at their level.

use vstd::prelude::*;
use vstd::arithmetic::power2::{pow2, lemma_pow2_adds, lemma_pow2_pos, lemma2_to64};
use crate::bounds::{at_most, lemma_add_at_most, lemma_clamp, lemma_dec_at_most, lemma_dec_is, lemma_dec_order, lemma_mul_at_most, lemma_nan, lemma_rounded_at_most};
use crate::click::{PARTIALS, Waves, click_sample, click_samples, click_seed, dry_click, partial, tone};
use crate::config::Config;
use crate::float::{Float, dec};
use crate::noise::noise_at;
use crate::order::{lemma_negated, lemma_value_bounded};
use crate::reverb::{allpassed, comb_at, comb_gain, comb_tuning, combed, delayed, diffuse, echoed, mixed, padded, room_mix, room_tail, roomed, silence, tail, allpass_delay, comb_delay, early_delay};
use crate::sound_laws::{levelled_sounds_stay_within_full_scale, levelling_brings_the_peak_to_the_target, levels_are_below_full_scale, lemma_progress, noise_is_within_full_scale};
use crate::whoosh::{envelope, memory_after, progress, raw_whoosh, whoosh_samples, whoosh_seed, whoosh_sound};

verus! {

/// Whether every sample of a signal is finite and at most `m` in size.
pub open spec fn within(s: Seq<Float>, m: nat) -> bool {
    forall|i: int| 0 <= i < s.len() ==> at_most(#[trigger] s[i], m)
}

/// Whether the values that a clack is made of are what sines and exponentials of numbers
/// that are not positive can be: at most one in size.
pub open spec fn tame_waves(w: Waves) -> bool {
    &&& w.complete()
    &&& forall|k: int| 0 <= k < PARTIALS ==> within((#[trigger] w.sines@[k])@, 1)
    &&& forall|k: int| 0 <= k < PARTIALS ==> within((#[trigger] w.decays@[k])@, 1)
    &&& within(w.burst@, 1)
}

proof fn lemma_tone(w: Waves, k: nat, i: int)
    requires
        tame_waves(w),
        k <= PARTIALS,
        0 <= i < click_samples(),
    ensures
        at_most(tone(w, k, i), k),
    decreases k,
{
    if k == 0 {
        lemma_dec_at_most(0, 1, 0);
    } else {
        lemma_tone(w, (k - 1) as nat, i);
        let amp = partial((k - 1) as usize).amp;
        lemma_dec_at_most(1, 1, 1);
        lemma_dec_at_most(60, 100, 1);
        lemma_dec_at_most(32, 100, 1);
        lemma_dec_at_most(16, 100, 1);
        let (s, d) = (w.sines@[k - 1]@, w.decays@[k - 1]@);
        assert(within(s, 1) && within(d, 1));
        assert(s.len() == click_samples() && d.len() == click_samples());
        lemma_mul_at_most(amp, s[i], 1, 1);
        lemma_mul_at_most(amp.mul(s[i]), d[i], 1, 1);
        lemma_add_at_most(tone(w, (k - 1) as nat, i), amp.mul(s[i]).mul(d[i]), (k - 1) as nat, 1);
    }
}

/// A dry clack is at most five in size.
pub proof fn dry_clacks_are_bounded(base_freq: Float, w: Waves)
    requires
        tame_waves(w),
    ensures
        within(dry_click(base_freq, w), 5),
{
    assert forall|i: int| 0 <= i < dry_click(base_freq, w).len() implies at_most(
        #[trigger] dry_click(base_freq, w)[i],
        5,
    ) by {
        lemma_tone(w, PARTIALS as nat, i);
        let hiss = noise_at(click_seed(base_freq), i as nat);
        noise_is_within_full_scale(click_seed(base_freq), i as nat);
        lemma_dec_at_most(7, 10, 1);
        lemma_mul_at_most(hiss, w.burst@[i], 1, 1);
        lemma_mul_at_most(hiss.mul(w.burst@[i]), dec(7, 10), 1, 1);
        lemma_add_at_most(
            tone(w, PARTIALS as nat, i),
            hiss.mul(w.burst@[i]).mul(dec(7, 10)),
            4,
            1,
        );
        assert(dry_click(base_freq, w)[i] == click_sample(base_freq, w, i));
    }
}

/// Whether a feedback gain lets a sound die away.
pub open spec fn dies_away(g: Float) -> bool {
    g.finite() && 16 * g.units() <= 15 * pow2(149)
}

/// The size of what is fed back.
proof fn lemma_fed_back(g: nat, b: nat, m: nat, p: nat)
    requires
        16 * g <= 15 * p,
        b <= (16 * m) * p,
    ensures
        g * b <= (15 * m) * p * p,
{
    let (x, y) = (15 * p, (16 * m) * p);
    assert((16 * g) * b <= x * b) by (nonlinear_arith)
        requires
            16 * g <= x,
    ;
    assert(x * b <= x * y) by (nonlinear_arith)
        requires
            b <= y,
    ;
    assert(x * y == 16 * ((15 * m) * p * p)) by (nonlinear_arith)
        requires
            x == 15 * p,
            y == (16 * m) * p,
    ;
    assert((16 * g) * b == 16 * (g * b)) by (nonlinear_arith);
}

/// A comb whose feedback dies away makes a signal sixteen times as large at most.
proof fn lemma_comb(x: Seq<Float>, d: nat, g: Float, n: nat, m: nat)
    requires
        within(x, m),
        n < x.len(),
        dies_away(g),
        16 * m <= 0x100_0000,
    ensures
        at_most(comb_at(x, d, g, n), 16 * m),
    decreases n,
{
    let p = pow2(149);
    lemma_pow2_pos(149);
    let back = if n >= d && d > 0 {
        comb_at(x, d, g, (n - d) as nat)
    } else {
        dec(0, 1)
    };
    if n >= d && d > 0 {
        lemma_comb(x, d, g, (n - d) as nat, m);
    } else {
        lemma_dec_at_most(0, 1, 16 * m);
    }
    let (gu, bu) = (g.units(), back.units());
    lemma_fed_back(gu, bu, m, p);
    lemma_rounded_at_most(g.negative() != back.negative(), gu * bu, p, 15 * m);
    assert(at_most(g.mul(back), 15 * m)) by {
        reveal(Float::spec_mul);
    }
    assert(at_most(x[n as int], m));
    lemma_add_at_most(x[n as int], g.mul(back), m, 15 * m);
}

proof fn lemma_combed(x: Seq<Float>, d: nat, g: Float, m: nat)
    requires
        within(x, m),
        dies_away(g),
        16 * m <= 0x100_0000,
    ensures
        combed(x, d, g).len() == x.len(),
        within(combed(x, d, g), 16 * m),
{
    assert forall|i: int| 0 <= i < combed(x, d, g).len() implies at_most(
        #[trigger] combed(x, d, g)[i],
        16 * m,
    ) by {
        lemma_comb(x, d, g, i as nat, m);
    }
}

proof fn lemma_allpassed(x: Seq<Float>, d: nat, m: nat)
    requires
        within(x, m),
        32 * m <= 0x100_0000,
    ensures
        allpassed(x, d, dec(5, 10)).len() == x.len(),
        within(allpassed(x, d, dec(5, 10)), 32 * m),
{
    let g = dec(5, 10);
    let v = combed(x, d, g);
    lemma_half();
    lemma_combed(x, d, g, m);
    lemma_negated(g);
    lemma_dec_at_most(5, 10, 1);
    assert forall|n: int| 0 <= n < x.len() implies at_most(#[trigger] allpassed(x, d, g)[n], 32 * m) by {
        let back = delayed(v, d, n);
        lemma_dec_at_most(0, 1, 16 * m);
        assert(at_most(v[n], 16 * m));
        if n >= d {
            assert(at_most(v[n - d], 16 * m));
        }
        assert(g.neg().units() == g.units());
        lemma_mul_at_most(g.neg(), v[n], 1, 16 * m);
        lemma_add_at_most(g.neg().mul(v[n]), back, 16 * m, 16 * m);
    }
}

proof fn lemma_half()
    ensures
        dies_away(dec(5, 10)),
{
    lemma_pow2_pos(149);
    lemma_dec_order(5, 10, 15, 16);
    lemma_fifteen_sixteenths();
}

proof fn lemma_fifteen_sixteenths()
    ensures
        16 * dec(15, 16).value() == 15 * pow2(149),
{
    lemma2_to64();
    lemma_dec_is(15, 16, 24, 15728640);
    lemma_pow2_adds(24, 125);
}

/// In a room of an allowed size the feedback of every comb dies away.
pub proof fn feedback_dies_away(c: Config, i: int)
    requires
        c.clamped() == c,
    ensures
        dies_away(comb_gain(i, c.room)),
{
    let rs = c.room;
    let most = dec(93, 100);
    lemma_dec_order(93, 100, 15, 16);
    lemma_dec_at_most(93, 100, 1);
    lemma_fifteen_sixteenths();
    lemma_dec_order(4, 10, 18, 10);
    lemma_dec_at_most(4, 10, 1);
    lemma_clamp(rs, dec(4, 10), dec(18, 10));
    lemma_dec_at_most(90, 100, 1);
    lemma_dec_at_most(7, 100, 1);
    lemma_dec_at_most(18, 10, 2);
    lemma_dec_at_most(80, 100, 1);
    lemma_dec_at_most(79, 100, 1);
    lemma_dec_at_most(81, 100, 1);
    lemma_dec_at_most(78, 100, 1);
    lemma_dec_order(0, 1, 4, 10);
    let a = dec(7, 100).mul(rs);
    let b = dec(90, 100).add(a);
    let base = comb_tuning(i).1;
    let g = base.mul(b);
    reveal(Float::spec_lt);
    if rs.nan() {
        lemma_nan(dec(7, 100), rs);
        lemma_nan(dec(90, 100), a);
        lemma_nan(base, b);
    } else {
        lemma_four_tenths();
        assert(!rs.negative());
        assert(at_most(rs, 2));
        lemma_mul_at_most(dec(7, 100), rs, 1, 2);
        lemma_add_at_most(dec(90, 100), a, 1, 2);
        lemma_mul_at_most(base, b, 1, 3);
        lemma_value_bounded(g);
    }
}

/// Four tenths is more than nothing.
proof fn lemma_four_tenths()
    ensures
        dec(4, 10).value() > 0,
{
    lemma2_to64();
    lemma_pow2_pos(124);
    lemma_dec_is(4, 10, 25, 13421773);
}

proof fn lemma_diffuse(x: Seq<Float>, c: Config, k: nat, m: nat)
    requires
        c.clamped() == c,
        within(x, m),
        k <= 4,
        64 * m <= 0x100_0000,
    ensures
        diffuse(x, c.room, k).len() == x.len(),
        within(diffuse(x, c.room, k), 16 * m * k),
    decreases k,
{
    let rs = c.room;
    if k == 0 {
        lemma_dec_at_most(0, 1, 0);
        assert forall|i: int| 0 <= i < x.len() implies at_most(#[trigger] silence(x.len())[i], 0) by {}
        assert(16 * m * 0 == 0);
    } else {
        let j = (k - 1) as nat;
        lemma_diffuse(x, c, j, m);
        feedback_dies_away(c, j as int);
        let v = combed(x, comb_delay(j as int, rs), comb_gain(j as int, rs));
        lemma_combed(x, comb_delay(j as int, rs), comb_gain(j as int, rs), m);
        lemma_dec_at_most(25, 100, 1);
        let d = diffuse(x, rs, j);
        let b = 16 * m * j;
        assert(b + 16 * m == 16 * m * k && 16 * m * k <= 64 * m) by (nonlinear_arith)
            requires
                b == 16 * m * j,
                k == j + 1,
                k <= 4,
        ;
        assert forall|i: int| 0 <= i < x.len() implies at_most(
            #[trigger] mixed(d, v, dec(25, 100))[i],
            16 * m * k,
        ) by {
            assert(at_most(d[i], b) && at_most(v[i], 16 * m));
            lemma_mul_at_most(v[i], dec(25, 100), 16 * m, 1);
            lemma_add_at_most(d[i], v[i].mul(dec(25, 100)), b, 16 * m);
        }
    }
}

proof fn lemma_echoed(a: Seq<Float>, x: Seq<Float>, d: nat, g: Float, m: nat, n: nat)
    requires
        a.len() == x.len(),
        within(a, n),
        within(x, m),
        at_most(g, 1),
        m + n <= 0x100_0000,
    ensures
        within(echoed(a, x, d, g), m + n),
{
    assert forall|i: int| 0 <= i < a.len() implies at_most(#[trigger] echoed(a, x, d, g)[i], m + n) by {
        assert(at_most(a[i], n));
        assert(n * pow2(149) <= (m + n) * pow2(149)) by (nonlinear_arith);
        if i >= d {
            assert(at_most(x[i - d], m));
            lemma_mul_at_most(g, x[i - d], 1, m);
            lemma_add_at_most(a[i], g.mul(x[i - d]), n, m);
        }
    }
}

/// A bounded sound stays bounded in a room of an allowed size.
pub proof fn rooms_keep_sounds_bounded(dry: Seq<Float>, c: Config)
    requires
        c.clamped() == c,
        within(dry, 5),
    ensures
        room_mix(dry, c.room).len() == dry.len() + room_tail(c.room),
        within(room_mix(dry, c.room), 327700),
{
    let rs = c.room;
    let x = padded(dry, dry.len() + room_tail(rs));
    lemma_dec_at_most(0, 1, 5);
    assert(within(x, 5)) by {
        assert forall|i: int| 0 <= i < x.len() implies at_most(#[trigger] x[i], 5) by {
            if i < dry.len() {
                assert(at_most(dry[i], 5));
            }
        }
    }
    lemma_diffuse(x, c, 4, 5);
    let d = diffuse(x, rs, 4);
    lemma_allpassed(d, allpass_delay(556, rs), 320);
    let once = allpassed(d, allpass_delay(556, rs), dec(5, 10));
    lemma_allpassed(once, allpass_delay(441, rs), 10240);
    let wet = tail(x, rs);
    let mix = Seq::new(x.len(), |n: int| x[n].add(dec(9, 10).mul(wet[n])));
    lemma_dec_at_most(9, 10, 1);
    lemma_dec_at_most(45, 100, 1);
    lemma_dec_at_most(30, 100, 1);
    lemma_dec_at_most(20, 100, 1);
    assert(within(mix, 327685)) by {
        assert forall|n: int| 0 <= n < mix.len() implies at_most(#[trigger] mix[n], 327685) by {
            assert(at_most(x[n], 5) && at_most(wet[n], 327680));
            lemma_mul_at_most(dec(9, 10), wet[n], 1, 327680);
            lemma_add_at_most(x[n], dec(9, 10).mul(wet[n]), 5, 327680);
        }
    }
    let one = echoed(mix, x, early_delay(dec(71, 1000), rs), dec(45, 100));
    lemma_echoed(mix, x, early_delay(dec(71, 1000), rs), dec(45, 100), 5, 327685);
    let two = echoed(one, x, early_delay(dec(113, 1000), rs), dec(30, 100));
    lemma_echoed(one, x, early_delay(dec(113, 1000), rs), dec(30, 100), 5, 327690);
    lemma_echoed(two, x, early_delay(dec(161, 1000), rs), dec(20, 100), 5, 327695);
}

/// A clack in a room of an allowed size is finite before it is brought to level, and
/// within full scale afterwards.
pub proof fn clacks_stay_within_full_scale(c: Config, base_freq: Float, w: Waves)
    requires
        c.clamped() == c,
        tame_waves(w),
    ensures
        forall|i: int|
            0 <= i < room_mix(dry_click(base_freq, w), c.room).len() ==> (
            #[trigger] room_mix(dry_click(base_freq, w), c.room)[i]).finite(),
        within(roomed(dry_click(base_freq, w), c.room), 1),
{
    let dry = dry_click(base_freq, w);
    let mix = room_mix(dry, c.room);
    dry_clacks_are_bounded(base_freq, w);
    rooms_keep_sounds_bounded(dry, c);
    levels_are_below_full_scale();
    assert forall|i: int| 0 <= i < mix.len() implies (#[trigger] mix[i]).finite() by {
        assert(at_most(mix[i], 327700));
    }
    levelled_sounds_stay_within_full_scale(mix, dec(9, 10));
}

/// The loudest sample of a clack comes out at the level of 0.9, up to a millionth, and
/// stays the loudest.
pub proof fn clacks_reach_their_level(c: Config, base_freq: Float, w: Waves, j: int)
    requires
        c.clamped() == c,
        tame_waves(w),
        0 <= j < room_mix(dry_click(base_freq, w), c.room).len(),
        forall|i: int|
            0 <= i < room_mix(dry_click(base_freq, w), c.room).len() ==> (
            #[trigger] room_mix(dry_click(base_freq, w), c.room)[i]).units() <= room_mix(
                dry_click(base_freq, w),
                c.room,
            )[j].units(),
        dec(1, 1000000).le(room_mix(dry_click(base_freq, w), c.room)[j].abs()),
    ensures
        ({
            let out = roomed(dry_click(base_freq, w), c.room);
            &&& out[j].finite()
            &&& 0xf_ffff * dec(9, 10).units() <= 0x10_0000 * out[j].units() <= 0x10_0001 * dec(
                9,
                10,
            ).units()
            &&& forall|i: int| 0 <= i < out.len() ==> (#[trigger] out[i]).units() <= out[j].units()
        }),
{
    clacks_stay_within_full_scale(c, base_freq, w);
    lemma_dec_order(5, 10, 9, 10);
    lemma_dec_order(9, 10, 1, 1);
    reveal(Float::spec_le);
    levelling_brings_the_peak_to_the_target(
        room_mix(dry_click(base_freq, w), c.room),
        dec(9, 10),
        j,
    );
}

/// A sweep whose filter stays bounded, shaped by powers that are at most one, is bounded.
proof fn lemma_sweep(center: Float, sw: Seq<Float>, cw: Seq<Float>, arc: Seq<Float>)
    requires
        arc.len() == whoosh_samples(),
        within(arc, 1),
        forall|n: nat|
            n <= whoosh_samples() ==> at_most(
                (#[trigger] memory_after(whoosh_seed(center), sw, cw, n)).y1,
                0x10_0000,
            ),
    ensures
        raw_whoosh(center, sw, cw, arc).len() == whoosh_samples(),
        within(raw_whoosh(center, sw, cw, arc), 0x20_0000),
{
    let raw = raw_whoosh(center, sw, cw, arc);
    lemma_dec_at_most(1, 1, 1);
    lemma_dec_at_most(25, 100, 1);
    assert forall|i: int| 0 <= i < raw.len() implies at_most(#[trigger] raw[i], 0x20_0000) by {
        let y = memory_after(whoosh_seed(center), sw, cw, (i + 1) as nat).y1;
        lemma_progress(i as nat);
        let u = progress(i as nat);
        lemma_value_bounded(u);
        let q = dec(25, 100).mul(u);
        lemma_mul_at_most(dec(25, 100), u, 1, 1);
        lemma_negated(q);
        lemma_add_at_most(dec(1, 1), q.neg(), 1, 1);
        assert(at_most(arc[i], 1));
        lemma_mul_at_most(arc[i], dec(1, 1).sub(q), 1, 2);
        lemma_mul_at_most(y, envelope(arc[i], i as nat), 0x10_0000, 2);
    }
}

/// A sweep whose filter stays bounded is within full scale once it is brought to level,
/// and its loudest sample comes out at 0.85, up to a millionth.
pub proof fn sweeps_reach_their_level(
    center: Float,
    sw: Seq<Float>,
    cw: Seq<Float>,
    arc: Seq<Float>,
    j: int,
)
    requires
        arc.len() == whoosh_samples(),
        within(arc, 1),
        forall|n: nat|
            n <= whoosh_samples() ==> at_most(
                (#[trigger] memory_after(whoosh_seed(center), sw, cw, n)).y1,
                0x10_0000,
            ),
        0 <= j < whoosh_samples(),
        forall|i: int|
            0 <= i < whoosh_samples() ==> (#[trigger] raw_whoosh(center, sw, cw, arc)[i]).units()
                <= raw_whoosh(center, sw, cw, arc)[j].units(),
        dec(1, 1000000).le(raw_whoosh(center, sw, cw, arc)[j].abs()),
    ensures
        ({
            let out = whoosh_sound(center, sw, cw, arc);
            &&& within(out, 1)
            &&& 0xf_ffff * dec(85, 100).units() <= 0x10_0000 * out[j].units() <= 0x10_0001 * dec(
                85,
                100,
            ).units()
            &&& forall|i: int| 0 <= i < out.len() ==> (#[trigger] out[i]).units() <= out[j].units()
        }),
{
    let raw = raw_whoosh(center, sw, cw, arc);
    lemma_sweep(center, sw, cw, arc);
    assert forall|i: int| 0 <= i < raw.len() implies (#[trigger] raw[i]).finite() by {
        assert(at_most(raw[i], 0x20_0000));
    }
    levels_are_below_full_scale();
    levelled_sounds_stay_within_full_scale(raw, dec(85, 100));
    lemma_dec_order(5, 10, 85, 100);
    lemma_dec_order(85, 100, 1, 1);
    reveal(Float::spec_le);
    levelling_brings_the_peak_to_the_target(raw, dec(85, 100), j);
}

} // verus!
