//! The airy sweep of a ball that rushes through the bottom of its arc: noise
//! through a band-pass whose centre rises and falls.
//!
//! Sines, cosines and powers are evaluated by the caller; this module says at
//! which arguments, and puts the sound together from the results.

use vstd::prelude::*;
use crate::click::TAU;
use crate::float::{Float, fl, dec, of_nat};
use crate::noise::{noise_at, noise_gen, seed_after};
use crate::reverb::{normalize, normalized};

verus! {

/// The bits of pi.
pub const PI: u32 = 0x4049_0fdb;

/// The number of samples of a sweep.
pub open spec fn whoosh_samples() -> nat {
    of_nat(44100).mul(dec(22, 100)).saturated(usize::MAX as nat)
}

/// The number of samples of a sweep, 0.22 seconds.
pub fn whoosh_len() -> (n: usize)
    ensures
        n == whoosh_samples(),
{
    Float::of_u64(44100).mul(dec(22, 100)).to_usize()
}

/// How far through the sweep sample `i` is.
pub open spec fn progress(i: nat) -> Float {
    of_nat(i).div(of_nat(whoosh_samples()))
}

/// The angle whose sine bends the centre at sample `i`.
pub open spec fn sweep_angle(i: nat) -> Float {
    fl(TAU).mul(dec(5, 10)).mul(progress(i))
}

/// The centre of the band at sample `i`, given the sine of the sweep angle.
pub open spec fn band_centre(center: Float, sine: Float, i: nat) -> Float {
    center.mul(
        dec(1, 1).add(dec(30, 100).mul(sine)).sub(dec(15, 100).mul(progress(i))),
    ).clamp(dec(120, 1), dec(6000, 1))
}

/// The angle of the filter at sample `i`, whose sine and cosine the sweep needs.
pub open spec fn filter_angle(center: Float, sine: Float, i: nat) -> Float {
    fl(TAU).mul(band_centre(center, sine, i)).div(of_nat(44100))
}

/// The angle whose sine, to the power of 1.4, shapes the loudness at sample `i`.
pub open spec fn arc_angle(i: nat) -> Float {
    fl(PI).mul(progress(i))
}

/// The sweep angles, one per sample.
pub open spec fn all_sweep_angles() -> Seq<Float> {
    Seq::new(whoosh_samples(), |i: int| sweep_angle(i as nat))
}

/// The loudness angles, one per sample.
pub open spec fn all_arc_angles() -> Seq<Float> {
    Seq::new(whoosh_samples(), |i: int| arc_angle(i as nat))
}

/// The angles of the filter, one per sample, given the sines of the sweep angles.
pub open spec fn all_filter_angles(center: Float, sines: Seq<Float>) -> Seq<Float> {
    Seq::new(whoosh_samples(), |i: int| filter_angle(center, sines[i], i as nat))
}

/// The sweep angles, one per sample.
pub fn sweep_angles() -> (v: Vec<Float>)
    ensures
        v@ == all_sweep_angles(),
{
    let n = whoosh_len();
    let total = Float::of_usize(n);
    let half_turn = fl(TAU).mul(dec(5, 10));
    let mut v: Vec<Float> = Vec::new();
    for i in 0..n
        invariant
            total == of_nat(whoosh_samples()),
            half_turn == fl(TAU).mul(dec(5, 10)),
            v@.len() == i,
            forall|j: int| 0 <= j < i ==> #[trigger] v@[j] == sweep_angle(j as nat),
    {
        v.push(half_turn.mul(Float::of_usize(i).div(total)));
    }
    assert(v@ =~= all_sweep_angles());
    v
}

/// The loudness angles, one per sample.
pub fn arc_angles() -> (v: Vec<Float>)
    ensures
        v@ == all_arc_angles(),
{
    let n = whoosh_len();
    let total = Float::of_usize(n);
    let pi = fl(PI);
    let mut v: Vec<Float> = Vec::new();
    for i in 0..n
        invariant
            total == of_nat(whoosh_samples()),
            pi == fl(PI),
            v@.len() == i,
            forall|j: int| 0 <= j < i ==> #[trigger] v@[j] == arc_angle(j as nat),
    {
        v.push(pi.mul(Float::of_usize(i).div(total)));
    }
    assert(v@ =~= all_arc_angles());
    v
}

/// The angles of the filter, one per sample, given the sines of the sweep angles.
pub fn filter_angles(center: Float, sines: &Vec<Float>) -> (v: Vec<Float>)
    requires
        sines@.len() == whoosh_samples(),
    ensures
        v@ == all_filter_angles(center, sines@),
{
    let n = whoosh_len();
    let total = Float::of_usize(n);
    let (one, rise, fall) = (dec(1, 1), dec(30, 100), dec(15, 100));
    let (lo, hi) = (dec(120, 1), dec(6000, 1));
    let tau = fl(TAU);
    let rate = Float::of_u64(44100);
    let mut v: Vec<Float> = Vec::new();
    for i in 0..n
        invariant
            n == sines@.len(),
            total == of_nat(whoosh_samples()),
            one == dec(1, 1),
            rise == dec(30, 100),
            fall == dec(15, 100),
            lo == dec(120, 1),
            hi == dec(6000, 1),
            tau == fl(TAU),
            rate == of_nat(44100),
            v@.len() == i,
            forall|j: int|
                0 <= j < i ==> #[trigger] v@[j] == filter_angle(center, sines@[j], j as nat),
    {
        let u = Float::of_usize(i).div(total);
        let sweep = one.add(rise.mul(sines[i])).sub(fall.mul(u));
        v.push(tau.mul(center.mul(sweep).clamp(lo, hi)).div(rate));
    }
    assert(v@ =~= all_filter_angles(center, sines@));
    v
}

/// The memory of the filter: two inputs and two outputs.
#[derive(Clone, Copy, Debug)]
pub struct Memory {
    pub x1: Float,
    pub x2: Float,
    pub y1: Float,
    pub y2: Float,
}

/// The memory before the first sample.
pub open spec fn cleared() -> Memory {
    Memory { x1: dec(0, 1), x2: dec(0, 1), y1: dec(0, 1), y2: dec(0, 1) }
}

/// The output of the band-pass for the input `xn`, where `sw` and `cw` are the sine
/// and cosine of its angle.
pub open spec fn band_pass(m: Memory, xn: Float, sw: Float, cw: Float) -> Float {
    let alpha = sw.div(dec(2, 1).mul(dec(14, 10)));
    let a1 = dec(2, 1).neg().mul(cw);
    let a2 = dec(1, 1).sub(alpha);
    alpha.mul(xn).add(alpha.neg().mul(m.x2)).sub(a1.mul(m.y1)).sub(a2.mul(m.y2)).div(
        dec(1, 1).add(alpha),
    )
}

/// The memory after the first `n` samples.
pub open spec fn memory_after(seed: u32, sw: Seq<Float>, cw: Seq<Float>, n: nat) -> Memory
    decreases n,
{
    if n == 0 {
        cleared()
    } else {
        let m = memory_after(seed, sw, cw, (n - 1) as nat);
        let xn = noise_at(seed, (n - 1) as nat);
        Memory { x1: xn, x2: m.x1, y1: band_pass(m, xn, sw[n - 1], cw[n - 1]), y2: m.y1 }
    }
}

/// The seed of the noise of a sweep.
pub open spec fn whoosh_seed(center: Float) -> u32 {
    0x1234_5678u32 ^ ((center.saturated(u32::MAX as nat) as u32).wrapping_mul(40_503))
}

/// The loudness of sample `i`, given the power of its arc.
pub open spec fn envelope(power: Float, i: nat) -> Float {
    power.mul(dec(1, 1).sub(dec(25, 100).mul(progress(i))))
}

/// A sweep before it is brought to level.
pub open spec fn raw_whoosh(center: Float, sw: Seq<Float>, cw: Seq<Float>, arc: Seq<Float>) -> Seq<Float> {
    Seq::new(
        whoosh_samples(),
        |i: int|
            memory_after(whoosh_seed(center), sw, cw, (i + 1) as nat).y1.mul(
                envelope(arc[i], i as nat),
            ),
    )
}

/// A sweep around `center`, brought to level.
pub open spec fn whoosh_sound(center: Float, sw: Seq<Float>, cw: Seq<Float>, arc: Seq<Float>) -> Seq<Float> {
    normalized(raw_whoosh(center, sw, cw, arc), dec(85, 100))
}

/// A sweep around `center`. `sw` and `cw` are the sines and cosines of the angles of
/// the filter, `arc` the sines of the loudness angles to the power of 1.4.
pub fn render_whoosh(center: Float, sw: &Vec<Float>, cw: &Vec<Float>, arc: &Vec<Float>) -> (out: Vec<Float>)
    requires
        sw@.len() == whoosh_samples(),
        cw@.len() == whoosh_samples(),
        arc@.len() == whoosh_samples(),
    ensures
        out@ == whoosh_sound(center, sw@, cw@, arc@),
{
    let n = whoosh_len();
    let total = Float::of_usize(n);
    let (one, two, quarter) = (dec(1, 1), dec(2, 1), dec(25, 100));
    let minus_two = two.neg();
    let two_q = two.mul(dec(14, 10));
    let zero = dec(0, 1);
    let seed: u32 = 0x1234_5678u32 ^ center.to_u32().wrapping_mul(40_503);
    let mut noise = noise_gen(seed);
    let mut m = Memory { x1: zero, x2: zero, y1: zero, y2: zero };
    let mut out: Vec<Float> = Vec::new();
    for i in 0..n
        invariant
            n == whoosh_samples(),
            n == sw@.len() == cw@.len() == arc@.len(),
            total == of_nat(whoosh_samples()),
            one == dec(1, 1),
            two == dec(2, 1),
            quarter == dec(25, 100),
            minus_two == dec(2, 1).neg(),
            two_q == dec(2, 1).mul(dec(14, 10)),
            seed == whoosh_seed(center),
            noise.seed == seed_after(seed, i as nat),
            m == memory_after(seed, sw@, cw@, i as nat),
            out@.len() == i,
            forall|j: int|
                0 <= j < i ==> #[trigger] out@[j] == raw_whoosh(center, sw@, cw@, arc@)[j],
    {
        let u = Float::of_usize(i).div(total);
        let alpha = sw[i].div(two_q);
        let a0 = one.add(alpha);
        let a1 = minus_two.mul(cw[i]);
        let a2 = one.sub(alpha);
        let xn = noise.sample();
        let yn = alpha.mul(xn).add(alpha.neg().mul(m.x2)).sub(a1.mul(m.y1)).sub(a2.mul(m.y2)).div(a0);
        m = Memory { x1: xn, x2: m.x1, y1: yn, y2: m.y1 };
        let env = arc[i].mul(one.sub(quarter.mul(u)));
        out.push(yn.mul(env));
    }
    assert(out@ =~= raw_whoosh(center, sw@, cw@, arc@));
    normalize(&mut out, dec(85, 100));
    out
}

} // verus!
