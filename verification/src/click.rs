//! The metallic clack of two balls: four decaying partials and a burst of noise.
//!
//! Sines and exponentials are evaluated by the caller; this module says at which
//! arguments, and puts the sound together from the results.

use vstd::prelude::*;
use crate::float::{Float, fl, dec, of_nat};
use crate::noise::{noise_at, noise_gen, seed_after};
use crate::reverb::{reverberate, room_tail, roomed};

verus! {

/// The bits of twice pi.
pub const TAU: u32 = 0x40c9_0fdb;

/// The number of samples per second.
pub const SAMPLE_RATE: u32 = 44100;

/// The number of partials.
pub const PARTIALS: usize = 4;

/// One partial: its pitch relative to the base, its amplitude and its decay time.
#[derive(Clone, Copy, Debug)]
pub struct Partial {
    pub ratio: Float,
    pub amp: Float,
    pub tau: Float,
}

/// The partials of a clack.
#[verifier::allow_in_spec]
pub fn partial(k: usize) -> Partial
    requires
        k < PARTIALS,
    returns
        (if k == 0 {
            Partial { ratio: dec(1, 1), amp: dec(1, 1), tau: dec(50, 1000) }
        } else if k == 1 {
            Partial { ratio: dec(276, 100), amp: dec(60, 100), tau: dec(38, 1000) }
        } else if k == 2 {
            Partial { ratio: dec(540, 100), amp: dec(32, 100), tau: dec(26, 1000) }
        } else {
            Partial { ratio: dec(893, 100), amp: dec(16, 100), tau: dec(18, 1000) }
        }),
{
    if k == 0 {
        Partial { ratio: dec(1, 1), amp: dec(1, 1), tau: dec(50, 1000) }
    } else if k == 1 {
        Partial { ratio: dec(276, 100), amp: dec(60, 100), tau: dec(38, 1000) }
    } else if k == 2 {
        Partial { ratio: dec(540, 100), amp: dec(32, 100), tau: dec(26, 1000) }
    } else {
        Partial { ratio: dec(893, 100), amp: dec(16, 100), tau: dec(18, 1000) }
    }
}

/// The number of samples of a dry clack.
pub open spec fn click_samples() -> nat {
    of_nat(44100).mul(dec(13, 100)).saturated(usize::MAX as nat)
}

/// The number of samples of a dry clack, 0.13 seconds.
pub fn click_len() -> (n: usize)
    ensures
        n == click_samples(),
{
    Float::of_u64(44100).mul(dec(13, 100)).to_usize()
}

/// The time of sample `i`, in seconds.
pub open spec fn time_of(i: nat) -> Float {
    of_nat(i).div(of_nat(44100))
}

/// The phase of partial `k` at sample `i`, whose sine the clack needs.
pub open spec fn phase(base_freq: Float, k: usize, i: nat) -> Float {
    fl(TAU).mul(base_freq).mul(partial(k).ratio).mul(time_of(i))
}

/// The exponent of the decay with time `tau` at sample `i`.
pub open spec fn decay(tau: Float, i: nat) -> Float {
    time_of(i).neg().div(tau)
}

/// The decay time of the burst of noise.
#[verifier::allow_in_spec]
pub fn burst_tau() -> Float
    returns
        dec(18, 10000),
{
    dec(18, 10000)
}

/// The phases of partial `k`, one per sample.
pub open spec fn all_phases(base_freq: Float, k: usize) -> Seq<Float> {
    Seq::new(click_samples(), |i: int| phase(base_freq, k, i as nat))
}

/// The exponents of the decay with time `tau`, one per sample.
pub open spec fn all_decays(tau: Float) -> Seq<Float> {
    Seq::new(click_samples(), |i: int| decay(tau, i as nat))
}

/// The phases of partial `k`, one per sample.
pub fn click_phases(base_freq: Float, k: usize) -> (v: Vec<Float>)
    requires
        k < PARTIALS,
    ensures
        v@ == all_phases(base_freq, k),
{
    let n = click_len();
    let w = fl(TAU).mul(base_freq).mul(partial(k).ratio);
    let rate = Float::of_u64(44100);
    let mut v: Vec<Float> = Vec::new();
    for i in 0..n
        invariant
            w == fl(TAU).mul(base_freq).mul(partial(k).ratio),
            rate == of_nat(44100),
            v@.len() == i,
            forall|j: int| 0 <= j < i ==> #[trigger] v@[j] == phase(base_freq, k, j as nat),
    {
        v.push(w.mul(Float::of_usize(i).div(rate)));
    }
    assert(v@ =~= all_phases(base_freq, k));
    v
}

/// The exponents of the decay with time `tau`, one per sample.
pub fn click_decays(tau: Float) -> (v: Vec<Float>)
    ensures
        v@ == all_decays(tau),
{
    let n = click_len();
    let rate = Float::of_u64(44100);
    let mut v: Vec<Float> = Vec::new();
    for i in 0..n
        invariant
            rate == of_nat(44100),
            v@.len() == i,
            forall|j: int| 0 <= j < i ==> #[trigger] v@[j] == decay(tau, j as nat),
    {
        v.push(Float::of_usize(i).div(rate).neg().div(tau));
    }
    assert(v@ =~= all_decays(tau));
    v
}

/// The sines and exponentials that a clack is made of.
pub struct Waves {
    /// For each partial, the sines of its phases.
    pub sines: Vec<Vec<Float>>,
    /// For each partial, the exponentials of its decay.
    pub decays: Vec<Vec<Float>>,
    /// The exponentials of the decay of the noise.
    pub burst: Vec<Float>,
}

impl Waves {
    /// Whether there is a value for every sample.
    pub open spec fn complete(&self) -> bool {
        &&& self.sines@.len() == PARTIALS
        &&& self.decays@.len() == PARTIALS
        &&& forall|k: int| 0 <= k < PARTIALS ==> (#[trigger] self.sines@[k])@.len() == click_samples()
        &&& forall|k: int| 0 <= k < PARTIALS ==> (#[trigger] self.decays@[k])@.len() == click_samples()
        &&& self.burst@.len() == click_samples()
    }
}

/// The sum of the first `k` partials at sample `i`.
pub open spec fn tone(w: Waves, k: nat, i: int) -> Float
    decreases k,
{
    if k == 0 {
        dec(0, 1)
    } else {
        tone(w, (k - 1) as nat, i).add(
            partial((k - 1) as usize).amp.mul(w.sines@[k - 1]@[i]).mul(w.decays@[k - 1]@[i]),
        )
    }
}

/// The seed of the noise of a clack.
pub open spec fn click_seed(base_freq: Float) -> u32 {
    0x9E37_79B9u32 ^ ((base_freq.saturated(u32::MAX as nat) as u32).wrapping_mul(2_654_435_761))
}

/// Sample `i` of a dry clack.
pub open spec fn click_sample(base_freq: Float, w: Waves, i: int) -> Float {
    tone(w, PARTIALS as nat, i).add(
        noise_at(click_seed(base_freq), i as nat).mul(w.burst@[i]).mul(dec(7, 10)),
    )
}

/// A dry clack.
pub open spec fn dry_click(base_freq: Float, w: Waves) -> Seq<Float> {
    Seq::new(click_samples(), |i: int| click_sample(base_freq, w, i))
}

/// A dry clack at the given base pitch.
pub fn render_dry_click(base_freq: Float, w: &Waves) -> (out: Vec<Float>)
    requires
        w.complete(),
    ensures
        out@ == dry_click(base_freq, *w),
{
    let n = click_len();
    let seed: u32 = 0x9E37_79B9u32 ^ base_freq.to_u32().wrapping_mul(2_654_435_761);
    let mut noise = noise_gen(seed);
    let burst_level = dec(7, 10);
    let mut out: Vec<Float> = Vec::new();
    for i in 0..n
        invariant
            n == click_samples(),
            w.complete(),
            seed == click_seed(base_freq),
            noise.seed == seed_after(seed, i as nat),
            burst_level == dec(7, 10),
            out@.len() == i,
            forall|j: int| 0 <= j < i ==> #[trigger] out@[j] == click_sample(base_freq, *w, j),
    {
        let mut v = dec(0, 1);
        for k in 0..PARTIALS
            invariant
                i < n,
                n == click_samples(),
                w.complete(),
                v == tone(*w, k as nat, i as int),
        {
            assert(w.sines@[k as int]@.len() == click_samples());
            assert(w.decays@[k as int]@.len() == click_samples());
            v = v.add(partial(k).amp.mul(w.sines[k][i]).mul(w.decays[k][i]));
        }
        let hiss = noise.sample();
        out.push(v.add(hiss.mul(w.burst[i]).mul(burst_level)));
    }
    assert(out@ =~= dry_click(base_freq, *w));
    out
}

/// A clack as it is heard in a room of size `rs`.
pub fn render_room_click(base_freq: Float, w: &Waves, rs: Float) -> (mix: Vec<Float>)
    requires
        w.complete(),
        click_samples() + room_tail(rs) <= usize::MAX,
    ensures
        mix@ == roomed(dry_click(base_freq, *w), rs),
{
    let dry = render_dry_click(base_freq, w);
    reverberate(&dry, rs)
}

} // verus!
