//! The banks of sounds, by pitch and stereo position, and which of them to play.

use vstd::prelude::*;
use crate::click::SAMPLE_RATE;
use crate::cradle::ball_r;
use crate::float::{Float, fl, dec, of_nat};
use crate::wav::{data_bytes, encode_wav, header};

verus! {

/// The number of pitches of the clacks.
pub const PITCH_STEPS: usize = 12;

/// The number of stereo positions, from left to right.
pub const PAN_STEPS: usize = 5;

/// The number of pitches of the sweeps.
pub const WHOOSH_STEPS: usize = 5;

/// The bits of half pi.
pub const FRAC_PI_2: u32 = 0x3fc9_0fdb;

/// Step `i` of `steps` that divide the range from `lo` to `hi` evenly.
pub open spec fn graded(lo: Float, hi: Float, i: nat, steps: nat) -> Float {
    lo.add(hi.sub(lo).mul(of_nat(i)).div(of_nat(steps).sub(dec(1, 1))))
}

/// The base pitch of clack number `i`, from the softest to the hardest.
pub open spec fn clack_pitch_of(i: nat) -> Float {
    graded(dec(720, 1), dec(1500, 1), i, PITCH_STEPS as nat)
}

/// The centre of sweep number `i`, from the slowest to the fastest.
pub open spec fn whoosh_pitch_of(i: nat) -> Float {
    graded(dec(380, 1), dec(1100, 1), i, WHOOSH_STEPS as nat)
}

/// The base pitch of clack number `i`, from the softest to the hardest.
pub fn clack_pitch(i: usize) -> (f: Float)
    ensures
        f == clack_pitch_of(i as nat),
{
    let (lo, hi) = (dec(720, 1), dec(1500, 1));
    lo.add(hi.sub(lo).mul(Float::of_usize(i)).div(Float::of_usize(PITCH_STEPS).sub(dec(1, 1))))
}

/// The centre of sweep number `i`, from the slowest to the fastest.
pub fn whoosh_pitch(i: usize) -> (f: Float)
    ensures
        f == whoosh_pitch_of(i as nat),
{
    let (lo, hi) = (dec(380, 1), dec(1100, 1));
    lo.add(hi.sub(lo).mul(Float::of_usize(i)).div(Float::of_usize(WHOOSH_STEPS).sub(dec(1, 1))))
}

/// The stereo position number `j`, from -1 at the left to 1 at the right.
pub open spec fn pan_at(j: nat) -> Float {
    of_nat(j).div(of_nat(PAN_STEPS as nat).sub(dec(1, 1))).mul(dec(2, 1)).sub(dec(1, 1))
}

/// The stereo position number `j`, from -1 at the left to 1 at the right.
pub fn pan_position(j: usize) -> (pan: Float)
    ensures
        pan == pan_at(j as nat),
{
    Float::of_usize(j).div(Float::of_usize(PAN_STEPS).sub(dec(1, 1))).mul(dec(2, 1)).sub(dec(1, 1))
}

/// The base pitch and the stereo position of place `n` in the bank of clacks.
pub open spec fn clack_place_of(n: nat) -> (Float, Float) {
    (clack_pitch_of(n / PAN_STEPS as nat), pan_at(n % PAN_STEPS as nat))
}

/// The centre and the stereo position of place `n` in the bank of sweeps.
pub open spec fn whoosh_place_of(n: nat) -> (Float, Float) {
    (whoosh_pitch_of(n / PAN_STEPS as nat), pan_at(n % PAN_STEPS as nat))
}

/// The base pitch and the stereo position of place `n` in the bank of clacks.
pub fn clack_place(n: usize) -> (r: (Float, Float))
    requires
        n < PITCH_STEPS * PAN_STEPS,
    ensures
        r == clack_place_of(n as nat),
{
    (clack_pitch(n / PAN_STEPS), pan_position(n % PAN_STEPS))
}

/// The centre and the stereo position of place `n` in the bank of sweeps.
pub fn whoosh_place(n: usize) -> (r: (Float, Float))
    requires
        n < WHOOSH_STEPS * PAN_STEPS,
    ensures
        r == whoosh_place_of(n as nat),
{
    (whoosh_pitch(n / PAN_STEPS), pan_position(n % PAN_STEPS))
}

/// The angle of a stereo position, whose cosine and sine are the gains of the left
/// and the right channel.
#[verifier::allow_in_spec]
pub fn pan_angle(pan: Float) -> Float
    returns
        pan.clamp(dec(1, 1).neg(), dec(1, 1)).mul(dec(5, 10)).add(dec(5, 10)).mul(fl(FRAC_PI_2)),
{
    pan.clamp(dec(1, 1).neg(), dec(1, 1)).mul(dec(5, 10)).add(dec(5, 10)).mul(fl(FRAC_PI_2))
}

/// A sound on two interleaved channels with the given gains.
pub open spec fn stereo(mono: Seq<Float>, lg: Float, rg: Float) -> Seq<Float> {
    Seq::new(
        2 * mono.len(),
        |i: int|
            if i % 2 == 0 {
                mono[i / 2].mul(lg)
            } else {
                mono[i / 2].mul(rg)
            },
    )
}

/// A sound on two interleaved channels with the given gains.
pub fn pan_to_stereo(mono: &Vec<Float>, lg: Float, rg: Float) -> (out: Vec<Float>)
    ensures
        out@ == stereo(mono@, lg, rg),
{
    let n = mono.len();
    let mut out: Vec<Float> = Vec::new();
    for i in 0..n
        invariant
            n == mono@.len(),
            out@.len() == 2 * i,
            forall|j: int| 0 <= j < 2 * i ==> #[trigger] out@[j] == stereo(mono@, lg, rg)[j],
    {
        let s = mono[i];
        out.push(s.mul(lg));
        out.push(s.mul(rg));
    }
    assert(out@ =~= stereo(mono@, lg, rg));
    out
}

/// A sound as a file: sixteen bits, two channels with the given gains.
pub open spec fn stereo_file(mono: Seq<Float>, lg: Float, rg: Float) -> Seq<u8> {
    header(2 * mono.len(), SAMPLE_RATE, 2) + data_bytes(stereo(mono, lg, rg))
}

/// A sound as a file: sixteen bits, two channels with the given gains.
pub fn stereo_wav(mono: &Vec<Float>, lg: Float, rg: Float) -> (v: Vec<u8>)
    requires
        36 + 4 * mono@.len() <= u32::MAX,
    ensures
        v@ == stereo_file(mono@, lg, rg),
{
    encode_wav(&pan_to_stereo(mono, lg, rg), SAMPLE_RATE, 2)
}

/// Which of `steps` even steps is nearest to `t` between zero and one.
pub open spec fn nearest_step(t: Float, steps: nat) -> nat {
    let i = t.clamp(dec(0, 1), dec(1, 1)).mul(of_nat(steps).sub(dec(1, 1))).round().saturated(
        usize::MAX as nat,
    );
    if i > steps - 1 {
        (steps - 1) as nat
    } else {
        i
    }
}

/// Which of `steps` even steps is nearest to `t` between zero and one.
pub fn step_index(t: Float, steps: usize) -> (i: usize)
    requires
        steps > 0,
    ensures
        i == nearest_step(t, steps as nat),
        i < steps,
{
    let i = t.clamp(dec(0, 1), dec(1, 1)).mul(Float::of_usize(steps).sub(dec(1, 1))).round().to_usize();
    if i > steps - 1 {
        steps - 1
    } else {
        i
    }
}

/// The stereo position of a place on a screen of width `sw`.
pub open spec fn nearest_pan(x: Float, sw: Float, n_balls: nat) -> nat {
    nearest_step(
        x.sub(sw.mul(dec(5, 10))).div(of_nat(n_balls).mul(ball_r())).clamp(
            dec(1, 1).neg(),
            dec(1, 1),
        ).mul(dec(5, 10)).add(dec(5, 10)),
        PAN_STEPS as nat,
    )
}

/// The stereo position nearest to a place on a screen of width `sw`.
pub fn pan_index(x: Float, sw: Float, n_balls: usize) -> (i: usize)
    ensures
        i == nearest_pan(x, sw, n_balls as nat),
        i < PAN_STEPS,
{
    let span = Float::of_usize(n_balls).mul(ball_r());
    let pan = x.sub(sw.mul(dec(5, 10))).div(span).clamp(dec(1, 1).neg(), dec(1, 1));
    step_index(pan.mul(dec(5, 10)).add(dec(5, 10)), PAN_STEPS)
}

/// The master gain of a voice.
#[verifier::allow_in_spec]
pub fn gain(base: Float, volume: Float, mute: bool) -> Float
    returns
        (if mute {
            dec(0, 1)
        } else {
            base.mul(volume)
        }),
{
    if mute {
        dec(0, 1)
    } else {
        base.mul(volume)
    }
}

/// The place of a sound in a bank.
#[verifier::allow_in_spec]
pub fn bank_index(step: usize, pan: usize) -> usize
    requires
        step < PITCH_STEPS,
        pan < PAN_STEPS,
    returns
        ((step * PAN_STEPS + pan) as usize),
{
    step * PAN_STEPS + pan
}

} // verus!
