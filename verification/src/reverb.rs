//! The filters of the room: combs, all-passes, early reflections, level.

use vstd::prelude::*;
use crate::float::{Float, dec, of_nat};

verus! {

/// Sample `n` of a feedback comb: the input plus `g` times the output `d` samples
/// before.
pub open spec fn comb_at(x: Seq<Float>, d: nat, g: Float, n: nat) -> Float
    decreases n,
{
    x[n as int].add(
        g.mul(
            if n >= d && d > 0 {
                comb_at(x, d, g, (n - d) as nat)
            } else {
                dec(0, 1)
            },
        ),
    )
}

/// A signal through a feedback comb.
pub open spec fn combed(x: Seq<Float>, d: nat, g: Float) -> Seq<Float> {
    Seq::new(x.len(), |n: int| comb_at(x, d, g, n as nat))
}

/// A signal `d` samples later, with silence before.
pub open spec fn delayed(v: Seq<Float>, d: nat, n: int) -> Float {
    if n >= d {
        v[n - d]
    } else {
        dec(0, 1)
    }
}

/// A signal through an all-pass.
pub open spec fn allpassed(x: Seq<Float>, d: nat, g: Float) -> Seq<Float> {
    let v = combed(x, d, g);
    Seq::new(x.len(), |n: int| g.neg().mul(v[n]).add(delayed(v, d, n)))
}

/// A signal plus `k` times another.
pub open spec fn mixed(a: Seq<Float>, b: Seq<Float>, k: Float) -> Seq<Float> {
    Seq::new(a.len(), |n: int| a[n].add(b[n].mul(k)))
}

/// A signal plus `g` times another, `d` samples later.
pub open spec fn echoed(a: Seq<Float>, x: Seq<Float>, d: nat, g: Float) -> Seq<Float> {
    Seq::new(
        a.len(),
        |n: int|
            if n >= d {
                a[n].add(g.mul(x[n - d]))
            } else {
                a[n]
            },
    )
}

/// The largest size among the first `n` samples, and no less than 1e-6.
pub open spec fn peak(buf: Seq<Float>, n: nat) -> Float
    decreases n,
{
    if n == 0 {
        dec(1, 1000000)
    } else {
        peak(buf, (n - 1) as nat).max(buf[n - 1].abs())
    }
}

/// A signal scaled so that its peak comes to `target`.
pub open spec fn normalized(buf: Seq<Float>, target: Float) -> Seq<Float> {
    Seq::new(buf.len(), |n: int| buf[n].mul(target.div(peak(buf, buf.len()))))
}

/// Silence.
pub open spec fn silence(n: nat) -> Seq<Float> {
    Seq::new(n, |i: int| dec(0, 1))
}

/// A signal followed by silence up to `total` samples.
pub open spec fn padded(dry: Seq<Float>, total: nat) -> Seq<Float> {
    Seq::new(
        total,
        |n: int|
            if n < dry.len() {
                dry[n]
            } else {
                dec(0, 1)
            },
    )
}

/// Scales a signal so that its peak comes to `target`.
pub fn normalize(buf: &mut Vec<Float>, target: Float)
    ensures
        final(buf)@ == normalized(old(buf)@, target),
{
    let n = buf.len();
    let mut top = dec(1, 1000000);
    for i in 0..n
        invariant
            n == buf@.len(),
            buf@ == old(buf)@,
            top == peak(buf@, i as nat),
    {
        top = top.max(buf[i].abs());
    }
    let g = target.div(top);
    for i in 0..n
        invariant
            n == buf@.len() == old(buf)@.len(),
            g == target.div(peak(old(buf)@, n as nat)),
            forall|j: int| 0 <= j < i ==> #[trigger] buf@[j] == old(buf)@[j].mul(g),
            forall|j: int| i <= j < n ==> #[trigger] buf@[j] == old(buf)@[j],
    {
        let s = buf[i].mul(g);
        buf.set(i, s);
    }
    assert(buf@ =~= normalized(old(buf)@, target));
}

/// A signal through a feedback comb.
pub fn comb(x: &Vec<Float>, d: usize, g: Float) -> (buf: Vec<Float>)
    requires
        d > 0,
    ensures
        buf@ == combed(x@, d as nat, g),
{
    let n = x.len();
    let zero = dec(0, 1);
    let mut buf: Vec<Float> = Vec::new();
    for i in 0..n
        invariant
            n == x@.len(),
            d > 0,
            zero == dec(0, 1),
            buf@.len() == i,
            forall|j: int| 0 <= j < i ==> #[trigger] buf@[j] == comb_at(x@, d as nat, g, j as nat),
    {
        let fb = if i >= d { buf[i - d] } else { zero };
        buf.push(x[i].add(g.mul(fb)));
    }
    assert(buf@ =~= combed(x@, d as nat, g));
    buf
}

/// A signal through an all-pass.
pub fn allpass(x: &Vec<Float>, d: usize, g: Float) -> (out: Vec<Float>)
    requires
        d > 0,
    ensures
        out@ == allpassed(x@, d as nat, g),
{
    let n = x.len();
    let zero = dec(0, 1);
    let minus_g = g.neg();
    let v = comb(x, d, g);
    let mut out: Vec<Float> = Vec::new();
    for i in 0..n
        invariant
            n == x@.len() == v@.len(),
            zero == dec(0, 1),
            minus_g == g.neg(),
            v@ == combed(x@, d as nat, g),
            out@.len() == i,
            forall|j: int|
                0 <= j < i ==> #[trigger] out@[j] == g.neg().mul(v@[j]).add(
                    delayed(v@, d as nat, j),
                ),
    {
        let vd = if i >= d { v[i - d] } else { zero };
        out.push(minus_g.mul(v[i]).add(vd));
    }
    assert(out@ =~= allpassed(x@, d as nat, g));
    out
}

/// Adds `k` times a signal to another of the same length.
fn mix_in(a: &mut Vec<Float>, b: &Vec<Float>, k: Float)
    requires
        old(a)@.len() == b@.len(),
    ensures
        final(a)@ == mixed(old(a)@, b@, k),
{
    let n = a.len();
    for i in 0..n
        invariant
            n == a@.len() == old(a)@.len() == b@.len(),
            forall|j: int| 0 <= j < i ==> #[trigger] a@[j] == old(a)@[j].add(b@[j].mul(k)),
            forall|j: int| i <= j < n ==> #[trigger] a@[j] == old(a)@[j],
    {
        let s = a[i].add(b[i].mul(k));
        a.set(i, s);
    }
    assert(a@ =~= mixed(old(a)@, b@, k));
}

/// Adds `g` times a signal to another of the same length, `d` samples later.
fn echo(a: &mut Vec<Float>, x: &Vec<Float>, d: usize, g: Float)
    requires
        old(a)@.len() == x@.len(),
    ensures
        final(a)@ == echoed(old(a)@, x@, d as nat, g),
{
    let n = a.len();
    let mut i: usize = d;
    while i < n
        invariant
            n == a@.len() == old(a)@.len() == x@.len(),
            d <= i,
            forall|j: int| d <= j < i && j < n ==> #[trigger] a@[j] == old(a)@[j].add(g.mul(x@[j - d])),
            forall|j: int| i <= j < n || 0 <= j < d && j < n ==> #[trigger] a@[j] == old(a)@[j],
        decreases n - i,
    {
        let s = a[i].add(g.mul(x[i - d]));
        a.set(i, s);
        i = i + 1;
    }
    assert(a@ =~= echoed(old(a)@, x@, d as nat, g));
}

/// The base delays, in samples, and feedback gains of the combs.
pub open spec fn comb_tuning(i: int) -> (nat, Float) {
    if i == 0 {
        (1116, dec(80, 100))
    } else if i == 1 {
        (1188, dec(79, 100))
    } else if i == 2 {
        (1277, dec(81, 100))
    } else {
        (1356, dec(78, 100))
    }
}

/// At least one sample.
pub open spec fn at_least_one(n: nat) -> nat {
    if n < 1 {
        1
    } else {
        n
    }
}

/// The delay of comb `i` in a room of size `rs`.
pub open spec fn comb_delay(i: int, rs: Float) -> nat {
    at_least_one(
        of_nat(comb_tuning(i).0).mul(dec(7, 10).add(dec(5, 10).mul(rs))).saturated(usize::MAX as nat),
    )
}

/// The gain of comb `i` in a room of size `rs`.
pub open spec fn comb_gain(i: int, rs: Float) -> Float {
    comb_tuning(i).1.mul(dec(90, 100).add(dec(7, 100).mul(rs))).min(dec(93, 100))
}

/// The diffuse sound of the first `k` combs.
pub open spec fn diffuse(x: Seq<Float>, rs: Float, k: nat) -> Seq<Float>
    decreases k,
{
    if k == 0 {
        silence(x.len())
    } else {
        mixed(
            diffuse(x, rs, (k - 1) as nat),
            combed(x, comb_delay(k - 1, rs), comb_gain(k - 1, rs)),
            dec(25, 100),
        )
    }
}

/// The delay of an all-pass of the given base delay in a room of size `rs`.
pub open spec fn allpass_delay(base: nat, rs: Float) -> nat {
    at_least_one(
        of_nat(base).mul(dec(8, 10).add(dec(3, 10).mul(rs))).saturated(usize::MAX as nat),
    )
}

/// The diffuse tail of a sound.
pub open spec fn tail(x: Seq<Float>, rs: Float) -> Seq<Float> {
    allpassed(
        allpassed(diffuse(x, rs, 4), allpass_delay(556, rs), dec(5, 10)),
        allpass_delay(441, rs),
        dec(5, 10),
    )
}

/// The delay, in samples, of a reflection that takes `dt` seconds in a room of
/// size one.
pub open spec fn early_delay(dt: Float, rs: Float) -> nat {
    dt.mul(dec(6, 10).add(dec(8, 10).mul(rs))).mul(of_nat(44100)).saturated(usize::MAX as nat)
}

/// The number of samples that a room of size `rs` adds.
pub open spec fn room_tail(rs: Float) -> nat {
    of_nat(44100).mul(dec(55, 100).mul(dec(5, 10).add(dec(85, 100).mul(rs)))).saturated(
        usize::MAX as nat,
    )
}

/// A dry sound with the sound of a room of size `rs`, before it is brought to level.
pub open spec fn room_mix(dry: Seq<Float>, rs: Float) -> Seq<Float> {
    let x = padded(dry, dry.len() + room_tail(rs));
    let wet = tail(x, rs);
    let mix = Seq::new(x.len(), |n: int| x[n].add(dec(9, 10).mul(wet[n])));
    let one = echoed(mix, x, early_delay(dec(71, 1000), rs), dec(45, 100));
    let two = echoed(one, x, early_delay(dec(113, 1000), rs), dec(30, 100));
    echoed(two, x, early_delay(dec(161, 1000), rs), dec(20, 100))
}

/// A dry sound as it is heard in a room of size `rs`.
pub open spec fn roomed(dry: Seq<Float>, rs: Float) -> Seq<Float> {
    normalized(room_mix(dry, rs), dec(9, 10))
}

/// The base delay and gain of comb `i`.
fn comb_constants(i: usize) -> (r: (usize, Float))
    requires
        i < 4,
    ensures
        r.0 == comb_tuning(i as int).0,
        r.1 == comb_tuning(i as int).1,
{
    if i == 0 {
        (1116, dec(80, 100))
    } else if i == 1 {
        (1188, dec(79, 100))
    } else if i == 2 {
        (1277, dec(81, 100))
    } else {
        (1356, dec(78, 100))
    }
}

/// The number of samples that a room of size `rs` adds.
pub fn room_tail_len(rs: Float) -> (n: usize)
    ensures
        n == room_tail(rs),
{
    Float::of_u64(44100).mul(dec(55, 100).mul(dec(5, 10).add(dec(85, 100).mul(rs)))).to_usize()
}

/// A dry sound as it is heard in an empty room of size `rs`: early reflections and
/// a diffuse tail, brought to the level of 0.9.
pub fn reverberate(dry: &Vec<Float>, rs: Float) -> (mix: Vec<Float>)
    requires
        dry@.len() + room_tail(rs) <= usize::MAX,
    ensures
        mix@ == roomed(dry@, rs),
{
    let total: usize = dry.len() + room_tail_len(rs);
    let zero = dec(0, 1);
    let mut x: Vec<Float> = Vec::new();
    let mut wet: Vec<Float> = Vec::new();
    for i in 0..total
        invariant
            zero == dec(0, 1),
            x@.len() == i,
            wet@.len() == i,
            forall|j: int| 0 <= j < i ==> #[trigger] x@[j] == padded(dry@, total as nat)[j],
            forall|j: int| 0 <= j < i ==> #[trigger] wet@[j] == zero,
    {
        x.push(if i < dry.len() { dry[i] } else { zero });
        wet.push(zero);
    }
    assert(x@ =~= padded(dry@, total as nat));
    assert(wet@ =~= diffuse(x@, rs, 0));
    let quarter = dec(25, 100);
    for i in 0..4usize
        invariant
            total == x@.len() == wet@.len(),
            quarter == dec(25, 100),
            wet@ == diffuse(x@, rs, i as nat),
    {
        let (base, gain) = comb_constants(i);
        let d0 = Float::of_usize(base).mul(dec(7, 10).add(dec(5, 10).mul(rs))).to_usize();
        let d: usize = if d0 < 1 { 1 } else { d0 };
        let g = gain.mul(dec(90, 100).add(dec(7, 100).mul(rs))).min(dec(93, 100));
        let buf = comb(&x, d, g);
        mix_in(&mut wet, &buf, quarter);
    }
    let k = dec(8, 10).add(dec(3, 10).mul(rs));
    let a0 = Float::of_u64(556).mul(k).to_usize();
    let a: usize = if a0 < 1 { 1 } else { a0 };
    let once = allpass(&wet, a, dec(5, 10));
    let b0 = Float::of_u64(441).mul(k).to_usize();
    let b: usize = if b0 < 1 { 1 } else { b0 };
    let twice = allpass(&once, b, dec(5, 10));
    assert(twice@ == tail(x@, rs));
    let level = dec(9, 10);
    let mut mix: Vec<Float> = Vec::new();
    for i in 0..total
        invariant
            total == x@.len() == twice@.len(),
            level == dec(9, 10),
            mix@.len() == i,
            forall|j: int| 0 <= j < i ==> #[trigger] mix@[j] == x@[j].add(level.mul(twice@[j])),
    {
        mix.push(x[i].add(level.mul(twice[i])));
    }
    let ghost dry_and_wet = Seq::new(
        x@.len(),
        |n: int| x@[n].add(dec(9, 10).mul(tail(x@, rs)[n])),
    );
    assert(mix@ =~= dry_and_wet);
    let r = dec(6, 10).add(dec(8, 10).mul(rs));
    let rate = Float::of_u64(44100);
    echo(&mut mix, &x, dec(71, 1000).mul(r).mul(rate).to_usize(), dec(45, 100));
    echo(&mut mix, &x, dec(113, 1000).mul(r).mul(rate).to_usize(), dec(30, 100));
    echo(&mut mix, &x, dec(161, 1000).mul(r).mul(rate).to_usize(), dec(20, 100));
    normalize(&mut mix, dec(9, 10));
    mix
}

} // verus!
