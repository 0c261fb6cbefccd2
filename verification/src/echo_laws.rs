//! How a room sounds, counted against exact arithmetic: how long, at which delays and with
//! which gains, and what combs, all-passes and echoes make of a signal.

use vstd::prelude::*;
use vstd::arithmetic::power2::{pow2, lemma_pow2_adds, lemma_pow2_pos, lemma2_to64};
use crate::bounds::lemma_dec_is;
use crate::exact::lemma_dec_int;
use crate::float::{Float, dec, of_nat};
use crate::near::{abs, near, num, tiny, lemma_abs_product, lemma_add_near, lemma_commute, lemma_dec_near, lemma_extremes, lemma_int_num, lemma_integer_part, lemma_mul_near, lemma_nat_num, lemma_near_mul, lemma_neg_num, lemma_times_dec, lemma_tiny};
use crate::reverb::{allpass_delay, allpassed, comb_delay, comb_gain, comb_tuning, combed, delayed, diffuse, early_delay, echoed, padded, room_mix, room_tail, tail};

verus! {

/// Whether a room is of a size that the settings allow.
pub open spec fn a_room(rs: Float) -> bool {
    rs.finite() && 39real / 100real <= num(rs) <= 181real / 100real
}

/// A linear function of the size of a room: `a` tenths and `b` hundredths per size.
proof fn lemma_linear(a: u64, d: u64, b: u64, e: u64, rs: Float)
    requires
        a_room(rs),
        0 < a <= d <= 100,
        0 < b <= e <= 100,
    ensures
        ({
            let x = a as real / d as real + (b as real * num(rs)) / e as real;
            &&& near(dec(a, d).add(dec(b, e).mul(rs)), x, 2real / 0x10_0000real)
            &&& 0real < x <= 3real
        }),
{
    lemma_tiny();
    lemma_dec_near(a, d);
    lemma_times_dec(b, e, rs);
    let (ar, dr, br, er, r) = (a as real, d as real, b as real, e as real, num(rs));
    let (x, y) = (ar / dr, (br * r) / er);
    assert(0real < x <= 1real) by (nonlinear_arith)
        requires
            x == ar / dr,
            0real < ar <= dr,
    ;
    assert(0real < y <= 2real) by (nonlinear_arith)
        requires
            y == (br * r) / er,
            0real < br <= er,
            39real / 100real <= r <= 181real / 100real,
    ;
    lemma_add_near(dec(a, d), dec(b, e).mul(rs));
}

/// A count of samples that is cut to an integer.
proof fn lemma_cut(a: Float, x: real, e: real)
    requires
        near(a, x, e),
        0real <= e <= 1real,
        1real <= x <= 0x4_0000real,
    ensures
        x - 1real - e < a.saturated(usize::MAX as nat) as real <= x + e,
{
    lemma_integer_part(a, usize::MAX as nat);
}

/// A number of samples times a factor.
proof fn lemma_samples_times(n: nat, a: Float, x: real)
    requires
        n <= 44100,
        near(a, x, 2real / 0x10_0000real),
        0real <= x <= 3real,
    ensures
        near(of_nat(n).mul(a), n as real * x, 1real / 8real),
{
    lemma_tiny();
    lemma_nat_num(n);
    lemma_near_mul(of_nat(n), n as real, 0real, 44100real, a, x, 2real / 0x10_0000real, 4real);
}

/// A room adds 0.55 seconds times 0.5 and 0.85 times its size.
pub proof fn rooms_ring_as_long_as_they_are_large(rs: Float)
    requires
        a_room(rs),
    ensures
        ({
            let x = 24255real * (1real / 2real + 85real * num(rs) / 100real);
            x - 2real < room_tail(rs) as real <= x + 1real
        }),
{
    lemma_tiny();
    lemma_linear(5, 10, 85, 100, rs);
    let a = dec(5, 10).add(dec(85, 100).mul(rs));
    let y = 1real / 2real + 85real * num(rs) / 100real;
    assert(5real / 10real == 1real / 2real);
    lemma_times_dec(55, 100, a);
    let b = dec(55, 100).mul(a);
    lemma_samples_times(44100, b, 55real * y / 100real);
    assert(44100nat as real * (55real * y / 100real) == 24255real * y) by (nonlinear_arith);
    lemma_cut(of_nat(44100).mul(b), 24255real * y, 1real / 8real);
}

/// The delays of the combs in a room of size one over 1.2, in samples.
pub open spec fn comb_base(i: int) -> real {
    if i == 0 {
        1116real
    } else if i == 1 {
        1188real
    } else if i == 2 {
        1277real
    } else {
        1356real
    }
}

/// The gains of the combs before the size of the room is taken into account.
pub open spec fn comb_level(i: int) -> real {
    if i == 0 {
        80real / 100real
    } else if i == 1 {
        79real / 100real
    } else if i == 2 {
        81real / 100real
    } else {
        78real / 100real
    }
}

/// The combs come back after 1116, 1188, 1277 and 1356 samples times 0.7 and half the size
/// of the room, with gains of 0.80, 0.79, 0.81 and 0.78 times 0.9 and 0.07 times its size,
/// 0.93 at most.
pub proof fn combs_are_tuned_to_the_room(i: int, rs: Float)
    requires
        0 <= i < 4,
        a_room(rs),
    ensures
        ({
            let x = comb_base(i) * (7real / 10real + num(rs) / 2real);
            x - 2real < comb_delay(i, rs) as real <= x + 1real
        }),
        ({
            let g = comb_level(i) * (9real / 10real + 7real * num(rs) / 100real);
            near(
                comb_gain(i, rs),
                if g < 93real / 100real {
                    g
                } else {
                    93real / 100real
                },
                1real / 0x2_0000real,
            )
        }),
{
    lemma_tiny();
    lemma_linear(7, 10, 5, 10, rs);
    let y = 7real / 10real + num(rs) / 2real;
    let a = dec(7, 10).add(dec(5, 10).mul(rs));
    let n = comb_tuning(i).0;
    assert(n as real == comb_base(i));
    lemma_samples_times(n, a, y);
    let x = comb_base(i) * y;
    assert(1real <= x <= 5000real) by (nonlinear_arith)
        requires
            x == comb_base(i) * y,
            1116real <= comb_base(i) <= 1356real,
            7real / 10real <= y <= 2real,
    ;
    lemma_cut(of_nat(n).mul(a), x, 1real / 8real);
    lemma_linear(90, 100, 7, 100, rs);
    let b = dec(90, 100).add(dec(7, 100).mul(rs));
    let z = 9real / 10real + 7real * num(rs) / 100real;
    assert(90real / 100real == 9real / 10real);
    lemma_dec_near(80, 100);
    lemma_dec_near(79, 100);
    lemma_dec_near(81, 100);
    lemma_dec_near(78, 100);
    lemma_dec_near(93, 100);
    let l = comb_tuning(i).1;
    lemma_near_mul(l, comb_level(i), 1real / 0x80_0000real, 1real, b, z, 2real / 0x10_0000real, 2real);
    lemma_extremes(l.mul(b), dec(93, 100));
}

/// The all-passes come back after their base delay times 0.8 and 0.3 times the size of the
/// room, and the reflections after their time times 0.6 and 0.8 times its size.
pub proof fn reflections_grow_with_the_room(base: nat, thousandths: u64, rs: Float)
    requires
        100 <= base <= 1000,
        50 <= thousandths <= 200,
        a_room(rs),
    ensures
        ({
            let x = base as real * (8real / 10real + 3real * num(rs) / 10real);
            x - 2real < allpass_delay(base, rs) as real <= x + 1real
        }),
        ({
            let x = 44100real * (thousandths as real / 1000real * (6real / 10real + 8real * num(rs) / 10real));
            x - 2real < early_delay(dec(thousandths, 1000), rs) as real <= x + 1real
        }),
{
    lemma_tiny();
    lemma_linear(8, 10, 3, 10, rs);
    let a = dec(8, 10).add(dec(3, 10).mul(rs));
    let y = 8real / 10real + 3real * num(rs) / 10real;
    lemma_samples_times(base, a, y);
    let b = base as real;
    let x = b * y;
    assert(1real <= x <= 5000real) by (nonlinear_arith)
        requires
            x == b * y,
            100real <= b <= 1000real,
            8real / 10real <= y <= 2real,
    ;
    lemma_cut(of_nat(base).mul(a), x, 1real / 8real);
    lemma_linear(6, 10, 8, 10, rs);
    let c = dec(6, 10).add(dec(8, 10).mul(rs));
    let z = 6real / 10real + 8real * num(rs) / 10real;
    lemma_dec_near(thousandths, 1000);
    let t = thousandths as real / 1000real;
    let d = dec(thousandths, 1000);
    lemma_near_mul(d, t, 1real / 0x100_0000real, 1real / 2real, c, z, 2real / 0x10_0000real, 3real);
    let e = d.mul(c);
    lemma_abs_product(t, z, 2real / 10real, 21real / 10real);
    lemma_samples_times(44100, e, t * z);
    lemma_commute(e, of_nat(44100));
    let w = 44100real * (t * z);
    assert(t * z >= 3real / 100real) by (nonlinear_arith)
        requires
            t >= 5real / 100real,
            z >= 6real / 10real,
    ;
    assert(44100nat as real * (t * z) == w) by (nonlinear_arith)
        requires
            w == 44100real * (t * z),
    ;
    lemma_cut(e.mul(of_nat(44100)), w, 1real / 8real);
}

/// Whether a signal is finite and at most 1024 in size.
pub open spec fn moderate(s: Seq<Float>) -> bool {
    forall|i: int| 0 <= i < s.len() ==> (#[trigger] s[i]).finite() && abs(num(s[i])) <= 1024real
}

/// A number and a share of another.
proof fn lemma_plus_share(a: Float, g: Float, b: Float)
    requires
        a.finite() && abs(num(a)) <= 1024real,
        b.finite() && abs(num(b)) <= 1024real,
        g.finite() && abs(num(g)) <= 1real,
    ensures
        near(a.add(g.mul(b)), num(a) + num(g) * num(b), 1real / 2000real),
        near(g.mul(b).add(a), num(a) + num(g) * num(b), 1real / 2000real),
{
    lemma_tiny();
    lemma_abs_product(num(g), num(b), 1real, 1024real);
    lemma_mul_near(g, b);
    lemma_add_near(a, g.mul(b));
    lemma_add_near(g.mul(b), a);
}

/// A comb gives its input and a share of its own output some samples ago; before that, of
/// nothing.
pub proof fn combs_feed_back(x: Seq<Float>, d: nat, g: Float, n: int)
    requires
        d > 0,
        0 <= n < x.len(),
        moderate(x),
        moderate(combed(x, d, g)),
        g.finite() && abs(num(g)) <= 1real,
    ensures
        combed(x, d, g).len() == x.len(),
        n >= d ==> near(
            combed(x, d, g)[n],
            num(x[n]) + num(g) * num(combed(x, d, g)[n - d]),
            1real / 2000real,
        ),
        n < d ==> near(combed(x, d, g)[n], num(x[n]), 1real / 2000real),
{
    let v = combed(x, d, g);
    lemma_int_num(0);
    if n >= d {
        lemma_plus_share(x[n], g, v[n - d]);
    } else {
        lemma_plus_share(x[n], g, dec(0, 1));
        assert(num(g) * 0real == 0real) by (nonlinear_arith);
    }
}

/// An all-pass gives what its comb gave some samples ago, less a share of what it gives now.
pub proof fn allpasses_balance_their_comb(x: Seq<Float>, d: nat, g: Float, n: int)
    requires
        d > 0,
        0 <= n < x.len(),
        moderate(combed(x, d, g)),
        g.finite() && abs(num(g)) <= 1real,
    ensures
        allpassed(x, d, g).len() == x.len(),
        ({
            let v = combed(x, d, g);
            let back: real = if n >= d {
                num(v[n - d])
            } else {
                0real
            };
            near(allpassed(x, d, g)[n], back - num(g) * num(v[n]), 1real / 2000real)
        }),
{
    let v = combed(x, d, g);
    lemma_int_num(0);
    lemma_neg_num(g);
    assert(v[n].finite());
    if n >= d {
        assert(v[n - d].finite());
    }
    lemma_plus_share(delayed(v, d, n), g.neg(), v[n]);
    let (a, b) = (num(g), num(v[n]));
    assert((-a) * b == -(a * b)) by (nonlinear_arith);
}

/// An echo adds a share of a signal some samples later.
pub proof fn echoes_come_later(a: Seq<Float>, x: Seq<Float>, d: nat, g: Float, n: int)
    requires
        a.len() == x.len(),
        0 <= n < a.len(),
        moderate(a),
        moderate(x),
        g.finite() && abs(num(g)) <= 1real,
    ensures
        echoed(a, x, d, g).len() == a.len(),
        n < d ==> echoed(a, x, d, g)[n] == a[n],
        n >= d ==> near(echoed(a, x, d, g)[n], num(a[n]) + num(g) * num(x[n - d]), 1real / 2000real),
{
    if n >= d {
        lemma_plus_share(a[n], g, x[n - d]);
    }
}

/// The four combs are heard in equal parts.
pub proof fn combs_are_heard_in_equal_parts(x: Seq<Float>, rs: Float, n: int)
    requires
        0 <= n < x.len(),
        forall|i: int|
            0 <= i < 4 ==> moderate(#[trigger] combed(x, comb_delay(i, rs), comb_gain(i, rs))),
    ensures
        diffuse(x, rs, 4).len() == x.len(),
        near(
            diffuse(x, rs, 4)[n],
            (num(combed(x, comb_delay(0, rs), comb_gain(0, rs))[n]) + num(
                combed(x, comb_delay(1, rs), comb_gain(1, rs))[n],
            ) + num(combed(x, comb_delay(2, rs), comb_gain(2, rs))[n]) + num(
                combed(x, comb_delay(3, rs), comb_gain(3, rs))[n],
            )) / 4real,
            1real / 1000real,
        ),
{
    lemma_tiny();
    lemma_int_num(0);
    reveal_with_fuel(diffuse, 5);
    let c0 = combed(x, comb_delay(0, rs), comb_gain(0, rs));
    let c1 = combed(x, comb_delay(1, rs), comb_gain(1, rs));
    let c2 = combed(x, comb_delay(2, rs), comb_gain(2, rs));
    let c3 = combed(x, comb_delay(3, rs), comb_gain(3, rs));
    assert(moderate(c0) && moderate(c1) && moderate(c2) && moderate(c3));
    let z = dec(0, 1);
    let q = dec(25, 100);
    let (d1, d2) = (z.add(c0[n].mul(q)), z.add(c0[n].mul(q)).add(c1[n].mul(q)));
    let d3 = d2.add(c2[n].mul(q));
    lemma_quarter(z, 0real, 0real, c0[n]);
    lemma_quarter(d1, num(c0[n]) / 4real, 1real / 4000real, c1[n]);
    lemma_quarter(d2, (num(c0[n]) + num(c1[n])) / 4real, 2real / 4000real, c2[n]);
    lemma_quarter(d3, (num(c0[n]) + num(c1[n]) + num(c2[n])) / 4real, 3real / 4000real, c3[n]);
    assert(diffuse(x, rs, 1)[n] == d1);
    assert(diffuse(x, rs, 2)[n] == d2);
    assert(diffuse(x, rs, 3)[n] == d3);
}

/// A quarter of a sample more.
proof fn lemma_quarter(a: Float, x: real, e: real, b: Float)
    requires
        near(a, x, e),
        0real <= e <= 1real,
        abs(x) <= 1024real,
        b.finite() && abs(num(b)) <= 1024real,
    ensures
        near(a.add(b.mul(dec(25, 100))), x + num(b) / 4real, e + 1real / 4000real),
{
    lemma_tiny();
    lemma_times_dec(25, 100, b);
    lemma_add_near(a, b.mul(dec(25, 100)));
}

/// The tail goes through two all-passes with a gain of a half, of 556 and 441 samples before
/// the size of the room is taken into account.
pub proof fn tails_go_through_two_allpasses(x: Seq<Float>, rs: Float)
    ensures
        exists|g: Float|
            near(g, 1real / 2real, tiny()) && tail(x, rs) == #[trigger] allpassed(
                allpassed(diffuse(x, rs, 4), allpass_delay(556, rs), g),
                allpass_delay(441, rs),
                g,
            ),
{
    lemma_half_exact();
    let g = dec(5, 10);
    assert(tail(x, rs) == allpassed(
        allpassed(diffuse(x, rs, 4), allpass_delay(556, rs), g),
        allpass_delay(441, rs),
        g,
    ));
}

/// A half is held exactly.
proof fn lemma_half_exact()
    ensures
        near(dec(5, 10), 1real / 2real, tiny()),
{
    lemma_tiny();
    lemma2_to64();
    lemma_dec_is(5, 10, 24, 0x80_0000);
    lemma_pow2_adds(1, 148);
    lemma_pow2_adds(23, 125);
    lemma_dec_int(1);
    lemma_int_num(1);
    lemma_pow2_pos(125);
    let (h, p) = (dec(5, 10), pow2(149));
    assert(2 * h.value() == p) by {
        assert(p == 2 * (0x80_0000 * pow2(125)));
    }
    reveal(num);
    let (x, y) = (h.value() as real, p as real);
    assert(x / y == 1real / 2real) by (nonlinear_arith)
        requires
            2real * x == y,
            y > 0real,
    ;
}

/// A sound in a room is the dry sound, 0.9 times its tail, and three reflections of it:
/// after 71, 113 and 161 thousandths of a second in a room of size one half, with 0.45, 0.30
/// and 0.20 of its strength.
pub proof fn rooms_add_tail_and_reflections(dry: Seq<Float>, rs: Float, n: int)
    requires
        0 <= n < dry.len() + room_tail(rs),
        moderate(padded(dry, dry.len() + room_tail(rs))),
        forall|i: int|
            0 <= i < tail(padded(dry, dry.len() + room_tail(rs)), rs).len() ==> (#[trigger] tail(
                padded(dry, dry.len() + room_tail(rs)),
                rs,
            )[i]).finite() && abs(num(tail(padded(dry, dry.len() + room_tail(rs)), rs)[i])) <= 500real,
        forall|i: int| 0 <= i < dry.len() ==> abs(num(#[trigger] dry[i])) <= 100real,
    ensures
        room_mix(dry, rs).len() == dry.len() + room_tail(rs),
        ({
            let x = padded(dry, dry.len() + room_tail(rs));
            let (d1, d2, d3) = (
                early_delay(dec(71, 1000), rs),
                early_delay(dec(113, 1000), rs),
                early_delay(dec(161, 1000), rs),
            );
            near(
                room_mix(dry, rs)[n],
                num(x[n]) + 9real * num(tail(x, rs)[n]) / 10real + 45real * later(x, d1, n) / 100real
                    + 30real * later(x, d2, n) / 100real + 20real * later(x, d3, n) / 100real,
                1real / 500real,
            )
        }),
        ({
            let x = padded(dry, dry.len() + room_tail(rs));
            &&& n < dry.len() ==> x[n] == dry[n]
            &&& n >= dry.len() ==> num(x[n]) == 0real
        }),
{
    lemma_tiny();
    lemma_int_num(0);
    let x = padded(dry, dry.len() + room_tail(rs));
    let wet = tail(x, rs);
    let (d1, d2, d3) = (
        early_delay(dec(71, 1000), rs),
        early_delay(dec(113, 1000), rs),
        early_delay(dec(161, 1000), rs),
    );
    assert(wet.len() == x.len()) by {
        reveal_with_fuel(diffuse, 5);
    }
    let a = x[n].add(dec(9, 10).mul(wet[n]));
    assert(wet[n].finite());
    assert(forall|i: int| 0 <= i < x.len() ==> abs(num(#[trigger] x[i])) <= 100real);
    lemma_share_more(x[n], num(x[n]), 0real, 9, 10, wet[n]);
    let mix = Seq::new(x.len(), |n: int| x[n].add(dec(9, 10).mul(wet[n])));
    let one = echoed(mix, x, d1, dec(45, 100));
    let two = echoed(one, x, d2, dec(30, 100));
    let y0 = num(x[n]) + 9real * num(wet[n]) / 10real;
    lemma_echo_more(mix, x, d1, 45, n, y0, 1real / 3000real);
    let y1 = y0 + 45real * later(x, d1, n) / 100real;
    lemma_echo_more(one, x, d2, 30, n, y1, 2real / 3000real);
    let y2 = y1 + 30real * later(x, d2, n) / 100real;
    lemma_echo_more(two, x, d3, 20, n, y2, 3real / 3000real);
}

/// A signal some samples before, and nothing before it.
pub open spec fn later(x: Seq<Float>, d: nat, n: int) -> real {
    if n >= d {
        num(x[n - d])
    } else {
        0real
    }
}

/// A number and `k` parts in `d` of another.
proof fn lemma_share_more(a: Float, x: real, e: real, k: u64, d: u64, b: Float)
    requires
        near(a, x, e),
        0real <= e <= 1real,
        abs(x) <= 1000real,
        0 < k <= d <= 100,
        b.finite() && abs(num(b)) <= 500real,
    ensures
        near(
            a.add(dec(k, d).mul(b)),
            x + (k as real * num(b)) / d as real,
            e + 1real / 3000real,
        ),
        abs((k as real * num(b)) / d as real) <= abs(num(b)),
{
    lemma_tiny();
    lemma_times_dec(k, d, b);
    let (kr, dr, y) = (k as real, d as real, num(b));
    let q = (kr * y) / dr;
    assert(abs(q) <= abs(y)) by (nonlinear_arith)
        requires
            q == (kr * y) / dr,
            0real < kr <= dr,
    ;
    lemma_add_near(a, dec(k, d).mul(b));
}

/// An echo at one sample.
proof fn lemma_echo_more(a: Seq<Float>, x: Seq<Float>, d: nat, k: u64, n: int, y: real, e: real)
    requires
        0 <= n < a.len() == x.len(),
        near(a[n], y, e),
        0real <= e <= 1real,
        abs(y) <= 900real,
        0 < k <= 100,
        forall|i: int| 0 <= i < x.len() ==> (#[trigger] x[i]).finite() && abs(num(x[i])) <= 100real,
    ensures
        near(
            echoed(a, x, d, dec(k, 100))[n],
            y + (k as real * later(x, d, n)) / 100real,
            e + 1real / 3000real,
        ),
        abs((k as real * later(x, d, n)) / 100real) <= 100real,
{
    if n >= d {
        lemma_share_more(a[n], y, e, k, 100, x[n - d]);
    } else {
        assert((k as real * 0real) / 100real == 0real) by (nonlinear_arith);
    }
}

} // verus!
