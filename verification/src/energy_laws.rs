//! What the readout measures, counted against exact arithmetic: kinetic and potential
//! energy and momentum of a row of balls of mass one.

use vstd::prelude::*;
use crate::cradle::{Ball, Turn, gravity, string_l};
use crate::float::{Float, dec};
use crate::near::{abs, near, num, tiny, lemma_abs_product, lemma_add_near, lemma_int_num, lemma_le_times, lemma_mul_near, lemma_sub_near, lemma_times_dec, lemma_tiny};
use crate::scene::{kinetic, momentum, potential};

verus! {

/// One part in `2^40`.
spec fn speckle() -> real {
    1real / 0x100_0000_0000real
}

/// One more term in a sum.
proof fn lemma_sum_step(acc: Float, a: real, b: real, w: real, k: real, term: Float, t: real, m: real)
    requires
        near(acc, a, (16real * b + 2real * w) / 0x100_0000real + 2real * k * speckle()),
        near(term, t, 16real * abs(t) / 0x100_0000real + speckle()),
        abs(a) <= b,
        b + abs(t) <= m,
        0real <= w <= 7real * m,
        0real <= k <= 7real,
        m <= 0x100_0000_0000real,
    ensures
        near(
            acc.add(term),
            a + t,
            (16real * (b + abs(t)) + 2real * (w + m)) / 0x100_0000real + 2real * (k + 1real) * speckle(),
        ),
        abs(a + t) <= b + abs(t),
{
    let s = speckle();
    assert(2real * k * s == 2real * (k * s)) by (nonlinear_arith);
    assert(2real * (k + 1real) * s == 2real * (k * s) + 2real * s) by (nonlinear_arith);
    lemma_le_times(k, 7real, s);
    lemma_le_times(0real, k, s);
    assert(0real * s == 0real) by (nonlinear_arith);
    lemma_add_near(acc, term);
}

/// The square of the speed of a ball, halved.
proof fn lemma_kinetic_term(omega: Float)
    requires
        omega.finite(),
        abs(num(omega)) <= 64real,
    ensures
        ({
            let v = string_l().mul(omega);
            let t = 31250real * (num(omega) * num(omega));
            &&& near(dec(5, 10).mul(v).mul(v), t, 16real * abs(t) / 0x100_0000real + speckle())
            &&& 0real <= t <= 128000000real
        }),
{
    lemma_tiny();
    let o = num(omega);
    let x = 250real * o;
    lemma_times_dec(250, 1, omega);
    let v = string_l().mul(omega);
    lemma_times_dec(5, 10, v);
    let h = dec(5, 10).mul(v);
    let (y, z, m, t) = (num(v), num(h), abs(x), tiny());
    let e = m / 0x3f_0000real + 2real * t;
    let top = 11real * m / 10real + 2real * t;
    lemma_abs_product(z - x / 2real, y, e, top);
    lemma_abs_product(x / 2real, y - x, m / 2real, e);
    assert((z - x / 2real) * y + (x / 2real) * (y - x) == z * y - (x * x) / 2real) by (nonlinear_arith);
    let (q, r, u) = (o * o, m * m, m * t);
    assert(r == 62500real * q && x * x == 62500real * q) by (nonlinear_arith)
        requires
            x == 250real * o,
            q == o * o,
            r == m * m,
            m == x || m == -x,
    ;
    assert(q >= 0real && q <= 4096real) by (nonlinear_arith)
        requires
            q == o * o,
            -64real <= o <= 64real,
    ;
    lemma_le_times(m, 16000real, t);
    lemma_le_times(0real, m, t);
    assert(0real * t == 0real) by (nonlinear_arith);
    lemma_le_times(t, 1real, t);
    assert(e * top == 11real * r / 10real / 0x3f_0000real + 2real * u / 0x3f_0000real + 22real * u / 10real
        + 4real * (t * t)) by (nonlinear_arith)
        requires
            e == m / 0x3f_0000real + 2real * t,
            top == 11real * m / 10real + 2real * t,
            r == m * m,
            u == m * t,
    ;
    assert((m / 2real) * e == r / 2real / 0x3f_0000real + u) by (nonlinear_arith)
        requires
            e == m / 0x3f_0000real + 2real * t,
            r == m * m,
            u == m * t,
    ;
    lemma_mul_near(h, v);
}

/// The kinetic energy of the first `n` balls: half the square of 250 times the angular
/// velocity for each.
pub open spec fn exact_kinetic(balls: Seq<Ball>, n: nat) -> real
    decreases n,
{
    if n == 0 {
        0real
    } else {
        exact_kinetic(balls, (n - 1) as nat) + 31250real * (num(balls[n - 1].omega) * num(balls[n - 1].omega))
    }
}

/// Whether a ball swings as one can.
pub open spec fn swings(b: Ball) -> bool {
    b.omega.finite() && abs(num(b.omega)) <= 64real
}

/// Whether these are the sine and the cosine of an angle.
pub open spec fn turns_to(t: Turn) -> bool {
    t.cos.finite() && abs(num(t.cos)) <= 1real
}

proof fn lemma_kinetic(balls: Seq<Ball>, n: nat, m: real)
    requires
        n <= 7,
        n <= balls.len(),
        forall|i: int| 0 <= i < n ==> swings(#[trigger] balls[i]),
        exact_kinetic(balls, n) <= m <= 0x4000_0000real,
    ensures
        near(
            kinetic(balls, n),
            exact_kinetic(balls, n),
            (16real * exact_kinetic(balls, n) + 2real * (n as real * m)) / 0x100_0000real + 2real * n as real
                * speckle(),
        ),
        0real <= exact_kinetic(balls, n),
    decreases n,
{
    if n == 0 {
        lemma_int_num(0);
        assert(0real * m == 0real && 2real * 0real * speckle() == 0real) by (nonlinear_arith);
    } else {
        let k = (n - 1) as nat;
        let b = balls[n - 1];
        assert(swings(b));
        lemma_kinetic_term(b.omega);
        lemma_kinetic(balls, k, m);
        let v = string_l().mul(b.omega);
        let t = 31250real * (num(b.omega) * num(b.omega));
        let w = k as real * m;
        assert(n as real * m == w + m) by (nonlinear_arith)
            requires
                w == k as real * m,
                n as real == k as real + 1real,
        ;
        lemma_le_times(k as real, 7real, m);
        lemma_le_times(0real, k as real, m);
        assert(0real * m == 0real) by (nonlinear_arith);
        lemma_sum_step(
            kinetic(balls, k),
            exact_kinetic(balls, k),
            exact_kinetic(balls, k),
            w,
            k as real,
            dec(5, 10).mul(v).mul(v),
            t,
            m,
        );
    }
}

/// The kinetic energy of a row is measured to a millionth or two.
pub proof fn kinetic_energy_is_measured(balls: Seq<Ball>, n: nat)
    requires
        n <= 7,
        n <= balls.len(),
        forall|i: int| 0 <= i < n ==> swings(#[trigger] balls[i]),
        exact_kinetic(balls, n) <= 0x4000_0000real,
    ensures
        near(
            kinetic(balls, n),
            exact_kinetic(balls, n),
            exact_kinetic(balls, n) / 0x8_0000real + 1real / 0x4000_0000real,
        ),
{
    let m = exact_kinetic(balls, n);
    lemma_kinetic_not_negative(balls, n);
    lemma_kinetic(balls, n, m);
    lemma_spread(n, m);
}

proof fn lemma_kinetic_not_negative(balls: Seq<Ball>, n: nat)
    ensures
        0real <= exact_kinetic(balls, n),
    decreases n,
{
    if n > 0 {
        lemma_kinetic_not_negative(balls, (n - 1) as nat);
        let o = num(balls[n - 1].omega);
        assert(o * o >= 0real) by (nonlinear_arith);
    }
}

/// What the errors of at most seven terms come to.
proof fn lemma_spread(n: nat, m: real)
    requires
        n <= 7,
        m >= 0real,
    ensures
        0real <= n as real * m <= 7real * m,
        0real <= 2real * n as real * speckle() <= 14real * speckle(),
{
    lemma_le_times(n as real, 7real, m);
    lemma_le_times(0real, n as real, m);
    assert(0real * m == 0real) by (nonlinear_arith);
    let (s, x) = (speckle(), n as real);
    assert(2real * x * s <= 14real * s && 0real <= 2real * x * s) by (nonlinear_arith)
        requires
            0real <= x <= 7real,
            s >= 0real,
    ;
}

/// The height of a ball times its weight.
proof fn lemma_potential_term(cos: Float)
    requires
        cos.finite(),
        abs(num(cos)) <= 1real,
    ensures
        ({
            let t = 650000real * (1real - num(cos));
            &&& near(
                gravity().mul(string_l()).mul(dec(1, 1).sub(cos)),
                t,
                16real * abs(t) / 0x100_0000real + speckle(),
            )
            &&& 0real <= t <= 1300000real
        }),
{
    lemma_tiny();
    lemma_int_num(1);
    lemma_int_num(250);
    lemma_times_dec(2600, 1, string_l());
    let g = gravity().mul(string_l());
    let d = dec(1, 1).sub(cos);
    lemma_sub_near(dec(1, 1), cos);
    let (x, y, z) = (num(g), num(d), 1real - num(cos));
    lemma_abs_product(x, y, 650001real, 3real);
    lemma_mul_near(g, d);
    let e = z / 0x100_0000real;
    let f = 650000real / 0x40_0000real + tiny();
    lemma_abs_product(x - 650000real, y, f, 11real * z / 10real);
    assert((x - 650000real) * y == x * y - 650000real * y) by (nonlinear_arith);
    let t = tiny();
    assert(f * (11real * z / 10real) == 650000real * (11real * z / 10real) / 0x40_0000real + t * (11real * z
        / 10real)) by (nonlinear_arith)
        requires
            f == 650000real / 0x40_0000real + t,
    ;
    lemma_le_times(11real * z / 10real, 3real, t);
}

/// The potential energy of the first `n` balls: 650000, gravity times the length of a string,
/// for each that is a string's length up.
pub open spec fn exact_potential(turns: Seq<Turn>, n: nat) -> real
    decreases n,
{
    if n == 0 {
        0real
    } else {
        exact_potential(turns, (n - 1) as nat) + 650000real * (1real - num(turns[n - 1].cos))
    }
}

proof fn lemma_potential(turns: Seq<Turn>, n: nat, m: real)
    requires
        n <= 7,
        n <= turns.len(),
        forall|i: int| 0 <= i < n ==> turns_to(#[trigger] turns[i]),
        exact_potential(turns, n) <= m <= 0x4000_0000real,
    ensures
        near(
            potential(turns, n),
            exact_potential(turns, n),
            (16real * exact_potential(turns, n) + 2real * (n as real * m)) / 0x100_0000real + 2real
                * n as real * speckle(),
        ),
        0real <= exact_potential(turns, n) <= 1300000real * n as real,
    decreases n,
{
    if n == 0 {
        lemma_int_num(0);
        assert(0real * m == 0real && 2real * 0real * speckle() == 0real) by (nonlinear_arith);
    } else {
        let k = (n - 1) as nat;
        let c = turns[n - 1];
        assert(turns_to(c));
        lemma_potential_term(c.cos);
        lemma_potential(turns, k, m);
        let t = 650000real * (1real - num(c.cos));
        let w = k as real * m;
        assert(n as real * m == w + m) by (nonlinear_arith)
            requires
                w == k as real * m,
                n as real == k as real + 1real,
        ;
        lemma_le_times(k as real, 7real, m);
        lemma_le_times(0real, k as real, m);
        assert(0real * m == 0real) by (nonlinear_arith);
        lemma_sum_step(
            potential(turns, k),
            exact_potential(turns, k),
            exact_potential(turns, k),
            w,
            k as real,
            gravity().mul(string_l()).mul(dec(1, 1).sub(c.cos)),
            t,
            m,
        );
    }
}

/// The potential energy of a row is measured to a millionth or two.
pub proof fn potential_energy_is_measured(turns: Seq<Turn>, n: nat)
    requires
        n <= 7,
        n <= turns.len(),
        forall|i: int| 0 <= i < n ==> turns_to(#[trigger] turns[i]),
    ensures
        near(
            potential(turns, n),
            exact_potential(turns, n),
            exact_potential(turns, n) / 0x8_0000real + 1real / 0x4000_0000real,
        ),
        0real <= exact_potential(turns, n) <= 1300000real * n as real,
{
    lemma_potential_range(turns, n);
    let m = exact_potential(turns, n);
    lemma_potential(turns, n, m);
    lemma_spread(n, m);
}

proof fn lemma_potential_range(turns: Seq<Turn>, n: nat)
    requires
        n <= turns.len(),
        forall|i: int| 0 <= i < n ==> turns_to(#[trigger] turns[i]),
    ensures
        0real <= exact_potential(turns, n) <= 1300000real * n as real,
    decreases n,
{
    if n > 0 {
        lemma_potential_range(turns, (n - 1) as nat);
        assert(turns_to(turns[n - 1]));
    }
}

/// What one ball adds to the momentum.
proof fn lemma_momentum_term(omega: Float, cos: Float)
    requires
        omega.finite(),
        abs(num(omega)) <= 64real,
        cos.finite(),
        abs(num(cos)) <= 1real,
    ensures
        ({
            let t = 250real * (num(omega) * num(cos));
            &&& near(string_l().mul(omega).mul(cos), t, 16real * abs(t) / 0x100_0000real + speckle())
            &&& abs(t) <= 16000real
        }),
{
    lemma_tiny();
    lemma_times_dec(250, 1, omega);
    let v = string_l().mul(omega);
    let (o, c, y) = (num(omega), num(cos), num(v));
    let x = 250real * o;
    let m = abs(x);
    let t = tiny();
    let (e, ac) = (m / 0x40_0000real + t, abs(c));
    lemma_abs_product(y, c, 2real * m + t, 1real);
    lemma_mul_near(v, cos);
    lemma_abs_product(y - x, c, e, ac);
    assert((y - x) * c == y * c - 250real * (o * c)) by (nonlinear_arith)
        requires
            x == 250real * o,
    ;
    lemma_abs_product(x, c, m, ac);
    lemma_abs_product(o, c, 64real, 1real);
    let q = m * ac;
    assert(x * c == 250real * (o * c)) by (nonlinear_arith)
        requires
            x == 250real * o,
    ;
    assert(e * ac == q / 0x40_0000real + t * ac) by (nonlinear_arith)
        requires
            e == m / 0x40_0000real + t,
            q == m * ac,
    ;
    lemma_le_times(ac, 1real, t);
}

/// The horizontal momentum of the first `n` balls: 250 times the angular velocity times the
/// cosine for each.
pub open spec fn exact_momentum(balls: Seq<Ball>, turns: Seq<Turn>, n: nat) -> real
    decreases n,
{
    if n == 0 {
        0real
    } else {
        exact_momentum(balls, turns, (n - 1) as nat) + 250real * (num(balls[n - 1].omega) * num(
            turns[n - 1].cos,
        ))
    }
}

proof fn lemma_momentum(balls: Seq<Ball>, turns: Seq<Turn>, n: nat)
    requires
        n <= 7,
        n <= balls.len(),
        n <= turns.len(),
        forall|i: int| 0 <= i < n ==> swings(#[trigger] balls[i]),
        forall|i: int| 0 <= i < n ==> turns_to(#[trigger] turns[i]),
    ensures
        ({
            let b = 16000real * n as real;
            &&& near(
                momentum(balls, turns, n),
                exact_momentum(balls, turns, n),
                (16real * b + 2real * (n as real * 112000real)) / 0x100_0000real + 2real * n as real * speckle(),
            )
            &&& abs(exact_momentum(balls, turns, n)) <= b
        }),
    decreases n,
{
    if n == 0 {
        lemma_int_num(0);
        assert(2real * 0real * speckle() == 0real) by (nonlinear_arith);
    } else {
        let k = (n - 1) as nat;
        assert(swings(balls[n - 1]) && turns_to(turns[n - 1]));
        lemma_momentum_term(balls[n - 1].omega, turns[n - 1].cos);
        lemma_momentum(balls, turns, k);
        let t = 250real * (num(balls[n - 1].omega) * num(turns[n - 1].cos));
        lemma_sum_step(
            momentum(balls, turns, k),
            exact_momentum(balls, turns, k),
            16000real * k as real,
            k as real * 112000real,
            k as real,
            string_l().mul(balls[n - 1].omega).mul(turns[n - 1].cos),
            t,
            112000real,
        );
    }
}

/// The momentum of a row is measured to a quarter.
pub proof fn momentum_is_measured(balls: Seq<Ball>, turns: Seq<Turn>, n: nat)
    requires
        n <= 7,
        n <= balls.len(),
        n <= turns.len(),
        forall|i: int| 0 <= i < n ==> swings(#[trigger] balls[i]),
        forall|i: int| 0 <= i < n ==> turns_to(#[trigger] turns[i]),
    ensures
        near(momentum(balls, turns, n), exact_momentum(balls, turns, n), 1real / 4real),
        abs(exact_momentum(balls, turns, n)) <= 16000real * n as real,
{
    lemma_momentum(balls, turns, n);
    lemma_spread(n, 112000real);
}

} // verus!
