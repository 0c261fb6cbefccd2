//! What holds of every row of balls.

use vstd::prelude::*;
use vstd::arithmetic::power2::{pow2, lemma_pow2_adds, lemma_pow2_pos, lemma_pow2_unfold, lemma2_to64};
use crate::bounds::{lemma_dec_at_most, lemma_dec_is, lemma_dec_order};
use crate::cradle::{Ball, Sweep, Turn, approaching, centres, closing, collides, exchanged, omegas, resolved, resting_ball, swung, ball_r, pivot_y, gravity, string_l, swept, sweep_once, touching};
use crate::exact::{representable, size, lemma_add_exact, lemma_sub_exact, lemma_mul_exact, lemma_div_exact, lemma_representable, lemma_dec_int, lemma_sqrt_exact, lemma_add_zero, lemma_sub_zero, lemma_mul_bounded, lemma_mul_zero};
use crate::float::{Float, dec, of_nat, spec_dec, lemma_difference, lemma_signed, lemma_round_exact, lemma_units_order, lemma_of_nat_exact};
use crate::order::{lemma_off_by, lemma_product, lemma_sum, lemma_value_bounded};
use crate::rounding::{round_magnitude, lemma_round_monotone, lemma_round_zero};
use crate::scene::kinetic;
use crate::session::with_omegas;
use crate::vector::Vec2;

verus! {

/// An exchange hands the same angular velocities round.
proof fn lemma_exchanged_multiset(s: Seq<Float>, i: int)
    requires
        0 <= i < s.len() - 1,
    ensures
        exchanged(s, i).to_multiset() == s.to_multiset(),
{
    broadcast use vstd::seq_lib::group_to_multiset_ensures;

    let t = s.remove(i);
    assert(exchanged(s, i) =~= t.insert(i + 1, s[i]));
    vstd::seq_lib::to_multiset_remove(s, i);
    vstd::seq_lib::to_multiset_insert(t, i + 1, s[i]);
    assert(s.contains(s[i]));
    vstd::seq_lib::to_multiset_contains(s, s[i]);
    assert(s.to_multiset().remove(s[i]).insert(s[i]) =~= s.to_multiset());
}

proof fn lemma_swept_multiset(places: Seq<Vec2>, dragging: Option<usize>, s: Sweep, k: nat)
    requires
        k <= s.omegas.len() - 1 || k == 0,
    ensures
        swept(places, dragging, s, k).omegas.len() == s.omegas.len(),
        swept(places, dragging, s, k).omegas.to_multiset() == s.omegas.to_multiset(),
    decreases k,
{
    if k > 0 {
        lemma_swept_multiset(places, dragging, s, (k - 1) as nat);
        lemma_exchanged_multiset(swept(places, dragging, s, (k - 1) as nat).omegas, k - 1);
    }
}

/// Collisions hand the same angular velocities round.
pub proof fn collisions_keep_velocities(
    places: Seq<Vec2>,
    dragging: Option<usize>,
    s: Sweep,
    passes: nat,
)
    requires
        s.omegas.len() >= 1,
    ensures
        resolved(places, dragging, s, passes).omegas.len() == s.omegas.len(),
        resolved(places, dragging, s, passes).omegas.to_multiset() == s.omegas.to_multiset(),
    decreases passes,
{
    if passes > 0 {
        let base = Sweep { any: false, ..s };
        lemma_swept_multiset(places, dragging, base, (s.omegas.len() - 1) as nat);
        let t = sweep_once(places, dragging, s);
        if t.any {
            collisions_keep_velocities(places, dragging, t, (passes - 1) as nat);
        }
    }
}

/// The sum of the velocities of a row: its momentum, up to the mass.
pub open spec fn total(omegas: Seq<Float>) -> int
    decreases omegas.len(),
{
    if omegas.len() == 0 {
        0
    } else {
        total(omegas.drop_last()) + omegas.last().value()
    }
}

/// The sum of their squares: twice its kinetic energy, up to the mass.
pub open spec fn total_squares(omegas: Seq<Float>) -> int
    decreases omegas.len(),
{
    if omegas.len() == 0 {
        0
    } else {
        total_squares(omegas.drop_last()) + omegas.last().value() * omegas.last().value()
    }
}

proof fn lemma_exchanged_totals(s: Seq<Float>, i: int)
    requires
        0 <= i < s.len() - 1,
    ensures
        total(exchanged(s, i)) == total(s),
        total_squares(exchanged(s, i)) == total_squares(s),
    decreases s.len(),
{
    let t = exchanged(s, i);
    let (a, b) = (s.drop_last(), t.drop_last());
    if i == s.len() - 2 {
        reveal_with_fuel(total, 3);
        reveal_with_fuel(total_squares, 3);
        assert(a.drop_last() =~= b.drop_last());
        assert(a.last() == s[i] && b.last() == s[i + 1]);
        assert(s.last() == s[i + 1] && t.last() == s[i]);
    } else {
        lemma_exchanged_totals(a, i);
        assert(exchanged(a, i) =~= b);
        assert(s.last() == t.last());
    }
}

proof fn lemma_swept_totals(places: Seq<Vec2>, dragging: Option<usize>, s: Sweep, k: nat)
    requires
        k <= s.omegas.len() - 1 || k == 0,
    ensures
        swept(places, dragging, s, k).omegas.len() == s.omegas.len(),
        total(swept(places, dragging, s, k).omegas) == total(s.omegas),
        total_squares(swept(places, dragging, s, k).omegas) == total_squares(s.omegas),
    decreases k,
{
    if k > 0 {
        lemma_swept_totals(places, dragging, s, (k - 1) as nat);
        lemma_exchanged_totals(swept(places, dragging, s, (k - 1) as nat).omegas, k - 1);
    }
}

/// Collisions keep the momentum and the kinetic energy of the row: as the masses are
/// equal, the sum of the velocities and the sum of their squares.
pub proof fn collisions_keep_momentum_and_energy(
    places: Seq<Vec2>,
    dragging: Option<usize>,
    s: Sweep,
    passes: nat,
)
    requires
        s.omegas.len() >= 1,
    ensures
        total(resolved(places, dragging, s, passes).omegas) == total(s.omegas),
        total_squares(resolved(places, dragging, s, passes).omegas) == total_squares(s.omegas),
    decreases passes,
{
    if passes > 0 {
        let base = Sweep { any: false, ..s };
        lemma_swept_totals(places, dragging, base, (s.omegas.len() - 1) as nat);
        let t = sweep_once(places, dragging, s);
        if t.any {
            collisions_keep_momentum_and_energy(places, dragging, t, (passes - 1) as nat);
        }
    }
}

/// The kinetic energy of one ball is no negative number.
proof fn lemma_ball_energy(omega: Float)
    requires
        omega.finite(),
    ensures
        ({
            let v = string_l().mul(omega);
            let e = dec(5, 10).mul(v).mul(v);
            !e.nan() && !e.negative()
        }),
{
    lemma_dec_int(250);
    lemma_dec_at_most(5, 10, 1);
    lemma_dec_order(1, 2, 5, 10);
    lemma_pow2_pos(149);
    lemma_pow2_pos(125);
    lemma2_to64();
    lemma_dec_is(1, 2, 24, 0x80_0000);
    let h = dec(5, 10);
    lemma_units_order(0, h.mag());
    let v = string_l().mul(omega);
    lemma_product(string_l(), omega);
    reveal(Float::spec_mul);
    let a = h.mul(v);
    if v.finite() {
        lemma_product(h, v);
        lemma_mul_bounded(h, v);
        let (m, n) = (
            round_magnitude(h.units() * v.units(), pow2(149)),
            round_magnitude(a.units() * v.units(), pow2(149)),
        );
        lemma_signed(v.negative(), m);
        lemma_signed(false, n);
    } else {
        lemma_signed(v.negative(), 0x7f80_0000);
        lemma_signed(false, 0x7f80_0000);
    }
}

/// Adding to nothing, and adding in either order.
proof fn lemma_energy_sum(a: Float, b: Float)
    requires
        !a.nan() && !a.negative(),
        !b.nan() && !b.negative(),
    ensures
        dec(0, 1).add(a) == a,
        a.add(b) == b.add(a),
{
    lemma_dec_int(0);
    assert(0 * pow2(149) == 0);
    reveal(Float::spec_add);
    lemma_units_order(0, a.mag());
    if a.finite() {
        lemma_round_exact(a.mag());
    }
}

/// When two balls exchange their velocities the kinetic energy that is shown for them
/// stays the same.
pub proof fn two_balls_keep_the_energy_shown(balls: Seq<Ball>)
    requires
        balls.len() == 2,
        balls[0].omega.finite(),
        balls[1].omega.finite(),
    ensures
        kinetic(with_omegas(balls, exchanged(omegas(balls), 0)), 2) == kinetic(balls, 2),
{
    let after = with_omegas(balls, exchanged(omegas(balls), 0));
    let (x, y) = (balls[0].omega, balls[1].omega);
    assert(after[0].omega == y && after[1].omega == x);
    let (v, w) = (string_l().mul(x), string_l().mul(y));
    let (a, b) = (dec(5, 10).mul(v).mul(v), dec(5, 10).mul(w).mul(w));
    lemma_ball_energy(x);
    lemma_ball_energy(y);
    lemma_energy_sum(a, b);
    lemma_energy_sum(b, a);
    reveal_with_fuel(kinetic, 3);
    assert(kinetic(balls, 1) == a && kinetic(after, 1) == b);
}

proof fn lemma_swept_held(places: Seq<Vec2>, d: usize, s: Sweep, k: nat)
    requires
        k <= s.omegas.len() - 1 || k == 0,
        d < s.omegas.len(),
    ensures
        swept(places, Some(d), s, k).omegas.len() == s.omegas.len(),
        swept(places, Some(d), s, k).omegas[d as int] == s.omegas[d as int],
    decreases k,
{
    if k > 0 {
        lemma_swept_held(places, d, s, (k - 1) as nat);
    }
}

/// A ball that is held takes no part in collisions.
pub proof fn held_ball_keeps_its_velocity(places: Seq<Vec2>, d: usize, s: Sweep, passes: nat)
    requires
        d < s.omegas.len(),
    ensures
        resolved(places, Some(d), s, passes).omegas.len() == s.omegas.len(),
        resolved(places, Some(d), s, passes).omegas[d as int] == s.omegas[d as int],
    decreases passes,
{
    if passes > 0 {
        lemma_swept_held(places, d, Sweep { any: false, ..s }, (s.omegas.len() - 1) as nat);
        let t = sweep_once(places, Some(d), s);
        if t.any {
            held_ball_keeps_its_velocity(places, d, t, (passes - 1) as nat);
        }
    }
}

proof fn lemma_swept_quiet(places: Seq<Vec2>, dragging: Option<usize>, s: Sweep, k: nat)
    requires
        !swept(places, dragging, s, k).any,
    ensures
        swept(places, dragging, s, k) == s,
        forall|i: int| 0 <= i < k ==> !collides(places, dragging, s.omegas, i),
    decreases k,
{
    if k > 0 {
        lemma_swept_quiet(places, dragging, s, (k - 1) as nat);
    }
}

/// Where a sweep finds nothing to do, no two neighbours touch and approach; and
/// the sweeps only stop early there.
pub proof fn quiet_sweep_leaves_no_collision(places: Seq<Vec2>, dragging: Option<usize>, s: Sweep)
    requires
        s.omegas.len() >= 1,
        !sweep_once(places, dragging, s).any,
    ensures
        sweep_once(places, dragging, s).omegas == s.omegas,
        sweep_once(places, dragging, s).impact == s.impact,
        forall|i: int|
            0 <= i < s.omegas.len() - 1 ==> !collides(places, dragging, s.omegas, i),
{
    lemma_swept_quiet(
        places,
        dragging,
        Sweep { any: false, ..s },
        (s.omegas.len() - 1) as nat,
    );
}

/// A difference turns its sign with its terms, unless it is zero or none.
proof fn lemma_difference_sign(a: Float, b: Float)
    ensures
        a.sub(b).nan() <==> b.sub(a).nan(),
        !a.sub(b).nan() && a.sub(b).mag() != 0 ==> b.sub(a).negative() != a.sub(b).negative(),
{
    if a.finite() && b.finite() {
        lemma_difference(a, b);
        lemma_difference(b, a);
        let s = a.value() - b.value();
        if s == 0 {
            lemma_signed(a.negative() && !b.negative(), 0);
            lemma_signed(b.negative() && !a.negative(), 0);
        } else {
            let r = round_magnitude(size(s), 1);
            assert(r <= 0x7f80_0000);
            lemma_signed(true, r);
            lemma_signed(false, r);
        }
    } else {
        lemma_signed(!a.negative(), a.mag());
        lemma_signed(!b.negative(), b.mag());
        reveal(Float::spec_add);
        reveal(Float::spec_neg);
    }
}

/// A difference of equal terms is zero or none.
proof fn lemma_difference_zero(a: Float)
    ensures
        a.sub(a).nan() || a.sub(a).mag() == 0,
{
    reveal(Float::spec_add);
    reveal(Float::spec_neg);
}

/// The sign of a product.
proof fn lemma_product_sign(l: Float, d: Float)
    ensures
        d.nan() ==> l.mul(d).nan(),
        !l.mul(d).nan() && d.mag() == 0 ==> l.mul(d).mag() == 0,
        !l.mul(d).nan() ==> l.mul(d).negative() == (l.negative() != d.negative()),
{
    reveal(Float::spec_mul);
    if d.mag() == 0 {
        lemma_pow2_pos(149);
        lemma_round_zero(pow2(149));
        lemma_units_order(0, 0);
        assert(l.units() * 0 == 0);
    }
}

/// An approach is faster than nothing.
proof fn lemma_approach_positive(a: Float, b: Float)
    requires
        approaching(a, b),
    ensures
        !closing(a, b).nan(),
        closing(a, b).mag() != 0,
        !closing(a, b).negative(),
{
    reveal(Float::spec_lt);
    reveal(spec_dec);
    lemma_units_order(0, closing(a, b).mag());
}

/// Balls with the same angular velocity do not approach.
proof fn lemma_not_approaching_itself(x: Float)
    ensures
        !approaching(x, x),
{
    if approaching(x, x) {
        lemma_approach_positive(x, x);
        lemma_difference_zero(x);
        lemma_product_sign(string_l(), x.sub(x));
    }
}

/// If one ball approaches the next, the next does not approach it.
proof fn lemma_approach_one_way(a: Float, b: Float)
    requires
        approaching(a, b),
    ensures
        !approaching(b, a),
{
    lemma_approach_positive(a, b);
    lemma_difference_sign(a, b);
    lemma_product_sign(string_l(), a.sub(b));
    lemma_product_sign(string_l(), b.sub(a));
    if approaching(b, a) {
        lemma_approach_positive(b, a);
    }
}

/// A row of `a` balls with velocity `w`, then `m` with `u`, then `b` with `w`.
pub open spec fn row(a: nat, m: nat, b: nat, w: Float, u: Float) -> Seq<Float> {
    Seq::new(
        a + m + b,
        |i: int|
            if a <= i < a + m {
                u
            } else {
                w
            },
    )
}

/// The same row while the last of the first balls travels through the middle.
spec fn travelling(a: nat, m: nat, b: nat, j: nat, w: Float, u: Float) -> Seq<Float> {
    Seq::new(
        a + m + b,
        |i: int|
            if a - 1 <= i < a - 1 + j || a + j <= i < a + m {
                u
            } else {
                w
            },
    )
}

/// Every two neighbours are in contact.
pub open spec fn all_touching(places: Seq<Vec2>) -> bool {
    forall|i: int| 0 <= i < places.len() - 1 ==> touching(#[trigger] places[i], places[i + 1])
}

proof fn lemma_travel(
    places: Seq<Vec2>,
    s: Sweep,
    k: nat,
    a: nat,
    m: nat,
    b: nat,
    w: Float,
    u: Float,
)
    requires
        a >= 1,
        m >= 1,
        k <= a + m + b - 1,
        places.len() == a + m + b,
        all_touching(places),
        s.omegas == row(a, m, b, w, u),
        approaching(w, u),
        !approaching(w, w),
    ensures
        ({
            let t = swept(places, None, s, k);
            let j: nat = if k < a - 1 {
                0
            } else if k <= a - 1 + m {
                (k - (a - 1)) as nat
            } else {
                m
            };
            &&& t.omegas == travelling(a, m, b, j, w, u)
            &&& j > 0 ==> t.any
        }),
    decreases k,
{
    if k == 0 {
        assert(row(a, m, b, w, u) =~= travelling(a, m, b, 0, w, u));
    } else {
        let p = (k - 1) as nat;
        lemma_travel(places, s, p, a, m, b, w, u);
        let t = swept(places, None, s, p);
        let j0: nat = if p < a - 1 {
            0
        } else if p <= a - 1 + m {
            (p - (a - 1)) as nat
        } else {
            m
        };
        assert(touching(places[p as int], places[p as int + 1]));
        if a - 1 <= p < a - 1 + m {
            assert(t.omegas[p as int] == w && t.omegas[p as int + 1] == u);
            assert(exchanged(t.omegas, p as int) =~= travelling(a, m, b, j0 + 1, w, u));
        } else {
            assert(t.omegas[p as int] == w && t.omegas[p as int + 1] == w);
        }
    }
}

proof fn lemma_at_rest_sweep(places: Seq<Vec2>, s: Sweep, k: nat, m: nat, b: nat, w: Float, u: Float)
    requires
        k <= m + b - 1 || k == 0,
        s.omegas == row(0, m, b, w, u),
        !approaching(w, w),
        !approaching(u, u),
        !approaching(u, w),
    ensures
        swept(places, None, s, k) == s,
    decreases k,
{
    if k > 0 {
        lemma_at_rest_sweep(places, s, (k - 1) as nat, m, b, w, u);
    }
}

proof fn lemma_passes(
    places: Seq<Vec2>,
    s: Sweep,
    passes: nat,
    a: nat,
    m: nat,
    b: nat,
    w: Float,
    u: Float,
)
    requires
        m >= 1,
        passes >= a,
        places.len() == a + m + b,
        all_touching(places),
        s.omegas == row(a, m, b, w, u),
        approaching(w, u),
    ensures
        resolved(places, None, s, passes).omegas == row(0, m, a + b, w, u),
    decreases a,
{
    lemma_not_approaching_itself(w);
    lemma_not_approaching_itself(u);
    lemma_approach_one_way(w, u);
    if passes > 0 {
        let base = Sweep { any: false, ..s };
        let n = (a + m + b) as nat;
        if a == 0 {
            lemma_at_rest_sweep(places, base, (n - 1) as nat, m, b, w, u);
        } else {
            lemma_travel(places, base, (n - 1) as nat, a, m, b, w, u);
            let t = sweep_once(places, None, s);
            assert(travelling(a, m, b, m, w, u) =~= row((a - 1) as nat, m, b + 1, w, u));
            assert(t.any);
            lemma_passes(places, t, (passes - 1) as nat, (a - 1) as nat, m, b + 1, w, u);
        }
    } else {
        assert(row(0, m, b, w, u) =~= row(0, m, a + b, w, u));
    }
}

/// One in, one out, and likewise any number: where all balls touch and the first
/// `arriving` come in with velocity `w` on balls with velocity `u`, as many leave
/// at the far end with `w`, and the rest have `u`.
pub proof fn as_many_out_as_in(
    places: Seq<Vec2>,
    s: Sweep,
    n: nat,
    arriving: nat,
    w: Float,
    u: Float,
)
    requires
        arriving < n,
        places.len() == n,
        all_touching(places),
        s.omegas == row(arriving, (n - arriving) as nat, 0, w, u),
        approaching(w, u),
    ensures
        resolved(places, None, s, n).omegas == row(0, (n - arriving) as nat, arriving, w, u),
{
    lemma_passes(places, s, n, arriving, (n - arriving) as nat, 0, w, u);
}

/// How far from the middle ball `i` of `n` hangs, in pixels.
pub open spec fn offset(n: nat, i: nat) -> int {
    28 * (2 * i + 1 - n)
}

/// How far from the middle ball `i` of `n` is hung.
spec fn hung_at(n: nat, i: nat) -> Float {
    of_nat(i).sub(of_nat(n).sub(dec(1, 1)).div(dec(2, 1))).mul(dec(2, 1).mul(ball_r()))
}

/// That distance comes out exactly.
proof fn lemma_hung_at(n: nat, i: nat)
    requires
        i < n <= 0x1_0000,
    ensures
        hung_at(n, i).finite(),
        hung_at(n, i).value() == offset(n, i) * pow2(149),
{
    let p: int = pow2(149) as int;
    let q: int = pow2(148) as int;
    lemma_pow2_unfold(149);
    lemma_pow2_pos(148);
    lemma_dec_int(1);
    lemma_dec_int(2);
    lemma_dec_int(28);
    lemma_of_nat_exact(n);
    lemma_of_nat_exact(i);
    // n - 1
    let a = of_nat(n);
    assert(a.value() - dec(1, 1).value() == (n - 1) * p) by (nonlinear_arith)
        requires
            a.value() == n * p,
            dec(1, 1).value() == 1 * p,
    ;
    lemma_representable((n - 1) * p, (n - 1) as nat, 149);
    lemma_sub_exact(a, dec(1, 1));
    // its half
    let b = a.sub(dec(1, 1));
    let half = (n - 1) * q;
    assert(b.value() * p == half * (2 * p)) by (nonlinear_arith)
        requires
            b.value() == (n - 1) * p,
            p == 2 * q,
            half == (n - 1) * q,
    ;
    lemma_representable(half, (n - 1) as nat, 148);
    assert(size(half) == (n - 1) as nat * pow2(148)) by {
        assert(half >= 0) by (nonlinear_arith)
            requires
                half == (n - 1) * q,
                n >= 1,
                q > 0,
        ;
    }
    lemma_div_exact(b, dec(2, 1), half);
    // the place in the row
    let c = b.div(dec(2, 1));
    let t: int = 2 * i + 1 - n;
    assert(of_nat(i).value() - c.value() == t * q) by (nonlinear_arith)
        requires
            of_nat(i).value() == i * p,
            c.value() == (n - 1) * q,
            p == 2 * q,
            t == 2 * i + 1 - n,
    ;
    lemma_size_times(t, pow2(148));
    lemma_representable(t * q, size(t), 148);
    lemma_sub_exact(of_nat(i), c);
    // the spacing
    let d = dec(2, 1).mul(ball_r());
    assert((2 * p) * (28 * p) == (56 * p) * p) by (nonlinear_arith);
    lemma_representable(56 * p, 56, 149);
    lemma_mul_exact(dec(2, 1), ball_r(), 56 * p);
    // the offset
    let e = of_nat(i).sub(c);
    let o = offset(n, i);
    assert((t * q) * (56 * p) == (o * p) * p) by (nonlinear_arith)
        requires
            p == 2 * q,
            o == 28 * t,
    ;
    lemma_size_times(o, pow2(149));
    lemma_representable(o * p, size(o), 149);
    lemma_mul_exact(e, d, o * p);
}

/// Where ball `i` of `n` hangs, if that place can be held exactly.
proof fn lemma_pivot(n: nat, screen_w: Float, i: nat)
    requires
        i < n <= 0x1_0000,
        screen_w.mul(dec(1, 2)).finite(),
        representable(screen_w.mul(dec(1, 2)).value() + offset(n, i) * pow2(149)),
    ensures
        resting_ball(n, screen_w, i).pivot_x.finite(),
        resting_ball(n, screen_w, i).pivot_x.value() == screen_w.mul(dec(1, 2)).value() + offset(n, i)
            * pow2(149),
{
    lemma_hung_at(n, i);
    lemma_add_exact(screen_w.mul(dec(1, 2)), hung_at(n, i));
}

proof fn lemma_size_times(t: int, q: nat)
    ensures
        size(t * q) == size(t) * q,
{
    assert(t >= 0 ==> t * q >= 0) by (nonlinear_arith)
        requires
            q >= 0,
    ;
    assert(t < 0 ==> t * q <= 0) by (nonlinear_arith)
        requires
            q >= 0,
    ;
    assert((-t) * q == -(t * q)) by (nonlinear_arith);
}

/// Neighbours hang exactly one diameter apart, wherever their places can be held
/// exactly.
pub proof fn neighbours_hang_one_diameter_apart(n: nat, screen_w: Float, i: nat)
    requires
        i + 1 < n <= 0x1_0000,
        screen_w.mul(dec(1, 2)).finite(),
        representable(screen_w.mul(dec(1, 2)).value() + offset(n, i) * pow2(149)),
        representable(screen_w.mul(dec(1, 2)).value() + offset(n, i + 1) * pow2(149)),
    ensures
        resting_ball(n, screen_w, i + 1).pivot_x.value() - resting_ball(n, screen_w, i).pivot_x.value()
            == 2 * ball_r().value(),
{
    lemma_pivot(n, screen_w, i);
    lemma_pivot(n, screen_w, i + 1);
    lemma_dec_int(28);
    let p = pow2(149);
    assert(offset(n, i + 1) * p - offset(n, i) * p == 56 * p) by (nonlinear_arith)
        requires
            offset(n, i + 1) == offset(n, i) + 56,
    ;
}

/// On a screen of any width neighbours hang one diameter apart up to one rounding: where
/// both places are below `2^(24 + k)` units, the distance is off by `2^k` units at most.
pub proof fn neighbours_hang_nearly_one_diameter_apart(n: nat, screen_w: Float, i: nat, k: nat)
    requires
        i + 1 < n <= 0x1_0000,
        k <= 252,
        screen_w.mul(dec(1, 2)).finite(),
        size(screen_w.mul(dec(1, 2)).value() + offset(n, i) * pow2(149)) < pow2(24 + k),
        size(screen_w.mul(dec(1, 2)).value() + offset(n, i + 1) * pow2(149)) < pow2(24 + k),
    ensures
        resting_ball(n, screen_w, i).pivot_x.finite(),
        resting_ball(n, screen_w, i + 1).pivot_x.finite(),
        -pow2(k) <= resting_ball(n, screen_w, i + 1).pivot_x.value() - resting_ball(
            n,
            screen_w,
            i,
        ).pivot_x.value() - 2 * ball_r().value() <= pow2(k),
{
    let p = pow2(149);
    let c = screen_w.mul(dec(1, 2));
    let (x, y) = (c.value() + offset(n, i) * p, c.value() + offset(n, i + 1) * p);
    lemma_hung_at(n, i);
    lemma_hung_at(n, i + 1);
    lemma_sum(c, hung_at(n, i));
    lemma_sum(c, hung_at(n, i + 1));
    assert(1 * pow2(24 + k) == pow2(24 + k) && 1 * pow2(k) == pow2(k));
    lemma_off_by(x, 1, k);
    lemma_off_by(y, 1, k);
    lemma_value_bounded(resting_ball(n, screen_w, i).pivot_x);
    lemma_value_bounded(resting_ball(n, screen_w, i + 1).pivot_x);
    lemma_dec_int(28);
    assert(offset(n, i + 1) * p - offset(n, i) * p == 56 * p) by (nonlinear_arith)
        requires
            offset(n, i + 1) == offset(n, i) + 56,
    ;
}

/// The balls of a row at rest just touch, wherever their places can be held
/// exactly. At rest the sine is zero and the cosine is one.
pub proof fn neighbours_touch_at_rest(n: nat, screen_w: Float, i: nat)
    requires
        i + 1 < n <= 0x1_0000,
        screen_w.mul(dec(1, 2)).finite(),
        representable(screen_w.mul(dec(1, 2)).value() + offset(n, i) * pow2(149)),
        representable(screen_w.mul(dec(1, 2)).value() + offset(n, i + 1) * pow2(149)),
    ensures
        touching(
            resting_ball(n, screen_w, i).pos(dec(0, 1), dec(1, 1)),
            resting_ball(n, screen_w, i + 1).pos(dec(0, 1), dec(1, 1)),
        ),
{
    let (a, b) = (resting_ball(n, screen_w, i), resting_ball(n, screen_w, i + 1));
    let (p, q) = (a.pos(dec(0, 1), dec(1, 1)), b.pos(dec(0, 1), dec(1, 1)));
    neighbours_hang_one_diameter_apart(n, screen_w, i);
    lemma_pivot(n, screen_w, i);
    lemma_pivot(n, screen_w, i + 1);
    lemma_dec_int(0);
    lemma_dec_int(1);
    lemma_dec_int(2);
    lemma_dec_int(28);
    lemma_dec_int(130);
    lemma_dec_int(250);
    let u: int = pow2(149) as int;
    lemma_pow2_pos(149);
    // across: the place of the string
    assert((250 * u) * (0 * u) == 0 * u) by (nonlinear_arith);
    assert(0 * pow2(149) == 0);
    lemma_representable(0, 0, 149);
    lemma_mul_exact(string_l(), dec(0, 1), 0);
    lemma_add_exact(a.pivot_x, string_l().mul(dec(0, 1)));
    lemma_add_exact(b.pivot_x, string_l().mul(dec(0, 1)));
    // down: the same for both
    lemma_representable(250 * u, 250, 149);
    assert((250 * u) * (1 * u) == (250 * u) * u) by (nonlinear_arith);
    lemma_mul_exact(string_l(), dec(1, 1), 250 * u);
    lemma_representable(380 * u, 380, 149);
    lemma_add_exact(pivot_y(), string_l().mul(dec(1, 1)));
    // the distance
    lemma_representable(56 * u, 56, 149);
    lemma_sub_exact(q.x, p.x);
    lemma_sub_exact(q.y, p.y);
    let d = q.sub(p);
    lemma_representable(3136 * u, 3136, 149);
    assert((56 * u) * (56 * u) == (3136 * u) * u) by (nonlinear_arith);
    lemma_mul_exact(d.x, d.x, 3136 * u);
    assert(d.y.value() * d.y.value() == 0) by (nonlinear_arith)
        requires
            d.y.value() == 0,
    ;
    lemma_mul_exact(d.y, d.y, 0);
    lemma_add_exact(d.x.mul(d.x), d.y.mul(d.y));
    lemma_sqrt_exact(d.length_squared(), (56 * u) as nat);
    assert((2 * u) * (28 * u) == (56 * u) * u) by (nonlinear_arith);
    lemma_mul_exact(dec(2, 1), ball_r(), 56 * u);
    reveal(Float::spec_le);
}

/// On a screen of a whole number of pixels the balls of a row at rest just touch. At
/// rest the sine of every angle is zero and the cosine is one.
pub proof fn row_at_rest_touches(n: nat, screen_w: Float, w: nat, balls: Seq<Ball>, turns: Seq<Turn>)
    requires
        n <= 0x1_0000,
        w <= 0x40_0000,
        screen_w.finite(),
        screen_w.value() == w * pow2(149),
        balls.len() == n,
        turns.len() == n,
        forall|i: int| 0 <= i < n ==> #[trigger] balls[i] == resting_ball(n, screen_w, i as nat),
        forall|i: int| 0 <= i < n ==> #[trigger] turns[i] == (Turn { sin: dec(0, 1), cos: dec(1, 1) }),
    ensures
        all_touching(centres(balls, turns)),
{
    let p = pow2(149);
    let h = pow2(148);
    lemma2_to64();
    lemma_pow2_adds(1, 148);
    lemma_pow2_adds(23, 125);
    lemma_pow2_pos(148);
    lemma_dec_is(1, 2, 24, 0x80_0000);
    assert(dec(1, 2).value() == h);
    let v = w * h;
    assert(screen_w.value() * dec(1, 2).value() == v * p) by (nonlinear_arith)
        requires
            screen_w.value() == w * p,
            dec(1, 2).value() == h,
            v == w * h,
    ;
    lemma_representable(v as int, w, 148);
    lemma_mul_exact(screen_w, dec(1, 2), v as int);
    assert forall|i: int| 0 <= i < n implies representable(v + #[trigger] offset(n, i as nat) * p) by {
        let t = w + 2 * offset(n, i as nat);
        assert(v + offset(n, i as nat) * p == t * h) by (nonlinear_arith)
            requires
                v == w * h,
                p == 2 * h,
                t == w + 2 * offset(n, i as nat),
        ;
        lemma_size_times(t, h);
        lemma_representable(t * h, size(t), 148);
    }
    let at = centres(balls, turns);
    assert forall|i: int| 0 <= i < n - 1 implies touching(#[trigger] at[i], at[i + 1]) by {
        assert(representable(v + offset(n, i as nat) * p));
        assert(representable(v + offset(n, (i + 1) as nat) * p));
        neighbours_touch_at_rest(n, screen_w, i as nat);
    }
}

/// The pull of gravity on a string is a finite number.
proof fn lemma_pull_finite()
    ensures
        gravity().div(string_l()).neg().finite(),
{
    reveal(Float::spec_div);
    reveal(Float::spec_neg);
    lemma_dec_int(2600);
    lemma_dec_int(250);
    lemma_dec_int(11);
    lemma_pow2_pos(149);
    let (n, d, p) = (gravity().units(), string_l().units(), pow2(149));
    lemma_units_order(0, string_l().mag());
    assert(n * p <= (11 * p) * d) by (nonlinear_arith)
        requires
            n == 2600 * p,
            d == 250 * p,
    ;
    lemma_round_monotone(n * p, d, 11 * p, 1);
    reveal(spec_dec);
    let r = round_magnitude(n * p, d);
    lemma_signed(false, round_magnitude(11 * p, 1));
    lemma_signed(false, r);
    lemma_signed(true, r);
}

/// While no time passes no ball moves.
pub proof fn no_time_no_motion(b: Ball, sin: Float, damping: Float, dt: Float)
    requires
        dt.mag() == 0,
        b.theta.finite(),
        b.omega.finite(),
        sin.units() <= pow2(149),
        damping.units() <= pow2(149),
    ensures
        swung(b, sin, damping, dt).theta.value() == b.theta.value(),
        swung(b, sin, damping, dt).omega.value() == b.omega.value(),
        swung(b, sin, damping, dt).pivot_x == b.pivot_x,
{
    let k = gravity().div(string_l()).neg();
    lemma_small_finite(sin);
    lemma_small_finite(damping);
    lemma_pull_finite();
    lemma_mul_bounded(sin, k);
    let pull = k.mul(sin);
    lemma_mul_zero(pull, dt);
    lemma_add_zero(b.omega, pull.mul(dt));
    let pulled = b.omega.add(pull.mul(dt));
    lemma_mul_bounded(damping, pulled);
    lemma_mul_zero(damping.mul(pulled), dt);
    lemma_sub_zero(pulled, damping.mul(pulled).mul(dt));
    let omega = pulled.sub(damping.mul(pulled).mul(dt));
    lemma_mul_zero(omega, dt);
    lemma_add_zero(b.theta, omega.mul(dt));
}

/// What is at most one in size is finite.
proof fn lemma_small_finite(a: Float)
    requires
        a.units() <= pow2(149),
    ensures
        a.finite(),
{
    lemma_dec_int(1);
    lemma_units_order(dec(1, 1).mag(), a.mag());
}

/// A ball that hangs straight down at rest stays there.
pub proof fn ball_at_rest_stays(b: Ball, sin: Float, damping: Float, dt: Float)
    requires
        b.theta.mag() == 0,
        b.omega.mag() == 0,
        sin.mag() == 0,
        damping.finite(),
        dt.finite(),
    ensures
        swung(b, sin, damping, dt).theta.mag() == 0,
        swung(b, sin, damping, dt).omega.mag() == 0,
        swung(b, sin, damping, dt).pivot_x == b.pivot_x,
{
    let k = gravity().div(string_l()).neg();
    lemma_pull_finite();
    lemma_mul_zero(k, sin);
    lemma_mul_zero(dt, k.mul(sin));
    let z = k.mul(sin).mul(dt);
    lemma_units_order(0, 0);
    lemma_add_zero(b.omega, z);
    let pulled = b.omega.add(z);
    lemma_units_order(0, pulled.mag());
    lemma_mul_zero(damping, pulled);
    lemma_mul_zero(dt, damping.mul(pulled));
    lemma_sub_zero(pulled, damping.mul(pulled).mul(dt));
    let omega = pulled.sub(damping.mul(pulled).mul(dt));
    lemma_units_order(0, omega.mag());
    lemma_mul_zero(dt, omega);
    lemma_add_zero(b.theta, omega.mul(dt));
    lemma_units_order(0, b.theta.add(omega.mul(dt)).mag());
}

} // verus!
