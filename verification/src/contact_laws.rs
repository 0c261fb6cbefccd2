//! When balls touch and what a meeting of two leaves, counted against exact arithmetic.

use vstd::prelude::*;
use vstd::arithmetic::power2::{pow2, lemma_pow2_adds, lemma_pow2_pos, lemma2_to64};
use crate::cradle::{Sweep, ball_r, closing, meet, touching};
use crate::exact::{lemma_dec_int, lemma_mul_exact, lemma_representable};
use crate::float::{Float, dec, lemma_signed, lemma_units_order};
use crate::hand_laws::{distances_are_square, shown, square_distance, lemma_square};
use crate::motion_laws::{approaches_are_counted, closing_speed_is_the_gap_in_velocity, exceeds};
use crate::near::{abs, near, num, tiny, lemma_add_near, lemma_compare, lemma_int_num, lemma_num_order, lemma_one_rounding, lemma_real_product, lemma_sub_near, lemma_times, lemma_times_dec, lemma_tiny};
use crate::order::{nearest_value, lemma_off_by, lemma_product, lemma_sum, lemma_value_bounded};
use crate::root::{root_magnitude, lemma_round_root};
use crate::rounding::{jammed, round_magnitude};
use crate::vector::Vec2;

verus! {

/// Every integer has a root, up to its fraction.
proof fn lemma_integer_root(n: nat) -> (r: nat)
    ensures
        r * r <= n < (r + 1) * (r + 1),
    decreases n,
{
    if n == 0 {
        assert(0 * 0 == 0 && (0 + 1) * (0 + 1) == 1) by (nonlinear_arith);
        0
    } else {
        let q = lemma_integer_root((n - 1) as nat);
        let s = q + 1;
        assert((s + 1) * (s + 1) == s * s + 2 * s + 1) by (nonlinear_arith);
        if s * s <= n {
            s
        } else {
            q
        }
    }
}

/// A root is that of an integer next to it, rounded once.
proof fn lemma_root_is_rounded(x: Float) -> (r: nat)
    requires
        x.finite(),
        x.value() > 0,
        x.value() <= 0x100_0000_0000 * pow2(149),
    ensures
        r * r <= x.value() * pow2(149) < (r + 1) * (r + 1),
        x.sqrt().finite(),
        x.sqrt().value() == nearest_value(jammed(r, r * r == x.value() * pow2(149)) as int, 1),
        jammed(r, r * r == x.value() * pow2(149)) <= 0x10_0001 * pow2(149),
{
    let p = pow2(149);
    lemma_pow2_pos(149);
    lemma2_to64();
    lemma_pow2_adds(64, 85);
    lemma_pow2_pos(85);
    assert(p >= 0x1_0000_0000_0000_0000) by {
        assert(p == 0x1_0000_0000_0000_0000 * pow2(85));
    }
    let n = x.units() * p;
    assert(n >= p) by (nonlinear_arith)
        requires
            n == x.units() * p,
            x.units() >= 1,
    ;
    let r = lemma_integer_root(n);
    assert(r >= 0x1000_0000) by {
        if r < 0x1000_0000 {
            assert((r + 1) * (r + 1) <= 0x1000_0000 * 0x1000_0000) by (nonlinear_arith)
                requires
                    r + 1 <= 0x1000_0000,
            ;
        }
    }
    let top = 0x10_0000 * p;
    assert(r <= top) by {
        assert(top * top == 0x100_0000_0000 * (p * p)) by (nonlinear_arith)
            requires
                top == 0x10_0000 * p,
        ;
        assert(n <= 0x100_0000_0000 * (p * p)) by (nonlinear_arith)
            requires
                n == x.units() * p,
                x.units() <= 0x100_0000_0000 * p,
        ;
        if r > top {
            assert(r * r > top * top) by (nonlinear_arith)
                requires
                    r > top,
                    top >= 0,
            ;
        }
    }
    lemma_round_root(n, r, 0);
    assert(n * (pow2(0) * pow2(0)) == n) by {
        assert(pow2(0) * pow2(0) == 1);
        assert(n * 1 == n);
    }
    let j = jammed(r, r * r == n);
    assert(j * 1 == j);
    lemma_pow2_adds(65, 149);
    lemma_pow2_adds(64, 1);
    assert(1 * pow2(24 + 190) == pow2(214));
    assert(j < pow2(214)) by {
        assert(pow2(214) == 0x2_0000_0000_0000_0000 * p);
    }
    lemma_off_by(j as int, 1, 190);
    let m = root_magnitude(n);
    assert(m == round_magnitude(j, 1)) by {
        if m >= 0x7f80_0000 {
            assert(round_magnitude(j, 1) == 0x7f80_0000);
        }
    }
    if m >= 0x7f80_0000 {
        lemma_units_order(m, 0x7f80_0000);
    }
    lemma_signed(false, m);
    reveal(Float::spec_sqrt);
    lemma_units_order(0, x.mag());
    r
}

/// A root is below what its square is below, and above what its square is above, up to one
/// part in `2^24`.
proof fn lemma_root_bounds(x: Float, y: real)
    requires
        x.finite(),
        0real < num(x) <= 0x80_0000_0000real,
        1real <= y <= 0x1000real,
    ensures
        x.sqrt().finite(),
        num(x) <= y * y ==> num(x.sqrt()) <= y + y / 0x80_0000real,
        num(x) >= y * y ==> num(x.sqrt()) >= y - y / 0x80_0000real,
{
    reveal(num);
    reveal(tiny);
    lemma_tiny();
    let p = pow2(149);
    lemma_pow2_pos(149);
    let (pr, xr) = (p as real, x.value() as real);
    lemma_times(xr, pr);
    lemma_times(1real, pr);
    let u = num(x);
    assert(xr > 0real && xr <= 0x100_0000_0000real * pr) by (nonlinear_arith)
        requires
            u * pr == xr,
            0real < u <= 0x80_0000_0000real,
            pr > 0real,
    ;
    let r = lemma_root_is_rounded(x);
    let j = jammed(r, r * r == x.value() * p);
    let s = x.sqrt().value();
    lemma_value_bounded(x.sqrt());
    lemma_one_rounding(j as int, 1);
    lemma_real_product(r as int, r as int);
    lemma_real_product((r + 1) as int, (r + 1) as int);
    lemma_real_product(x.value(), p as int);
    let (rr, jr, sr) = (r as real, j as real, s as real);
    let (a, b, w) = (rr / pr, jr / pr, sr / pr);
    lemma_times(rr, pr);
    lemma_times(jr, pr);
    lemma_times(sr, pr);
    let t = tiny();
    // a * a <= u < (a + t) * (a + t)
    assert(a * a <= u && u < (a + t) * (a + t)) by (nonlinear_arith)
        requires
            a * pr == rr,
            t * pr == 1real,
            u * pr == xr,
            rr * rr <= xr * pr,
            xr * pr < (rr + 1real) * (rr + 1real),
            pr > 0real,
    ;
    assert(a >= 0real) by (nonlinear_arith)
        requires
            a * pr == rr,
            rr >= 0real,
            pr > 0real,
    ;
    assert(a <= b <= a + t) by (nonlinear_arith)
        requires
            a * pr == rr,
            b * pr == jr,
            t * pr == 1real,
            rr <= jr <= rr + 1real,
            pr > 0real,
    ;
    assert(0x100_0000real * (w - b) <= b && -b <= 0x100_0000real * (w - b)) by (nonlinear_arith)
        requires
            b * pr == jr,
            w * pr == sr,
            0x100_0000real * (sr - jr) <= jr,
            -jr <= 0x100_0000real * (sr - jr),
            pr > 0real,
    ;
    if u <= y * y {
        assert(a <= y) by (nonlinear_arith)
            requires
                a * a <= y * y,
                a >= 0real,
                y >= 1real,
        ;
    }
    if u >= y * y {
        assert(a + t >= y) by (nonlinear_arith)
            requires
                (a + t) * (a + t) >= y * y,
                a + t >= 0real,
                y >= 1real,
        ;
    }
}

/// Two balls touch where their centres are 56 pixels apart or less, up to a ten thousandth
/// of a pixel.
pub proof fn balls_touch_at_one_diameter(p: Vec2, q: Vec2)
    requires
        shown(p),
        shown(q),
    ensures
        square_distance(q, p) <= 313599real / 100real ==> touching(p, q),
        square_distance(q, p) >= 313601real / 100real ==> !touching(p, q),
{
    lemma_tiny();
    lemma_int_num(0);
    distances_are_square(q, p);
    let x = q.sub(p).length_squared();
    let reach = dec(2, 1).mul(ball_r());
    lemma_diameter();
    let d = square_distance(q, p);
    lemma_dec_int(0);
    assert(0 * pow2(149) == 0);
    lemma_num_order(x, dec(0, 1));
    if num(x) <= 0real {
        lemma_not_below(q, p);
        lemma_units_order(0, x.mag());
        reveal(Float::spec_sqrt);
        lemma_compare(x, reach);
    } else if d <= 313599real / 100real {
        let y = 5599999real / 100000real;
        assert(y * y >= 313599real / 100real + 1real / 1000real) by (nonlinear_arith)
            requires
                y == 5599999real / 100000real,
        ;
        lemma_root_bounds(x, y);
        lemma_compare(x.sqrt(), reach);
    } else if d >= 313601real / 100real {
        let y = 56real + 5real / 100000real;
        assert(y * y <= 313601real / 100real - 1real / 500real) by (nonlinear_arith)
            requires
                y == 56real + 5real / 100000real,
        ;
        lemma_root_bounds(x, y);
        lemma_compare(x.sqrt(), reach);
    }
}

/// The square of a number is not below nothing.
proof fn lemma_square_not_below(a: Float)
    requires
        a.finite(),
    ensures
        a.mul(a).value() >= 0,
{
    lemma_product(a, a);
    let x = a.value();
    assert(x * x >= 0) by (nonlinear_arith);
}

/// The square of a distance is not below nothing.
proof fn lemma_not_below(q: Vec2, p: Vec2)
    requires
        shown(p),
        shown(q),
    ensures
        q.sub(p).length_squared().value() >= 0,
{
    lemma_sub_near(q.x, p.x);
    lemma_sub_near(q.y, p.y);
    let d = q.sub(p);
    lemma_square(d.x, num(q.x) - num(p.x));
    lemma_square(d.y, num(q.y) - num(p.y));
    lemma_square_not_below(d.x);
    lemma_square_not_below(d.y);
    lemma_sum(d.x.mul(d.x), d.y.mul(d.y));
}

/// The diameter of a ball.
proof fn lemma_diameter()
    ensures
        dec(2, 1).mul(ball_r()).finite(),
        num(dec(2, 1).mul(ball_r())) == 56real,
{
    lemma_dec_int(2);
    lemma_dec_int(28);
    lemma_dec_int(56);
    let u: int = pow2(149) as int;
    lemma_representable(56 * u, 56, 149);
    assert((2 * u) * (28 * u) == (56 * u) * u) by (nonlinear_arith);
    lemma_mul_exact(dec(2, 1), ball_r(), 56 * u);
    lemma_int_num(56);
    lemma_num_order(dec(2, 1).mul(ball_r()), dec(56, 1));
}

/// Whether a velocity is one that a ball can have.
pub open spec fn can_swing(w: Float) -> bool {
    w.finite() && abs(num(w)) <= 0x1_0000real
}

/// Two neighbours that touch and approach, and of which none is held, exchange their
/// velocities. Where their closing speed is the largest so far it is kept, with the point
/// between them.
pub proof fn neighbours_that_meet_exchange(places: Seq<Vec2>, dragging: Option<usize>, s: Sweep, i: int)
    requires
        0 <= i < s.omegas.len() - 1,
        s.omegas.len() == places.len(),
        shown(places[i]),
        shown(places[i + 1]),
        can_swing(s.omegas[i]),
        can_swing(s.omegas[i + 1]),
        s.impact.speed.finite(),
        square_distance(places[i + 1], places[i]) <= 313599real / 100real,
        exceeds(s.omegas[i], s.omegas[i + 1]),
        dragging is None || (dragging->0 != i && dragging->0 != i + 1),
    ensures
        ({
            let t = meet(places, dragging, s, i);
            let (p, q) = (places[i], places[i + 1]);
            let speed = 250real * (num(s.omegas[i]) - num(s.omegas[i + 1]));
            let e = speed / 0x40_0000real + tiny();
            &&& t.any
            &&& t.omegas.len() == s.omegas.len()
            &&& t.omegas[i] == s.omegas[i + 1]
            &&& t.omegas[i + 1] == s.omegas[i]
            &&& forall|j: int| 0 <= j < s.omegas.len() && j != i && j != i + 1 ==> #[trigger] t.omegas[j]
                == s.omegas[j]
            &&& num(s.impact.speed) > speed + e ==> t.impact == s.impact
            &&& num(s.impact.speed) < speed - e ==> {
                &&& near(t.impact.speed, speed, e)
                &&& near(t.impact.at.x, (num(p.x) + num(q.x)) / 2real, 1real / 20real)
                &&& near(t.impact.at.y, (num(p.y) + num(q.y)) / 2real, 1real / 20real)
            }
        }),
{
    lemma_tiny();
    let (p, q) = (places[i], places[i + 1]);
    let (w, u) = (s.omegas[i], s.omegas[i + 1]);
    balls_touch_at_one_diameter(p, q);
    approaches_are_counted(w, u);
    closing_speed_is_the_gap_in_velocity(w, u);
    lemma_compare(s.impact.speed, closing(w, u));
    lemma_middle(p.x, q.x);
    lemma_middle(p.y, q.y);
}

/// The middle between two places.
proof fn lemma_middle(a: Float, b: Float)
    requires
        a.finite(),
        b.finite(),
        abs(num(a)) <= 0x1_0000real,
        abs(num(b)) <= 0x1_0000real,
    ensures
        near(a.add(b).mul(dec(1, 2)), (num(a) + num(b)) / 2real, 1real / 20real),
{
    lemma_tiny();
    lemma_add_near(a, b);
    lemma_times_dec(1, 2, a.add(b));
}

/// Neighbours that are apart, that do not approach, or of which one is held, are left as
/// they are.
pub proof fn neighbours_that_do_not_meet_stay(places: Seq<Vec2>, dragging: Option<usize>, s: Sweep, i: int)
    requires
        0 <= i < s.omegas.len() - 1,
        s.omegas.len() == places.len(),
        shown(places[i]),
        shown(places[i + 1]),
        can_swing(s.omegas[i]),
        can_swing(s.omegas[i + 1]),
        square_distance(places[i + 1], places[i]) >= 313601real / 100real || 2500000real * (num(
            s.omegas[i],
        ) - num(s.omegas[i + 1])) <= 999999real / 1000000real || (dragging is Some && (dragging->0 == i
            || dragging->0 == i + 1)),
    ensures
        meet(places, dragging, s, i) == s,
{
    balls_touch_at_one_diameter(places[i], places[i + 1]);
    approaches_are_counted(s.omegas[i], s.omegas[i + 1]);
}

} // verus!
