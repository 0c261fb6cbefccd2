//! How close results are to what exact arithmetic would give.

use vstd::prelude::*;
use vstd::arithmetic::power2::{pow2, lemma_pow2_adds, lemma_pow2_pos, lemma2_to64};
use crate::exact::{size, lemma_dec_int};
use crate::float::{Float, dec, fl, magnitude_units, of_nat, spec_dec, lemma_fits, lemma_of_nat_exact, lemma_signed, lemma_units_order};
use crate::order::{beyond, nearest_value, lemma_negated, lemma_off_by, lemma_product, lemma_quotient, lemma_relative, lemma_sum, lemma_value_bounded};
use crate::rounding::round_magnitude;

verus! {

/// What a number stands for.
#[verifier::opaque]
pub open spec fn num(a: Float) -> real {
    a.value() as real / pow2(149) as real
}

/// The size of a real number.
pub open spec fn abs(x: real) -> real {
    if x < 0real {
        -x
    } else {
        x
    }
}

/// Whether a number is finite and within `e` of `x`.
pub open spec fn near(a: Float, x: real, e: real) -> bool {
    a.finite() && x - e <= num(a) <= x + e
}

/// The smallest number above nothing.
#[verifier::opaque]
pub open spec fn tiny() -> real {
    1real / pow2(149) as real
}

/// One rounding, counted in units.
pub proof fn lemma_one_rounding(n: int, d: nat)
    requires
        d > 0,
        -beyond() < nearest_value(n, d) < beyond(),
    ensures
        -(size(n) + d * 0x80_0000) <= 0x100_0000 * (nearest_value(n, d) * d - n) <= size(n) + d
            * 0x80_0000,
        d == 1 ==> -size(n) <= 0x100_0000 * (nearest_value(n, d) - n) <= size(n),
{
    let v = nearest_value(n, d);
    lemma2_to64();
    if size(n) < d * 0x100_0000 {
        assert(pow2(24 + 0) == 0x100_0000);
        lemma_off_by(n, d, 0);
        assert(d * pow2(0) == d);
        assert(v * d == v || d != 1) by (nonlinear_arith);
    } else {
        let m = round_magnitude(size(n), d);
        if m >= 0x7f80_0000 {
            lemma_units_order(m, 0x7f80_0000);
        }
        lemma_relative(size(n), d);
        let u = magnitude_units(m);
        assert((-(u as int)) * d == -(u * d)) by (nonlinear_arith);
        assert(v * d == if n < 0 { -(u * d) } else { (u * d) as int });
        assert(v * d == v || d != 1) by (nonlinear_arith);
    }
}

/// A bound on an error keeps when all is divided by the same.
proof fn lemma_scaled_bound(x: real, d: real, p: real, t: real)
    requires
        p > 0real,
        -(abs(x * p) + t * p) <= 0x100_0000real * (d * p) <= abs(x * p) + t * p,
    ensures
        -(abs(x) + t) <= 0x100_0000real * d <= abs(x) + t,
{
    assert(abs(x * p) == abs(x) * p) by (nonlinear_arith)
        requires
            p > 0real,
    ;
    let m = abs(x) + t;
    assert(m * p == abs(x) * p + t * p) by (nonlinear_arith)
        requires
            m == abs(x) + t,
    ;
    assert(0x100_0000real * (d * p) == (0x100_0000real * d) * p) by (nonlinear_arith);
    let e = 0x100_0000real * d;
    assert(e <= m && -m <= e) by (nonlinear_arith)
        requires
            e * p <= m * p,
            -(m * p) <= e * p,
            p > 0real,
    ;
}

/// A factor that is not negative keeps the order.
pub proof fn lemma_le_times(a: real, b: real, c: real)
    requires
        a <= b,
        c >= 0real,
    ensures
        a * c <= b * c,
        c * a <= c * b,
{
    assert(a * c <= b * c) by (nonlinear_arith)
        requires
            a <= b,
            c >= 0real,
    ;
    assert(c * a == a * c && c * b == b * c) by (nonlinear_arith);
}

/// A number is its quotient times the divisor.
pub proof fn lemma_times(x: real, p: real)
    requires
        p > 0real,
    ensures
        (x / p) * p == x,
{
    assert((x / p) * p == x) by (nonlinear_arith)
        requires
            p > 0real,
    ;
}

/// The product of integers as reals.
pub proof fn lemma_real_product(x: int, y: int)
    ensures
        (x * y) as real == (x as real) * (y as real),
{
    assert((x * y) as real == (x as real) * (y as real)) by (nonlinear_arith);
}

/// The most that results may be for what follows, far below infinity.
pub open spec fn ample() -> real {
    0x1_0000_0000_0000_0000real
}

/// A result that is not too large is finite.
proof fn lemma_finite(r: Float, n: int, d: nat)
    requires
        d > 0,
        !r.nan(),
        r.value() == nearest_value(n, d),
        abs(n as real) <= ample() * (d as real * pow2(149) as real),
    ensures
        r.finite(),
        -beyond() < nearest_value(n, d) < beyond(),
{
    lemma2_to64();
    lemma_pow2_pos(149);
    lemma_pow2_adds(65, 149);
    lemma_pow2_adds(64, 1);
    let (p, q) = (pow2(149), pow2(214));
    assert(q == 0x2_0000_0000_0000_0000 * p);
    lemma_real_product(d as int, p as int);
    assert(d * p > 0) by (nonlinear_arith)
        requires
            d > 0,
            p > 0,
    ;
    assert(size(n) <= 0x1_0000_0000_0000_0000 * (d * p));
    assert(d * q == 0x2_0000_0000_0000_0000 * (d * p)) by (nonlinear_arith)
        requires
            q == 0x2_0000_0000_0000_0000 * p,
    ;
    lemma_off_by(n, d, 190);
    lemma_value_bounded(r);
}

/// A sum is off by one part in `2^24` at most.
pub proof fn lemma_add_near(a: Float, b: Float)
    requires
        a.finite(),
        b.finite(),
        abs(num(a) + num(b)) <= ample(),
    ensures
        near(a.add(b), num(a) + num(b), abs(num(a) + num(b)) / 0x100_0000real),
{
    reveal(num);
    let (x, y, s) = (a.value(), b.value(), a.add(b).value());
    let (xr, yr, sr, p) = (x as real, y as real, s as real, pow2(149) as real);
    lemma_pow2_pos(149);
    let (u, v, w) = (xr / p, yr / p, sr / p);
    lemma_times(xr, p);
    lemma_times(yr, p);
    lemma_times(sr, p);
    assert((u + v) * p == xr + yr && (w - u - v) * p == sr - xr - yr) by (nonlinear_arith)
        requires
            u * p == xr,
            v * p == yr,
            w * p == sr,
    ;
    assert(abs(xr + yr) <= ample() * p) by (nonlinear_arith)
        requires
            (u + v) * p == xr + yr,
            abs(u + v) <= ample(),
            p > 0real,
    ;
    assert(1real * p == p);
    lemma_sum(a, b);
    lemma_finite(a.add(b), x + y, 1);
    lemma_one_rounding(x + y, 1);
    assert(0real * p == 0real) by (nonlinear_arith);
    lemma_scaled_bound(u + v, w - u - v, p, 0real);
}

/// Turning the sign.
pub proof fn lemma_neg_num(a: Float)
    ensures
        num(a.neg()) == -num(a),
        a.neg().finite() == a.finite(),
{
    reveal(num);
    lemma_negated(a);
    lemma_pow2_pos(149);
    let (x, p) = (a.value() as real, pow2(149) as real);
    assert((-x) / p == -(x / p)) by (nonlinear_arith)
        requires
            p > 0real,
    ;
}

/// A difference is off by one part in `2^24` at most.
pub proof fn lemma_sub_near(a: Float, b: Float)
    requires
        a.finite(),
        b.finite(),
        abs(num(a) - num(b)) <= ample(),
    ensures
        near(a.sub(b), num(a) - num(b), abs(num(a) - num(b)) / 0x100_0000real),
{
    lemma_neg_num(b);
    lemma_add_near(a, b.neg());
}

/// A product is off by one part in `2^24`, or by less than the smallest number.
pub proof fn lemma_mul_near(a: Float, b: Float)
    requires
        a.finite(),
        b.finite(),
        abs(num(a) * num(b)) <= ample(),
    ensures
        near(a.mul(b), num(a) * num(b), abs(num(a) * num(b)) / 0x100_0000real + tiny()),
{
    reveal(num);
    reveal(tiny);
    let (x, y, s) = (a.value(), b.value(), a.mul(b).value());
    let (xr, yr, sr, p) = (x as real, y as real, s as real, pow2(149) as real);
    lemma_pow2_pos(149);
    let (u, v, w) = (xr / p, yr / p, sr / p);
    lemma_times(xr, p);
    lemma_times(yr, p);
    lemma_times(sr, p);
    lemma_times(1real, p);
    lemma_real_product(x, y);
    lemma_real_product(s, pow2(149) as int);
    let q = p * p;
    let t = 0x80_0000real * tiny();
    assert(q > 0real) by (nonlinear_arith)
        requires
            q == p * p,
            p > 0real,
    ;
    assert((u * v) * q == xr * yr && (w - u * v) * q == sr * p - xr * yr && t * q == 0x80_0000real * p)
        by (nonlinear_arith)
        requires
            u * p == xr,
            v * p == yr,
            w * p == sr,
            q == p * p,
            tiny() * p == 1real,
            t == 0x80_0000real * tiny(),
    ;
    let m = u * v;
    assert(abs(xr * yr) <= ample() * q) by (nonlinear_arith)
        requires
            m * q == xr * yr,
            abs(m) <= ample(),
            q > 0real,
    ;
    lemma_product(a, b);
    lemma_finite(a.mul(b), x * y, pow2(149));
    lemma_one_rounding(x * y, pow2(149));
    lemma_scaled_bound(m, w - m, q, t);
    lemma_tiny();
}

/// A quotient is off by one part in `2^24`, or by less than the smallest number.
pub proof fn lemma_div_near(a: Float, b: Float)
    requires
        a.finite(),
        b.finite(),
        num(b) > 0real,
        abs(num(a)) <= ample() * num(b),
    ensures
        near(a.div(b), num(a) / num(b), abs(num(a) / num(b)) / 0x100_0000real + tiny()),
{
    reveal(num);
    reveal(tiny);
    let (x, y, s) = (a.value(), b.value(), a.div(b).value());
    let (xr, yr, sr, p) = (x as real, y as real, s as real, pow2(149) as real);
    lemma_pow2_pos(149);
    let (u, v, w) = (xr / p, yr / p, sr / p);
    lemma_times(xr, p);
    lemma_times(yr, p);
    lemma_times(sr, p);
    lemma_times(1real, p);
    assert(yr > 0real) by (nonlinear_arith)
        requires
            v * p == yr,
            v > 0real,
            p > 0real,
    ;
    lemma_times(u, v);
    let m = u / v;
    let q = yr * p;
    let t = 0x80_0000real * tiny();
    assert(q > 0real) by (nonlinear_arith)
        requires
            q == yr * p,
            yr > 0real,
            p > 0real,
    ;
    assert(m * q == xr * p && (w - m) * q == sr * yr - xr * p && t * q == 0x80_0000real * yr)
        by (nonlinear_arith)
        requires
            u * p == xr,
            v * p == yr,
            w * p == sr,
            m * v == u,
            q == yr * p,
            p > 0real,
            tiny() * p == 1real,
            t == 0x80_0000real * tiny(),
    ;
    assert(abs(xr * p) <= ample() * q) by {
        assert(abs(xr * p) == abs(u) * (p * p)) by (nonlinear_arith)
            requires
                u * p == xr,
                p > 0real,
        ;
        let (k, au) = (ample(), abs(u));
        assert(au * (p * p) <= k * (yr * p)) by (nonlinear_arith)
            requires
                au <= k * v,
                v * p == yr,
                p > 0real,
        ;
    }
    lemma_real_product(x, pow2(149) as int);
    lemma_real_product(s, y);
    lemma_quotient(a, b);
    lemma_finite(a.div(b), x * pow2(149), y as nat);
    lemma_one_rounding(x * pow2(149), y as nat);
    lemma_scaled_bound(m, w - m, q, t);
    lemma_tiny();
}

/// A decimal constant is what it says, up to one part in `2^24`.
pub proof fn lemma_dec_near(n: u64, d: u64)
    requires
        d > 0,
    ensures
        near(
            dec(n, d),
            n as real / d as real,
            (n as real / d as real) / 0x100_0000real + tiny(),
        ),
        !dec(n, d).negative(),
{
    reveal(num);
    reveal(tiny);
    reveal(spec_dec);
    let (p, r) = (pow2(149), round_magnitude(n as nat * pow2(149), d as nat));
    assert(r <= 0x7f80_0000);
    lemma_signed(false, r);
    let (nr, dr, pr) = (n as real, d as real, p as real);
    lemma_pow2_pos(149);
    lemma_real_product(n as int, p as int);
    let x = n as nat * p;
    assert(x as int >= 0);
    lemma_le_times(nr, ample(), pr);
    lemma_le_times(1real, dr, pr);
    lemma_le_times(0real, nr, pr);
    assert(0real * pr == 0real) by (nonlinear_arith);
    let s = dec(n, d).value();
    lemma_finite(dec(n, d), x as int, d as nat);
    lemma_one_rounding(x as int, d as nat);
    let (w, m) = (s as real / pr, nr / dr);
    lemma_times(s as real, pr);
    lemma_times(nr, dr);
    lemma_times(1real, pr);
    lemma_real_product(s, d as int);
    let q = dr * pr;
    let t = 0x80_0000real * tiny();
    assert(q > 0real) by (nonlinear_arith)
        requires
            q == dr * pr,
            dr >= 1real,
            pr > 0real,
    ;
    let sr = s as real;
    assert(m * q == nr * pr && (w - m) * q == sr * dr - nr * pr && t * q == 0x80_0000real * dr)
        by (nonlinear_arith)
        requires
            m * dr == nr,
            w * pr == sr,
            q == dr * pr,
            tiny() * pr == 1real,
            t == 0x80_0000real * tiny(),
    ;
    lemma_scaled_bound(m, w - m, q, t);
    lemma_tiny();
    assert(m >= 0real) by (nonlinear_arith)
        requires
            m * dr == nr,
            nr >= 0real,
            dr >= 1real,
    ;
}

/// The smallest number is next to nothing.
pub proof fn lemma_tiny()
    ensures
        0real < tiny() <= 1real / 0x1000_0000_0000_0000real,
{
    reveal(tiny);
    lemma2_to64();
    lemma_pow2_adds(64, 85);
    lemma_pow2_pos(85);
    let p = pow2(149) as real;
    assert(pow2(149) == 0x1_0000_0000_0000_0000 * pow2(85));
    assert(p >= 0x1000_0000_0000_0000real);
    let t = tiny();
    lemma_times(1real, p);
    assert(0real < t) by (nonlinear_arith)
        requires
            t * p == 1real,
            p > 0real,
    ;
    lemma_le_times(0x1000_0000_0000_0000real, p, t);
}

/// An integer constant is what it says.
pub proof fn lemma_int_num(n: u64)
    requires
        n <= 0x100_0000,
    ensures
        dec(n, 1).finite(),
        num(dec(n, 1)) == n as real,
{
    reveal(num);
    lemma_dec_int(n);
    lemma_pow2_pos(149);
    lemma_real_product(n as int, pow2(149) as int);
    let (x, p) = (n as real, pow2(149) as real);
    assert((x * p) / p == x) by (nonlinear_arith)
        requires
            p > 0real,
    ;
}

/// The size of a product.
pub proof fn lemma_abs_product(x: real, y: real, m: real, n: real)
    requires
        abs(x) <= m,
        abs(y) <= n,
    ensures
        abs(x * y) <= m * n,
        abs(x * y) == abs(x) * abs(y),
{
    let (ax, ay) = (abs(x), abs(y));
    assert(abs(x * y) == ax * ay) by {
        assert((-x) * y == -(x * y) && x * (-y) == -(x * y) && (-x) * (-y) == x * y) by (nonlinear_arith);
        assert(ax * ay >= 0real) by (nonlinear_arith)
            requires
                ax >= 0real,
                ay >= 0real,
        ;
    }
    lemma_le_times(ax, m, ay);
    lemma_le_times(ay, n, m);
}

/// A sum of terms that are close.
pub proof fn lemma_near_add(a: Float, x: real, d: real, b: Float, y: real, e: real, m: real)
    requires
        near(a, x, d),
        near(b, y, e),
        abs(x + y) + d + e <= m <= ample(),
    ensures
        near(a.add(b), x + y, d + e + m / 0x100_0000real),
{
    lemma_add_near(a, b);
}

/// A difference of terms that are close.
pub proof fn lemma_near_sub(a: Float, x: real, d: real, b: Float, y: real, e: real, m: real)
    requires
        near(a, x, d),
        near(b, y, e),
        abs(x - y) + d + e <= m <= ample(),
    ensures
        near(a.sub(b), x - y, d + e + m / 0x100_0000real),
{
    lemma_sub_near(a, b);
}

/// A product of factors that are close.
pub proof fn lemma_near_mul(a: Float, x: real, d: real, m: real, b: Float, y: real, e: real, n: real)
    requires
        near(a, x, d),
        near(b, y, e),
        d >= 0real,
        e >= 0real,
        abs(x) + d <= m,
        abs(y) + e <= n,
        m * n <= ample(),
    ensures
        near(a.mul(b), x * y, m * e + n * d + (m * n) / 0x100_0000real + tiny()),
{
    let (u, v) = (num(a), num(b));
    lemma_abs_product(u, v, m, n);
    lemma_mul_near(a, b);
    lemma_abs_product(u, v - y, m, e);
    lemma_abs_product(u - x, y, d, n);
    assert(u * v - x * y == u * (v - y) + (u - x) * y) by (nonlinear_arith);
    assert(d * n == n * d) by (nonlinear_arith);
}

/// A quotient by a number that is exactly `y`.
pub proof fn lemma_near_div(a: Float, x: real, d: real, b: Float, y: real, m: real)
    requires
        near(a, x, d),
        b.finite(),
        num(b) == y,
        y > 0real,
        d >= 0real,
        abs(x) + d <= m * y,
        m <= ample(),
    ensures
        near(a.div(b), x / y, d / y + m / 0x100_0000real + tiny()),
{
    let u = num(a);
    lemma_le_times(m, ample(), y);
    lemma_div_near(a, b);
    lemma_times(u, y);
    lemma_times(x, y);
    lemma_times(d, y);
    let (p, q, r) = (u / y, x / y, d / y);
    assert(p <= q + r && q - r <= p) by (nonlinear_arith)
        requires
            p * y == u,
            q * y == x,
            r * y == d,
            x - d <= u <= x + d,
            y > 0real,
    ;
    assert(p <= m && -m <= p) by (nonlinear_arith)
        requires
            p * y == u,
            -(m * y) <= u <= m * y,
            y > 0real,
    ;
}

/// A real number held between two others.
pub open spec fn between(x: real, lo: real, hi: real) -> real {
    if x < lo {
        lo
    } else if x > hi {
        hi
    } else {
        x
    }
}

/// Numbers are in the order of what they stand for.
pub proof fn lemma_num_order(a: Float, b: Float)
    ensures
        num(a) <= num(b) <==> a.value() <= b.value(),
        num(a) < num(b) <==> a.value() < b.value(),
        num(a) == num(b) <==> a.value() == b.value(),
{
    reveal(num);
    lemma_pow2_pos(149);
    let (x, y, p) = (a.value() as real, b.value() as real, pow2(149) as real);
    lemma_times(x, p);
    lemma_times(y, p);
    let (u, v) = (x / p, y / p);
    assert(u <= v <==> x <= y) by (nonlinear_arith)
        requires
            u * p == x,
            v * p == y,
            p > 0real,
    ;
    assert(v <= u <==> y <= x) by (nonlinear_arith)
        requires
            u * p == x,
            v * p == y,
            p > 0real,
    ;
}

/// Holding a number within bounds.
pub proof fn lemma_near_clamp(a: Float, x: real, e: real, lo: Float, hi: Float)
    requires
        near(a, x, e),
        lo.finite(),
        hi.finite(),
        num(lo) <= num(hi),
        e >= 0real,
    ensures
        near(a.clamp(lo, hi), between(x, num(lo), num(hi)), e),
        num(lo) <= num(a.clamp(lo, hi)) <= num(hi),
        num(a.clamp(lo, hi)) == between(num(a), num(lo), num(hi)),
{
    lemma_num_order(lo, hi);
    lemma_num_order(a, lo);
    lemma_num_order(lo, a);
    lemma_num_order(hi, a);
    reveal(Float::spec_lt);
}

/// Comparing numbers compares what they stand for.
pub proof fn lemma_compare(a: Float, b: Float)
    requires
        a.finite(),
        b.finite(),
    ensures
        a.lt(b) == (num(a) < num(b)),
        a.le(b) == (num(a) <= num(b)),
{
    lemma_num_order(a, b);
    reveal(Float::spec_lt);
    reveal(Float::spec_le);
}

/// A small integer is what it says.
pub proof fn lemma_nat_num(n: nat)
    requires
        n <= 0x100_0000,
    ensures
        of_nat(n).finite(),
        num(of_nat(n)) == n as real,
{
    reveal(num);
    lemma_of_nat_exact(n);
    lemma_pow2_pos(149);
    lemma_real_product(n as int, pow2(149) as int);
    let (x, p) = (n as real, pow2(149) as real);
    assert((x * p) / p == x) by (nonlinear_arith)
        requires
            p > 0real,
    ;
}

/// What the bits of a number between one and eight stand for.
pub proof fn lemma_bits(bits: u32, m: nat, k: nat)
    requires
        0x3f80_0000 <= bits < 0x4100_0000,
        m == 0x80_0000 + bits % 0x80_0000,
        k == (bits / 0x80_0000) - 1,
    ensures
        fl(bits).finite(),
        126 <= k <= 128,
        k == 126 ==> num(fl(bits)) == m as real / 0x80_0000real,
        k == 127 ==> num(fl(bits)) == m as real / 0x40_0000real,
        k == 128 ==> num(fl(bits)) == m as real / 0x20_0000real,
{
    reveal(num);
    let f = fl(bits);
    assert(f.mag() == bits as nat && !f.negative());
    assert(f.units() == m * pow2(k));
    lemma2_to64();
    lemma_pow2_adds(23, 126);
    lemma_pow2_adds(22, 127);
    lemma_pow2_adds(21, 128);
    lemma_pow2_pos(k);
    lemma_real_product(m as int, pow2(k) as int);
    let (x, q) = (m as real, pow2(k) as real);
    let c: real = if k == 126 {
        0x80_0000real
    } else if k == 127 {
        0x40_0000real
    } else {
        0x20_0000real
    };
    assert(pow2(149) as real == c * q) by {
        assert(pow2(149) as real == 0x80_0000real * pow2(126) as real);
        assert(pow2(149) as real == 0x40_0000real * pow2(127) as real);
        assert(pow2(149) as real == 0x20_0000real * pow2(128) as real);
    }
    assert((x * q) / (c * q) == x / c) by (nonlinear_arith)
        requires
            q > 0real,
            c > 0real,
    ;
}

/// A number that is exactly an integer has that integer part.
pub proof fn lemma_whole(a: Float, n: nat, limit: nat)
    requires
        a.finite(),
        a.value() == n * pow2(149),
        n <= limit,
    ensures
        a.saturated(limit) == n,
{
    reveal(Float::saturated);
    lemma_pow2_pos(149);
    let p = pow2(149);
    assert(n * p >= 0) by (nonlinear_arith);
    lemma_units_order(0, a.mag());
    vstd::arithmetic::div_mod::lemma_div_multiples_vanish(n as int, p as int);
    assert(p * n == n * p) by (nonlinear_arith);
    if a.negative() {
        assert(n == 0) by (nonlinear_arith)
            requires
                n * p == 0,
                p > 0,
        ;
    }
}

/// Which factor comes first does not matter.
pub proof fn lemma_commute(a: Float, b: Float)
    ensures
        a.mul(b) == b.mul(a),
{
    assert(a.units() * b.units() == b.units() * a.units()) by (nonlinear_arith);
    reveal(Float::spec_mul);
}

/// A decimal constant that is not too small is what it says, up to one part in `2^23`.
pub proof fn lemma_dec_part(n: u64, d: u64)
    requires
        0 < d <= 0x4000_0000,
        0 < n <= 0x10_0000 * d,
    ensures
        near(dec(n, d), n as real / d as real, (n as real / d as real) / 0x80_0000real),
        0real < n as real / d as real <= 0x10_0000real,
{
    lemma_dec_near(n, d);
    lemma_tiny();
    let (nr, dr) = (n as real, d as real);
    let q = nr / dr;
    lemma_times(nr, dr);
    assert(1real / 0x4000_0000real <= q <= 0x10_0000real) by (nonlinear_arith)
        requires
            q * dr == nr,
            1real <= nr <= 0x10_0000real * dr,
            0real < dr <= 0x4000_0000real,
    ;
}

/// A decimal constant times a number.
pub proof fn lemma_times_dec(n: u64, d: u64, a: Float)
    requires
        0 < d <= 0x4000_0000,
        0 < n <= 0x10_0000 * d,
        a.finite(),
        abs(num(a)) <= 0x100_0000_0000real,
    ensures
        near(
            dec(n, d).mul(a),
            (n as real * num(a)) / d as real,
            abs((n as real * num(a)) / d as real) / 0x40_0000real + tiny(),
        ),
        a.mul(dec(n, d)) == dec(n, d).mul(a),
        abs((n as real * num(a)) / d as real) <= 0x10_0000real * abs(num(a)),
{
    lemma_commute(a, dec(n, d));
    lemma_dec_part(n, d);
    let (nr, dr, x, k) = (n as real, d as real, num(a), num(dec(n, d)));
    let q = nr / dr;
    lemma_times(nr, dr);
    let e = q / 0x80_0000real;
    let m = abs(x);
    lemma_abs_product(q, x, q, m);
    lemma_abs_product(k, x, q + e, m);
    lemma_abs_product(k - q, x, e, m);
    assert((k - q) * x == k * x - q * x) by (nonlinear_arith);
    assert((nr * x) / dr == q * x) by (nonlinear_arith)
        requires
            q * dr == nr,
            dr > 0real,
    ;
    assert(e * m == q * m / 0x80_0000real) by (nonlinear_arith)
        requires
            e == q / 0x80_0000real,
    ;
    assert((q + e) * m == q * m + e * m) by (nonlinear_arith);
    lemma_le_times(q, 0x10_0000real, m);
    lemma_mul_near(dec(n, d), a);
}

/// The larger and the smaller of two numbers.
pub proof fn lemma_extremes(a: Float, b: Float)
    requires
        a.finite(),
        b.finite(),
    ensures
        a.max(b).finite(),
        num(a.max(b)) == if num(a) < num(b) {
            num(b)
        } else {
            num(a)
        },
        a.min(b).finite(),
        num(a.min(b)) == if num(b) < num(a) {
            num(b)
        } else {
            num(a)
        },
{
    lemma_num_order(a, b);
    lemma_num_order(b, a);
    reveal(Float::spec_lt);
}

/// The size of a number.
pub proof fn lemma_abs_num(a: Float)
    requires
        a.finite(),
    ensures
        a.abs().finite(),
        num(a.abs()) == abs(num(a)),
        !a.abs().negative(),
{
    reveal(num);
    reveal(Float::spec_abs);
    lemma_signed(false, a.mag());
    lemma_pow2_pos(149);
    let (x, p) = (a.units() as real, pow2(149) as real);
    assert(x / p >= 0real) by (nonlinear_arith)
        requires
            x >= 0real,
            p > 0real,
    ;
    assert((-x) / p == -(x / p)) by (nonlinear_arith)
        requires
            p > 0real,
    ;
}

/// A number that is not below nothing rounds to an integer that is half a step off at most.
pub proof fn lemma_round_near(a: Float)
    requires
        a.finite(),
        0real <= num(a) <= 0x1_0000real,
    ensures
        a.round().finite(),
        abs(a.round().saturated(usize::MAX as nat) as real - num(a)) <= 1real / 2real,
        a.round().saturated(usize::MAX as nat) <= 0x1_0001,
{
    reveal(num);
    reveal(Float::spec_round);
    let p = pow2(149);
    lemma_pow2_pos(149);
    let x = a.units();
    let (xr, pr) = (a.value() as real, p as real);
    lemma_times(xr, pr);
    let u = num(a);
    assert(xr >= 0real && xr <= 0x1_0000real * pr) by (nonlinear_arith)
        requires
            u * pr == xr,
            0real <= u <= 0x1_0000real,
            pr > 0real,
    ;
    assert(a.value() == x as int) by {
        lemma_units_order(0, a.mag());
    }
    let m = (2 * x + p) / (2 * p);
    vstd::arithmetic::div_mod::lemma_fundamental_div_mod((2 * x + p) as int, (2 * p) as int);
    let r = (2 * x + p) % (2 * p);
    vstd::arithmetic::div_mod::lemma_mod_bound((2 * x + p) as int, (2 * p) as int);
    assert(2 * (m * p) == 2 * x + p - r) by (nonlinear_arith)
        requires
            2 * x + p == (2 * p) * m + r,
    ;
    assert(m <= 0x1_0001) by (nonlinear_arith)
        requires
            2 * (m * p) == 2 * x + p - r,
            x <= 0x1_0000 * p,
            r >= 0,
            p > 0,
    ;
    lemma_fits(m, 149);
    let mag = round_magnitude(m * p, 1);
    lemma_signed(a.negative(), mag);
    let f = a.round();
    if a.negative() {
        lemma_units_order(0, a.mag());
        vstd::arithmetic::div_mod::lemma_basic_div(p as int, (2 * p) as int);
        assert(m == 0);
        assert(0 * p == 0);
        lemma_units_order(0, mag);
    }
    assert(f.value() == m * p);
    lemma_whole(f, m, usize::MAX as nat);
    lemma_real_product(m as int, p as int);
    let mr = m as real;
    assert(mr - u <= 1real / 2real && u - mr <= 1real / 2real) by (nonlinear_arith)
        requires
            u * pr == xr,
            2real * (mr * pr) <= 2real * xr + pr,
            2real * (mr * pr) >= 2real * xr - pr,
            pr > 0real,
    ;
}

/// An integer is what it says, up to one part in `2^24`.
pub proof fn lemma_nat_near(n: nat)
    requires
        n <= 0x1_0000_0000,
    ensures
        near(of_nat(n), n as real, n as real / 0x100_0000real),
{
    reveal(num);
    reveal(of_nat);
    let p = pow2(149);
    let (r, x) = (round_magnitude(n * p, 1), n * p);
    assert(r <= 0x7f80_0000);
    lemma_signed(false, r);
    lemma_pow2_pos(149);
    lemma_real_product(n as int, p as int);
    let (nr, pr) = (n as real, p as real);
    assert(x as int >= 0) by (nonlinear_arith)
        requires
            x == n * p,
    ;
    lemma_le_times(nr, ample(), pr);
    lemma_le_times(0real, nr, pr);
    assert(0real * pr == 0real && 1real * pr == pr) by (nonlinear_arith);
    let f = of_nat(n);
    lemma_finite(f, x as int, 1);
    lemma_one_rounding(x as int, 1);
    let w = num(f);
    lemma_times(f.value() as real, pr);
    let fr = f.value() as real;
    assert((w - nr) * pr == fr - nr * pr) by (nonlinear_arith)
        requires
            w * pr == fr,
    ;
    lemma_scaled_bound(nr, w - nr, pr, 0real);
}

/// The integer part of a number that is not below nothing.
pub proof fn lemma_integer_part(a: Float, limit: nat)
    requires
        a.finite(),
        0real <= num(a),
        num(a) <= limit as real,
    ensures
        a.saturated(limit) as real <= num(a) < a.saturated(limit) as real + 1real,
{
    reveal(num);
    reveal(Float::saturated);
    let p = pow2(149);
    lemma_pow2_pos(149);
    let x = a.units();
    let (u, xr, pr) = (num(a), a.value() as real, p as real);
    lemma_times(xr, pr);
    lemma_le_times(0real, u, pr);
    lemma_le_times(u, limit as real, pr);
    assert(0real * pr == 0real) by (nonlinear_arith);
    lemma_units_order(0, a.mag());
    assert(a.value() == x as int);
    let m = x / p;
    vstd::arithmetic::div_mod::lemma_fundamental_div_mod(x as int, p as int);
    vstd::arithmetic::div_mod::lemma_mod_bound(x as int, p as int);
    let r = x % p;
    lemma_real_product(p as int, m as int);
    let (mr, rr) = (m as real, r as real);
    assert(mr <= u && u < mr + 1real) by (nonlinear_arith)
        requires
            u * pr == xr,
            xr == pr * mr + rr,
            0real <= rr < pr,
            pr > 0real,
    ;
    assert(m <= limit);
    if a.negative() {
        assert(x == 0);
        vstd::arithmetic::div_mod::lemma_basic_div(0, p as int);
    }
}

/// A quotient of numbers that are close, where it is at most `m` and the divisor is
/// `y` and at least `c`.
pub proof fn lemma_near_quotient(a: Float, x: real, d: real, b: Float, y: real, e: real, c: real, m: real)
    requires
        near(a, x, d),
        near(b, y, e),
        d >= 0real,
        e >= 0real,
        0real < c <= y - e,
        abs(x) + d <= m * c,
        0real <= m <= 0x1_0000_0000real,
    ensures
        near(a.div(b), x / y, (d + m * e) / c + m / 0x100_0000real + tiny()),
        abs(x / y) <= m,
{
    let (u, v) = (num(a), num(b));
    lemma_le_times(c, v, m);
    lemma_le_times(m, ample(), v);
    lemma_div_near(a, b);
    lemma_times(u, v);
    lemma_times(x, y);
    let (p, q) = (u / v, x / y);
    let k = d + m * e;
    assert(p <= m && -m <= p) by (nonlinear_arith)
        requires
            p * v == u,
            -(m * v) <= u <= m * v,
            v > 0real,
    ;
    lemma_le_times(c, y, m);
    assert(q <= m && -m <= q) by (nonlinear_arith)
        requires
            q * y == x,
            -(m * y) <= x <= m * y,
            y > 0real,
    ;
    lemma_abs_product(p, y - v, m, e);
    assert((p - q) * y == (u - x) + p * (y - v)) by (nonlinear_arith)
        requires
            p * v == u,
            q * y == x,
    ;
    let g = p - q;
    lemma_times(k, c);
    let r = k / c;
    assert(k >= 0real) by {
        lemma_le_times(0real, m, e);
        assert(0real * e == 0real) by (nonlinear_arith);
    }
    assert(g <= r && -r <= g) by (nonlinear_arith)
        requires
            -k <= g * y <= k,
            r * c == k,
            k >= 0real,
            0real < c <= y,
    ;
}

} // verus!
