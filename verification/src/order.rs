//! Which operations keep the order of numbers, and how far a result can be off.

use vstd::prelude::*;
use vstd::arithmetic::power2::{pow2, lemma_pow2_adds, lemma_pow2_pos, lemma2_to64};
use crate::exact::{representable, fits, size, lemma_dec_int};
use crate::float::{Float, dec, magnitude_units, lemma_fits, lemma_round_exact, lemma_rounded_units, lemma_signed, lemma_units_order};
use crate::rounding::{binade, half_even, round_magnitude, lemma_binade_bounds, lemma_half_even_bounds, lemma_pow2_le, lemma_round_monotone, lemma_round_scale, lemma_round_zero};

verus! {

/// What the number nearest to `num / den` units stands for.
pub open spec fn nearest_value(num: int, den: nat) -> int {
    if num < 0 {
        -(magnitude_units(round_magnitude((-num) as nat, den)) as int)
    } else {
        magnitude_units(round_magnitude(num as nat, den)) as int
    }
}

/// What infinity stands for.
pub open spec fn beyond() -> int {
    magnitude_units(0x7f80_0000) as int
}

/// Rounding keeps the order.
pub proof fn lemma_nearest_order(n1: int, d1: nat, n2: int, d2: nat)
    requires
        d1 > 0,
        d2 > 0,
        n1 * d2 <= n2 * d1,
    ensures
        nearest_value(n1, d1) <= nearest_value(n2, d2),
{
    assert(n1 >= 0 ==> n1 * d2 >= 0) by (nonlinear_arith);
    assert(n2 < 0 ==> n2 * d1 < 0) by (nonlinear_arith)
        requires
            d1 > 0,
    ;
    if n1 >= 0 {
        lemma_round_monotone(n1 as nat, d1, n2 as nat, d2);
        lemma_units_order(
            round_magnitude(n2 as nat, d2),
            round_magnitude(n1 as nat, d1),
        );
    } else if n2 < 0 {
        assert((-n2) * d1 == -(n2 * d1) && (-n1) * d2 == -(n1 * d2)) by (nonlinear_arith);
        lemma_round_monotone((-n2) as nat, d2, (-n1) as nat, d1);
        lemma_units_order(
            round_magnitude((-n1) as nat, d1),
            round_magnitude((-n2) as nat, d2),
        );
    }
}

/// No result is beyond infinity.
pub proof fn lemma_nearest_bounded(num: int, den: nat)
    ensures
        -beyond() <= nearest_value(num, den) <= beyond(),
{
    let m = round_magnitude(size(num), den);
    lemma_units_order(0x7f80_0000, m);
    lemma_units_order(0, m);
}

/// What can be held is held.
pub proof fn lemma_nearest_exact(v: int)
    requires
        representable(v),
    ensures
        nearest_value(v, 1) == v,
{
    let (m, j) = choose|m: nat, j: nat| #[trigger] fits(v, m, j);
    lemma_fits(m, j);
}

/// No finite number is beyond infinity, and infinities are there.
pub proof fn lemma_value_bounded(a: Float)
    requires
        !a.nan(),
    ensures
        a.finite() ==> -beyond() < a.value() < beyond(),
        a.infinite() ==> a.value() == if a.negative() {
            -beyond()
        } else {
            beyond()
        },
        beyond() > 0,
        a.value() == 0 <==> a.mag() == 0,
{
    lemma_units_order(a.mag(), 0x7f80_0000);
    lemma_units_order(0, 0x7f80_0000);
    lemma_units_order(0, a.mag());
}

/// The value of a sum.
pub proof fn lemma_sum(a: Float, b: Float)
    requires
        a.finite(),
        b.finite(),
    ensures
        !a.add(b).nan(),
        a.add(b).value() == nearest_value(a.value() + b.value(), 1),
{
    reveal(Float::spec_add);
    let s = a.value() + b.value();
    let m = round_magnitude(size(s), 1);
    assert(m <= 0x7f80_0000);
    lemma_signed(true, m);
    lemma_signed(false, m);
    lemma_signed(true, 0);
    lemma_signed(false, 0);
    lemma_units_order(0, 0);
    lemma_round_zero(1);
}

/// Turning the sign turns the value.
pub proof fn lemma_negated(a: Float)
    ensures
        a.neg().nan() == a.nan(),
        a.neg().finite() == a.finite(),
        a.neg().infinite() == a.infinite(),
        a.neg().value() == -a.value(),
        a.neg().negative() == !a.negative(),
{
    reveal(Float::spec_neg);
    lemma_signed(!a.negative(), a.mag());
}

/// The value of a difference.
pub proof fn lemma_gap(a: Float, b: Float)
    requires
        a.finite(),
        b.finite(),
    ensures
        !a.sub(b).nan(),
        a.sub(b).value() == nearest_value(a.value() - b.value(), 1),
{
    lemma_negated(b);
    lemma_sum(a, b.neg());
}

proof fn lemma_product_sign(x: int, y: int)
    ensures
        size(x) * size(y) == size(x * y),
        (x >= 0 && y >= 0) || (x <= 0 && y <= 0) ==> x * y >= 0,
        (x >= 0 && y <= 0) || (x <= 0 && y >= 0) ==> x * y <= 0,
{
    assert((x >= 0 && y >= 0) || (x <= 0 && y <= 0) ==> x * y >= 0) by (nonlinear_arith);
    assert((x >= 0 && y <= 0) || (x <= 0 && y >= 0) ==> x * y <= 0) by (nonlinear_arith);
    assert((-x) * y == -(x * y) && x * (-y) == -(x * y) && (-x) * (-y) == x * y)
        by (nonlinear_arith);
}

/// The value of a product.
pub proof fn lemma_product(a: Float, b: Float)
    requires
        a.finite(),
        b.finite(),
    ensures
        !a.mul(b).nan(),
        a.mul(b).value() == nearest_value(a.value() * b.value(), pow2(149)),
{
    reveal(Float::spec_mul);
    lemma_pow2_pos(149);
    let (x, y) = (a.value(), b.value());
    lemma_product_sign(x, y);
    let m = round_magnitude(size(x * y), pow2(149));
    assert(m <= 0x7f80_0000);
    lemma_signed(true, m);
    lemma_signed(false, m);
    lemma_round_zero(pow2(149));
    lemma_units_order(0, 0);
}

/// The value of a quotient.
pub proof fn lemma_quotient(a: Float, b: Float)
    requires
        a.finite(),
        b.finite(),
        b.value() > 0,
    ensures
        !a.div(b).nan(),
        a.div(b).value() == nearest_value(a.value() * pow2(149), b.value() as nat),
{
    reveal(Float::spec_div);
    lemma_pow2_pos(149);
    lemma_units_order(0, b.mag());
    let (x, p) = (a.value(), pow2(149));
    lemma_product_sign(x, p as int);
    let m = round_magnitude(size(x * p), b.units());
    assert(m <= 0x7f80_0000);
    lemma_signed(true, m);
    lemma_signed(false, m);
    lemma_round_zero(b.units());
    lemma_units_order(0, 0);
}

/// Adding the same keeps the order.
pub proof fn lemma_add_order(a: Float, b: Float, c: Float)
    requires
        !a.nan(),
        !b.nan(),
        c.finite(),
        a.value() <= b.value(),
    ensures
        !a.add(c).nan(),
        !b.add(c).nan(),
        a.add(c).value() <= b.add(c).value(),
        a.add(c) == c.add(a),
        b.add(c) == c.add(b),
{
    lemma_value_bounded(a);
    lemma_value_bounded(b);
    reveal(Float::spec_add);
    if a.finite() {
        lemma_sum(a, c);
        lemma_nearest_bounded(a.value() + c.value(), 1);
    }
    if b.finite() {
        lemma_sum(b, c);
        lemma_nearest_bounded(b.value() + c.value(), 1);
    }
    if a.finite() && b.finite() {
        lemma_nearest_order(a.value() + c.value(), 1, b.value() + c.value(), 1);
    }
}

/// Taking the same away keeps the order.
pub proof fn lemma_sub_order(a: Float, b: Float, c: Float)
    requires
        !a.nan(),
        !b.nan(),
        c.finite(),
        a.value() <= b.value(),
    ensures
        !a.sub(c).nan(),
        !b.sub(c).nan(),
        a.sub(c).value() <= b.sub(c).value(),
{
    lemma_negated(c);
    lemma_add_order(a, b, c.neg());
}

/// A positive factor keeps the order.
pub proof fn lemma_mul_order(a: Float, b: Float, k: Float)
    requires
        !a.nan(),
        !b.nan(),
        k.finite(),
        k.value() > 0,
        a.value() <= b.value(),
    ensures
        !a.mul(k).nan(),
        !b.mul(k).nan(),
        a.mul(k).value() <= b.mul(k).value(),
        a.mul(k) == k.mul(a),
        b.mul(k) == k.mul(b),
{
    lemma_value_bounded(a);
    lemma_value_bounded(b);
    lemma_value_bounded(k);
    lemma_pow2_pos(149);
    let p = pow2(149);
    assert(a.units() * k.units() == k.units() * a.units()) by (nonlinear_arith);
    assert(b.units() * k.units() == k.units() * b.units()) by (nonlinear_arith);
    assert(a.mul(k) == k.mul(a) && b.mul(k) == k.mul(b)) by {
        reveal(Float::spec_mul);
    }
    if a.finite() {
        lemma_product(a, k);
        lemma_nearest_bounded(a.value() * k.value(), p);
    } else {
        reveal(Float::spec_mul);
        lemma_signed(a.negative(), 0x7f80_0000);
    }
    if b.finite() {
        lemma_product(b, k);
        lemma_nearest_bounded(b.value() * k.value(), p);
    } else {
        reveal(Float::spec_mul);
        lemma_signed(b.negative(), 0x7f80_0000);
    }
    if a.finite() && b.finite() {
        let (x, y, z) = (a.value(), b.value(), k.value());
        assert((x * z) * p <= (y * z) * p) by (nonlinear_arith)
            requires
                x <= y,
                z > 0,
                p > 0,
        ;
        lemma_nearest_order(x * z, p, y * z, p);
    }
}

/// A positive divisor keeps the order.
pub proof fn lemma_div_order(a: Float, b: Float, k: Float)
    requires
        !a.nan(),
        !b.nan(),
        k.finite(),
        k.value() > 0,
        a.value() <= b.value(),
    ensures
        !a.div(k).nan(),
        !b.div(k).nan(),
        a.div(k).value() <= b.div(k).value(),
{
    lemma_value_bounded(a);
    lemma_value_bounded(b);
    lemma_value_bounded(k);
    lemma_pow2_pos(149);
    let (p, d) = (pow2(149), k.value() as nat);
    if a.finite() {
        lemma_quotient(a, k);
        lemma_nearest_bounded(a.value() * p, d);
    } else {
        reveal(Float::spec_div);
        lemma_signed(a.negative(), 0x7f80_0000);
    }
    if b.finite() {
        lemma_quotient(b, k);
        lemma_nearest_bounded(b.value() * p, d);
    } else {
        reveal(Float::spec_div);
        lemma_signed(b.negative(), 0x7f80_0000);
    }
    if a.finite() && b.finite() {
        let (x, y) = (a.value(), b.value());
        assert((x * p) * d <= (y * p) * d) by (nonlinear_arith)
            requires
                x <= y,
        ;
        lemma_nearest_order(x * p, d, y * p, d);
    }
}

/// Holding within bounds keeps the order.
pub proof fn lemma_clamp_order(a: Float, b: Float, lo: Float, hi: Float)
    requires
        !a.nan(),
        !b.nan(),
        lo.finite(),
        hi.finite(),
        lo.value() <= hi.value(),
        a.value() <= b.value(),
    ensures
        a.clamp(lo, hi).value() <= b.clamp(lo, hi).value(),
{
    reveal(Float::spec_lt);
}

/// Rounding to an integer keeps the order of numbers that are not negative.
pub proof fn lemma_round_order(a: Float, b: Float)
    requires
        a.finite(),
        b.finite(),
        0 <= a.value() <= b.value(),
    ensures
        !a.round().nan(),
        !b.round().nan(),
        0 <= a.round().value() <= b.round().value(),
{
    reveal(Float::spec_round);
    let p = pow2(149);
    lemma_pow2_pos(149);
    lemma_value_bounded(a);
    lemma_value_bounded(b);
    let (x, y) = (a.units(), b.units());
    let (m, n) = ((2 * x + p) / (2 * p), (2 * y + p) / (2 * p));
    vstd::arithmetic::div_mod::lemma_div_is_ordered((2 * x + p) as int, (2 * y + p) as int, (2 * p) as int);
    assert(m * p * 1 <= n * p * 1) by (nonlinear_arith)
        requires
            m <= n,
    ;
    lemma_round_monotone(m * p, 1, n * p, 1);
    let (r, q) = (round_magnitude(m * p, 1), round_magnitude(n * p, 1));
    assert(q <= 0x7f80_0000);
    lemma_signed(a.negative(), r);
    lemma_signed(b.negative(), q);
    lemma_units_order(q, r);
    lemma_units_order(0, r);
    lemma_units_order(0, q);
    if a.negative() || b.negative() {
        vstd::arithmetic::div_mod::lemma_basic_div(p as int, (2 * p) as int);
        assert(0 * p == 0);
        lemma_round_zero(1);
    }
}

/// Taking the integer part keeps the order.
pub proof fn lemma_saturated_order(a: Float, b: Float, limit: nat)
    requires
        !a.nan(),
        !b.nan(),
        a.value() <= b.value(),
    ensures
        a.saturated(limit) <= b.saturated(limit),
{
    reveal(Float::saturated);
    lemma_pow2_pos(149);
    lemma_value_bounded(a);
    lemma_value_bounded(b);
    if !a.negative() {
        if b.negative() {
            lemma_units_order(0, a.mag());
            vstd::arithmetic::div_mod::lemma_basic_div(0, pow2(149) as int);
        } else {
            vstd::arithmetic::div_mod::lemma_div_is_ordered(
                a.units() as int,
                b.units() as int,
                pow2(149) as int,
            );
        }
    }
}

/// A result below `2^(24 + k)` units is off by half of `2^k` units at most.
pub proof fn lemma_off_by(num: int, den: nat, k: nat)
    requires
        den > 0,
        k <= 252,
        size(num) < den * pow2(24 + k),
    ensures
        -(den * pow2(k)) <= 2 * (nearest_value(num, den) * den - num) <= den * pow2(k),
        -beyond() < nearest_value(num, den) < beyond(),
{
    let n = size(num);
    let j = binade(n, den);
    lemma_binade_bounds(n, den);
    if j > k {
        lemma_pow2_le(24 + k, (23 + j) as nat);
        assert(den * pow2(24 + k) <= den * pow2((23 + j) as nat)) by (nonlinear_arith)
            requires
                pow2(24 + k) <= pow2((23 + j) as nat),
        ;
    }
    lemma_pow2_le(j, k);
    lemma_pow2_pos(j);
    let (p, q) = (pow2(j), pow2(k));
    assert(den * p > 0 && den * p <= den * q) by (nonlinear_arith)
        requires
            den > 0,
            0 < p <= q,
    ;
    lemma_half_even_bounds(n, den * p);
    crate::rounding::lemma_significand_range(n, den);
    let h = half_even(n, den * p);
    assert(round_magnitude(n, den) < 0x7f80_0000);
    lemma_rounded_units(n, den);
    lemma_units_order(round_magnitude(n, den), 0x7f80_0000);
    let u = magnitude_units(round_magnitude(n, den));
    assert(2 * (u * den) <= 2 * n + den * p && 2 * (u * den) >= 2 * n - den * p) by (nonlinear_arith)
        requires
            u == h * p,
            2 * n <= (2 * h + 1) * (den * p),
            2 * n >= (2 * h - 1) * (den * p),
    ;
    assert((-(u as int)) * den == -(u * den)) by (nonlinear_arith);
}

/// A result of `2^24` units or more is off by one part in `2^24` at most.
pub proof fn lemma_relative(num: nat, den: nat)
    requires
        den > 0,
        num >= den * 0x100_0000,
        round_magnitude(num, den) < 0x7f80_0000,
    ensures
        0x100_0000 * (magnitude_units(round_magnitude(num, den)) * den) <= 0x100_0001 * num,
        0x100_0000 * (magnitude_units(round_magnitude(num, den)) * den) >= 0xff_ffff * num,
{
    let j = binade(num, den);
    lemma_binade_bounds(num, den);
    lemma2_to64();
    lemma_pow2_adds(23, j);
    let p = pow2(j);
    lemma_pow2_pos(j);
    assert(j > 0);
    assert(den * (0x80_0000 * p) == 0x80_0000 * (den * p)) by (nonlinear_arith);
    assert(den * p > 0) by (nonlinear_arith)
        requires
            den > 0,
            p > 0,
    ;
    lemma_half_even_bounds(num, den * p);
    lemma_rounded_units(num, den);
    let h = half_even(num, den * p);
    let u = magnitude_units(round_magnitude(num, den));
    assert(2 * (u * den) <= 2 * num + den * p && 2 * (u * den) >= 2 * num - den * p) by (nonlinear_arith)
        requires
            u == h * p,
            2 * num <= (2 * h + 1) * (den * p),
            2 * num >= (2 * h - 1) * (den * p),
    ;
}

/// A part of a number that is not negative is not negative, and no larger.
pub proof fn lemma_part(f: Float, r: Float)
    requires
        f.finite(),
        r.finite(),
        0 <= f.value() <= dec(1, 1).value(),
        0 <= r.value(),
    ensures
        f.mul(r).finite(),
        0 <= f.mul(r).value() <= r.value(),
{
    reveal(Float::spec_mul);
    lemma_dec_int(1);
    lemma_pow2_pos(149);
    let (x, y, p) = (f.units(), r.units(), pow2(149));
    assert(1 * p == p);
    assert(x * y * 1 <= y * p) by (nonlinear_arith)
        requires
            x <= p,
    ;
    lemma_round_monotone(x * y, p, y, 1);
    lemma_round_exact(r.mag());
    let m = round_magnitude(x * y, p);
    lemma_units_order(r.mag(), m);
    let negative = f.negative() != r.negative();
    lemma_signed(negative, m);
    if negative {
        lemma_units_order(0, f.mag());
        lemma_units_order(0, r.mag());
        assert(x * y == 0) by (nonlinear_arith)
            requires
                x == 0 || y == 0,
        ;
        lemma_round_zero(p);
        lemma_units_order(0, m);
    }
}

/// One times a number is the number.
pub proof fn lemma_whole_part(f: Float, r: Float)
    requires
        f.finite(),
        r.finite(),
        f.value() == dec(1, 1).value(),
    ensures
        f.mul(r).finite(),
        f.mul(r).value() == r.value(),
{
    reveal(Float::spec_mul);
    lemma_dec_int(1);
    lemma_pow2_pos(149);
    let (y, p) = (r.units(), pow2(149));
    assert(f.units() == p);
    assert(!f.negative());
    assert(p * y == y * p) by (nonlinear_arith);
    lemma_round_scale(y, 1, p);
    assert(1 * p == p);
    lemma_round_exact(r.mag());
    lemma_signed(r.negative(), r.mag());
}

} // verus!
