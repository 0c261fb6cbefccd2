//! How large results can get, and the values of some decimal constants.

use vstd::prelude::*;
use vstd::arithmetic::power2::{pow2, lemma_pow2_pos, lemma_pow2_adds, lemma2_to64};
use crate::float::{Float, NAN, dec, fl, magnitude_units, rounded, scale, significand, spec_dec, lemma_fits, lemma_signed, lemma_units_order};
use crate::rounding::{round_magnitude, lemma_binade_unique, lemma_half_even_unique, lemma_round_monotone};

verus! {

/// Whether a number is finite and at most `m` in size.
pub open spec fn at_most(a: Float, m: nat) -> bool {
    a.finite() && a.units() <= m * pow2(149)
}

/// What is at most an integer still is after rounding.
pub proof fn lemma_rounded_at_most(negative: bool, num: nat, den: nat, m: nat)
    requires
        den > 0,
        m <= 0x100_0000,
        num <= m * pow2(149) * den,
    ensures
        at_most(rounded(negative, num, den), m),
        rounded(negative, num, den).negative() == negative,
{
    let top = m * pow2(149);
    assert(num * 1 <= top * den);
    lemma_round_monotone(num, den, top, 1);
    lemma_fits(m, 149);
    let r = round_magnitude(num, den);
    lemma_units_order(round_magnitude(top, 1), r);
    lemma_signed(negative, r);
}

/// The size of a product.
pub proof fn lemma_mul_at_most(a: Float, b: Float, m: nat, n: nat)
    requires
        at_most(a, m),
        at_most(b, n),
        m * n <= 0x100_0000,
    ensures
        at_most(a.mul(b), m * n),
        a.mul(b).negative() == (a.negative() != b.negative()),
{
    reveal(Float::spec_mul);
    let (x, y, p) = (a.units(), b.units(), pow2(149));
    lemma_pow2_pos(149);
    assert(x * y <= (m * n) * p * p) by (nonlinear_arith)
        requires
            x <= m * p,
            y <= n * p,
    ;
    lemma_rounded_at_most(a.negative() != b.negative(), x * y, p, m * n);
}

/// The size of a sum.
pub proof fn lemma_add_at_most(a: Float, b: Float, m: nat, n: nat)
    requires
        at_most(a, m),
        at_most(b, n),
        m + n <= 0x100_0000,
    ensures
        at_most(a.add(b), m + n),
        !a.negative() && !b.negative() ==> !a.add(b).negative(),
{
    reveal(Float::spec_add);
    let s = a.value() + b.value();
    let p = pow2(149);
    assert((m + n) * p == m * p + n * p) by (nonlinear_arith);
    assert((m + n) * p * 1 == (m + n) * p);
    if s == 0 {
        lemma_signed(a.negative() && b.negative(), 0);
        lemma_units_order(0, 0);
    } else if s < 0 {
        lemma_rounded_at_most(true, (-s) as nat, 1, m + n);
    } else {
        lemma_rounded_at_most(false, s as nat, 1, m + n);
    }
}

/// The size of a decimal constant.
pub proof fn lemma_dec_at_most(num: u64, den: u64, m: nat)
    requires
        den > 0,
        num <= m * den,
        m <= 0x100_0000,
    ensures
        at_most(dec(num, den), m),
        !dec(num, den).negative(),
{
    reveal(spec_dec);
    let p = pow2(149);
    assert(num as nat * p <= m * p * den as nat) by (nonlinear_arith)
        requires
            num <= m * den,
    ;
    lemma_rounded_at_most(false, num as nat * p, den as nat, m);
}

/// Decimal constants are in the order of what they say.
pub proof fn lemma_dec_order(n1: u64, d1: u64, n2: u64, d2: u64)
    requires
        0 < d1 < 0x100_0000,
        0 < d2 < 0x100_0000,
        n1 < 0x100_0000,
        n2 < 0x100_0000,
        n1 * d2 <= n2 * d1,
    ensures
        dec(n1, d1).finite(),
        dec(n2, d2).finite(),
        0 <= dec(n1, d1).value() <= dec(n2, d2).value(),
{
    assert(n1 <= n1 * d1) by (nonlinear_arith)
        requires
            d1 > 0,
    ;
    assert(n2 <= n2 * d2) by (nonlinear_arith)
        requires
            d2 > 0,
    ;
    lemma_dec_at_most(n1, d1, n1 as nat);
    lemma_dec_at_most(n2, d2, n2 as nat);
    reveal(spec_dec);
    let p = pow2(149);
    assert((n1 as nat * p) * d2 as nat <= (n2 as nat * p) * d1 as nat) by (nonlinear_arith)
        requires
            n1 * d2 <= n2 * d1,
    ;
    lemma_round_monotone(n1 as nat * p, d1 as nat, n2 as nat * p, d2 as nat);
    lemma_units_order(dec(n2, d2).mag(), dec(n1, d1).mag());
}

/// The integer part of a number that is at most `m`.
pub proof fn lemma_saturated_at_most(a: Float, m: nat, limit: nat)
    requires
        at_most(a, m) || a.nan(),
    ensures
        a.saturated(limit) <= m,
{
    reveal(Float::saturated);
    if !a.nan() {
        lemma_pow2_pos(149);
        vstd::arithmetic::div_mod::lemma_div_is_ordered(
            a.units() as int,
            (m * pow2(149)) as int,
            pow2(149) as int,
        );
        vstd::arithmetic::div_mod::lemma_div_multiples_vanish(m as int, pow2(149) as int);
        assert(pow2(149) * m == m * pow2(149)) by (nonlinear_arith);
    }
}

/// What holding a number within ordered bounds gives: a number within them, or none
/// where there was none; and doing it twice changes nothing.
pub proof fn lemma_clamp(x: Float, lo: Float, hi: Float)
    requires
        lo.finite(),
        hi.finite(),
        lo.value() <= hi.value(),
    ensures
        x.clamp(lo, hi).nan() == x.nan(),
        !x.nan() ==> x.clamp(lo, hi).finite() && lo.value() <= x.clamp(lo, hi).value() <= hi.value(),
        x.clamp(lo, hi).clamp(lo, hi) == x.clamp(lo, hi),
        x.nan() ==> x.clamp(lo, hi) == x,
        !x.nan() && lo.value() <= x.value() <= hi.value() ==> x.clamp(lo, hi) == x,
{
    reveal(Float::spec_lt);
    lemma_units_order(lo.mag(), x.mag());
    lemma_units_order(hi.mag(), x.mag());
    lemma_units_order(0x7f80_0000, hi.mag());
    lemma_units_order(0x7f80_0000, lo.mag());
}

/// No number times anything is no number, and so is its sum with anything.
pub proof fn lemma_nan(a: Float, b: Float)
    requires
        a.nan() || b.nan(),
    ensures
        a.mul(b) == fl(NAN),
        a.add(b) == fl(NAN),
        a.div(b) == fl(NAN),
        fl(NAN).nan(),
{
    reveal(Float::spec_mul);
    reveal(Float::spec_add);
    reveal(Float::spec_div);
}

/// The magnitude of `m * 2^j / d` units, from its significand and scale.
pub proof fn lemma_round_at(m: nat, j: nat, d: nat, sh: nat, h: nat)
    requires
        d > 0,
        0x80_0000 <= h < 0x100_0000,
        m >= d * 0x80_0000 * pow2(sh),
        (2 * h - 1) * (d * pow2(sh)) < 2 * m < (2 * h + 1) * (d * pow2(sh)),
        j + sh <= 253,
    ensures
        round_magnitude(m * pow2(j), d) == (j + sh) * 0x80_0000 + h,
        round_magnitude(m * pow2(j), d) < 0x7f80_0000,
        magnitude_units(round_magnitude(m * pow2(j), d)) == h * pow2(j + sh),
{
    let k = j + sh;
    let (p, q, r) = (pow2(j), pow2(sh), pow2(k));
    lemma_pow2_pos(j);
    lemma_pow2_pos(sh);
    lemma_pow2_adds(j, sh);
    lemma_pow2_adds(24, k);
    lemma_pow2_adds(23, k);
    lemma2_to64();
    let num = m * p;
    assert(num >= d * (0x80_0000 * r)) by (nonlinear_arith)
        requires
            m >= d * 0x80_0000 * q,
            r == p * q,
            num == m * p,
    ;
    assert(2 * num < (2 * h + 1) * (d * r) && 2 * num > (2 * h - 1) * (d * r)) by (nonlinear_arith)
        requires
            (2 * h - 1) * (d * q) < 2 * m < (2 * h + 1) * (d * q),
            r == p * q,
            num == m * p,
            p > 0,
    ;
    assert(num < d * (0x100_0000 * r)) by (nonlinear_arith)
        requires
            2 * num < (2 * h + 1) * (d * r),
            h < 0x100_0000,
            d * r >= 0,
    ;
    lemma_binade_unique(num, d, k);
    assert(d * r > 0) by (nonlinear_arith)
        requires
            d > 0,
            r == p * q,
            p > 0,
            q > 0,
    ;
    lemma_half_even_unique(num, d * r, h);
    let mag = k * 0x80_0000 + h;
    assert(significand(mag) == h);
    assert(scale(mag) == k);
}

/// The value of a decimal constant, from its significand and scale.
pub proof fn lemma_dec_is(num: u64, den: u64, s: nat, h: nat)
    requires
        den > 0,
        s <= 149,
        0x80_0000 <= h < 0x100_0000,
        num * pow2(s) >= den * 0x80_0000,
        (2 * h - 1) * den < 2 * (num * pow2(s)) < (2 * h + 1) * den,
    ensures
        dec(num, den).finite(),
        !dec(num, den).negative(),
        dec(num, den).value() == h * pow2((149 - s) as nat),
{
    reveal(spec_dec);
    let j = (149 - s) as nat;
    let m = num as nat * pow2(s);
    lemma_pow2_adds(s, j);
    lemma2_to64();
    assert(m * pow2(j) == num as nat * pow2(149)) by (nonlinear_arith)
        requires
            m == num as nat * pow2(s),
            pow2(149) == pow2(s) * pow2(j),
    ;
    assert(den as nat * pow2(0) == den as nat);
    assert(den as nat * 0x80_0000 * pow2(0) == den as nat * 0x80_0000);
    lemma_round_at(m, j, den as nat, 0, h);
    lemma_signed(false, round_magnitude(m * pow2(j), den as nat));
}

} // verus!
