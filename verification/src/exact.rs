//! Where an operation does not round.

use vstd::prelude::*;
use vstd::arithmetic::power2::{pow2, lemma_pow2_pos, lemma_pow2_adds};
use crate::float::{Float, dec, spec_dec, rounded, lemma_fits, lemma_round_exact, lemma_signed, lemma_units_order};
use crate::root::{is_nearest_root, root_magnitude, lemma_nearest_root_unique, lemma_root_binade_unique};
use crate::rounding::{binade, half_even, round_magnitude, lemma_binade_bounds, lemma_round_monotone, lemma_round_scale, lemma_round_zero};

verus! {

/// The size of an integer.
pub open spec fn size(v: int) -> nat {
    (if v < 0 {
        -v
    } else {
        v
    }) as nat
}

/// Whether a number of units can be held with at most 24 significant bits.
pub open spec fn representable(v: int) -> bool {
    exists|m: nat, j: nat| #[trigger] fits(v, m, j)
}

/// Whether `v` is a significand `m` at scale `j`, up to its sign.
pub open spec fn fits(v: int, m: nat, j: nat) -> bool {
    m <= 0x100_0000 && j <= 252 && size(v) == m * pow2(j)
}

/// A representable number of units is held as it is.
proof fn lemma_held(negative: bool, v: nat)
    requires
        representable(v as int),
    ensures
        rounded(negative, v, 1).finite(),
        rounded(negative, v, 1).negative() == negative,
        rounded(negative, v, 1).units() == v,
{
    let (m, j) = choose|m: nat, j: nat| #[trigger] fits(v as int, m, j);
    lemma_fits(m, j);
    lemma_signed(negative, round_magnitude(v, 1));
}

/// A sum that can be held comes out exactly.
pub proof fn lemma_add_exact(a: Float, b: Float)
    requires
        a.finite(),
        b.finite(),
        representable(a.value() + b.value()),
    ensures
        a.add(b).finite(),
        a.add(b).value() == a.value() + b.value(),
{
    let s = a.value() + b.value();
    let (m, j) = choose|m: nat, j: nat| #[trigger] fits(s, m, j);
    assert(fits(size(s) as int, m, j));
    lemma_held(true, size(s));
    lemma_held(false, size(s));
    lemma_signed(true, 0);
    lemma_signed(false, 0);
    lemma_units_order(0, 0);
    reveal(Float::spec_add);
}

/// A difference that can be held comes out exactly.
pub proof fn lemma_sub_exact(a: Float, b: Float)
    requires
        a.finite(),
        b.finite(),
        representable(a.value() - b.value()),
    ensures
        a.sub(b).finite(),
        a.sub(b).value() == a.value() - b.value(),
{
    reveal(Float::spec_neg);
    lemma_signed(!b.negative(), b.mag());
    lemma_add_exact(a, b.neg());
}

/// A product that can be held comes out exactly.
pub proof fn lemma_mul_exact(a: Float, b: Float, v: int)
    requires
        a.finite(),
        b.finite(),
        a.value() * b.value() == v * pow2(149),
        representable(v),
    ensures
        a.mul(b).finite(),
        a.mul(b).value() == v,
{
    let (m, j) = choose|m: nat, j: nat| #[trigger] fits(v, m, j);
    assert(fits(size(v) as int, m, j));
    lemma_held(true, size(v));
    lemma_held(false, size(v));
    lemma_pow2_pos(149);
    lemma_round_scale(size(v), 1, pow2(149));
    lemma_sizes(a.value(), b.value(), v, pow2(149));
    assert(1 * pow2(149) == pow2(149));
    reveal(Float::spec_mul);
}

/// Sizes multiply, and so do signs.
proof fn lemma_sizes(a: int, b: int, v: int, p: nat)
    requires
        a * b == v * p,
        p > 0,
    ensures
        size(a) * size(b) == size(v) * p,
        a > 0 && b > 0 || a < 0 && b < 0 ==> v > 0,
        a > 0 && b < 0 || a < 0 && b > 0 ==> v < 0,
        a == 0 || b == 0 ==> v == 0,
{
    assert(a > 0 && b > 0 || a < 0 && b < 0 ==> a * b > 0) by (nonlinear_arith);
    assert(a > 0 && b < 0 || a < 0 && b > 0 ==> a * b < 0) by (nonlinear_arith);
    assert(a == 0 || b == 0 ==> a * b == 0) by (nonlinear_arith);
    assert(v > 0 ==> v * p > 0) by (nonlinear_arith)
        requires
            p > 0,
    ;
    assert(v < 0 ==> v * p < 0) by (nonlinear_arith)
        requires
            p > 0,
    ;
    assert(v == 0 ==> v * p == 0) by (nonlinear_arith);
    assert((-a) * b == -(a * b) && a * (-b) == -(a * b) && (-a) * (-b) == a * b)
        by (nonlinear_arith);
    assert((-v) * p == -(v * p)) by (nonlinear_arith);
}

/// A quotient that can be held comes out exactly.
pub proof fn lemma_div_exact(a: Float, b: Float, v: int)
    requires
        a.finite(),
        b.finite(),
        b.value() != 0,
        a.value() * pow2(149) == v * b.value(),
        representable(v),
    ensures
        a.div(b).finite(),
        a.div(b).value() == v,
{
    let (m, j) = choose|m: nat, j: nat| #[trigger] fits(v, m, j);
    assert(fits(size(v) as int, m, j));
    lemma_held(true, size(v));
    lemma_held(false, size(v));
    lemma_pow2_pos(149);
    let (x, y, p) = (a.value(), b.value(), pow2(149));
    lemma_sizes(v, y, x, p);
    lemma_units_order(0, b.mag());
    lemma_round_scale(size(v), 1, b.units());
    assert(1 * b.units() == b.units());
    assert(v == 0 ==> v * y == 0) by (nonlinear_arith);
    assert(v > 0 && y > 0 || v < 0 && y < 0 ==> v * y > 0) by (nonlinear_arith);
    assert(v > 0 && y < 0 || v < 0 && y > 0 ==> v * y < 0) by (nonlinear_arith);
    reveal(Float::spec_div);
}

/// A small multiple of a power of two can be held.
pub proof fn lemma_representable(v: int, m: nat, j: nat)
    requires
        size(v) == m * pow2(j),
        m <= 0x100_0000,
        j <= 252,
    ensures
        representable(v),
{
    assert(fits(v, m, j));
}

/// An integer constant is what it says.
pub proof fn lemma_dec_int(n: u64)
    requires
        n <= 0x100_0000,
    ensures
        dec(n, 1).finite(),
        !dec(n, 1).negative(),
        dec(n, 1).value() == n * pow2(149),
{
    reveal(spec_dec);
    lemma_fits(n as nat, 149);
    lemma_signed(false, round_magnitude(n as nat * pow2(149), 1));
}

/// A root that can be held comes out exactly.
pub proof fn lemma_sqrt_exact(x: Float, v: nat)
    requires
        x.finite(),
        x.value() >= 0,
        x.value() * pow2(149) == v * v,
        v > 0,
        representable(v as int),
    ensures
        x.sqrt().finite(),
        x.sqrt().value() == v,
{
    let (m, j) = choose|m: nat, j: nat| #[trigger] fits(v as int, m, j);
    lemma_fits(m, j);
    let n = v * v;
    let k = binade(v, 1);
    let p = pow2(k);
    let h = half_even(v, p);
    assert(v == h * p);
    lemma_binade_bounds(v, 1);
    lemma_pow2_pos(k);
    assert(1 * pow2(24 + k) == pow2(24 + k));
    assert(1 * pow2((23 + k) as nat) == pow2((23 + k) as nat));
    lemma_pow2_adds(24 + k, 24 + k);
    assert(n < pow2(24 + k) * pow2(24 + k)) by (nonlinear_arith)
        requires
            n == v * v,
            v < pow2(24 + k),
    ;
    if k > 0 {
        lemma_pow2_adds((23 + k) as nat, (23 + k) as nat);
        assert(n >= pow2((23 + k) as nat) * pow2((23 + k) as nat)) by (nonlinear_arith)
            requires
                n == v * v,
                v >= pow2((23 + k) as nat),
        ;
    }
    lemma_root_binade_unique(n, k);
    let (up, down) = ((2 * h + 1) * p, (2 * h - 1) * p);
    assert(up == 2 * v + p && down == 2 * v - p) by (nonlinear_arith)
        requires
            up == (2 * h + 1) * p,
            down == (2 * h - 1) * p,
            v == h * p,
    ;
    assert(4 * n < up * up) by (nonlinear_arith)
        requires
            n == v * v,
            up == 2 * v + p,
            p > 0,
    ;
    assert(h > 0) by {
        if h == 0 {
            assert(0 * p == 0);
        }
    }
    assert(down >= 0) by (nonlinear_arith)
        requires
            h > 0,
            p > 0,
            down == (2 * h - 1) * p,
    ;
    assert(4 * n > down * down) by (nonlinear_arith)
        requires
            n == v * v,
            down == 2 * v - p,
            down >= 0,
            p > 0,
    ;
    assert(is_nearest_root(n, p, h));
    let g = choose|g: nat| is_nearest_root(n, p, g);
    lemma_nearest_root_unique(n, p, g, h);
    assert(root_magnitude(n) == round_magnitude(v, 1));
    lemma_signed(false, round_magnitude(v, 1));
    lemma_units_order(0, x.mag());
    assert(v * v > 0) by (nonlinear_arith)
        requires
            v > 0,
    ;
    assert(0 * pow2(149) == 0);
    reveal(Float::spec_sqrt);
}

/// Adding zero changes no number.
pub proof fn lemma_add_zero(a: Float, z: Float)
    requires
        a.finite(),
        z.mag() == 0,
    ensures
        a.add(z).finite(),
        a.add(z).value() == a.value(),
        z.add(a).finite(),
        z.add(a).value() == a.value(),
{
    reveal(Float::spec_add);
    lemma_units_order(0, 0);
    lemma_units_order(0, a.mag());
    lemma_round_exact(a.mag());
    lemma_signed(true, a.mag());
    lemma_signed(false, a.mag());
}

/// Subtracting zero changes no number.
pub proof fn lemma_sub_zero(a: Float, z: Float)
    requires
        a.finite(),
        z.mag() == 0,
    ensures
        a.sub(z).finite(),
        a.sub(z).value() == a.value(),
{
    reveal(Float::spec_neg);
    lemma_signed(!z.negative(), z.mag());
    lemma_add_zero(a, z.neg());
}

/// Zero times a number is zero.
pub proof fn lemma_mul_zero(a: Float, z: Float)
    requires
        a.finite(),
        z.mag() == 0,
    ensures
        a.mul(z).mag() == 0,
        z.mul(a).mag() == 0,
{
    reveal(Float::spec_mul);
    lemma_units_order(0, 0);
    lemma_pow2_pos(149);
    lemma_round_zero(pow2(149));
    assert(a.units() * 0 == 0 && 0 * a.units() == 0);
}

/// A factor of at most one keeps a number finite.
pub proof fn lemma_mul_bounded(a: Float, b: Float)
    requires
        a.units() <= pow2(149),
        a.finite(),
        b.finite(),
    ensures
        a.mul(b).finite(),
        b.mul(a).finite(),
{
    reveal(Float::spec_mul);
    let (x, y, p) = (a.units(), b.units(), pow2(149));
    lemma_pow2_pos(149);
    assert((x * y) * 1 <= y * p) by (nonlinear_arith)
        requires
            x <= p,
    ;
    assert(x * y == y * x) by (nonlinear_arith);
    lemma_round_monotone(x * y, p, y, 1);
    lemma_round_exact(b.mag());
    lemma_signed(true, round_magnitude(x * y, p));
    lemma_signed(false, round_magnitude(x * y, p));
}

} // verus!
