//! Single-precision numbers, held by their bit pattern.
//!
//! Every operation here is exact or correctly rounded, so its meaning is a
//! statement about rationals. The rationals are counted in units of the smallest
//! subnormal, 2^-149: in that unit every finite number is an integer.

use vstd::prelude::*;
use vstd::arithmetic::power2::{pow2, lemma_pow2_pos, lemma_pow2_unfold, lemma_pow2_adds, lemma_pow2_strictly_increases, lemma2_to64};
use crate::rounding::{round_magnitude, round_binary, pow2_above, binade, half_even, round_scaled, bit_len, jammed, lemma_round_scale, lemma_round_quotient, lemma_round_zero, lemma_binade_unique, lemma_binade_bounds, lemma_half_even_unique, lemma_half_even_bounds, lemma_significand_range, lemma_round_monotone};

verus! {

/// A single-precision number of IEEE 754, given by its bits.
#[derive(Clone, Copy, Debug)]
pub struct Float {
    pub bits: u32,
}

/// The number with the given bits.
#[verifier::allow_in_spec]
pub fn fl(bits: u32) -> Float
    returns
        (Float { bits }),
{
    Float { bits }
}

impl PartialEq for Float {
    fn eq(&self, other: &Float) -> (r: bool) {
        self.same(*other)
    }
}

impl vstd::std_specs::cmp::PartialEqSpecImpl for Float {
    open spec fn obeys_eq_spec() -> bool {
        true
    }

    open spec fn eq_spec(&self, other: &Float) -> bool {
        self.spec_same(*other)
    }
}

/// The bits of a pattern that stands for no number.
pub const NAN: u32 = 0x7fc0_0000;

/// The 24-bit significand of a magnitude.
pub open spec fn significand(mag: nat) -> nat {
    if mag < 0x100_0000 {
        mag
    } else {
        0x80_0000 + mag % 0x80_0000
    }
}

/// The power of two that the significand of a magnitude counts, in units.
pub open spec fn scale(mag: nat) -> nat {
    if mag < 0x100_0000 {
        0
    } else {
        (mag / 0x80_0000 - 1) as nat
    }
}

/// What a magnitude stands for, in units. The pattern of infinity comes out as
/// 2^128, above every finite number.
pub open spec fn magnitude_units(mag: nat) -> nat {
    significand(mag) * pow2(scale(mag))
}

/// The number with the given sign and magnitude.
pub open spec fn signed(negative: bool, mag: nat) -> Float {
    Float {
        bits: (if negative {
            mag + 0x8000_0000
        } else {
            mag
        }) as u32,
    }
}

/// The number nearest to `num / den` units, with the given sign.
pub open spec fn rounded(negative: bool, num: nat, den: nat) -> Float {
    signed(negative, round_magnitude(num, den))
}

/// The number nearest to an integer.
#[verifier::opaque]
pub open spec fn of_nat(n: nat) -> Float {
    rounded(false, n * pow2(149), 1)
}

/// Dividing a product by one of its factors.
proof fn lemma_cancel(a: nat, p: nat)
    requires
        p > 0,
    ensures
        (a * p) / p == a,
{
    vstd::arithmetic::div_mod::lemma_div_multiples_vanish(a as int, p as int);
    assert(a * p == p * a) by (nonlinear_arith);
}

/// Cancelling a common factor keeps the quotient.
proof fn lemma_cancel_both(a: nat, d: nat, p: nat)
    requires
        d > 0,
        p > 0,
    ensures
        (a * p) / (d * p) == a / d,
{
    vstd::arithmetic::div_mod::lemma_div_multiples_vanish_quotient(p as int, a as int, d as int);
    assert(a * p == p * a) by (nonlinear_arith);
    assert(d * p == p * d) by (nonlinear_arith);
}

/// A larger magnitude stands for a larger number.
pub proof fn lemma_units_increase(a: nat, b: nat)
    requires
        a < b,
    ensures
        magnitude_units(a) < magnitude_units(b),
{
    let (ka, kb) = (scale(a), scale(b));
    lemma_pow2_pos(ka);
    lemma_pow2_pos(kb);
    if b < 0x100_0000 {
        lemma2_to64();
    } else if a < 0x100_0000 || ka < kb {
        assert(significand(a) < 0x100_0000);
        lemma2_to64();
        if ka + 1 < kb {
            lemma_pow2_strictly_increases(ka + 1, kb);
        }
        lemma_pow2_unfold(ka + 1);
        let (pa, pb, sa, sb) = (pow2(ka), pow2(kb), significand(a), significand(b));
        assert(sa * pa < sb * pb) by (nonlinear_arith)
            requires
                sa < 0x100_0000,
                2 * pa <= pb,
                sb >= 0x80_0000,
                pa > 0,
        ;
    } else {
        assert(ka == kb);
        let (p, sa, sb) = (pow2(ka), significand(a), significand(b));
        assert(sa * p < sb * p) by (nonlinear_arith)
            requires
                sa < sb,
                p > 0,
        ;
    }
}

/// Comparing magnitudes compares what they stand for.
pub proof fn lemma_units_order(a: nat, b: nat)
    ensures
        a < b <==> magnitude_units(a) < magnitude_units(b),
        a == b <==> magnitude_units(a) == magnitude_units(b),
        magnitude_units(0) == 0,
{
    if a < b {
        lemma_units_increase(a, b);
    } else if b < a {
        lemma_units_increase(b, a);
    }
    assert(0 * pow2(0) == 0);
}

/// A magnitude rounds to itself.
pub proof fn lemma_round_exact(mag: nat)
    requires
        mag <= 0x7f80_0000,
    ensures
        round_magnitude(magnitude_units(mag), 1) == mag,
{
    let (k, m) = (scale(mag), significand(mag));
    lemma2_to64();
    lemma_pow2_pos(k);
    lemma_pow2_adds(24, k);
    lemma_pow2_adds(23, k);
    let p = pow2(k);
    assert(m * p < 0x100_0000 * p) by (nonlinear_arith)
        requires
            m < 0x100_0000,
            p > 0,
    ;
    if k > 0 {
        assert(m * p >= 0x80_0000 * p) by (nonlinear_arith)
            requires
                m >= 0x80_0000,
                p > 0,
        ;
    }
    lemma_binade_unique(m * p, 1, k);
    assert((2 * m + 1) * p == 2 * (m * p) + p) by (nonlinear_arith);
    assert((2 * m - 1) * p == 2 * (m * p) - p) by (nonlinear_arith);
    lemma_half_even_unique(m * p, p, m);
    assert(1 * pow2(k) == p);
}

/// What a rounded magnitude stands for, by its significand and binade.
pub proof fn lemma_rounded_units(num: nat, den: nat)
    requires
        den > 0,
        round_magnitude(num, den) < 0x7f80_0000,
    ensures
        magnitude_units(round_magnitude(num, den)) == half_even(
            num,
            den * pow2(binade(num, den)),
        ) * pow2(binade(num, den)),
{
    let k = binade(num, den);
    let h = half_even(num, den * pow2(k));
    lemma_significand_range(num, den);
    lemma2_to64();
    lemma_pow2_unfold(k + 1);
    let r = round_magnitude(num, den);
    assert(r == k * 0x80_0000 + h);
    if h == 0x100_0000 {
        assert(scale(r) == k + 1);
        assert(significand(r) == 0x80_0000);
    } else {
        assert(scale(r) == k);
        assert(significand(r) == h);
    }
}

/// No magnitude is nearer to a rational than the one that it rounds to.
pub proof fn rounding_is_nearest(num: nat, den: nat, other: nat)
    requires
        den > 0,
        round_magnitude(num, den) < 0x7f80_0000,
        other < 0x7f80_0000,
    ensures
        ({
            let near = magnitude_units(round_magnitude(num, den)) * den - num;
            let far = magnitude_units(other) * den - num;
            (if near < 0 {
                -near
            } else {
                near
            }) <= (if far < 0 {
                -far
            } else {
                far
            })
        }),
{
    let r = round_magnitude(num, den);
    let k = binade(num, den);
    let p = pow2(k);
    let h = half_even(num, den * p);
    let (ur, uc) = (magnitude_units(r), magnitude_units(other));
    lemma_rounded_units(num, den);
    lemma_significand_range(num, den);
    lemma_half_even_bounds(num, den * p);
    lemma_pow2_pos(k);
    lemma_binade_bounds(num, den);
    lemma_round_exact(other);
    lemma_pow2_adds(23, k);
    lemma2_to64();
    assert((2 * h + 1) * (den * p) == (2 * (h * p) + p) * den) by (nonlinear_arith);
    assert((2 * h - 1) * (den * p) == (2 * (h * p) - p) * den) by (nonlinear_arith);
    if other < r {
        lemma_units_increase(other, r);
        assert(uc * den <= ur * den) by (nonlinear_arith)
            requires
                uc <= ur,
        ;
        if ur * den > num {
            // the next magnitude down is one step of the binade away
            if k > 0 && h == 0x80_0000 {
                assert(den * (0x80_0000 * p) == ur * den) by (nonlinear_arith)
                    requires
                        ur == 0x80_0000 * p,
                ;
            } else {
                assert(h > 0) by {
                    if h == 0 {
                        assert(0 * p == 0);
                        assert(0 * den == 0);
                    }
                }
                lemma_step_down(k, h);
                let prev = (r - 1) as nat;
                lemma_units_order(other, prev);
                assert(uc <= ur - p);
                assert(2 * num >= (uc + ur) * den) by (nonlinear_arith)
                    requires
                        2 * num >= (2 * ur - p) * den,
                        uc <= ur - p,
                        den > 0,
                ;
                assert((uc + ur) * den == uc * den + ur * den) by (nonlinear_arith);
            }
        }
        if uc * den > num {
            // rounding keeps the order
            lemma_round_monotone(num, den, uc, 1);
        }
    } else if other > r {
        lemma_units_increase(r, other);
        assert(uc * den >= ur * den) by (nonlinear_arith)
            requires
                uc >= ur,
        ;
        if ur * den < num {
            lemma_step_up(k, h);
            lemma_units_order(r + 1, other);
            assert(uc >= ur + p);
            assert(2 * num <= (uc + ur) * den) by (nonlinear_arith)
                requires
                    2 * num <= (2 * ur + p) * den,
                    uc >= ur + p,
                    den > 0,
            ;
            assert((uc + ur) * den == uc * den + ur * den) by (nonlinear_arith);
        }
        if uc * den < num {
            lemma_round_monotone(uc, 1, num, den);
        }
    }
}

/// One magnitude below a significand of a binade.
proof fn lemma_step_down(k: nat, h: nat)
    requires
        0 < h <= 0x100_0000,
        k > 0 ==> h > 0x80_0000,
    ensures
        magnitude_units((k * 0x80_0000 + h - 1) as nat) == h * pow2(k) - pow2(k),
{
    let r = (k * 0x80_0000 + h - 1) as nat;
    assert(scale(r) == k && significand(r) == h - 1);
    assert((h - 1) * pow2(k) == h * pow2(k) - pow2(k)) by (nonlinear_arith);
}

/// One magnitude above a significand of a binade.
proof fn lemma_step_up(k: nat, h: nat)
    requires
        h <= 0x100_0000,
        k > 0 ==> h >= 0x80_0000,
    ensures
        magnitude_units((k * 0x80_0000 + h + 1) as nat) >= h * pow2(k) + pow2(k),
{
    let r = (k * 0x80_0000 + h + 1) as nat;
    lemma_pow2_unfold(k + 1);
    assert((h + 1) * pow2(k) == h * pow2(k) + pow2(k)) by (nonlinear_arith);
    if h >= 0xff_ffff {
        assert(scale(r) == k + 1);
        let s = significand(r);
        assert(2 * s >= h + 1);
        assert(s * (2 * pow2(k)) == (2 * s) * pow2(k)) by (nonlinear_arith);
        assert((2 * s) * pow2(k) >= (h + 1) * pow2(k)) by (nonlinear_arith)
            requires
                2 * s >= h + 1,
        ;
    } else {
        assert(scale(r) == k && significand(r) == h + 1);
    }
}

/// Adding something far below the last digit of a magnitude rounds back to it.
proof fn lemma_absorb(mag: nat, delta: nat, up: bool)
    requires
        0x100_0000 <= mag < 0x7f80_0000,
        4 * delta < pow2(scale(mag)),
    ensures
        delta <= magnitude_units(mag),
        up ==> round_magnitude(magnitude_units(mag) + delta, 1) == mag,
        !up ==> round_magnitude((magnitude_units(mag) - delta) as nat, 1) == mag,
{
    let (k, m) = (scale(mag), significand(mag));
    lemma2_to64();
    lemma_pow2_pos(k);
    lemma_pow2_adds(24, k);
    lemma_pow2_adds(23, k);
    lemma_pow2_adds(22, k);
    lemma_pow2_unfold(k);
    let p = pow2(k);
    let n: nat = m * p;
    assert(n + p <= 0x100_0000 * p && n >= 0x80_0000 * p) by (nonlinear_arith)
        requires
            0x80_0000 <= m < 0x100_0000,
            p > 0,
            n == m * p,
    ;
    assert((2 * m + 1) * p == 2 * n + p) by (nonlinear_arith)
        requires
            n == m * p,
    ;
    assert((2 * m - 1) * p == 2 * n - p) by (nonlinear_arith)
        requires
            n == m * p,
    ;
    assert(1 * pow2(k) == p);
    if up {
        lemma_binade_unique(n + delta, 1, k);
        lemma_half_even_unique(n + delta, p, m);
    } else if delta == 0 || m > 0x80_0000 {
        assert(n - delta >= 0x80_0000 * p) by (nonlinear_arith)
            requires
                delta == 0 || (m > 0x80_0000 && delta < p),
                m >= 0x80_0000,
                p > 0,
                n == m * p,
        ;
        lemma_binade_unique((n - delta) as nat, 1, k);
        lemma_half_even_unique((n - delta) as nat, p, m);
    } else {
        let j = (k - 1) as nat;
        let h = pow2(j);
        lemma_pow2_adds(24, j);
        lemma_pow2_adds(23, j);
        assert(n == 0x100_0000 * h) by (nonlinear_arith)
            requires
                n == m * p,
                m == 0x80_0000,
                p == 2 * h,
        ;
        lemma_binade_unique((n - delta) as nat, 1, j);
        assert((2 * 0x100_0000nat + 1) * h == 2 * n + h) by (nonlinear_arith)
            requires
                n == 0x100_0000 * h,
        ;
        assert((2 * 0x100_0000nat - 1) * h == 2 * n - h) by (nonlinear_arith)
            requires
                n == 0x100_0000 * h,
        ;
        lemma_half_even_unique((n - delta) as nat, h, 0x100_0000);
        assert(1 * pow2(j) == h);
    }
}

/// The order of the summands does not matter to finite numbers.
proof fn lemma_add_commutes(a: Float, b: Float)
    requires
        a.finite(),
        b.finite(),
    ensures
        a.spec_add(b) == b.spec_add(a),
{
    reveal(Float::spec_add);
}

/// The sign and magnitude that a number is made of.
pub proof fn lemma_signed(negative: bool, mag: nat)
    requires
        mag < 0x8000_0000,
    ensures
        signed(negative, mag).negative() == negative,
        signed(negative, mag).mag() == mag,
{
}

/// The difference of two finite numbers.
pub proof fn lemma_difference(a: Float, b: Float)
    requires
        a.finite(),
        b.finite(),
    ensures
        a.sub(b) == if a.value() == b.value() {
            signed(a.negative() && !b.negative(), 0)
        } else if a.value() < b.value() {
            signed(true, round_magnitude((b.value() - a.value()) as nat, 1))
        } else {
            signed(false, round_magnitude((a.value() - b.value()) as nat, 1))
        },
{
    reveal(Float::spec_add);
    reveal(Float::spec_neg);
    lemma_signed(!b.negative(), b.mag());
}

/// A summand far below the last digit of the other is lost.
proof fn lemma_sum_absorbs(big: Float, small: Float)
    requires
        big.finite(),
        small.finite(),
        big.mag() >= 0x100_0000,
        4 * small.units() < pow2(scale(big.mag())),
    ensures
        big.spec_add(small) == big,
{
    reveal(Float::spec_add);
    lemma_absorb(big.mag(), small.units(), big.negative() == small.negative());
    lemma_pow2_pos(scale(big.mag()));
    let (m, p) = (significand(big.mag()), pow2(scale(big.mag())));
    assert(m * p >= p) by (nonlinear_arith)
        requires
            m >= 1,
            p > 0,
    ;
}

/// The sum of two finite numbers from their exact sum or difference.
proof fn lemma_sum_rounds(big: Float, small: Float, m: nat, e: nat)
    requires
        big.finite(),
        small.finite(),
        m * pow2(e) == if big.negative() == small.negative() {
            (big.units() + small.units()) as int
        } else {
            big.units() - small.units()
        },
    ensures
        m == 0 ==> big.spec_add(small) == signed(big.negative() && small.negative(), 0),
        m > 0 ==> big.spec_add(small) == signed(big.negative(), round_binary(m, e as int)),
{
    reveal(Float::spec_add);
    lemma_pow2_pos(e);
    lemma_round_binary_int(m, e);
    let q = pow2(e);
    if m == 0 {
        assert(0 * q == 0);
    } else {
        assert(m * q > 0) by (nonlinear_arith)
            requires
                m > 0,
                q > 0,
        ;
    }
}

/// `m * 2^e` in units, for an `e` that is not negative.
proof fn lemma_round_binary_int(m: nat, e: nat)
    ensures
        round_binary(m, e as int) == round_magnitude(m * pow2(e), 1),
{
    lemma2_to64();
}

/// The significand and scale of a magnitude.
pub(crate) fn parts(mag: u32) -> (r: (u64, i32))
    requires
        mag <= 0x7f80_0000,
    ensures
        r.0 == significand(mag as nat),
        r.1 == scale(mag as nat),
        r.0 < 0x100_0000,
        0 <= r.1 <= 254,
{
    if mag < 0x100_0000 {
        (mag as u64, 0)
    } else {
        ((0x80_0000 + mag % 0x80_0000) as u64, (mag / 0x80_0000 - 1) as i32)
    }
}

/// The number with the given sign and magnitude.
pub(crate) fn make(negative: bool, mag: u32) -> (r: Float)
    requires
        mag < 0x8000_0000,
    ensures
        r == signed(negative, mag as nat),
{
    if negative {
        Float { bits: mag + 0x8000_0000 }
    } else {
        Float { bits: mag }
    }
}

impl Float {
    /// The low 31 bits.
    pub open spec fn mag(self) -> nat {
        self.bits as nat % 0x8000_0000
    }

    /// Whether the sign bit is set.
    pub open spec fn negative(self) -> bool {
        self.bits >= 0x8000_0000
    }

    /// Whether this stands for no number.
    pub open spec fn nan(self) -> bool {
        self.mag() > 0x7f80_0000
    }

    /// Whether this is an infinity.
    pub open spec fn infinite(self) -> bool {
        self.mag() == 0x7f80_0000
    }

    /// Whether this stands for a number of finite size.
    pub open spec fn finite(self) -> bool {
        self.mag() < 0x7f80_0000
    }

    /// The size of the number, in units.
    pub open spec fn units(self) -> nat {
        magnitude_units(self.mag())
    }

    /// The number itself, in units.
    pub open spec fn value(self) -> int {
        if self.negative() {
            -self.units()
        } else {
            self.units() as int
        }
    }

    /// The integer part of the size.
    pub open spec fn whole(self) -> nat {
        self.units() / pow2(149)
    }

    /// The integer part, held within the unsigned integers up to `limit`.
    #[verifier::opaque]
    pub open spec fn saturated(self, limit: nat) -> nat {
        if self.nan() || self.negative() {
            0
        } else if self.whole() > limit {
            limit
        } else {
            self.whole()
        }
    }

    /// The integer part, held within the 16-bit integers.
    #[verifier::opaque]
    pub open spec fn saturated_i16(self) -> int {
        if self.nan() {
            0
        } else if self.negative() {
            if self.whole() > 0x8000 {
                -0x8000
            } else {
                -self.whole()
            }
        } else {
            if self.whole() > 0x7fff {
                0x7fff
            } else {
                self.whole() as int
            }
        }
    }

    /// The nearest integer, ties away from zero.
    #[verifier::opaque]
    pub open spec fn spec_round(self) -> Float {
        if self.nan() || self.infinite() {
            self
        } else {
            let n = (2 * self.units() + pow2(149)) / (2 * pow2(149));
            rounded(self.negative(), n * pow2(149), 1)
        }
    }

    #[verifier::opaque]
    pub open spec fn spec_neg(self) -> Float {
        signed(!self.negative(), self.mag())
    }

    #[verifier::opaque]
    pub open spec fn spec_abs(self) -> Float {
        signed(false, self.mag())
    }

    #[verifier::opaque]
    pub open spec fn spec_add(self, b: Float) -> Float {
        if self.nan() || b.nan() {
            fl(NAN)
        } else if self.infinite() {
            if b.infinite() && self.negative() != b.negative() {
                fl(NAN)
            } else {
                self
            }
        } else if b.infinite() {
            b
        } else {
            let s = self.value() + b.value();
            if s == 0 {
                signed(self.negative() && b.negative(), 0)
            } else if s < 0 {
                rounded(true, (-s) as nat, 1)
            } else {
                rounded(false, s as nat, 1)
            }
        }
    }

    pub open spec fn spec_sub(self, b: Float) -> Float {
        self.spec_add(b.spec_neg())
    }

    #[verifier::opaque]
    pub open spec fn spec_mul(self, b: Float) -> Float {
        let negative = self.negative() != b.negative();
        if self.nan() || b.nan() {
            fl(NAN)
        } else if self.infinite() || b.infinite() {
            if self.mag() == 0 || b.mag() == 0 {
                fl(NAN)
            } else {
                signed(negative, 0x7f80_0000)
            }
        } else {
            rounded(negative, self.units() * b.units(), pow2(149))
        }
    }

    #[verifier::opaque]
    pub open spec fn spec_div(self, b: Float) -> Float {
        let negative = self.negative() != b.negative();
        if self.nan() || b.nan() {
            fl(NAN)
        } else if self.infinite() {
            if b.infinite() {
                fl(NAN)
            } else {
                signed(negative, 0x7f80_0000)
            }
        } else if b.infinite() {
            signed(negative, 0)
        } else if b.mag() == 0 {
            if self.mag() == 0 {
                fl(NAN)
            } else {
                signed(negative, 0x7f80_0000)
            }
        } else {
            rounded(negative, self.units() * pow2(149), b.units())
        }
    }

    #[verifier::opaque]
    pub open spec fn spec_lt(self, b: Float) -> bool {
        !self.nan() && !b.nan() && self.value() < b.value()
    }

    #[verifier::opaque]
    pub open spec fn spec_le(self, b: Float) -> bool {
        !self.nan() && !b.nan() && self.value() <= b.value()
    }

    #[verifier::opaque]
    pub open spec fn spec_same(self, b: Float) -> bool {
        !self.nan() && !b.nan() && self.value() == b.value()
    }

    /// The larger number; a number where the other is none.
    pub open spec fn spec_max(self, b: Float) -> Float {
        if self.nan() || self.spec_lt(b) {
            b
        } else {
            self
        }
    }

    /// The smaller number; a number where the other is none.
    pub open spec fn spec_min(self, b: Float) -> Float {
        if self.nan() || b.spec_lt(self) {
            b
        } else {
            self
        }
    }

    /// `lo` below `lo`, `hi` above `hi`, else unchanged.
    pub open spec fn spec_clamp(self, lo: Float, hi: Float) -> Float {
        if self.spec_lt(lo) {
            lo
        } else if hi.spec_lt(self) {
            hi
        } else {
            self
        }
    }

    pub(crate) fn magnitude(self) -> (r: u32)
        ensures
            r == self.mag(),
            r < 0x8000_0000,
    {
        self.bits % 0x8000_0000
    }

    pub(crate) fn is_negative(self) -> (r: bool)
        ensures
            r == self.negative(),
    {
        self.bits >= 0x8000_0000
    }

    /// Whether this stands for no number.
    pub fn is_nan(self) -> (r: bool)
        ensures
            r == self.nan(),
    {
        self.magnitude() > 0x7f80_0000
    }

    /// The number with its sign turned.
    #[verifier::when_used_as_spec(spec_neg)]
    pub fn neg(self) -> (r: Float)
        ensures
            r == self.spec_neg(),
    {
        proof {
            reveal(Float::spec_neg);
        }
        make(!self.is_negative(), self.magnitude())
    }

    /// The number without its sign.
    #[verifier::when_used_as_spec(spec_abs)]
    pub fn abs(self) -> (r: Float)
        ensures
            r == self.spec_abs(),
    {
        proof {
            reveal(Float::spec_abs);
        }
        make(false, self.magnitude())
    }

    /// The order of two numbers by sign and magnitude.
    fn key(self) -> (r: i64)
        ensures
            r == if self.negative() {
                -self.mag()
            } else {
                self.mag() as int
            },
    {
        if self.is_negative() {
            -(self.magnitude() as i64)
        } else {
            self.magnitude() as i64
        }
    }

    /// `self < b`.
    #[verifier::when_used_as_spec(spec_lt)]
    pub fn lt(self, b: Float) -> (r: bool)
        ensures
            r == self.spec_lt(b),
    {
        proof {
            reveal(Float::spec_lt);
        }
        proof {
            lemma_units_order(self.mag(), b.mag());
            lemma_units_order(b.mag(), self.mag());
            lemma_units_order(0, b.mag());
            lemma_units_order(0, self.mag());
        }
        !self.is_nan() && !b.is_nan() && self.key() < b.key()
    }

    /// `self <= b`.
    #[verifier::when_used_as_spec(spec_le)]
    pub fn le(self, b: Float) -> (r: bool)
        ensures
            r == self.spec_le(b),
    {
        proof {
            reveal(Float::spec_le);
        }
        proof {
            lemma_units_order(self.mag(), b.mag());
            lemma_units_order(b.mag(), self.mag());
            lemma_units_order(0, b.mag());
            lemma_units_order(0, self.mag());
        }
        !self.is_nan() && !b.is_nan() && self.key() <= b.key()
    }

    /// `self == b`, as numbers.
    #[verifier::when_used_as_spec(spec_same)]
    pub fn same(self, b: Float) -> (r: bool)
        ensures
            r == self.spec_same(b),
    {
        proof {
            reveal(Float::spec_same);
        }
        proof {
            lemma_units_order(self.mag(), b.mag());
            lemma_units_order(b.mag(), self.mag());
            lemma_units_order(0, b.mag());
            lemma_units_order(0, self.mag());
        }
        !self.is_nan() && !b.is_nan() && self.key() == b.key()
    }

    /// The larger number; a number where the other is none.
    #[verifier::when_used_as_spec(spec_max)]
    pub fn max(self, b: Float) -> (r: Float)
        ensures
            r == self.spec_max(b),
    {
        if self.is_nan() || self.lt(b) {
            b
        } else {
            self
        }
    }

    /// The smaller number; a number where the other is none.
    #[verifier::when_used_as_spec(spec_min)]
    pub fn min(self, b: Float) -> (r: Float)
        ensures
            r == self.spec_min(b),
    {
        if self.is_nan() || b.lt(self) {
            b
        } else {
            self
        }
    }

    /// `lo` below `lo`, `hi` above `hi`, else unchanged.
    #[verifier::when_used_as_spec(spec_clamp)]
    pub fn clamp(self, lo: Float, hi: Float) -> (r: Float)
        ensures
            r == self.spec_clamp(lo, hi),
    {
        if self.lt(lo) {
            lo
        } else if hi.lt(self) {
            hi
        } else {
            self
        }
    }

    /// The product, rounded to nearest.
    #[verifier::when_used_as_spec(spec_mul)]
    pub fn mul(self, b: Float) -> (r: Float)
        ensures
            r == self.spec_mul(b),
    {
        proof {
            reveal(Float::spec_mul);
        }
        let (x, y) = (self.magnitude(), b.magnitude());
        let negative = self.is_negative() != b.is_negative();
        if x > 0x7f80_0000 || y > 0x7f80_0000 {
            return fl(NAN);
        }
        if x == 0x7f80_0000 || y == 0x7f80_0000 {
            return if x == 0 || y == 0 {
                fl(NAN)
            } else {
                make(negative, 0x7f80_0000)
            };
        }
        let (mx, ex) = parts(x);
        let (my, ey) = parts(y);
        assert(mx * my < 0x1_0000_0000_0000) by (nonlinear_arith)
            requires
                mx < 0x100_0000,
                my < 0x100_0000,
        ;
        let m: u64 = mx * my;
        let e: i32 = ex + ey - 149;
        proof {
            let (px, py) = (pow2(ex as nat), pow2(ey as nat));
            lemma_pow2_adds(ex as nat, ey as nat);
            let s = (ex + ey) as nat;
            lemma_pow2_pos(s);
            lemma_pow2_pos(149);
            lemma2_to64();
            let (nx, ny, nm) = (mx as nat, my as nat, m as nat);
            assert((nx * px) * (ny * py) == nm * pow2(s)) by (nonlinear_arith)
                requires
                    nm == nx * ny,
                    pow2(s) == px * py,
            ;
            if e > 0 {
                lemma_pow2_adds(e as nat, 149);
                assert(nm * (pow2(e as nat) * pow2(149)) == (nm * pow2(e as nat)) * pow2(149))
                    by (nonlinear_arith);
                lemma_round_scale(nm * pow2(e as nat), 1, pow2(149));
                assert(pow2_above(e as int) == pow2(e as nat) && pow2_above(-e) == 1);
                assert(1 * pow2(149) == pow2(149));
            } else {
                lemma_pow2_adds((-e) as nat, s);
                lemma_pow2_pos((-e) as nat);
                lemma_round_scale(nm, pow2((-e) as nat), pow2(s));
                assert(pow2_above(e as int) == 1 && pow2_above(-e) == pow2((-e) as nat));
                assert(nm * 1 == nm);
            }
            assert(round_binary(nm, e as int) == round_magnitude(nm * pow2(s), pow2(149)));
        }
        make(negative, round_scaled(m, e))
    }

    /// The sum of two finite numbers.
    fn add_finite(self, b: Float) -> (r: Float)
        requires
            self.finite(),
            b.finite(),
        ensures
            r == self.spec_add(b),
    {
        let (big, small) = if self.magnitude() >= b.magnitude() { (self, b) } else { (b, self) };
        let (mb, eb) = parts(big.magnitude());
        let (ms, es) = parts(small.magnitude());
        let d: i32 = eb - es;
        let agree = big.is_negative() == small.is_negative();
        proof {
            lemma_units_order(small.mag(), big.mag());
            lemma2_to64();
            lemma_pow2_pos(es as nat);
            lemma_add_commutes(big, small);
        }
        if d > 36 {
            proof {
                lemma_pow2_adds(es as nat, 24);
                lemma_pow2_adds(24 + es as nat, 2);
                lemma_pow2_strictly_increases((24 + es + 2) as nat, eb as nat);
                let p = pow2(es as nat);
                let ns = ms as nat;
                assert(4 * (ns * p) < (p * 0x100_0000) * 4) by (nonlinear_arith)
                    requires
                        ns < 0x100_0000,
                        p > 0,
                ;
                lemma_sum_absorbs(big, small);
            }
            return big;
        }
        proof {
            lemma_pow2_adds(d as nat, es as nat);
            lemma_pow2_pos(d as nat);
            assert(pow2(d as nat) <= pow2(36)) by {
                if d < 36 {
                    lemma_pow2_strictly_increases(d as nat, 36);
                }
            }
            lemma_pow2_adds(24, 12);
            let (nb, p) = (mb as nat, pow2(d as nat));
            assert(nb * p <= 0x100_0000 * 0x10_0000_0000) by (nonlinear_arith)
                requires
                    nb < 0x100_0000,
                    p <= 0x10_0000_0000,
            ;
            vstd::bits::lemma_u64_shl_is_mul(mb, d as u64);
            let q = pow2(es as nat);
            assert(nb * (p * q) == (nb * p) * q) by (nonlinear_arith);
            let (n, s) = (nb * p, ms as nat);
            assert(n >= s) by (nonlinear_arith)
                requires
                    n * q >= s * q,
                    q > 0,
            ;
            assert((n + s) * q == n * q + s * q) by (nonlinear_arith);
            assert((n - s) * q == n * q - s * q) by (nonlinear_arith);
        }
        let shifted: u64 = mb << (d as u64);
        let m: u64 = if agree { shifted + ms } else { shifted - ms };
        proof {
            lemma_sum_rounds(big, small, m as nat, es as nat);
        }
        if m == 0 {
            return make(self.is_negative() && b.is_negative(), 0);
        }
        make(big.is_negative(), round_scaled(m, es))
    }

    /// The sum, rounded to nearest.
    #[verifier::when_used_as_spec(spec_add)]
    pub fn add(self, b: Float) -> (r: Float)
        ensures
            r == self.spec_add(b),
    {
        proof {
            reveal(Float::spec_add);
        }
        let (x, y) = (self.magnitude(), b.magnitude());
        if x > 0x7f80_0000 || y > 0x7f80_0000 {
            fl(NAN)
        } else if x == 0x7f80_0000 {
            if y == 0x7f80_0000 && self.is_negative() != b.is_negative() {
                fl(NAN)
            } else {
                self
            }
        } else if y == 0x7f80_0000 {
            b
        } else {
            self.add_finite(b)
        }
    }

    /// The difference, rounded to nearest.
    #[verifier::when_used_as_spec(spec_sub)]
    pub fn sub(self, b: Float) -> (r: Float)
        ensures
            r == self.spec_sub(b),
    {
        self.add(b.neg())
    }

    /// The quotient, rounded to nearest.
    #[verifier::when_used_as_spec(spec_div)]
    pub fn div(self, b: Float) -> (r: Float)
        ensures
            r == self.spec_div(b),
    {
        proof {
            reveal(Float::spec_div);
        }
        let (x, y) = (self.magnitude(), b.magnitude());
        let negative = self.is_negative() != b.is_negative();
        if x > 0x7f80_0000 || y > 0x7f80_0000 {
            return fl(NAN);
        }
        if x == 0x7f80_0000 {
            return if y == 0x7f80_0000 { fl(NAN) } else { make(negative, 0x7f80_0000) };
        }
        if y == 0x7f80_0000 {
            return make(negative, 0);
        }
        if y == 0 {
            return if x == 0 { fl(NAN) } else { make(negative, 0x7f80_0000) };
        }
        proof {
            lemma_units_order(0, y as nat);
            lemma2_to64();
        }
        if x == 0 {
            proof {
                assert(0 * pow2(0) == 0);
                assert(0 * pow2(149) == 0);
                lemma_round_zero(b.units());
            }
            return make(negative, 0);
        }
        let (mx, ex) = parts(x);
        let (my, ey) = parts(y);
        let len = bit_len(mx);
        proof {
            if len > 24 {
                lemma_pow2_strictly_increases(23, (len - 1) as nat);
                if len > 25 {
                    lemma_pow2_strictly_increases(24, (len - 1) as nat);
                }
            }
        }
        let t: u32 = 63 - len;
        proof {
            lemma_pow2_adds(len as nat, t as nat);
            lemma_pow2_adds((len - 1) as nat, t as nat);
            lemma_pow2_pos(t as nat);
            lemma_pow2_unfold(63);
            lemma_pow2_unfold(64);
            let (n, p) = (mx as nat, pow2(t as nat));
            assert(n * p < pow2(63)) by (nonlinear_arith)
                requires
                    n < pow2(len as nat),
                    pow2(63) == pow2(len as nat) * p,
                    p > 0,
            ;
            assert(n * p >= pow2(62)) by (nonlinear_arith)
                requires
                    n >= pow2((len - 1) as nat),
                    pow2(62) == pow2((len - 1) as nat) * p,
                    p > 0,
            ;
            vstd::bits::lemma_u64_shl_is_mul(mx, t as u64);
        }
        let n: u64 = mx << (t as u64);
        let q: u64 = n / my;
        let r: u64 = n % my;
        let m: u64 = if r != 0 && q % 2 == 0 { q + 1 } else { q };
        let e: i32 = ex - ey + 149 - t as i32;
        proof {
            let (nn, d) = (n as nat, my as nat);
            vstd::arithmetic::div_mod::lemma_fundamental_div_mod(nn as int, d as int);
            assert(q >= 0x1000_0000) by (nonlinear_arith)
                requires
                    nn == d * q + r,
                    r < d,
                    d < 0x100_0000,
                    nn >= 0x4000_0000_0000_0000,
            ;
            lemma_round_quotient(nn, d, e as int);
            assert(m == jammed(nn / d, nn % d == 0));
            // both fractions are the same
            let (px, py, pt) = (pow2(ex as nat), pow2(ey as nat), pow2(t as nat));
            lemma_pow2_pos(ex as nat);
            lemma_pow2_pos(ey as nat);
            lemma_pow2_pos(149);
            let (up, down) = (pow2_above(e as int), pow2_above(-e));
            lemma_pow2_adds(ex as nat, 149);
            lemma_pow2_adds(ey as nat, t as nat);
            let a = (ex + 149) as nat;
            let c = (ey + t) as nat;
            if e > 0 {
                lemma_pow2_adds(e as nat, c);
                lemma_pow2_pos(e as nat);
                assert(pow2(a) * down == pow2(a)) by (nonlinear_arith)
                    requires
                        down == 1,
                ;
            } else {
                lemma_pow2_adds((-e) as nat, a);
                lemma_pow2_pos((-e) as nat);
                assert(up * pow2(c) == pow2(c)) by (nonlinear_arith)
                    requires
                        up == 1,
                ;
                assert(pow2((-e) as nat) * pow2(a) == pow2(a) * down) by (nonlinear_arith)
                    requires
                        down == pow2((-e) as nat),
                ;
            }
            assert(up * pow2(c) == pow2(a) * down);
            let nx = mx as nat;
            let num = (nx * px) * pow2(149);
            let den = d * py;
            assert(num * pt == nn * pow2(a)) by (nonlinear_arith)
                requires
                    num == (nx * px) * pow2(149),
                    nn == nx * pt,
                    pow2(a) == px * pow2(149),
            ;
            assert(den * pt == d * pow2(c)) by (nonlinear_arith)
                requires
                    den == d * py,
                    pow2(c) == py * pt,
            ;
            assert((num * pt) * down == (nn * up) * pow2(c)) by (nonlinear_arith)
                requires
                    num * pt == nn * pow2(a),
                    up * pow2(c) == pow2(a) * down,
            ;
            assert((den * pt) * down == (d * down) * pow2(c)) by (nonlinear_arith)
                requires
                    den * pt == d * pow2(c),
            ;
            lemma_pow2_pos(c);
            assert(den > 0 && den * pt > 0 && d * down > 0) by (nonlinear_arith)
                requires
                    d > 0,
                    py > 0,
                    pt > 0,
                    down > 0,
                    den == d * py,
            ;
            lemma_round_scale(num, den, pt);
            lemma_round_scale(num * pt, den * pt, down);
            lemma_round_scale(nn * up, d * down, pow2(c));
        }
        make(negative, round_scaled(m, e))
    }

    /// The number nearest to an integer.
    pub fn of_u64(n: u64) -> (r: Float)
        ensures
            r == of_nat(n as nat),
    {
        proof {
            reveal(of_nat);
        }
        proof {
            lemma_round_binary_int(n as nat, 149);
        }
        make(false, round_scaled(n, 149))
    }

    /// The number nearest to a count.
    pub fn of_usize(n: usize) -> (r: Float)
        ensures
            r == of_nat(n as nat),
    {
        Float::of_u64(n as u64)
    }

    /// The integer part of the size, held within 64 bits.
    fn trunc(self) -> (r: u64)
        requires
            !self.nan(),
        ensures
            r == if self.whole() > u64::MAX {
                u64::MAX as nat
            } else {
                self.whole()
            },
    {
        let (m, e) = parts(self.magnitude());
        proof {
            lemma2_to64();
            lemma_pow2_pos(149);
            lemma_pow2_pos(e as nat);
        }
        if e >= 149 {
            let s: i32 = e - 149;
            proof {
                let p = pow2(s as nat);
                lemma_pow2_pos(s as nat);
                lemma_pow2_adds(s as nat, 149);
                let n = m as nat;
                assert(n * (p * pow2(149)) == (n * p) * pow2(149)) by (nonlinear_arith);
                lemma_cancel(n * p, pow2(149));
                if s > 40 {
                    lemma_pow2_adds(23, s as nat);
                    lemma_pow2_adds(23, 41);
                    if s > 41 {
                        lemma_pow2_strictly_increases(41, s as nat);
                    }
                    assert(n * p >= 0x80_0000 * pow2(41)) by (nonlinear_arith)
                        requires
                            n >= 0x80_0000,
                            p >= pow2(41),
                    ;
                } else {
                    if s < 40 {
                        lemma_pow2_strictly_increases(s as nat, 40);
                    }
                    lemma_pow2_adds(24, 40);
                    assert(n * p < 0x100_0000 * pow2(40)) by (nonlinear_arith)
                        requires
                            n < 0x100_0000,
                            0 < p <= pow2(40),
                    ;
                    vstd::bits::lemma_u64_shl_is_mul(m, s as u64);
                }
            }
            if s > 40 {
                u64::MAX
            } else {
                m << (s as u64)
            }
        } else {
            let s: i32 = 149 - e;
            proof {
                lemma_pow2_adds(s as nat, e as nat);
                lemma_pow2_pos(s as nat);
                lemma_cancel_both(m as nat, pow2(s as nat), pow2(e as nat));
                if s >= 64 {
                    if s > 64 {
                        lemma_pow2_strictly_increases(64, s as nat);
                    }
                    vstd::arithmetic::div_mod::lemma_basic_div(m as int, pow2(s as nat) as int);
                } else {
                    vstd::bits::lemma_u64_shr_is_div(m, s as u64);
                }
            }
            if s >= 64 {
                0
            } else {
                m >> (s as u64)
            }
        }
    }

    /// The integer part as a count: zero for what is negative or no number, and
    /// the largest count for what is too large.
    pub fn to_usize(self) -> (r: usize)
        ensures
            r == self.saturated(usize::MAX as nat),
    {
        proof {
            reveal(Float::saturated);
        }
        if self.is_nan() || self.is_negative() {
            return 0;
        }
        let n = self.trunc();
        if n > usize::MAX as u64 {
            usize::MAX
        } else {
            n as usize
        }
    }

    /// The integer part in 32 bits, with the same rule.
    pub fn to_u32(self) -> (r: u32)
        ensures
            r == self.saturated(u32::MAX as nat),
    {
        proof {
            reveal(Float::saturated);
        }
        if self.is_nan() || self.is_negative() {
            return 0;
        }
        let n = self.trunc();
        if n > u32::MAX as u64 {
            u32::MAX
        } else {
            n as u32
        }
    }

    /// The integer part in 16 bits with a sign: the nearest end for what is out of
    /// range, zero for what is no number.
    pub fn to_i16(self) -> (r: i16)
        ensures
            r == self.saturated_i16(),
    {
        proof {
            reveal(Float::saturated_i16);
        }
        if self.is_nan() {
            return 0;
        }
        let n = self.trunc();
        if self.is_negative() {
            if n >= 0x8000 {
                -0x8000
            } else {
                -(n as i16)
            }
        } else if n > 0x7fff {
            0x7fff
        } else {
            n as i16
        }
    }

    /// The nearest integer, ties away from zero.
    #[verifier::when_used_as_spec(spec_round)]
    pub fn round(self) -> (r: Float)
        ensures
            r == self.spec_round(),
    {
        proof {
            reveal(Float::spec_round);
        }
        let x = self.magnitude();
        if x >= 0x7f80_0000 {
            return self;
        }
        let (m, e) = parts(x);
        proof {
            lemma2_to64();
            lemma_pow2_pos(149);
            lemma_pow2_pos(e as nat);
        }
        if e >= 149 {
            proof {
                let (p, q) = (pow2((e - 149) as nat), pow2(149));
                lemma_pow2_adds((e - 149) as nat, 149);
                let c = m as nat * p;
                assert(m as nat * (p * q) == c * q) by (nonlinear_arith)
                    requires
                        c == m as nat * p,
                ;
                assert(2 * (c * q) + q == (2 * q) * c + q) by (nonlinear_arith);
                vstd::arithmetic::div_mod::lemma_fundamental_div_mod_converse(
                    (2 * (c * q) + q) as int,
                    (2 * q) as int,
                    c as int,
                    q as int,
                );
                lemma_round_exact(x as nat);
            }
            return self;
        }
        let s: i32 = 149 - e;
        proof {
            let (p, q, n) = (pow2(e as nat), pow2(s as nat), m as nat);
            lemma_pow2_adds(s as nat, e as nat);
            lemma_pow2_pos(s as nat);
            assert(2 * (n * p) + q * p == (2 * n + q) * p) by (nonlinear_arith);
            assert(2 * (q * p) == (2 * q) * p) by (nonlinear_arith);
            lemma_cancel_both(2 * n + q, 2 * q, p);
            if s > 26 {
                lemma_pow2_strictly_increases(26, s as nat);
                vstd::arithmetic::div_mod::lemma_basic_div((2 * n + q) as int, (2 * q) as int);
                assert(0 * pow2(149) == 0);
                lemma_round_zero(1);
            } else {
                let h = pow2((s - 1) as nat);
                lemma_pow2_unfold(s as nat);
                lemma_pow2_pos((s - 1) as nat);
                assert(2 * n + q == (n + h) * 2);
                assert(2 * q == q * 2);
                lemma_cancel_both(n + h, q, 2);
                if s < 26 {
                    lemma_pow2_strictly_increases(s as nat, 26);
                }
                assert(1 * h == h);
                vstd::bits::lemma_u64_shl_is_mul(1, (s - 1) as u64);
                vstd::bits::lemma_u64_shr_is_div((m + h) as u64, s as u64);
            }
        }
        if s > 26 {
            return make(self.is_negative(), 0);
        }
        let n: u64 = (m + (1u64 << ((s - 1) as u64))) >> (s as u64);
        proof {
            lemma_round_binary_int(n as nat, 149);
        }
        make(self.is_negative(), round_scaled(n, 149))
    }
}

/// The number nearest to `num / den`.
#[verifier::opaque]
pub open spec fn spec_dec(num: u64, den: u64) -> Float {
    rounded(false, num as nat * pow2(149), den as nat)
}

/// The number nearest to `num / den`, which is how the constants of the formulas
/// are written.
#[verifier::when_used_as_spec(spec_dec)]
pub fn dec(num: u64, den: u64) -> (r: Float)
    requires
        num < 0x100_0000,
        0 < den < 0x100_0000,
    ensures
        r == spec_dec(num, den),
{
    proof {
        reveal(spec_dec);
        reveal(Float::spec_div);
        lemma_of_nat_exact(num as nat);
        lemma_of_nat_exact(den as nat);
        let (n, d, p) = (num as nat, den as nat, pow2(149));
        lemma_pow2_pos(149);
        assert(d * p > 0) by (nonlinear_arith)
            requires
                d > 0,
                p > 0,
        ;
        lemma_units_order(0, of_nat(d).mag());
        lemma_round_scale(n * p, d, p);
    }
    Float::of_u64(num).div(Float::of_u64(den))
}

/// A significand of up to 24 bits at a scale in range is held exactly.
pub proof fn lemma_fits(m: nat, j: nat)
    requires
        m <= 0x100_0000,
        j <= 252,
    ensures
        round_magnitude(m * pow2(j), 1) < 0x7f80_0000,
        magnitude_units(round_magnitude(m * pow2(j), 1)) == m * pow2(j),
        half_even(m * pow2(j), pow2(binade(m * pow2(j), 1))) * pow2(binade(m * pow2(j), 1)) == m
            * pow2(j),
{
    let num = m * pow2(j);
    let k = binade(num, 1);
    lemma2_to64();
    lemma_binade_bounds(num, 1);
    lemma_pow2_pos(j);
    if k > j + 1 {
        lemma_pow2_adds(24, j);
        lemma_pow2_strictly_increases(24 + j, (k + 23) as nat);
        assert(num <= 0x100_0000 * pow2(j)) by (nonlinear_arith)
            requires
                num == m * pow2(j),
                m <= 0x100_0000,
        ;
    }
    let p = pow2(k);
    lemma_pow2_pos(k);
    let h: nat;
    if k <= j {
        lemma_pow2_adds((j - k) as nat, k);
        h = m * pow2((j - k) as nat);
        assert(num == h * p) by (nonlinear_arith)
            requires
                num == m * pow2(j),
                pow2(j) == pow2((j - k) as nat) * p,
                h == m * pow2((j - k) as nat),
        ;
    } else {
        lemma_pow2_unfold(k);
        lemma_pow2_adds(23, k);
        assert(m == 0x100_0000) by (nonlinear_arith)
            requires
                m * pow2(j) >= 0x80_0000 * p,
                p == 2 * pow2(j),
                pow2(j) > 0,
                m <= 0x100_0000,
        ;
        h = 0x80_0000;
        assert(num == h * p);
    }
    assert((2 * h + 1) * p == 2 * (h * p) + p) by (nonlinear_arith);
    assert((2 * h - 1) * p == 2 * (h * p) - p) by (nonlinear_arith);
    lemma_half_even_unique(num, p, h);
    assert(1 * pow2(k) == p);
    lemma_significand_range(num, 1);
    assert(k * 0x80_0000 + h < 0x7f80_0000) by {
        if k == 253 {
            assert(h == 0x80_0000);
        }
    }
    lemma_rounded_units(num, 1);
}

/// Integers of up to 24 bits are held exactly.
pub proof fn lemma_of_nat_exact(n: nat)
    requires
        n <= 0x100_0000,
    ensures
        of_nat(n).units() == n * pow2(149),
        of_nat(n).finite(),
        !of_nat(n).negative(),
{
    reveal(of_nat);
    lemma_fits(n, 149);
}

} // verus!
