//! Rounding of exact rationals to single-precision magnitudes.
//!
//! A magnitude is the low 31 bits of a single-precision pattern. Read as an
//! integer it grows with the number it stands for, so rounding is a matter of
//! finding the binade of a rational and the nearest integer significand in it.
//! Rationals are counted in units of the smallest subnormal, 2^-149.

use vstd::prelude::*;
use vstd::arithmetic::power2::{pow2, lemma_pow2_pos, lemma_pow2_unfold, lemma_pow2_adds, lemma_pow2_strictly_increases, lemma2_to64};

verus! {

/// The integer nearest to `num / den`; of two equally near ones, the even one.
pub open spec fn half_even(num: nat, den: nat) -> nat {
    let q = num / den;
    let r = num % den;
    if 2 * r < den {
        q
    } else if 2 * r > den {
        q + 1
    } else if q % 2 == 0 {
        q
    } else {
        q + 1
    }
}

/// The smallest `k` with `num / den < 2^(24 + k)`: significands of 24 bits
/// count multiples of `2^k` there.
pub open spec fn binade(num: nat, den: nat) -> nat
    decreases num - den,
{
    if den == 0 || num < den * 0x100_0000 {
        0
    } else {
        1 + binade(num, 2 * den)
    }
}

/// The magnitude that `num / den` units round to, to nearest with ties to even,
/// overflowing to the pattern of infinity.
pub open spec fn round_magnitude(num: nat, den: nat) -> nat {
    let k = binade(num, den);
    let m = k * 0x80_0000 + half_even(num, den * pow2(k));
    if m < 0x7f80_0000 {
        m
    } else {
        0x7f80_0000
    }
}

/// `half_even` is the only integer within half a denominator, even on ties.
pub proof fn lemma_half_even_unique(num: nat, den: nat, h: nat)
    requires
        den > 0,
        2 * num <= (2 * h + 1) * den,
        2 * num >= (2 * h - 1) * den,
        2 * num == (2 * h + 1) * den || 2 * num == (2 * h - 1) * den ==> h % 2 == 0,
    ensures
        half_even(num, den) == h,
{
    let q = num / den;
    let r = num % den;
    assert(num == q * den + r) by {
        vstd::arithmetic::div_mod::lemma_fundamental_div_mod(num as int, den as int);
        assert(den * q == q * den) by (nonlinear_arith);
    }
    assert(q <= h) by (nonlinear_arith)
        requires
            num == q * den + r,
            2 * num <= (2 * h + 1) * den,
            den > 0,
            r >= 0,
    ;
    assert(h <= q + 1) by (nonlinear_arith)
        requires
            num == q * den + r,
            2 * num >= (2 * h - 1) * den,
            den > 0,
            r < den,
    ;
    if h == q {
        assert((2 * h + 1) * den == 2 * (q * den) + den) by (nonlinear_arith)
            requires
                h == q,
        ;
    } else {
        assert((2 * h - 1) * den == 2 * (q * den) + den) by (nonlinear_arith)
            requires
                h == q + 1,
        ;
    }
}

/// The bounds that `half_even` meets.
pub proof fn lemma_half_even_bounds(num: nat, den: nat)
    requires
        den > 0,
    ensures
        2 * num <= (2 * half_even(num, den) + 1) * den,
        2 * num >= (2 * half_even(num, den) - 1) * den,
        2 * num == (2 * half_even(num, den) + 1) * den || 2 * num == (2 * half_even(num, den) - 1)
            * den ==> half_even(num, den) % 2 == 0,
{
    let q = num / den;
    let r = num % den;
    let h = half_even(num, den);
    assert(num == q * den + r) by {
        vstd::arithmetic::div_mod::lemma_fundamental_div_mod(num as int, den as int);
        assert(den * q == q * den) by (nonlinear_arith);
    }
    assert((2 * q + 1) * den == 2 * (q * den) + den) by (nonlinear_arith);
    assert((2 * q + 3) * den == 2 * (q * den) + 3 * den) by (nonlinear_arith);
    assert((2 * q - 1) * den == 2 * (q * den) - den) by (nonlinear_arith);
    if h == q {
    } else {
        assert(2 * h + 1 == 2 * q + 3);
        assert(2 * h - 1 == 2 * q + 1);
    }
}

/// The bounds that `binade` meets.
pub proof fn lemma_binade_bounds(num: nat, den: nat)
    requires
        den > 0,
    ensures
        num < den * pow2(24 + binade(num, den)),
        binade(num, den) > 0 ==> num >= den * pow2((23 + binade(num, den)) as nat),
    decreases num - den,
{
    lemma2_to64();
    if num >= den * 0x100_0000 {
        lemma_binade_bounds(num, 2 * den);
        let k = binade(num, 2 * den);
        lemma_pow2_unfold(25 + k);
        assert((2 * den) * pow2(24 + k) == den * (2 * pow2(24 + k))) by (nonlinear_arith);
        if k > 0 {
            lemma_pow2_unfold((24 + k) as nat);
            assert((2 * den) * pow2((23 + k) as nat) == den * (2 * pow2((23 + k) as nat)))
                by (nonlinear_arith);
        }
    }
}

/// `binade` is the only number within those bounds.
pub proof fn lemma_binade_unique(num: nat, den: nat, k: nat)
    requires
        den > 0,
        num < den * pow2(24 + k),
        k > 0 ==> num >= den * pow2((23 + k) as nat),
    ensures
        binade(num, den) == k,
{
    lemma_binade_bounds(num, den);
    let j = binade(num, den);
    if j < k {
        if 24 + j < 23 + k {
            lemma_pow2_strictly_increases((24 + j) as nat, (23 + k) as nat);
        }
        assert(den * pow2(24 + j) <= den * pow2((23 + k) as nat)) by (nonlinear_arith)
            requires
                pow2(24 + j) <= pow2((23 + k) as nat),
        ;
    } else if k < j {
        if 24 + k < 23 + j {
            lemma_pow2_strictly_increases((24 + k) as nat, (23 + j) as nat);
        }
        assert(den * pow2(24 + k) <= den * pow2((23 + j) as nat)) by (nonlinear_arith)
            requires
                pow2(24 + k) <= pow2((23 + j) as nat),
        ;
    }
}

/// Cancelling a common factor keeps the nearest integer.
pub proof fn lemma_half_even_scale(num: nat, den: nat, c: nat)
    requires
        den > 0,
        c > 0,
    ensures
        half_even(num * c, den * c) == half_even(num, den),
{
    let h = half_even(num, den);
    lemma_half_even_bounds(num, den);
    assert(den * c > 0) by (nonlinear_arith)
        requires
            den > 0,
            c > 0,
    ;
    assert((2 * h + 1) * (den * c) == ((2 * h + 1) * den) * c) by (nonlinear_arith);
    assert((2 * h - 1) * (den * c) == ((2 * h - 1) * den) * c) by (nonlinear_arith);
    assert(2 * (num * c) == (2 * num) * c) by (nonlinear_arith);
    let a: int = (2 * num) as int;
    let u: int = ((2 * h + 1) * den) as int;
    let l: int = (2 * h - 1) * den;
    assert(a * c <= u * c && a * c >= l * c && (a * c == u * c ==> a == u) && (a * c == l * c ==> a
        == l)) by (nonlinear_arith)
        requires
            l <= a <= u,
            c > 0,
    ;
    lemma_half_even_unique(num * c, den * c, h);
}

/// Rounding depends on the rational alone, not on how it is written.
pub proof fn lemma_round_scale(num: nat, den: nat, c: nat)
    requires
        den > 0,
        c > 0,
    ensures
        binade(num * c, den * c) == binade(num, den),
        round_magnitude(num * c, den * c) == round_magnitude(num, den),
{
    let k = binade(num, den);
    lemma_binade_bounds(num, den);
    assert(den * c > 0) by (nonlinear_arith)
        requires
            den > 0,
            c > 0,
    ;
    assert(num * c < (den * c) * pow2(24 + k)) by (nonlinear_arith)
        requires
            num < den * pow2(24 + k),
            c > 0,
    ;
    if k > 0 {
        assert(num * c >= (den * c) * pow2((23 + k) as nat)) by (nonlinear_arith)
            requires
                num >= den * pow2((23 + k) as nat),
                c > 0,
        ;
    }
    lemma_binade_unique(num * c, den * c, k);
    lemma_pow2_pos(k);
    assert(den * pow2(k) > 0) by (nonlinear_arith)
        requires
            den > 0,
            pow2(k) > 0,
    ;
    assert((den * c) * pow2(k) == (den * pow2(k)) * c) by (nonlinear_arith);
    lemma_half_even_scale(num, den * pow2(k), c);
}

proof fn lemma_half_even_monotone(a: nat, b: nat, den: nat)
    requires
        den > 0,
        a <= b,
    ensures
        half_even(a, den) <= half_even(b, den),
{
    let (g, h) = (half_even(a, den), half_even(b, den));
    lemma_half_even_bounds(a, den);
    lemma_half_even_bounds(b, den);
    if g > h {
        assert((2 * g - 1) * den >= (2 * h + 1) * den) by (nonlinear_arith)
            requires
                g >= h + 1,
                den > 0,
        ;
        if g > h + 1 {
            assert((2 * g - 1) * den > (2 * h + 1) * den) by (nonlinear_arith)
                requires
                    g > h + 1,
                    den > 0,
            ;
        }
    }
}

/// A significand in its binade.
pub proof fn lemma_significand_range(num: nat, den: nat)
    requires
        den > 0,
    ensures
        half_even(num, den * pow2(binade(num, den))) <= 0x100_0000,
        binade(num, den) > 0 ==> half_even(num, den * pow2(binade(num, den))) >= 0x80_0000,
        den * pow2(binade(num, den)) > 0,
{
    let k = binade(num, den);
    lemma2_to64();
    lemma_binade_bounds(num, den);
    lemma_pow2_pos(k);
    lemma_pow2_adds(24, k);
    lemma_pow2_adds(23, k);
    let (p, d) = (pow2(k), den * pow2(k));
    assert(d > 0) by (nonlinear_arith)
        requires
            den > 0,
            p > 0,
            d == den * p,
    ;
    let h = half_even(num, d);
    lemma_half_even_bounds(num, d);
    assert(den * (0x100_0000 * p) == 0x100_0000 * d) by (nonlinear_arith)
        requires
            d == den * p,
    ;
    assert(den * (0x80_0000 * p) == 0x80_0000 * d) by (nonlinear_arith)
        requires
            d == den * p,
    ;
    assert(h <= 0x100_0000) by (nonlinear_arith)
        requires
            2 * num >= (2 * h - 1) * d,
            num < 0x100_0000 * d,
            d > 0,
    ;
    if k > 0 {
        assert(h >= 0x80_0000) by (nonlinear_arith)
            requires
                2 * num <= (2 * h + 1) * d,
                num >= 0x80_0000 * d,
                d > 0,
        ;
    }
}

proof fn lemma_round_monotone_same(a: nat, b: nat, den: nat)
    requires
        den > 0,
        a <= b,
    ensures
        round_magnitude(a, den) <= round_magnitude(b, den),
{
    let (j, k) = (binade(a, den), binade(b, den));
    lemma_binade_bounds(a, den);
    lemma_binade_bounds(b, den);
    lemma_significand_range(a, den);
    lemma_significand_range(b, den);
    if j == k {
        lemma_half_even_monotone(a, b, den * pow2(k));
    } else if j > k {
        lemma_pow2_le((24 + k) as nat, (23 + j) as nat);
        assert(den * pow2(24 + k) <= den * pow2((23 + j) as nat)) by (nonlinear_arith)
            requires
                pow2(24 + k) <= pow2((23 + j) as nat),
        ;
    }
}

/// Rounding keeps the order of rationals.
pub proof fn lemma_round_monotone(n1: nat, d1: nat, n2: nat, d2: nat)
    requires
        d1 > 0,
        d2 > 0,
        n1 * d2 <= n2 * d1,
    ensures
        round_magnitude(n1, d1) <= round_magnitude(n2, d2),
{
    lemma_round_scale(n1, d1, d2);
    lemma_round_scale(n2, d2, d1);
    assert(d1 * d2 == d2 * d1) by (nonlinear_arith);
    assert(d1 * d2 > 0) by (nonlinear_arith)
        requires
            d1 > 0,
            d2 > 0,
    ;
    lemma_round_monotone_same(n1 * d2, n2 * d1, d1 * d2);
}

/// `2^e` for a positive `e`, else one.
pub open spec fn pow2_above(e: int) -> nat {
    if e > 0 {
        pow2(e as nat)
    } else {
        1
    }
}

/// The magnitude that `m * 2^e` units round to.
pub open spec fn round_binary(m: nat, e: int) -> nat {
    round_magnitude(m * pow2_above(e), pow2_above(-e))
}

pub proof fn lemma_shift_across(e: int, t: nat)
    requires
        t >= e,
    ensures
        pow2_above(-e) * pow2(t) == pow2_above(e) * pow2((t - e) as nat),
        pow2_above(e) > 0,
        pow2_above(-e) > 0,
{
    lemma2_to64();
    if e > 0 {
        lemma_pow2_pos(e as nat);
        lemma_pow2_adds(e as nat, (t - e) as nat);
    } else if e < 0 {
        lemma_pow2_pos((-e) as nat);
        lemma_pow2_adds((-e) as nat, t);
    }
}

pub proof fn lemma_pow2_le(a: nat, b: nat)
    requires
        a <= b,
    ensures
        pow2(a) <= pow2(b),
{
    if a < b {
        lemma_pow2_strictly_increases(a, b);
    }
}

/// How `round_binary` comes about, given the bit length of the significand.
pub proof fn lemma_round_binary(m: nat, e: int, len: nat, k: nat)
    requires
        len > 0,
        pow2((len - 1) as nat) <= m < pow2(len),
        k == if len + e > 24 {
            len + e - 24
        } else {
            0
        },
    ensures
        binade(m * pow2_above(e), pow2_above(-e)) == k,
        k >= e ==> half_even(m * pow2_above(e), pow2_above(-e) * pow2(k)) == half_even(
            m,
            pow2((k - e) as nat),
        ) && m < pow2((k - e + 24) as nat),
        k < e ==> half_even(m * pow2_above(e), pow2_above(-e) * pow2(k)) == m * pow2(
            (e - k) as nat,
        ) && m * pow2((e - k) as nat) < 0x100_0000,
{
    lemma2_to64();
    let num = m * pow2_above(e);
    let den = pow2_above(-e);
    let t = 24 + k;
    lemma_shift_across(e, t);
    lemma_pow2_le(len, (t - e) as nat);
    assert(m * pow2_above(e) < pow2_above(e) * pow2((t - e) as nat)) by (nonlinear_arith)
        requires
            m < pow2((t - e) as nat),
            pow2_above(e) > 0,
    ;
    if k > 0 {
        lemma_shift_across(e, (23 + k) as nat);
        assert(m * pow2_above(e) >= pow2_above(e) * pow2((23 + k - e) as nat)) by (nonlinear_arith)
            requires
                m >= pow2((23 + k - e) as nat),
                pow2_above(e) > 0,
        ;
    }
    lemma_binade_unique(num, den, k);
    if k >= e {
        lemma_shift_across(e, k);
        lemma_pow2_pos((k - e) as nat);
        assert(pow2_above(e) * pow2((k - e) as nat) == pow2((k - e) as nat) * pow2_above(e))
            by (nonlinear_arith);
        lemma_half_even_scale(m, pow2((k - e) as nat), pow2_above(e));
    } else {
        let j = (e - k) as nat;
        lemma_pow2_adds(j, k);
        lemma_pow2_pos(k);
        lemma_pow2_pos(j);
        assert(m * (pow2(j) * pow2(k)) == (m * pow2(j)) * pow2(k)) by (nonlinear_arith);
        lemma_half_even_scale(m * pow2(j), 1, pow2(k));
        lemma_half_even_unique(m * pow2(j), 1, m * pow2(j));
        lemma_pow2_adds(len, j);
        lemma_pow2_le((len + j) as nat, 24);
        assert(m * pow2(j) < pow2(len) * pow2(j)) by (nonlinear_arith)
            requires
                m < pow2(len),
                pow2(j) > 0,
        ;
    }
}

/// The integer part of a number, made odd where something was cut off. It lies on
/// the same side of every even integer as the number itself.
pub open spec fn jammed(q: nat, exact: bool) -> nat {
    if !exact && q % 2 == 0 {
        q + 1
    } else {
        q
    }
}

proof fn lemma_jammed_side(n: nat, d: nat, even: nat)
    requires
        d > 0,
        even % 2 == 0,
    ensures
        jammed(n / d, n % d == 0) < even <==> n < even * d,
        jammed(n / d, n % d == 0) == even <==> n == even * d,
{
    let (q, r) = (n / d, n % d);
    vstd::arithmetic::div_mod::lemma_fundamental_div_mod(n as int, d as int);
    assert(n == q * d + r) by {
        assert(d * q == q * d) by (nonlinear_arith);
    }
    assert(q < even ==> (q + 1) * d <= even * d) by (nonlinear_arith)
        requires
            d > 0,
    ;
    assert((q + 1) * d == q * d + d) by (nonlinear_arith);
    assert(q >= even ==> q * d >= even * d) by (nonlinear_arith)
        requires
            d > 0,
    ;
    assert(q > even ==> q * d >= even * d + d) by (nonlinear_arith)
        requires
            d > 0,
    ;
}

/// A quotient may be rounded from its jammed integer part, if that is long enough.
pub proof fn lemma_round_quotient(n: nat, d: nat, e: int)
    requires
        d > 0,
        n / d >= 0x1000_0000,
    ensures
        round_magnitude(n * pow2_above(e), d * pow2_above(-e)) == round_binary(
            jammed(n / d, n % d == 0),
            e,
        ),
{
    lemma2_to64();
    let m = jammed(n / d, n % d == 0);
    let (up, down) = (pow2_above(e), pow2_above(-e));
    let num = n * up;
    let den = d * down;
    let len = lemma_bit_len_exists(m);
    if len <= 28 {
        lemma_pow2_le(len, 28);
    }
    let k: nat = if len + e > 24 {
        (len + e - 24) as nat
    } else {
        0
    };
    lemma_round_binary(m, e, len, k);
    let s = (k - e) as nat;
    let p = pow2(s);
    lemma_shift_across(e, k);
    assert(den > 0) by (nonlinear_arith)
        requires
            d > 0,
            down > 0,
            den == d * down,
    ;
    // the binade
    let t = 24 + k;
    lemma_shift_across(e, t);
    let top = pow2((24 + s) as nat);
    lemma_pow2_unfold((24 + s) as nat);
    lemma_jammed_side(n, d, top);
    assert(num < den * pow2(t)) by (nonlinear_arith)
        requires
            n < top * d,
            down * pow2(t) == up * top,
            up > 0,
            num == n * up,
            den == d * down,
    ;
    if k > 0 {
        lemma_shift_across(e, (23 + k) as nat);
        let bot = pow2((23 + s) as nat);
        lemma_pow2_unfold((23 + s) as nat);
        lemma_jammed_side(n, d, bot);
        assert(len - 1 == 23 + s);
        assert(num >= den * pow2((23 + k) as nat)) by (nonlinear_arith)
            requires
                n >= bot * d,
                down * pow2((23 + k) as nat) == up * bot,
                up > 0,
                num == n * up,
                den == d * down,
        ;
    }
    lemma_binade_unique(num, den, k);
    // the significand
    lemma_pow2_pos(s);
    let h = half_even(m, p);
    lemma_half_even_bounds(m, p);
    let half = pow2((s - 1) as nat);
    lemma_pow2_unfold(s);
    lemma_pow2_unfold((s - 1) as nat);
    let quarter = pow2((s - 2) as nat);
    let hi = ((2 * h + 1) * half) as nat;
    assert((2 * h + 1) * p == 2 * hi) by (nonlinear_arith)
        requires
            p == 2 * half,
            hi == (2 * h + 1) * half,
    ;
    assert(hi == 2 * ((2 * h + 1) * quarter)) by (nonlinear_arith)
        requires
            half == 2 * quarter,
            hi == (2 * h + 1) * half,
    ;
    lemma_jammed_side(n, d, hi);
    assert(p * d > 0) by (nonlinear_arith)
        requires
            p > 0,
            d > 0,
    ;
    assert((2 * h + 1) * (p * d) == 2 * (hi * d)) by (nonlinear_arith)
        requires
            (2 * h + 1) * p == 2 * hi,
    ;
    if h > 0 {
        let lo = ((2 * h - 1) * half) as nat;
        assert((2 * h - 1) * half >= 0) by (nonlinear_arith)
            requires
                h > 0,
                half >= 0,
        ;
        assert((2 * h - 1) * p == 2 * lo) by (nonlinear_arith)
            requires
                p == 2 * half,
                lo == (2 * h - 1) * half,
        ;
        assert(lo == 2 * ((2 * h - 1) * quarter)) by (nonlinear_arith)
            requires
                half == 2 * quarter,
                lo == (2 * h - 1) * half,
        ;
        lemma_jammed_side(n, d, lo);
        assert((2 * h - 1) * (p * d) == 2 * (lo * d)) by (nonlinear_arith)
            requires
                (2 * h - 1) * p == 2 * lo,
        ;
    } else {
        assert((2 * 0 - 1) * (p * d) == -(p * d)) by (nonlinear_arith);
    }
    lemma_half_even_unique(n, p * d, h);
    lemma_half_even_scale(n, p * d, up);
    assert(den * pow2(k) == (p * d) * up) by (nonlinear_arith)
        requires
            den == d * down,
            down * pow2(k) == up * p,
    ;
}

/// Every positive integer has a bit length.
pub proof fn lemma_bit_len_exists(m: nat) -> (len: nat)
    requires
        m > 0,
    ensures
        len > 0,
        pow2((len - 1) as nat) <= m < pow2(len),
    decreases m,
{
    lemma2_to64();
    if m == 1 {
        1
    } else {
        let l = lemma_bit_len_exists(m / 2);
        lemma_pow2_unfold(l);
        lemma_pow2_unfold(l + 1);
        l + 1
    }
}

/// Nothing rounds to nothing.
pub proof fn lemma_round_zero(den: nat)
    requires
        den > 0,
    ensures
        round_magnitude(0, den) == 0,
{
    lemma2_to64();
    assert(den * 0x100_0000 > 0);
    assert((2 * 0 + 1) * den == den);
    assert((2 * 0 - 1) * den == -den) by (nonlinear_arith);
    assert(den * pow2(0) == den);
    lemma_half_even_unique(0, den, 0);
}

/// `x` is what is left of `m` without its low `n` digits, and not nothing.
#[verifier::opaque]
spec fn leading_part(m: nat, x: nat, n: nat) -> bool {
    &&& x * pow2(n) <= m < (x + 1) * pow2(n)
    &&& m > 0 ==> x > 0
}

proof fn lemma_drop_bits(m: nat, x: nat, n: nat, j: nat)
    requires
        leading_part(m, x, n),
        x >= pow2(j),
    ensures
        leading_part(m, x / pow2(j), n + j),
{
    reveal(leading_part);
    lemma_pow2_adds(n, j);
    lemma_pow2_pos(j);
    lemma_pow2_pos(n);
    let c = pow2(j);
    let p = pow2(n);
    let q = x / c;
    vstd::arithmetic::div_mod::lemma_fundamental_div_mod(x as int, c as int);
    assert(q * c <= x < q * c + c) by {
        assert(c * q == q * c) by (nonlinear_arith);
    }
    assert(q * (p * c) <= m) by (nonlinear_arith)
        requires
            q * c <= x,
            x * p <= m,
            p > 0,
    ;
    assert(m < (q + 1) * (p * c)) by (nonlinear_arith)
        requires
            x + 1 <= q * c + c,
            m < (x + 1) * p,
            p > 0,
    ;
    assert(q > 0) by (nonlinear_arith)
        requires
            c <= x < q * c + c,
            c > 0,
    ;
}

/// Drops `j` binary digits from `x` where that leaves something, counting them in `n`.
fn drop_bits(x: u64, n: u32, j: u32, c: u64) -> (r: (u64, u32))
    requires
        c == pow2(j as nat),
        n + j < 64,
    ensures
        r == if x >= c {
            ((x / c) as u64, (n + j) as u32)
        } else {
            (x, n)
        },
        forall|m: nat| #[trigger]
            leading_part(m, x as nat, n as nat) ==> leading_part(m, r.0 as nat, r.1 as nat),
{
    proof {
        lemma_pow2_pos(j as nat);
    }
    if x >= c {
        proof {
            assert forall|m: nat| #[trigger] leading_part(m, x as nat, n as nat) implies leading_part(
                m,
                (x / c) as nat,
                (n + j) as nat,
            ) by {
                lemma_drop_bits(m, x as nat, n as nat, j as nat);
            }
        }
        (x / c, n + j)
    } else {
        (x, n)
    }
}

/// The length of a number with one leading digit and `n` more.
proof fn lemma_one_left(m: nat, x: nat, n: nat)
    requires
        leading_part(m, x, n),
        x < 2,
    ensures
        x == 0 ==> m == 0,
        x == 1 ==> pow2(n) <= m < pow2(n + 1),
{
    reveal(leading_part);
    lemma_pow2_unfold(n + 1);
    if x == 1 {
        assert(2 * pow2(n) == pow2(n + 1));
        assert(1 * pow2(n) == pow2(n));
    }
}

/// The number of binary digits of `m`.
pub fn bit_len(m: u64) -> (len: u32)
    ensures
        len <= 64,
        m < pow2(len as nat),
        len > 0 ==> m >= pow2((len - 1) as nat),
        len == 0 <==> m == 0,
{
    proof {
        lemma2_to64();
        reveal(leading_part);
        assert(leading_part(m as nat, m as nat, 0));
    }
    let (x, n) = drop_bits(m, 0, 32, 0x1_0000_0000);
    assert(x < 0x1_0000_0000 && n <= 32);
    let (x, n) = drop_bits(x, n, 16, 0x1_0000);
    assert(x < 0x1_0000 && n <= 48);
    let (x, n) = drop_bits(x, n, 8, 0x100);
    assert(x < 0x100 && n <= 56);
    let (x, n) = drop_bits(x, n, 4, 0x10);
    assert(x < 0x10 && n <= 60);
    let (x, n) = drop_bits(x, n, 2, 4);
    assert(x < 4 && n <= 62);
    let (x, n) = drop_bits(x, n, 1, 2);
    assert(x < 2 && n <= 63);
    proof {
        lemma_one_left(m as nat, x as nat, n as nat);
        lemma_pow2_pos(n as nat);
    }
    if x == 0 {
        0
    } else {
        n + 1
    }
}

/// `m / 2^s` rounded to the nearest integer, ties to even.
fn shift_half_even(m: u64, s: u32) -> (h: u64)
    ensures
        h == half_even(m as nat, pow2(s as nat)),
{
    proof {
        lemma2_to64();
        lemma_pow2_pos(s as nat);
    }
    if s == 0 {
        proof {
            lemma_half_even_unique(m as nat, 1, m as nat);
        }
        return m;
    }
    if s > 64 {
        proof {
            lemma_pow2_unfold(s as nat);
            lemma_pow2_le(64, (s - 1) as nat);
            assert((2 * 0 + 1) * pow2(s as nat) == pow2(s as nat));
            assert((2 * 0 - 1) * pow2(s as nat) == -pow2(s as nat)) by (nonlinear_arith);
            lemma_half_even_unique(m as nat, pow2(s as nat), 0);
        }
        return 0;
    }
    proof {
        lemma_pow2_unfold(s as nat);
        lemma_pow2_unfold(64);
        lemma_pow2_le((s - 1) as nat, 63);
        assert(1 * pow2((s - 1) as nat) <= u64::MAX);
        vstd::bits::lemma_u64_shl_is_mul(1, (s - 1) as u64);
    }
    let half: u64 = 1u64 << (s - 1);
    let (q, r): (u64, u64) = if s == 64 {
        proof {
            vstd::arithmetic::div_mod::lemma_fundamental_div_mod_converse(
                m as int,
                pow2(64) as int,
                0,
                m as int,
            );
        }
        (0, m)
    } else {
        proof {
            vstd::bits::lemma_u64_shr_is_div(m, s as u64);
            vstd::arithmetic::div_mod::lemma_fundamental_div_mod(m as int, pow2(s as nat) as int);
            let q = m as nat / pow2(s as nat);
            assert(pow2(s as nat) * q == q * pow2(s as nat)) by (nonlinear_arith);
            vstd::bits::lemma_u64_shl_is_mul((m >> (s as u64)), s as u64);
            assert(2 * q <= m) by (nonlinear_arith)
                requires
                    q * pow2(s as nat) <= m,
                    pow2(s as nat) >= 2,
            ;
        }
        let q: u64 = m >> (s as u64);
        (q, m - (q << (s as u64)))
    };
    if r < half {
        q
    } else if r > half {
        q + 1
    } else if q % 2 == 0 {
        q
    } else {
        q + 1
    }
}

/// The magnitude that `m * 2^e` units round to.
pub fn round_scaled(m: u64, e: i32) -> (r: u32)
    requires
        -1000 <= e <= 1000,
    ensures
        r == round_binary(m as nat, e as int),
        r <= 0x7f80_0000,
{
    proof {
        lemma2_to64();
    }
    if m == 0 {
        proof {
            lemma_shift_across(e as int, if e > 0 { e as nat } else { 0 });
            assert(0 * pow2_above(e as int) == 0);
            lemma_round_zero(pow2_above(-e));
        }
        return 0;
    }
    let len = bit_len(m) as i32;
    let k: i32 = if len + e > 24 { len + e - 24 } else { 0 };
    proof {
        lemma_round_binary(m as nat, e as int, len as nat, k as nat);
    }
    if k >= 255 {
        return 0x7f80_0000;
    }
    let sig: u64 = if k >= e {
        proof {
            let s = (k - e) as nat;
            lemma_pow2_pos(s);
            lemma_half_even_bounds(m as nat, pow2(s));
            lemma_pow2_adds(s, 24);
            let h = half_even(m as nat, pow2(s));
            let p = pow2(s);
            assert(h <= 0x100_0000) by (nonlinear_arith)
                requires
                    2 * m >= (2 * h - 1) * p,
                    m < p * 0x100_0000,
                    p > 0,
            ;
        }
        shift_half_even(m, (k - e) as u32)
    } else {
        proof {
            let j = (e - k) as nat;
            lemma_pow2_pos(j);
            if j >= 24 {
                lemma_pow2_le(24, j);
                assert(m * pow2(j) >= pow2(j)) by (nonlinear_arith)
                    requires
                        m >= 1,
                ;
            }
            vstd::bits::lemma_u64_shl_is_mul(m, j as u64);
        }
        m << ((e - k) as u64)
    };
    let mag: u32 = k as u32 * 0x80_0000 + sig as u32;
    if mag < 0x7f80_0000 {
        mag
    } else {
        0x7f80_0000
    }
}

} // verus!
