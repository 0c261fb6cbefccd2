//! The square root of a single-precision number, correctly rounded.

use vstd::prelude::*;
use vstd::arithmetic::power2::{pow2, lemma_pow2_pos, lemma_pow2_unfold, lemma_pow2_adds, lemma2_to64};
use crate::float::{Float, fl, NAN, signed, parts, make};
use crate::rounding::{jammed, half_even, binade, pow2_above, bit_len, round_scaled, lemma_pow2_le, lemma_round_binary, lemma_half_even_bounds, lemma_bit_len_exists};

verus! {

/// Whether `h` is the integer nearest to the root of `n`, divided by `d`; of two
/// equally near ones, the even one.
pub open spec fn is_nearest_root(n: nat, d: nat, h: nat) -> bool {
    &&& 4 * n <= ((2 * h + 1) * d) * ((2 * h + 1) * d)
    &&& h > 0 ==> 4 * n >= ((2 * h - 1) * d) * ((2 * h - 1) * d)
    &&& 4 * n == ((2 * h + 1) * d) * ((2 * h + 1) * d) || (h > 0 && 4 * n == ((2 * h - 1) * d) * ((2
        * h - 1) * d)) ==> h % 2 == 0
}

/// The smallest `k` for which the root of `n` is below `2^(24 + k)`.
pub open spec fn root_binade(n: nat) -> nat
    decreases n,
{
    if n < 0x1_0000_0000_0000 {
        0
    } else {
        1 + root_binade(n / 4)
    }
}

/// The magnitude that the root of `n` rounds to.
pub open spec fn root_magnitude(n: nat) -> nat {
    let k = root_binade(n);
    k * 0x80_0000 + choose|h: nat| is_nearest_root(n, pow2(k), h)
}

proof fn lemma_square_order(a: int, b: int)
    requires
        a >= 0,
        b >= 0,
    ensures
        a < b <==> a * a < b * b,
        a == b <==> a * a == b * b,
{
    assert(a < b ==> a * a < b * b) by (nonlinear_arith)
        requires
            a >= 0,
            b >= 0,
    ;
    assert(b < a ==> b * b < a * a) by (nonlinear_arith)
        requires
            a >= 0,
            b >= 0,
    ;
}

/// There is only one nearest integer.
pub proof fn lemma_nearest_root_unique(n: nat, d: nat, g: nat, h: nat)
    requires
        d > 0,
        is_nearest_root(n, d, g),
        is_nearest_root(n, d, h),
    ensures
        g == h,
{
    if g <= h {
        lemma_nearest_root_ordered(n, d, g, h);
    } else {
        lemma_nearest_root_ordered(n, d, h, g);
    }
}

proof fn lemma_nearest_root_ordered(n: nat, d: nat, g: nat, h: nat)
    requires
        d > 0,
        g <= h,
        is_nearest_root(n, d, g),
        is_nearest_root(n, d, h),
    ensures
        g == h,
{
    if g < h {
        let a: int = ((2 * g + 1) * d) as int;
        let b: int = (2 * h - 1) * d;
        assert(a <= b && a >= 0) by (nonlinear_arith)
            requires
                a == (2 * g + 1) * d,
                b == (2 * h - 1) * d,
                g < h,
                d > 0,
        ;
        lemma_square_order(a, b);
        assert(4 * n == a * a && 4 * n == b * b);
        if g + 1 < h {
            assert(a < b) by (nonlinear_arith)
                requires
                    a == (2 * g + 1) * d,
                    b == (2 * h - 1) * d,
                    g + 1 < h,
                    d > 0,
            ;
        }
    }
}

pub proof fn lemma_root_binade_unique(n: nat, k: nat)
    requires
        n < pow2(48 + 2 * k),
        k > 0 ==> n >= pow2((46 + 2 * k) as nat),
    ensures
        root_binade(n) == k,
    decreases k,
{
    lemma2_to64();
    lemma_pow2_adds(32, 16);
    if k > 0 {
        lemma_pow2_le(48, (46 + 2 * k) as nat);
        lemma_pow2_adds(2, (46 + 2 * k) as nat);
        if k > 1 {
            lemma_pow2_adds(2, (44 + 2 * k) as nat);
        }
        lemma_root_binade_unique(n / 4, (k - 1) as nat);
    }
}

/// The integer part of a root.
fn isqrt(n: u64) -> (r: u64)
    ensures
        r * r <= n < (r + 1) * (r + 1),
        r < 0x1_0000_0000,
{
    let mut r: u64 = 0;
    let mut w: u64 = 0x1_0000_0000;
    let ghost mut i: nat = 32;
    proof {
        lemma2_to64();
    }
    while w > 1
        invariant
            w == pow2(i),
            i <= 32,
            r + w <= 0x1_0000_0000,
            r * r <= n < (r + w) * (r + w),
        decreases i,
    {
        proof {
            lemma2_to64();
            lemma_pow2_unfold(i);
            i = (i - 1) as nat;
            lemma_pow2_pos(i);
        }
        let h = w / 2;
        let c = r + h;
        assert(c * c <= 0xffff_ffff * 0xffff_ffff) by (nonlinear_arith)
            requires
                c <= 0xffff_ffff,
        ;
        if c * c <= n {
            r = c;
        }
        w = h;
    }
    proof {
        lemma_pow2_pos(i);
    }
    r
}

/// The jammed integer part of a root lies on the same side of every even integer.
proof fn lemma_root_side(n: nat, r: nat, even: nat)
    requires
        r * r <= n < (r + 1) * (r + 1),
        even % 2 == 0,
    ensures
        jammed(r, r * r == n) < even <==> n < even * even,
        jammed(r, r * r == n) == even <==> n == even * even,
{
    lemma_square_order(r as int, even as int);
    lemma_square_order((r + 1) as int, even as int);
    lemma_square_order(even as int, r as int);
    lemma_square_order(even as int, (r + 1) as int);
}

/// A root may be rounded from its jammed integer part, if that is long enough.
pub proof fn lemma_round_root(n: nat, r: nat, f: nat)
    requires
        r * r <= n < (r + 1) * (r + 1),
        r >= 0x1000_0000,
    ensures
        root_magnitude(n * (pow2(f) * pow2(f))) == binade(
            jammed(r, r * r == n) * pow2_above(f as int),
            1,
        ) * 0x80_0000 + half_even(
            jammed(r, r * r == n) * pow2_above(f as int),
            1 * pow2(binade(jammed(r, r * r == n) * pow2_above(f as int), 1)),
        ),
{
    lemma2_to64();
    let m = jammed(r, r * r == n);
    let len = lemma_bit_len_exists(m);
    if len <= 28 {
        lemma_pow2_le(len, 28);
    }
    let k: nat = (len + f - 24) as nat;
    lemma_round_binary(m, f as int, len, k);
    let s = (k - f) as nat;
    let q = pow2(f);
    let full = n * (q * q);
    lemma_pow2_pos(f);
    lemma_pow2_adds(f, f);
    // the binade
    let top = pow2(len);
    lemma_pow2_unfold(len);
    lemma_root_side(n, r, top);
    lemma_pow2_adds(len, len);
    lemma_pow2_adds(2 * len, 2 * f);
    assert(full < pow2(2 * len + 2 * f)) by (nonlinear_arith)
        requires
            n < top * top,
            full == n * (q * q),
            pow2(2 * len + 2 * f) == (top * top) * (q * q),
            q > 0,
    ;
    let bot = pow2((len - 1) as nat);
    lemma_pow2_unfold((len - 1) as nat);
    lemma_root_side(n, r, bot);
    lemma_pow2_adds((len - 1) as nat, (len - 1) as nat);
    lemma_pow2_adds((2 * len - 2) as nat, 2 * f);
    assert(full >= pow2((2 * len - 2 + 2 * f) as nat)) by (nonlinear_arith)
        requires
            n >= bot * bot,
            full == n * (q * q),
            pow2((2 * len - 2 + 2 * f) as nat) == (bot * bot) * (q * q),
            q > 0,
    ;
    assert(48 + 2 * k == 2 * len + 2 * f);
    lemma_root_binade_unique(full, k);
    // the significand
    let p = pow2(s);
    lemma_pow2_pos(s);
    let h = half_even(m, p);
    lemma_half_even_bounds(m, p);
    let half = pow2((s - 1) as nat);
    lemma_pow2_unfold(s);
    lemma_pow2_unfold((s - 1) as nat);
    let quarter = pow2((s - 2) as nat);
    lemma_pow2_adds(s, f);
    let d = pow2(k);
    assert(d == p * q);
    let hi: nat = (2 * h + 1) * half;
    assert((2 * h + 1) * p == 2 * hi) by (nonlinear_arith)
        requires
            p == 2 * half,
            hi == (2 * h + 1) * half,
    ;
    assert(hi == 2 * ((2 * h + 1) * quarter)) by (nonlinear_arith)
        requires
            half == 2 * quarter,
            hi == (2 * h + 1) * half,
    ;
    lemma_root_side(n, r, hi);
    lemma_scaled_squares(n, hi, q, 2 * h + 1, d, p);
    if h > 0 {
        let odd: nat = (2 * h - 1) as nat;
        let lo: nat = odd * half;
        assert(odd * p == 2 * lo) by (nonlinear_arith)
            requires
                p == 2 * half,
                lo == odd * half,
        ;
        assert(lo == 2 * (odd * quarter)) by (nonlinear_arith)
            requires
                half == 2 * quarter,
                lo == odd * half,
        ;
        lemma_root_side(n, r, lo);
        lemma_scaled_squares(n, lo, q, odd, d, p);
    }
    assert(is_nearest_root(full, d, h));
    let g = choose|g: nat| is_nearest_root(full, d, g);
    lemma_pow2_pos(k);
    lemma_nearest_root_unique(full, d, g, h);
}

proof fn lemma_scaled_squares(n: nat, edge: nat, q: nat, odd: nat, d: nat, p: nat)
    requires
        odd * p == 2 * edge,
        d == p * q,
        q > 0,
    ensures
        n < edge * edge <==> 4 * (n * (q * q)) < (odd * d) * (odd * d),
        n == edge * edge <==> 4 * (n * (q * q)) == (odd * d) * (odd * d),
{
    assert((odd * d) * (odd * d) == 4 * ((edge * edge) * (q * q))) by (nonlinear_arith)
        requires
            odd * p == 2 * edge,
            d == p * q,
    ;
    let (e, c) = (edge * edge, q * q);
    assert(c > 0) by (nonlinear_arith)
        requires
            c == q * q,
            q > 0,
    ;
    assert((n < e ==> n * c < e * c) && (n > e ==> n * c > e * c)) by (nonlinear_arith)
        requires
            c > 0,
    ;
}

impl Float {
    /// The square root: of zero itself, of a negative number none.
    #[verifier::opaque]
    pub open spec fn spec_sqrt(self) -> Float {
        if self.nan() {
            fl(NAN)
        } else if self.mag() == 0 {
            self
        } else if self.negative() {
            fl(NAN)
        } else if self.infinite() {
            self
        } else {
            signed(false, root_magnitude(self.units() * pow2(149)))
        }
    }

    /// The square root, rounded to nearest.
    #[verifier::when_used_as_spec(spec_sqrt)]
    pub fn sqrt(self) -> (r: Float)
        ensures
            r == self.spec_sqrt(),
    {
        proof {
            reveal(Float::spec_sqrt);
        }
        let x = self.magnitude();
        if x > 0x7f80_0000 {
            return fl(NAN);
        }
        if x == 0 {
            return self;
        }
        if self.is_negative() {
            return fl(NAN);
        }
        if x == 0x7f80_0000 {
            return self;
        }
        let (m, e) = parts(x);
        let len = bit_len(m);
        proof {
            lemma2_to64();
            if len > 24 {
                lemma_pow2_le(24, (len - 1) as nat);
            }
        }
        let t: u32 = if (e as u32 + len) % 2 == 0 { 63 - len } else { 62 - len };
        proof {
            lemma_pow2_adds(len as nat, t as nat);
            lemma_pow2_adds((len - 1) as nat, t as nat);
            lemma_pow2_pos(t as nat);
            lemma_pow2_unfold(61);
            lemma_pow2_unfold(62);
            lemma_pow2_unfold(63);
            lemma_pow2_unfold(64);
            let (n, p) = (m as nat, pow2(t as nat));
            assert(n * p < pow2((len + t) as nat)) by (nonlinear_arith)
                requires
                    n < pow2(len as nat),
                    pow2((len + t) as nat) == pow2(len as nat) * p,
                    p > 0,
            ;
            assert(n * p >= pow2((len - 1 + t) as nat)) by (nonlinear_arith)
                requires
                    n >= pow2((len - 1) as nat),
                    pow2((len - 1 + t) as nat) == pow2((len - 1) as nat) * p,
                    p > 0,
            ;
            vstd::bits::lemma_u64_shl_is_mul(m, t as u64);
        }
        let n: u64 = m << (t as u64);
        let r: u64 = isqrt(n);
        proof {
            lemma_square_order(0x1000_0000, (r + 1) as int);
        }
        let j: u64 = if r * r != n && r % 2 == 0 { r + 1 } else { r };
        let f: i32 = (e + 149 - t as i32) / 2;
        proof {
            assert(2 * f == e + 149 - t);
            lemma_round_root(n as nat, r as nat, f as nat);
            assert(j == jammed(r as nat, r as nat * r as nat == n as nat));
            let (pe, pt, pf) = (pow2(e as nat), pow2(t as nat), pow2(f as nat));
            lemma_pow2_adds(f as nat, f as nat);
            lemma_pow2_adds(t as nat, (2 * f) as nat);
            lemma_pow2_adds(e as nat, 149);
            let nm = m as nat;
            assert((nm * pt) * (pf * pf) == (nm * pe) * pow2(149)) by (nonlinear_arith)
                requires
                    pt * (pf * pf) == pe * pow2(149),
            ;
            // far from overflow
            let k = binade(j as nat * pow2_above(f as int), 1);
            let l = lemma_bit_len_exists(j as nat);
            lemma_pow2_unfold(32);
            if l > 32 {
                lemma_pow2_le(32, (l - 1) as nat);
            }
            let kk: nat = if l + f > 24 { (l + f - 24) as nat } else { 0 };
            lemma_round_binary(j as nat, f as int, l, kk);
            if kk >= f {
                let s = (kk - f) as nat;
                lemma_pow2_pos(s);
                lemma_half_even_bounds(j as nat, pow2(s));
                lemma_pow2_adds(s, 24);
                let (h, p, jn) = (half_even(j as nat, pow2(s)), pow2(s), j as nat);
                assert(h <= 0x100_0000) by (nonlinear_arith)
                    requires
                        2 * jn >= (2 * h - 1) * p,
                        jn < p * 0x100_0000,
                        p > 0,
                ;
            }
        }
        make(false, round_scaled(j, f))
    }
}

} // verus!
