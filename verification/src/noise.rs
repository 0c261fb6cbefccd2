//! White noise from a xorshift generator.

use vstd::prelude::*;
use crate::float::{Float, dec, of_nat};

verus! {

/// A source of noise.
#[derive(Clone, Copy, Debug)]
pub struct Noise {
    pub seed: u32,
}

/// The state that follows `seed`.
pub open spec fn xorshift(seed: u32) -> u32 {
    let a = seed ^ (seed << 13);
    let b = a ^ (a >> 17);
    b ^ (b << 5)
}

/// The state `n` steps after `seed`.
pub open spec fn seed_after(seed: u32, n: nat) -> u32
    decreases n,
{
    if n == 0 {
        seed
    } else {
        xorshift(seed_after(seed, (n - 1) as nat))
    }
}

/// The sample that a state stands for.
pub open spec fn noise_value(seed: u32) -> Float {
    of_nat(seed as nat).div(of_nat(u32::MAX as nat)).mul(dec(2, 1)).sub(dec(1, 1))
}

/// Sample `i` of the noise that starts at `seed`.
pub open spec fn noise_at(seed: u32, i: nat) -> Float {
    noise_value(seed_after(seed, i + 1))
}

/// The noise that starts at `seed`.
pub fn noise_gen(seed: u32) -> (r: Noise)
    ensures
        r.seed == seed,
{
    Noise { seed }
}

impl Noise {
    /// The next sample.
    pub fn sample(&mut self) -> (r: Float)
        ensures
            final(self).seed == xorshift(old(self).seed),
            r == noise_value(final(self).seed),
    {
        let a = self.seed ^ (self.seed << 13);
        let b = a ^ (a >> 17);
        let seed = b ^ (b << 5);
        self.seed = seed;
        Float::of_u64(seed as u64).div(Float::of_u64(u32::MAX as u64)).mul(dec(2, 1)).sub(dec(1, 1))
    }
}

/// Noise that starts at something never dies out.
pub proof fn noise_never_dies(seed: u32, n: nat)
    requires
        seed != 0,
    ensures
        seed_after(seed, n) != 0,
    decreases n,
{
    if n > 0 {
        noise_never_dies(seed, (n - 1) as nat);
        let s = seed_after(seed, (n - 1) as nat);
        let a = s ^ (s << 13);
        let b = a ^ (a >> 17);
        assert(s != 0u32 ==> s ^ (s << 13u32) != 0u32) by (bit_vector);
        assert(a != 0u32 ==> a ^ (a >> 17u32) != 0u32) by (bit_vector);
        assert(b != 0u32 ==> b ^ (b << 5u32) != 0u32) by (bit_vector);
    }
}

/// Two states with the same successor are the same, so the noise never falls into
/// a cycle that it did not start in.
pub proof fn xorshift_is_reversible(s: u32, t: u32)
    requires
        xorshift(s) == xorshift(t),
    ensures
        s == t,
{
    let (a, c) = (s ^ (s << 13), t ^ (t << 13));
    let (b, d) = (a ^ (a >> 17), c ^ (c >> 17));
    assert(b ^ (b << 5u32) == d ^ (d << 5u32) ==> b == d) by (bit_vector);
    assert(a ^ (a >> 17u32) == c ^ (c >> 17u32) ==> a == c) by (bit_vector);
    assert(s ^ (s << 13u32) == t ^ (t << 13u32) ==> s == t) by (bit_vector);
}

/// Each state tells the one before it: the three shifts, by 13, 17 and 5 places, are undone
/// one by one.
pub proof fn states_tell_the_one_before(seed: u32, n: nat)
    ensures
        seed_after(seed, 0) == seed,
        ({
            let s = seed_after(seed, n);
            let r = seed_after(seed, n + 1);
            let b = r ^ (r << 5) ^ (r << 10) ^ (r << 15) ^ (r << 20) ^ (r << 25) ^ (r << 30);
            let a = b ^ (b >> 17);
            s == a ^ (a << 13) ^ (a << 26)
        }),
{
    let s = seed_after(seed, n);
    let p = s ^ (s << 13);
    let q = p ^ (p >> 17);
    let r = q ^ (q << 5);
    let b = r ^ (r << 5) ^ (r << 10) ^ (r << 15) ^ (r << 20) ^ (r << 25) ^ (r << 30);
    let a = b ^ (b >> 17);
    assert(b == q) by (bit_vector)
        requires
            r == q ^ (q << 5u32),
            b == r ^ (r << 5u32) ^ (r << 10u32) ^ (r << 15u32) ^ (r << 20u32) ^ (r << 25u32) ^ (r
                << 30u32),
    ;
    assert(a == p) by (bit_vector)
        requires
            q == p ^ (p >> 17u32),
            a == q ^ (q >> 17u32),
    ;
    assert(s == a ^ (a << 13u32) ^ (a << 26u32)) by (bit_vector)
        requires
            a == s ^ (s << 13u32),
    ;
    assert(seed_after(seed, n + 1) == xorshift(s));
}

} // verus!
