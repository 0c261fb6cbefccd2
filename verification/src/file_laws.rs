//! What is in a sound file and what the settings are held to, counted against exact
//! arithmetic.

use vstd::prelude::*;
use crate::config::{Config, initial};
use crate::float::{Float, dec};
use crate::near::{abs, between, near, num, lemma_abs_num, lemma_dec_near, lemma_int_num, lemma_integer_part, lemma_near_clamp, lemma_neg_num, lemma_times_dec, lemma_tiny};
use crate::wav::{data_len, data_tag, riff_tag, wave_fmt_tags, header, le16, le32, level};

verus! {

/// The number that bytes stand for, the lowest first.
pub open spec fn read_bytes(s: Seq<u8>) -> nat
    decreases s.len(),
{
    if s.len() == 0 {
        0
    } else {
        s[0] as nat + 256 * read_bytes(s.drop_first())
    }
}

proof fn lemma_read_two(v: int)
    requires
        0 <= v < 0x1_0000,
    ensures
        read_bytes(le16(v)) == v,
{
    let s = le16(v);
    reveal_with_fuel(read_bytes, 3);
    assert(s.drop_first()[0] == s[1]);
    assert(v % 256 + 256 * (v / 256 % 256) == v);
}

proof fn lemma_read_four(v: int)
    requires
        0 <= v < 0x1_0000_0000,
    ensures
        read_bytes(le32(v)) == v,
{
    let (w, x, y, z) = (v % 256, v / 256 % 256, v / 0x1_0000 % 256, v / 0x100_0000 % 256);
    lemma_digits(v);
    lemma_four_bytes(w as u8, x as u8, y as u8, z as u8);
    assert(le32(v) == seq![w as u8, x as u8, y as u8, z as u8]);
}

/// The weights of four bytes.
proof fn lemma_four_bytes(a: u8, b: u8, c: u8, d: u8)
    ensures
        read_bytes(seq![a, b, c, d]) == a + 256 * b + 0x1_0000 * c + 0x100_0000 * d,
{
    assert(seq![a, b, c, d].drop_first() =~= seq![b, c, d]);
    assert(seq![b, c, d].drop_first() =~= seq![c, d]);
    assert(seq![c, d].drop_first() =~= seq![d]);
    assert(seq![d].drop_first() =~= Seq::empty());
    assert(read_bytes(Seq::empty()) == 0);
    assert(read_bytes(seq![d]) == d);
    assert(read_bytes(seq![c, d]) == c + 256 * d);
    assert(read_bytes(seq![b, c, d]) == b + 256 * c + 0x1_0000 * d);
}

/// A 32-bit number by its bytes.
proof fn lemma_digits(v: int)
    requires
        0 <= v < 0x1_0000_0000,
    ensures
        v % 256 + 256 * (v / 256 % 256) + 0x1_0000 * (v / 0x1_0000 % 256) + 0x100_0000 * (v / 0x100_0000
            % 256) == v,
{
    let (q, r, t) = (v / 256, v / 0x1_0000, v / 0x100_0000);
    assert(r == q / 256);
    assert(t == r / 256);
}

/// What stands in front stays in front, and what is added stands behind it.
proof fn lemma_append(a: Seq<u8>, b: Seq<u8>)
    ensures
        (a + b).len() == a.len() + b.len(),
        (a + b).subrange(a.len() as int, (a.len() + b.len()) as int) == b,
        forall|i: int, j: int|
            0 <= i <= j <= a.len() ==> #[trigger] (a + b).subrange(i, j) == a.subrange(i, j),
{
    assert((a + b).subrange(a.len() as int, (a.len() + b.len()) as int) =~= b);
    assert forall|i: int, j: int| 0 <= i <= j <= a.len() implies #[trigger] (a + b).subrange(i, j)
        == a.subrange(i, j) by {
        assert((a + b).subrange(i, j) =~= a.subrange(i, j));
    }
}

/// The parts of a header by their places.
proof fn lemma_parts(p: Seq<Seq<u8>>)
    requires
        p.len() == 12,
        p[0].len() == 4,
        p[1].len() == 4,
        p[2].len() == 8,
        p[3].len() == 4,
        p[4].len() == 2,
        p[5].len() == 2,
        p[6].len() == 4,
        p[7].len() == 4,
        p[8].len() == 2,
        p[9].len() == 2,
        p[10].len() == 4,
        p[11].len() == 4,
    ensures
        ({
            let h = p[0] + p[1] + p[2] + p[3] + p[4] + p[5] + p[6] + p[7] + p[8] + p[9] + p[10] + p[11];
            &&& h.len() == 44
            &&& h.subrange(0, 4) == p[0]
            &&& h.subrange(4, 8) == p[1]
            &&& h.subrange(8, 16) == p[2]
            &&& h.subrange(16, 20) == p[3]
            &&& h.subrange(20, 22) == p[4]
            &&& h.subrange(22, 24) == p[5]
            &&& h.subrange(24, 28) == p[6]
            &&& h.subrange(28, 32) == p[7]
            &&& h.subrange(32, 34) == p[8]
            &&& h.subrange(34, 36) == p[9]
            &&& h.subrange(36, 40) == p[10]
            &&& h.subrange(40, 44) == p[11]
        }),
{
    let h1 = p[0];
    let h2 = h1 + p[1];
    let h3 = h2 + p[2];
    let h4 = h3 + p[3];
    let h5 = h4 + p[4];
    let h6 = h5 + p[5];
    let h7 = h6 + p[6];
    let h8 = h7 + p[7];
    let h9 = h8 + p[8];
    let h10 = h9 + p[9];
    let h11 = h10 + p[10];
    let h12 = h11 + p[11];
    assert(h1.subrange(0, 4) =~= h1);
    lemma_append(h1, p[1]);
    lemma_append(h2, p[2]);
    lemma_append(h3, p[3]);
    lemma_append(h4, p[4]);
    lemma_append(h5, p[5]);
    lemma_append(h6, p[6]);
    lemma_append(h7, p[7]);
    lemma_append(h8, p[8]);
    lemma_append(h9, p[9]);
    lemma_append(h10, p[10]);
    lemma_append(h11, p[11]);
}

/// A sound file says what it is: a wave of plain samples, the number of channels, the rate,
/// the bytes per second and per moment, and sixteen bits per sample.
pub proof fn headers_describe_the_samples(samples: nat, sample_rate: u32, channels: u16)
    requires
        36 + 2 * samples <= u32::MAX,
        sample_rate * (channels * 2) <= u32::MAX,
        channels * 2 < 0x1_0000,
    ensures
        ({
            let h = header(samples, sample_rate, channels);
            &&& h.len() == 44
            // "RIFF", "WAVE", "fmt " and "data"
            &&& h.subrange(0, 4) == seq![82u8, 73, 70, 70]
            &&& h.subrange(8, 16) == seq![87u8, 65, 86, 69, 102, 109, 116, 32]
            &&& h.subrange(36, 40) == seq![100u8, 97, 116, 97]
            &&& read_bytes(h.subrange(4, 8)) == 36 + 2 * samples
            &&& read_bytes(h.subrange(16, 20)) == 16
            &&& read_bytes(h.subrange(20, 22)) == 1
            &&& read_bytes(h.subrange(22, 24)) == channels
            &&& read_bytes(h.subrange(24, 28)) == sample_rate
            &&& read_bytes(h.subrange(28, 32)) == 2 * channels * sample_rate
            &&& read_bytes(h.subrange(32, 34)) == 2 * channels
            &&& read_bytes(h.subrange(34, 36)) == 16
            &&& read_bytes(h.subrange(40, 44)) == 2 * samples
        }),
{
    let h = header(samples, sample_rate, channels);
    let rate = sample_rate * (channels * 2);
    assert(rate == 2 * channels * sample_rate && rate >= 0) by (nonlinear_arith)
        requires
            rate == sample_rate * (channels * 2),
    ;
    assert(data_len(samples) == 2 * samples);
    lemma_parts(
        seq![
            riff_tag(),
            le32(36int + 2 * samples),
            wave_fmt_tags(),
            le32(16),
            le16(1),
            le16(channels as int),
            le32(sample_rate as int),
            le32(rate),
            le16(channels * 2),
            le16(16),
            data_tag(),
            le32(2 * samples as int),
        ],
    );
    lemma_read_four(36int + 2 * samples);
    lemma_read_four(16);
    lemma_read_two(1);
    lemma_read_two(channels as int);
    lemma_read_four(sample_rate as int);
    lemma_read_four(rate);
    lemma_read_two(channels * 2);
    lemma_read_two(16);
    lemma_read_four(2 * samples as int);
}

/// The level of a sample is 32767 times its size, cut off at full scale and to an integer,
/// with its sign.
pub proof fn levels_follow_the_samples(s: Float)
    requires
        s.finite(),
    ensures
        ({
            let x = 32767real * between(num(s), -1real, 1real);
            &&& x >= 0real ==> x - 1real - 1real / 100real < level(s) as real <= x + 1real / 100real
            &&& x <= 0real ==> x - 1real / 100real <= level(s) as real && (level(s) as real) < x + 1real
                + 1real / 100real
        }),
{
    lemma_tiny();
    lemma_int_num(1);
    lemma_neg_num(dec(1, 1));
    lemma_near_clamp(s, num(s), 0real, dec(1, 1).neg(), dec(1, 1));
    let c = s.clamp(dec(1, 1).neg(), dec(1, 1));
    lemma_times_dec(32767, 1, c);
    let f = c.mul(dec(32767, 1));
    lemma_signed_part(f);
}

/// The integer part with its sign.
proof fn lemma_signed_part(f: Float)
    requires
        f.finite(),
        abs(num(f)) <= 327671real / 10real,
    ensures
        num(f) >= 0real ==> num(f) - 1real < f.saturated_i16() as real <= num(f),
        num(f) <= 0real ==> num(f) <= f.saturated_i16() as real && (f.saturated_i16() as real) < num(f) + 1real,
{
    reveal(Float::saturated_i16);
    reveal(Float::saturated);
    lemma_abs_num(f);
    let a = f.abs();
    lemma_integer_part(a, 0xffff);
    reveal(Float::spec_abs);
    crate::float::lemma_signed(false, f.mag());
    lemma_sign(f);
}

/// The sign of a number.
proof fn lemma_sign(f: Float)
    requires
        f.finite(),
    ensures
        f.negative() ==> num(f) <= 0real,
        !f.negative() ==> num(f) >= 0real,
{
    lemma_int_num(0);
    crate::exact::lemma_dec_int(0);
    assert(0 * vstd::arithmetic::power2::pow2(149) == 0);
    crate::near::lemma_num_order(f, dec(0, 1));
    crate::near::lemma_num_order(dec(0, 1), f);
}

/// The settings are held between their ends: the damping between 0 and 0.25, the room between
/// 0.4 and 1.8, the pace between 0.05 and 2, the volume between 0 and 1, and the balls
/// between 3 and 7.
pub proof fn settings_are_held_between_their_ends(c: Config)
    requires
        c.damping.finite(),
        c.room.finite(),
        c.time_scale.finite(),
        c.volume.finite(),
    ensures
        ({
            let k = c.clamped();
            let e = 1real / 1000000real;
            &&& near(k.damping, between(num(c.damping), 0real, 25real / 100real), e)
            &&& near(k.room, between(num(c.room), 4real / 10real, 18real / 10real), e)
            &&& near(k.time_scale, between(num(c.time_scale), 5real / 100real, 2real), e)
            &&& near(k.volume, between(num(c.volume), 0real, 1real), e)
            &&& k.mute == c.mute
            &&& k.n_balls as int == if c.n_balls <= 3 {
                3
            } else if c.n_balls >= 7 {
                7
            } else {
                c.n_balls as int
            }
        }),
{
    lemma_tiny();
    lemma_int_num(0);
    lemma_int_num(1);
    lemma_int_num(2);
    lemma_dec_near(25, 100);
    lemma_dec_near(4, 10);
    lemma_dec_near(18, 10);
    lemma_dec_near(5, 100);
    lemma_near_clamp(c.damping, num(c.damping), 0real, dec(0, 1), dec(25, 100));
    lemma_near_clamp(c.room, num(c.room), 0real, dec(4, 10), dec(18, 10));
    lemma_near_clamp(c.time_scale, num(c.time_scale), 0real, dec(5, 100), dec(2, 1));
    lemma_near_clamp(c.volume, num(c.volume), 0real, dec(0, 1), dec(1, 1));
}

/// A first run starts with a damping of 0.04, a room of size one, at its own pace, with a
/// volume of 0.8 that is heard, and with five balls.
pub proof fn first_settings()
    ensures
        near(initial().damping, 4real / 100real, 1real / 1000000real),
        near(initial().room, 1real, 0real),
        near(initial().time_scale, 1real, 0real),
        near(initial().volume, 8real / 10real, 1real / 1000000real),
        !initial().mute,
        initial().n_balls == 5,
{
    lemma_tiny();
    lemma_int_num(1);
    lemma_dec_near(4, 100);
    lemma_dec_near(8, 10);
}

} // verus!
