//! Sound files: 16-bit PCM in a RIFF container.

use vstd::prelude::*;
use crate::float::{Float, dec};

verus! {

/// The two bytes of a 16-bit number, low byte first.
pub open spec fn le16(v: int) -> Seq<u8> {
    seq![(v % 256) as u8, (v / 256 % 256) as u8]
}

/// The four bytes of a 32-bit number, low byte first.
pub open spec fn le32(v: int) -> Seq<u8> {
    seq![
        (v % 256) as u8,
        (v / 256 % 256) as u8,
        (v / 0x1_0000 % 256) as u8,
        (v / 0x100_0000 % 256) as u8,
    ]
}

/// The level of a sample: one is full scale, and what lies beyond is cut off.
pub open spec fn level(s: Float) -> int {
    s.clamp(dec(1, 1).neg(), dec(1, 1)).mul(dec(32767, 1)).saturated_i16()
}

/// The two bytes of a sample, in two's complement.
pub open spec fn sample_bytes(s: Float) -> Seq<u8> {
    le16((level(s) + 0x1_0000) % 0x1_0000)
}

/// The bytes of all samples.
pub open spec fn data_bytes(samples: Seq<Float>) -> Seq<u8> {
    Seq::new(2 * samples.len(), |i: int| sample_bytes(samples[i / 2])[i % 2])
}

/// The number of data bytes that the header announces; it counts samples in 32 bits.
pub open spec fn data_len(samples: nat) -> int {
    (samples as int % 0x1_0000_0000) * 2
}

/// `RIFF`.
pub open spec fn riff_tag() -> Seq<u8> {
    seq![0x52, 0x49, 0x46, 0x46]
}

/// `WAVE`, then `fmt `.
pub open spec fn wave_fmt_tags() -> Seq<u8> {
    seq![0x57, 0x41, 0x56, 0x45, 0x66, 0x6d, 0x74, 0x20]
}

/// `data`.
pub open spec fn data_tag() -> Seq<u8> {
    seq![0x64, 0x61, 0x74, 0x61]
}

/// The header of a file.
pub open spec fn header(samples: nat, sample_rate: u32, channels: u16) -> Seq<u8> {
    riff_tag() + le32(36 + data_len(samples)) + wave_fmt_tags() + le32(16) + le16(1) + le16(
        channels as int,
    ) + le32(sample_rate as int) + le32(sample_rate * (channels * 2)) + le16(
        channels * 2 % 0x1_0000,
    ) + le16(16) + data_tag() + le32(data_len(samples))
}

fn push_le16(v: &mut Vec<u8>, n: u16)
    ensures
        final(v)@ == old(v)@ + le16(n as int),
{
    v.push((n % 256) as u8);
    v.push((n / 256) as u8);
    assert(v@ =~= old(v)@ + le16(n as int));
}

fn push_le32(v: &mut Vec<u8>, n: u32)
    ensures
        final(v)@ == old(v)@ + le32(n as int),
{
    v.push((n % 256) as u8);
    v.push((n / 256 % 256) as u8);
    v.push((n / 0x1_0000 % 256) as u8);
    v.push((n / 0x100_0000) as u8);
    assert(v@ =~= old(v)@ + le32(n as int));
}

fn push_tag(v: &mut Vec<u8>, a: u8, b: u8, c: u8, d: u8)
    ensures
        final(v)@ == old(v)@ + seq![a, b, c, d],
{
    v.push(a);
    v.push(b);
    v.push(c);
    v.push(d);
    assert(v@ =~= old(v)@ + seq![a, b, c, d]);
}

/// The bytes before the samples: what the file is, and how to read it.
fn file_header(n: usize, sample_rate: u32, channels: u16) -> (v: Vec<u8>)
    requires
        36 + data_len(n as nat) <= u32::MAX,
        sample_rate * (channels * 2) <= u32::MAX,
    ensures
        v@ == header(n as nat, sample_rate, channels),
{
    let len: u32 = (n as u64 % 0x1_0000_0000) as u32 * 2;
    let block_align: u32 = channels as u32 * 2;
    let byte_rate: u32 = sample_rate * block_align;
    let mut v: Vec<u8> = Vec::new();
    push_tag(&mut v, 0x52, 0x49, 0x46, 0x46);
    assert(v@ =~= riff_tag());
    push_le32(&mut v, 36 + len);
    let ghost named = v@;
    push_tag(&mut v, 0x57, 0x41, 0x56, 0x45);
    push_tag(&mut v, 0x66, 0x6d, 0x74, 0x20);
    assert(v@ =~= named + wave_fmt_tags());
    push_le32(&mut v, 16);
    push_le16(&mut v, 1);
    push_le16(&mut v, channels);
    push_le32(&mut v, sample_rate);
    push_le32(&mut v, byte_rate);
    push_le16(&mut v, (block_align % 0x1_0000) as u16);
    push_le16(&mut v, 16);
    push_tag(&mut v, 0x64, 0x61, 0x74, 0x61);
    push_le32(&mut v, len);
    v
}

/// The samples, sixteen bits each.
fn push_samples(v: &mut Vec<u8>, samples: &Vec<Float>)
    ensures
        final(v)@ == old(v)@ + data_bytes(samples@),
{
    let n = samples.len();
    let one = dec(1, 1);
    let minus_one = dec(1, 1).neg();
    let full = dec(32767, 1);
    assert(v@ =~= old(v)@ + data_bytes(samples@.take(0)));
    for i in 0..n
        invariant
            n == samples@.len(),
            one == dec(1, 1),
            minus_one == dec(1, 1).neg(),
            full == dec(32767, 1),
            v@ == old(v)@ + data_bytes(samples@.take(i as int)),
    {
        let s = samples[i].clamp(minus_one, one).mul(full).to_i16();
        let w: u16 = if s < 0 { (s as i32 + 0x1_0000) as u16 } else { s as u16 };
        push_le16(v, w);
        proof {
            let (a, b) = (data_bytes(samples@.take(i as int)), data_bytes(samples@.take(i + 1)));
            assert(level(samples@[i as int]) == s);
            assert(b =~= a + sample_bytes(samples@[i as int]));
            assert(v@ =~= old(v)@ + b);
        }
    }
    assert(samples@.take(n as int) =~= samples@);
}

/// A sound file with the given interleaved samples.
pub fn encode_wav(samples: &Vec<Float>, sample_rate: u32, channels: u16) -> (v: Vec<u8>)
    requires
        36 + data_len(samples@.len()) <= u32::MAX,
        sample_rate * (channels * 2) <= u32::MAX,
    ensures
        v@ == header(samples@.len(), sample_rate, channels) + data_bytes(samples@),
{
    let mut v = file_header(samples.len(), sample_rate, channels);
    push_samples(&mut v, samples);
    v
}

/// The header is 44 bytes, and where the count of samples fits, its two lengths are
/// those of the file after them.
pub proof fn header_announces_the_lengths(samples: Seq<Float>, sample_rate: u32, channels: u16)
    requires
        samples.len() < 0x1_0000_0000,
    ensures
        ({
            let file = header(samples.len(), sample_rate, channels) + data_bytes(samples);
            &&& header(samples.len(), sample_rate, channels).len() == 44
            &&& file.subrange(4, 8) == le32(file.len() - 8)
            &&& file.subrange(40, 44) == le32(file.len() - 44)
            &&& file.subrange(44, file.len() as int) == data_bytes(samples)
        }),
{
    let n = samples.len();
    let front = riff_tag() + le32(36 + data_len(n));
    let rate = sample_rate * (channels * 2);
    let block = channels * 2 % 0x1_0000;
    let m2 = wave_fmt_tags() + le32(16);
    let m3 = m2 + le16(1);
    let m4 = m3 + le16(channels as int);
    let m5 = m4 + le32(sample_rate as int);
    let m6 = m5 + le32(rate);
    let m7 = m6 + le16(block);
    let m8 = m7 + le16(16);
    let middle = m8 + data_tag();
    assert(middle.len() == 32);
    lemma_join(front, wave_fmt_tags(), le32(16));
    lemma_join(front, m2, le16(1));
    lemma_join(front, m3, le16(channels as int));
    lemma_join(front, m4, le32(sample_rate as int));
    lemma_join(front, m5, le32(rate));
    lemma_join(front, m6, le16(block));
    lemma_join(front, m7, le16(16));
    lemma_join(front, m8, data_tag());
    assert(header(n, sample_rate, channels) == front + middle + le32(data_len(n)));
    lemma_fields(riff_tag(), le32(36 + data_len(n)), middle, le32(data_len(n)), data_bytes(samples));
}

/// Three parts in a row can be joined from either side.
proof fn lemma_join(a: Seq<u8>, b: Seq<u8>, c: Seq<u8>)
    ensures
        a + (b + c) == (a + b) + c,
{
    assert(a + (b + c) =~= (a + b) + c);
}

/// The fields of a file by their places.
proof fn lemma_fields(a: Seq<u8>, b: Seq<u8>, c: Seq<u8>, d: Seq<u8>, e: Seq<u8>)
    requires
        a.len() == 4,
        b.len() == 4,
        c.len() == 32,
        d.len() == 4,
    ensures
        ({
            let file = a + b + c + d + e;
            &&& file.len() == 44 + e.len()
            &&& file.subrange(4, 8) == b
            &&& file.subrange(40, 44) == d
            &&& file.subrange(44, file.len() as int) == e
        }),
{
    let file = a + b + c + d + e;
    assert(file.subrange(4, 8) =~= b);
    assert(file.subrange(40, 44) =~= d);
    assert(file.subrange(44, file.len() as int) =~= e);
}

/// The signed number that two bytes stand for.
pub open spec fn read_i16(lo: u8, hi: u8) -> int {
    let v = lo + 256 * hi;
    if v < 0x8000 {
        v
    } else {
        v - 0x1_0000
    }
}

/// Reading a sample back from its bytes gives its level.
pub proof fn samples_read_back(samples: Seq<Float>, i: int)
    requires
        0 <= i < samples.len(),
    ensures
        read_i16(data_bytes(samples)[2 * i], data_bytes(samples)[2 * i + 1]) == level(samples[i]),
{
    reveal(Float::saturated_i16);
    let l = level(samples[i]);
    assert(-0x8000 <= l <= 0x7fff);
    let v = (l + 0x1_0000) % 0x1_0000;
    assert(v % 256 + 256 * (v / 256 % 256) == v);
}

} // verus!
