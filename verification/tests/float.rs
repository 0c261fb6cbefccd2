//! Single-precision arithmetic against the machine's own.

use newtons_cradle::float::{fl, Float};

fn next(state: &mut u64) -> u32 {
    *state ^= *state << 13;
    *state ^= *state >> 7;
    *state ^= *state << 17;
    (*state >> 16) as u32
}

/// Patterns of every kind: special ones, and random ones near and far in size.
fn samples() -> Vec<u32> {
    let mut v: Vec<u32> = vec![
        0, 1, 2, 0x007f_ffff, 0x0080_0000, 0x0080_0001, 0x00ff_ffff, 0x0100_0000, 0x3f80_0000,
        0x3f7f_ffff, 0x3f80_0001, 0x4000_0000, 0x3f00_0000, 0x4b00_0000, 0x4b7f_ffff, 0x4b80_0000,
        0x5f00_0000, 0x5f80_0000, 0x7f7f_ffff, 0x7f80_0000, 0x7fc0_0000, 0x7f00_0000, 0x3effffff,
        0x4effffff, 0x4f00_0000, 0x4f80_0000, 0x46ff_fe00, 0x4700_0000,
    ];
    let mut s: u64 = 0x9e37_79b9_7f4a_7c15;
    for _ in 0..200 {
        v.push(next(&mut s) & 0x7fff_ffff);
        v.push(0x3f00_0000 + (next(&mut s) & 0x00ff_ffff));
        v.push(next(&mut s) & 0x00ff_ffff);
    }
    let n = v.len();
    for i in 0..n {
        v.push(v[i] | 0x8000_0000);
    }
    v
}

fn agrees(got: Float, want: f32) -> bool {
    if want.is_nan() {
        got.is_nan()
    } else {
        got.bits == want.to_bits()
    }
}

#[test]
fn binary_operations_agree_with_the_machine() {
    let v = samples();
    for &a in &v {
        for &b in &v {
            let (x, y) = (f32::from_bits(a), f32::from_bits(b));
            let (p, q) = (fl(a), fl(b));
            assert!(agrees(p.add(q), x + y), "{:x} + {:x}", a, b);
            assert!(agrees(p.sub(q), x - y), "{:x} - {:x}", a, b);
            assert!(agrees(p.mul(q), x * y), "{:x} * {:x}", a, b);
            assert!(agrees(p.div(q), x / y), "{:x} / {:x}", a, b);
            assert_eq!(p.lt(q), x < y);
            assert_eq!(p.le(q), x <= y);
            assert_eq!(p.same(q), x == y);
            if x != 0.0 || y != 0.0 {
                assert!(agrees(p.max(q), x.max(y)), "max {:x} {:x}", a, b);
                assert!(agrees(p.min(q), x.min(y)), "min {:x} {:x}", a, b);
            }
        }
    }
}

#[test]
fn unary_operations_agree_with_the_machine() {
    let mut v = samples();
    let mut s: u64 = 12345;
    for _ in 0..200_000 {
        v.push(next(&mut s));
    }
    for &a in &v {
        let x = f32::from_bits(a);
        let p = fl(a);
        assert!(agrees(p.sqrt(), x.sqrt()), "sqrt {:x}", a);
        assert!(agrees(p.round(), x.round()), "round {:x}", a);
        assert_eq!(p.to_usize(), x as usize, "usize {:x}", a);
        assert_eq!(p.to_u32(), x as u32, "u32 {:x}", a);
        assert_eq!(p.to_i16(), x as i16, "i16 {:x}", a);
        assert_eq!(p.neg().bits, (-x).to_bits());
        assert_eq!(p.abs().bits, x.abs().to_bits());
        assert_eq!(Float::of_u64(a as u64 * 0x1_0001).bits, ((a as u64 * 0x1_0001) as f32).to_bits());
        assert!(agrees(p.clamp(fl((-1.5f32).to_bits()), fl(2.5f32.to_bits())), x.clamp(-1.5, 2.5)));
    }
    assert_eq!(Float::of_u64(u64::MAX).bits, (u64::MAX as f32).to_bits());
    assert_eq!(Float::of_usize(7).bits, 7.0f32.to_bits());
}
