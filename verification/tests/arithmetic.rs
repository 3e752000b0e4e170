//! The arithmetic on bit patterns against the machine's own.
use decibel_counter::single::Single;

fn single(x: f32) -> Single {
    Single { bits: x.to_bits() }
}

fn same(got: Single, expected: f32) -> bool {
    if expected.is_nan() {
        f32::from_bits(got.bits).is_nan()
    } else {
        got.bits == expected.to_bits()
    }
}

/// Patterns at the borders of the format.
fn borders() -> Vec<u32> {
    let mut v = vec![
        0x0000_0000,
        0x0000_0001,
        0x0000_0002,
        0x0000_0003,
        0x007f_fffe,
        0x007f_ffff,
        0x0080_0000,
        0x0080_0001,
        0x00ff_ffff,
        0x0100_0000,
        0x3eff_ffff,
        0x3f00_0000,
        0x3f00_0001,
        0x3f7f_ffff,
        0x3f80_0000,
        0x3f80_0001,
        0x3fc0_0000,
        0x4000_0000,
        0x4b7f_ffff,
        0x4b80_0000,
        0x4b80_0001,
        0x5f00_0000,
        0x7eff_ffff,
        0x7f00_0000,
        0x7f7f_fffe,
        0x7f7f_ffff,
        0x7f80_0000,
        0x7f80_0001,
        0x7fc0_0000,
    ];
    let negative: Vec<u32> = v.iter().map(|b| b | 0x8000_0000).collect();
    v.extend(negative);
    v
}

/// A reproducible stream of patterns.
struct Stream {
    state: u64,
}

impl Stream {
    fn next(&mut self) -> u32 {
        self.state = self
            .state
            .wrapping_mul(6364136223846793005)
            .wrapping_add(1442695040888963407);
        (self.state >> 32) as u32
    }

    /// A pattern with an exponent near that of one.
    fn near_one(&mut self) -> u32 {
        let raw = self.next();
        let exponent = 100 + self.next() % 56;
        (raw & 0x807f_ffff) | (exponent << 23)
    }
}

fn check_pair(a: u32, b: u32) {
    let (x, y) = (f32::from_bits(a), f32::from_bits(b));
    let (s, t) = (Single { bits: a }, Single { bits: b });
    assert!(same(s.add(t), x + y), "{a:#x} + {b:#x}");
    assert!(same(s.sub(t), x - y), "{a:#x} - {b:#x}");
    assert!(same(s.mul(t), x * y), "{a:#x} * {b:#x}");
    assert!(same(s.div(t), x / y), "{a:#x} / {b:#x}");
    assert_eq!(s.is_below(t), x < y, "{a:#x} < {b:#x}");
}

fn check_triple(a: u32, b: u32, c: u32) {
    let expected = f32::from_bits(a).mul_add(f32::from_bits(b), f32::from_bits(c));
    let got = Single { bits: a }.mul_add(Single { bits: b }, Single { bits: c });
    assert!(same(got, expected), "{a:#x} * {b:#x} + {c:#x}");
}

fn check_one(a: u32) {
    let x = f32::from_bits(a);
    let s = Single { bits: a };
    assert!(same(s.sqrt(), x.sqrt()), "sqrt {a:#x}");
    assert_eq!(s.to_usize(), x as usize, "whole part of {a:#x}");
    assert_eq!(s.neg().bits, (-x).to_bits(), "-{a:#x}");
}

#[test]
fn borders_agree_in_pairs() {
    for a in borders() {
        check_one(a);
        for b in borders() {
            check_pair(a, b);
        }
    }
}

#[test]
fn borders_agree_in_triples() {
    for a in borders() {
        for b in borders() {
            for c in borders() {
                check_triple(a, b, c);
            }
        }
    }
}

#[test]
fn scattered_patterns_agree() {
    let mut stream = Stream { state: 7 };
    for _ in 0..100_000 {
        let (a, b, c) = (stream.next(), stream.next(), stream.next());
        check_one(a);
        check_pair(a, b);
        check_triple(a, b, c);
    }
}

#[test]
fn close_patterns_agree() {
    let mut stream = Stream { state: 11 };
    for _ in 0..100_000 {
        let (a, b, c) = (stream.near_one(), stream.near_one(), stream.near_one());
        check_one(a);
        check_pair(a, b);
        check_triple(a, b, c);
    }
}

#[test]
fn counts_and_integers_agree() {
    let mut stream = Stream { state: 13 };
    for shift in 0..32 {
        for _ in 0..500 {
            let raw = stream.next() >> shift;
            let wide = ((stream.next() as u64) << 32 | raw as u64) >> shift;
            assert!(same(Single::from_usize(raw as usize), raw as usize as f32));
            assert!(same(Single::from_usize(wide as usize), wide as usize as f32));
            assert!(same(Single::from_i32(raw as i32), raw as i32 as f32));
        }
    }
    for v in [0, 1, -1, i32::MAX, i32::MIN, 16_777_217, -16_777_219] {
        assert!(same(Single::from_i32(v), v as f32));
    }
    assert!(same(Single::from_usize(usize::MAX), usize::MAX as f32));
}

#[test]
fn doubles_narrow_like_casts() {
    let mut stream = Stream { state: 17 };
    for _ in 0..100_000 {
        let bits = (stream.next() as u64) << 32 | stream.next() as u64;
        let near = (bits & 0x800f_ffff_ffff_ffff) | ((860 + bits % 300) << 52);
        for pattern in [bits, near] {
            let x = f64::from_bits(pattern);
            assert!(same(Single::from_double(pattern), x as f32), "{pattern:#x}");
        }
    }
    for x in [
        0.0,
        -0.0,
        1.0,
        f64::MAX,
        f64::MIN_POSITIVE,
        f64::INFINITY,
        f64::NEG_INFINITY,
        f64::NAN,
        f32::MAX as f64,
        3.4028235677973366e38,
        3.4028235677973362e38,
        7.006492321624085e-46,
        7.006492321624086e-46,
        1e-320,
    ] {
        assert!(same(Single::from_double(x.to_bits()), x as f32), "{x:e}");
    }
}

#[test]
fn one_and_a_half_times_ten() {
    assert_eq!(single(1.5).mul(single(10.0)), single(15.0));
    assert_eq!(single(2.0).sqrt(), single(1.4142135));
    assert_eq!(single(1.0).div(single(3.0)), single(0.33333334));
    assert_eq!(single(20.0).mul_add(single(-1.5), single(100.0)), single(70.0));
}
