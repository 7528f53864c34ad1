//! The integer arithmetic against the machine's own floating point, bit for
//! bit. Patterns are drawn to cover subnormals, infinities and NaN, near
//! misses of every rounding case included.
use pipit::binary32::Binary32;

fn wrap(x: f32) -> Binary32 {
    Binary32::from_bits(x.to_bits())
}

/// One bit pattern per value: all NaNs count as the same.
fn same(ours: Binary32, theirs: f32) -> bool {
    if theirs.is_nan() {
        ours.is_nan()
    } else {
        ours.to_bits() == theirs.to_bits()
    }
}

struct Patterns {
    state: u32,
}

impl Patterns {
    fn new(seed: u32) -> Self {
        Patterns { state: seed }
    }

    fn word(&mut self) -> u32 {
        self.state ^= self.state << 13;
        self.state ^= self.state >> 17;
        self.state ^= self.state << 5;
        self.state
    }

    /// Any pattern, or one whose exponent is near another's so that sums
    /// cancel and products round.
    fn next(&mut self, near: u32) -> u32 {
        let word = self.word();
        match word % 4 {
            0 => self.word(),
            1 => (self.word() & 0x807f_ffff) | (near & 0x7f80_0000),
            2 => near.wrapping_add(self.word() % 5).wrapping_sub(2),
            _ => {
                let exponent = (near >> 23 & 0xff).wrapping_add(self.word() % 27).wrapping_sub(13);
                (self.word() & 0x807f_ffff) | ((exponent & 0xff) << 23)
            }
        }
    }
}

const EDGES: [u32; 16] = [
    0x0000_0000,
    0x8000_0000,
    0x0000_0001,
    0x8000_0001,
    0x007f_ffff,
    0x0080_0000,
    0x0080_0001,
    0x3f80_0000,
    0xbf80_0000,
    0x3f80_0001,
    0x7f7f_ffff,
    0xff7f_ffff,
    0x7f80_0000,
    0xff80_0000,
    0x7fc0_0000,
    0x4b80_0000,
];

fn check(a: u32, b: u32) {
    let (x, y) = (f32::from_bits(a), f32::from_bits(b));
    let (p, q) = (Binary32::from_bits(a), Binary32::from_bits(b));
    assert!(same(p.add(q), x + y), "{a:08x} + {b:08x}");
    assert!(same(p.sub(q), x - y), "{a:08x} - {b:08x}");
    assert!(same(p.mul(q), x * y), "{a:08x} * {b:08x}");
    assert!(same(p.div(q), x / y), "{a:08x} / {b:08x}");
    assert!(same(p.rem(q), x % y), "{a:08x} % {b:08x}");
    assert_eq!(p.lt(q), x < y, "{a:08x} < {b:08x}");
    assert_eq!(p.le(q), x <= y, "{a:08x} <= {b:08x}");
}

#[test]
fn operations_match_the_machine_on_edges() {
    for a in EDGES {
        for b in EDGES {
            check(a, b);
        }
        assert!(same(Binary32::from_bits(a).abs(), f32::from_bits(a).abs()));
        assert!(same(Binary32::from_bits(a).neg(), -f32::from_bits(a)));
        assert_eq!(Binary32::from_bits(a).is_nan(), f32::from_bits(a).is_nan());
        assert_eq!(Binary32::from_bits(a).is_finite(), f32::from_bits(a).is_finite());
    }
}

#[test]
fn operations_match_the_machine_on_random_patterns() {
    let mut patterns = Patterns::new(0x9e37_79b9);
    for _ in 0..200_000 {
        let a = patterns.word();
        let b = patterns.next(a);
        check(a, b);
    }
}

#[test]
fn clamp_matches_the_machine() {
    let mut patterns = Patterns::new(0x1357_9bdf);
    for _ in 0..50_000 {
        let x = f32::from_bits(patterns.word());
        let (low, high) = (-1.5f32, 2.25f32);
        assert!(same(wrap(x).clamp(wrap(low), wrap(high)), x.clamp(low, high)), "{x}");
    }
}

#[test]
fn whole_numbers_convert_exactly() {
    for n in [0i64, 1, -1, 7, 180, -32768, 32767, 8_388_607, 16_777_216, -16_777_216] {
        assert_eq!(Binary32::from_i64(n).to_bits(), (n as f32).to_bits(), "{n}");
    }
    // Past 24 bits the nearest value is taken, ties to even.
    for n in [16_777_217i64, 16_777_219, -16_777_217, 4_294_967_295, 0xff_ffff_ffff] {
        assert_eq!(Binary32::from_i64(n).to_bits(), (n as f32).to_bits(), "{n}");
    }
}

#[test]
fn conversion_to_whole_numbers_truncates_and_saturates() {
    let cases = [
        (0.0f32, 0i64),
        (-0.0, 0),
        (0.99, 0),
        (-0.99, 0),
        (1.5, 1),
        (-1.5, -1),
        (12345.678, 12345),
        (40000.0, 32767),
        (-40000.0, -32768),
        (f32::INFINITY, 32767),
        (f32::NEG_INFINITY, -32768),
        (f32::NAN, 0),
    ];
    for (x, whole) in cases {
        assert_eq!(wrap(x).to_whole(-32768, 32767), whole, "{x}");
        assert_eq!(x as i16 as i64, whole, "{x}");
    }
}
