use mandelbrot::binary32::Binary32;

fn same(ours: Binary32, theirs: f32) -> bool {
    if theirs.is_nan() {
        ours.bits == 0x7fc0_0000
    } else {
        ours.bits == theirs.to_bits()
    }
}

fn check_pair(a: u32, b: u32) {
    let x = Binary32 { bits: a };
    let y = Binary32 { bits: b };
    let fx = f32::from_bits(a);
    let fy = f32::from_bits(b);
    assert!(same(x.times(y), fx * fy), "{:#x} * {:#x}", a, b);
    assert!(same(x.divided_by(y), fx / fy), "{:#x} / {:#x}", a, b);
    assert!(same(x.plus(y), fx + fy), "{:#x} + {:#x}", a, b);
    assert!(same(x.minus(y), fx - fy), "{:#x} - {:#x}", a, b);
}

fn next(state: &mut u64) -> u32 {
    *state = state.wrapping_mul(6364136223846793005).wrapping_add(1442695040888963407);
    (*state >> 32) as u32
}

const SPECIAL: [u32; 24] = [
    0x0000_0000,
    0x8000_0000,
    0x0000_0001,
    0x8000_0001,
    0x007f_ffff,
    0x0080_0000,
    0x0080_0001,
    0x00ff_ffff,
    0x3f80_0000,
    0xbf80_0000,
    0x3f7f_ffff,
    0x3f80_0001,
    0x4000_0000,
    0x4080_0000,
    0x4220_0000,
    0x4b7f_ffff,
    0x7f7f_ffff,
    0xff7f_ffff,
    0x7f80_0000,
    0xff80_0000,
    0x7fc0_0000,
    0x3400_0000,
    0x3380_0000,
    0x7f00_0000,
];

#[test]
fn arithmetic_agrees_with_hardware_on_special_values() {
    for &a in SPECIAL.iter() {
        for &b in SPECIAL.iter() {
            check_pair(a, b);
        }
    }
}

#[test]
fn arithmetic_agrees_with_hardware_on_random_bits() {
    let mut state = 0x1234_5678_9abc_def0u64;
    for _ in 0..200_000 {
        let a = next(&mut state);
        let b = next(&mut state);
        check_pair(a, b);
    }
}

#[test]
fn arithmetic_agrees_with_hardware_on_close_exponents() {
    let mut state = 0x0fed_cba9_8765_4321u64;
    for _ in 0..200_000 {
        let a = next(&mut state);
        let shift = next(&mut state) % 60;
        let exponent = ((a >> 23) & 0xff).wrapping_add(shift).wrapping_sub(30) & 0xff;
        let b = (next(&mut state) & 0x807f_ffff) | (exponent << 23);
        check_pair(a, b);
    }
}

#[test]
fn arithmetic_agrees_with_hardware_near_the_subnormals() {
    let mut state = 0x5555_aaaa_5555_aaaau64;
    for _ in 0..200_000 {
        let a = next(&mut state) & 0x83ff_ffff;
        let b = next(&mut state) & 0x83ff_ffff;
        check_pair(a, b);
        check_pair(a, b | 0x3c00_0000);
    }
}

#[test]
fn arithmetic_agrees_with_hardware_near_overflow() {
    let mut state = 0x9999_1111_7777_3333u64;
    for _ in 0..200_000 {
        let a = next(&mut state) | 0x7c00_0000;
        let b = next(&mut state) | 0x7c00_0000;
        check_pair(a, b);
        check_pair(a, b & 0xbfff_ffff);
    }
}

#[test]
fn comparison_agrees_with_hardware() {
    let mut state = 0x0bad_cafe_dead_beefu64;
    for &a in SPECIAL.iter() {
        for &b in SPECIAL.iter() {
            let ours = Binary32 { bits: a }.less_than(Binary32 { bits: b });
            assert_eq!(ours, f32::from_bits(a) < f32::from_bits(b), "{:#x} < {:#x}", a, b);
        }
    }
    for _ in 0..200_000 {
        let a = next(&mut state);
        let b = if next(&mut state) % 4 == 0 { a ^ (next(&mut state) & 0x8000_00ff) } else { next(&mut state) };
        let ours = Binary32 { bits: a }.less_than(Binary32 { bits: b });
        assert_eq!(ours, f32::from_bits(a) < f32::from_bits(b), "{:#x} < {:#x}", a, b);
    }
}

#[test]
fn conversion_from_u16_is_exact() {
    for n in 0..=u16::MAX {
        assert_eq!(Binary32::from_u16(n).bits, (n as f32).to_bits());
    }
}

#[test]
fn conversion_to_i32_drops_the_fraction_and_saturates() {
    let cases = [
        (0.0f32, 0i32),
        (-0.0, 0),
        (0.99, 0),
        (-0.99, 0),
        (1.5, 1),
        (-1.5, -1),
        (419430.375, 419430),
        (16777215.0, 16777215),
        (2147483520.0, 2147483520),
        (2147483648.0, i32::MAX),
        (-2147483648.0, i32::MIN),
        (-3e9, i32::MIN),
        (3e38, i32::MAX),
        (f32::INFINITY, i32::MAX),
        (f32::NEG_INFINITY, i32::MIN),
        (f32::NAN, 0),
        (1e-40, 0),
    ];
    for &(value, whole) in cases.iter() {
        assert_eq!(Binary32 { bits: value.to_bits() }.to_i32(), whole, "{}", value);
    }
    let mut state = 0x7777_0000_1111_2222u64;
    for _ in 0..200_000 {
        let a = next(&mut state);
        assert_eq!(Binary32 { bits: a }.to_i32(), f32::from_bits(a) as i32, "{:#x}", a);
    }
}

#[test]
fn negate_flips_the_sign_bit() {
    assert_eq!(Binary32 { bits: 0x3f80_0000 }.negate().bits, 0xbf80_0000);
    assert_eq!(Binary32 { bits: 0x8000_0000 }.negate().bits, 0);
    assert_eq!(Binary32 { bits: 0x7fc0_0000 }.negate().bits, 0xffc0_0000);
}

#[test]
fn ties_round_to_even() {
    // 2^24 + 1 lies halfway between 2^24 and 2^24 + 2.
    let one = Binary32 { bits: 0x3f80_0000 };
    let big = Binary32 { bits: 0x4b80_0000 };
    assert_eq!(big.plus(one).bits, 0x4b80_0000);
    // 2^24 + 3 lies halfway between 2^24 + 2 and 2^24 + 4.
    let next_up = Binary32 { bits: 0x4b80_0001 };
    assert_eq!(next_up.plus(one).bits, 0x4b80_0002);
}
