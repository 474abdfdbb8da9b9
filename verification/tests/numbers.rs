use resource_monitor::percent::CpuPercent;
use resource_monitor::text::{decimal_text, format_bytes};

fn cpu(value: f32) -> CpuPercent {
    CpuPercent::from_bits(value.to_bits())
}

struct Xorshift(u64);

impl Xorshift {
    fn next(&mut self) -> u64 {
        self.0 ^= self.0 << 13;
        self.0 ^= self.0 >> 7;
        self.0 ^= self.0 << 17;
        self.0
    }
}

fn float_format_bytes(bytes: u64) -> String {
    let kb: u64 = 1024;
    let mb: u64 = 1024 * kb;
    let gb: u64 = 1024 * mb;
    if bytes >= gb {
        format!("{:.1} GB", bytes as f64 / gb as f64)
    } else if bytes >= mb {
        format!("{:.1} MB", bytes as f64 / mb as f64)
    } else if bytes >= kb {
        format!("{:.0} KB", bytes as f64 / kb as f64)
    } else {
        format!("{} B", bytes)
    }
}

/// Patterns of zeros, subnormals, powers of two, extremes and not-a-numbers.
fn special_patterns() -> Vec<u32> {
    let mut patterns = vec![
        0,
        1,
        2,
        0x007f_ffff,
        0x0080_0000,
        0x0080_0001,
        0x3f80_0000,
        0x4248_0000,
        0x4248_0001,
        0x4247_ffff,
        0x41a0_0000,
        0x41a0_0001,
        0x419f_ffff,
        0x4b00_0000,
        0x4b7f_ffff,
        0x7f7f_ffff,
        0x7f00_0000,
        0x7f80_0000,
        0x7f80_0001,
        0x7fc0_0000,
    ];
    for exponent in 0..255u32 {
        patterns.push(exponent << 23);
        patterns.push((exponent << 23) + 1);
        patterns.push((exponent << 23) + 0x40_0000);
        patterns.push((exponent << 23) + 0x7f_ffff);
    }
    let negative: Vec<u32> = patterns.iter().map(|p| p | 0x8000_0000).collect();
    patterns.extend(negative);
    patterns
}

#[test]
fn decimal_numerals() {
    assert_eq!(decimal_text(0), "0");
    assert_eq!(decimal_text(9), "9");
    assert_eq!(decimal_text(10), "10");
    assert_eq!(decimal_text(4_294_967_295), "4294967295");
    assert_eq!(decimal_text(u128::MAX), u128::MAX.to_string());
}

#[test]
fn byte_sizes_in_each_unit() {
    assert_eq!(format_bytes(0), "0 B");
    assert_eq!(format_bytes(1023), "1023 B");
    assert_eq!(format_bytes(1024), "1 KB");
    assert_eq!(format_bytes(1024 * 1024 - 1), "1024 KB");
    assert_eq!(format_bytes(1024 * 1024), "1.0 MB");
    assert_eq!(format_bytes(1024 * 1024 * 1024 - 1), "1024.0 MB");
    assert_eq!(format_bytes(1024 * 1024 * 1024), "1.0 GB");
    assert_eq!(format_bytes(1_610_612_736), "1.5 GB");
    assert_eq!(format_bytes(u64::MAX), "17179869184.0 GB");
}

#[test]
fn byte_sizes_round_half_to_even() {
    assert_eq!(format_bytes(1536), "2 KB");
    assert_eq!(format_bytes(2560), "2 KB");
    assert_eq!(format_bytes(2561), "3 KB");
    // 1.25 and 1.75 mebibytes lie halfway between two tenths.
    assert_eq!(format_bytes(1_310_720), "1.2 MB");
    assert_eq!(format_bytes(1_835_008), "1.8 MB");
}

#[test]
fn byte_sizes_agree_with_float_formatting() {
    let mut random = Xorshift(0x9e37_79b9_7f4a_7c15);
    for shift in 0..64u32 {
        let power = 1u64 << shift;
        for bytes in [power - 1, power, power + 1, power + power / 2, power | (power >> 2)] {
            assert_eq!(format_bytes(bytes), float_format_bytes(bytes));
        }
        for _ in 0..2000 {
            let bytes = random.next() >> shift;
            assert_eq!(format_bytes(bytes), float_format_bytes(bytes));
        }
    }
    for kib in 0..5000u64 {
        let bytes = kib * 512;
        assert_eq!(format_bytes(bytes), float_format_bytes(bytes));
    }
    // Beyond 53 bits the size is rounded before it is divided.
    for low in 0..4096u64 {
        let bytes = u64::MAX - low * 257;
        assert_eq!(format_bytes(bytes), float_format_bytes(bytes));
    }
}

#[test]
fn percent_text() {
    assert_eq!(cpu(0.0).text(), "0.0");
    assert_eq!(cpu(-0.0).text(), "-0.0");
    assert_eq!(cpu(12.34).text(), "12.3");
    assert_eq!(cpu(0.25).text(), "0.2");
    assert_eq!(cpu(0.75).text(), "0.8");
    assert_eq!(cpu(99.95).text(), "99.9");
    assert_eq!(cpu(100.0).text(), "100.0");
    assert_eq!(cpu(-0.01).text(), "-0.0");
    assert_eq!(cpu(f32::NAN).text(), "NaN");
    assert_eq!(cpu(-f32::NAN).text(), "NaN");
    assert_eq!(cpu(f32::INFINITY).text(), "inf");
    assert_eq!(cpu(f32::NEG_INFINITY).text(), "-inf");
    assert_eq!(cpu(f32::MAX).text(), "340282346638528859811704183484516925440.0");
}

#[test]
fn percent_text_agrees_with_float_formatting() {
    let mut random = Xorshift(0x2545_f491_4f6c_dd1d);
    for bits in special_patterns() {
        assert_eq!(CpuPercent::from_bits(bits).text(), format!("{:.1}", f32::from_bits(bits)));
    }
    for _ in 0..100_000 {
        let bits = random.next() as u32;
        assert_eq!(CpuPercent::from_bits(bits).text(), format!("{:.1}", f32::from_bits(bits)));
    }
    // Sixteenths, where ties are frequent.
    for sixteenths in 0..40_000u32 {
        let value = sixteenths as f32 / 16.0;
        assert_eq!(cpu(value).text(), format!("{:.1}", value));
    }
}

#[test]
fn percent_order_agrees_with_floats() {
    let patterns = special_patterns();
    for &a in patterns.iter().step_by(7) {
        for &b in &patterns {
            assert_eq!(
                CpuPercent::from_bits(a).is_below(CpuPercent::from_bits(b)),
                f32::from_bits(a) < f32::from_bits(b)
            );
        }
    }
    for bits in patterns {
        let percent = CpuPercent::from_bits(bits);
        let value = f32::from_bits(bits);
        assert_eq!(percent.is_nan(), value.is_nan());
        assert_eq!(percent.is_above_fifty(), value > 50.0);
        assert_eq!(percent.is_above_twenty(), value > 20.0);
    }
}

fn assert_same_sum(a: u32, b: u32) {
    let sum = CpuPercent::from_bits(a).plus(CpuPercent::from_bits(b));
    let expected = f32::from_bits(a) + f32::from_bits(b);
    if expected.is_nan() {
        assert!(sum.is_nan());
    } else {
        assert_eq!(sum.bits, expected.to_bits(), "{:#x} + {:#x}", a, b);
    }
}

#[test]
fn percent_sum_of_plain_values() {
    assert_eq!(cpu(1.5).plus(cpu(2.25)), cpu(3.75));
    assert_eq!(cpu(0.1).plus(cpu(0.2)), cpu(0.1 + 0.2));
    assert_eq!(cpu(5.0).plus(cpu(-5.0)), cpu(0.0));
    assert_eq!(cpu(-0.0).plus(cpu(-0.0)), cpu(-0.0));
    assert_eq!(cpu(f32::MAX).plus(cpu(f32::MAX)), cpu(f32::INFINITY));
    assert!(cpu(f32::INFINITY).plus(cpu(f32::NEG_INFINITY)).is_nan());
}

#[test]
fn percent_sum_agrees_with_floats() {
    let patterns = special_patterns();
    for &a in patterns.iter().step_by(3) {
        for &b in &patterns {
            assert_same_sum(a, b);
        }
    }
    let mut random = Xorshift(0x1234_5678_9abc_def1);
    for _ in 0..200_000 {
        let pair = random.next();
        assert_same_sum(pair as u32, (pair >> 32) as u32);
    }
    // Neighbouring exponents, where cancellation and ties happen.
    for _ in 0..200_000 {
        let pair = random.next();
        let base = 0x4000_0000 + ((pair >> 60) as u32) * 0x0080_0000;
        let a = base ^ ((pair as u32) & 0x80ff_ffff);
        let b = base ^ (((pair >> 28) as u32) & 0x83ff_ffff);
        assert_same_sum(a, b);
    }
}

#[test]
fn percent_sum_commutes() {
    let mut random = Xorshift(0xdead_beef_0bad_cafe);
    for _ in 0..1000 {
        let pair = random.next();
        let a = CpuPercent::from_bits(pair as u32 & 0x7f7f_ffff);
        let b = CpuPercent::from_bits((pair >> 32) as u32 & 0x7f7f_ffff);
        assert_eq!(a.plus(b), b.plus(a));
    }
}
