use dir_stat::utils::{
    checked_binary_prefix, checked_decimal_prefix, to_binary_prefix, to_decimal_prefix,
    BINARY_PREFIXES, BINARY_THRESHOLDS, DECIMAL_PREFIXES, DECIMAL_THRESHOLDS, DECIMAL_LIMIT,
    EXACT_LIMIT,
};

#[test]
fn test_binary_prefix() {
    const B: i128 = 1;
    const KB: i128 = B << 10;
    const MB: i128 = KB << 10;
    const GB: i128 = MB << 10;
    assert_eq!(to_binary_prefix(1), "1 B", "B");
    assert_eq!(to_binary_prefix(KB), "1 KiB", "KB");
    assert_eq!(to_binary_prefix(KB - B), "1023 B", "KB - B");
    assert_eq!(to_binary_prefix(KB + B), "1.001 KiB", "KB + B");
    assert_eq!(to_binary_prefix(GB), "1 GiB", "GB");
    assert_eq!(to_binary_prefix(GB - 1), "1024.000 MiB", "GB - 1");
    assert_eq!(to_binary_prefix(GB - KB), "1023.999 MiB", "GB - KB");
    assert_eq!(to_binary_prefix(GB - MB + KB), "1023.001 MiB", "GB - KB");
    assert_eq!(to_binary_prefix(GB - MB), "1023 MiB", "GB - MB");
}

#[test]
fn test_decimal_prefix() {
    assert_eq!(to_decimal_prefix(1), "1 B", "B");
    assert_eq!(to_decimal_prefix((DECIMAL_THRESHOLDS[1] - DECIMAL_THRESHOLDS[0]) as i128), "999 B", "KB - B");
    assert_eq!(to_decimal_prefix(-((DECIMAL_THRESHOLDS[1] - DECIMAL_THRESHOLDS[0]) as i128)), "-999 B", "KB - B");
    assert_eq!(to_decimal_prefix(DECIMAL_THRESHOLDS[1] as i128), "1 KB", "KB");
    assert_eq!(to_decimal_prefix(-(DECIMAL_THRESHOLDS[1] as i128)), "-1 KB", "KB");
    assert_eq!(to_decimal_prefix((DECIMAL_THRESHOLDS[1] + DECIMAL_THRESHOLDS[0]) as i128), "1.001 KB", "KB + B");
    assert_eq!(to_decimal_prefix((DECIMAL_THRESHOLDS[3] - 1) as i128), "1000.000 MB", "GB - 1");
    assert_eq!(to_decimal_prefix((DECIMAL_THRESHOLDS[3] - DECIMAL_THRESHOLDS[0]) as i128), "1000.000 MB", "GB - B");
    assert_eq!(to_decimal_prefix((DECIMAL_THRESHOLDS[3] - DECIMAL_THRESHOLDS[1]) as i128), "999.999 MB", "GB - KB");
    assert_eq!(to_decimal_prefix((DECIMAL_THRESHOLDS[3] - DECIMAL_THRESHOLDS[2] + DECIMAL_THRESHOLDS[1]) as i128), "999.001 MB", "GB - KB");
    assert_eq!(to_decimal_prefix((DECIMAL_THRESHOLDS[3] - DECIMAL_THRESHOLDS[2]) as i128), "999 MB", "GB - MB");
}

/// The text that division and rounding in binary floating point of double
/// precision give.
fn floating_point(value: i128, prefixes: [&str; 7], thresholds: [u128; 7]) -> String {
    let mut power = 0;
    while power < 5 && value.unsigned_abs() >= thresholds[power + 1] {
        power += 1;
    }
    let lower = if power == 0 { 0 } else { power - 1 };
    let size = (value as f64 / thresholds[lower] as f64) / thresholds[power - lower] as f64;
    if size == size.round() {
        format!("{:.0} {}B", size, prefixes[power])
    } else {
        format!("{:.3} {}B", size, prefixes[power])
    }
}

fn binary_agrees(value: i128) {
    for size in [value, -value] {
        assert_eq!(
            checked_binary_prefix(size),
            Some(floating_point(size, BINARY_PREFIXES, BINARY_THRESHOLDS)),
            "{}",
            size
        );
    }
}

/// Compares where the size is within reach; returns whether it was.
fn decimal_agrees(value: i128) -> bool {
    let mut within = false;
    for size in [value, -value] {
        if let Some(text) = checked_decimal_prefix(size) {
            assert_eq!(text, floating_point(size, DECIMAL_PREFIXES, DECIMAL_THRESHOLDS), "{}", size);
            within = true;
        }
    }
    within
}

fn next_random(state: &mut u64) -> u64 {
    *state = state.wrapping_mul(6364136223846793005).wrapping_add(1442695040888963407);
    *state >> 11
}

#[test]
fn zero_is_written_as_a_whole_number() {
    assert_eq!(to_binary_prefix(0), "0 B");
    assert_eq!(to_decimal_prefix(0), "0 B");
}

#[test]
fn every_unit_within_reach_is_reached() {
    assert_eq!(to_binary_prefix(1 << 20), "1 MiB");
    assert_eq!(to_binary_prefix(1 << 40), "1 TiB");
    assert_eq!(to_binary_prefix(1 << 50), "1 PiB");
    assert_eq!(to_binary_prefix(1 << 53), "8 PiB");
    assert_eq!(to_binary_prefix((1 << 53) - 1), "8.000 PiB");
    assert_eq!(to_decimal_prefix(1_000_000_000), "1 GB");
    assert_eq!(to_decimal_prefix(1_000_000_000_000), "1 TB");
    assert_eq!(to_decimal_prefix(999_000_000_000_000), "999 TB");
    assert_eq!(to_decimal_prefix(999_999_999_999_999), "1000.000 TB");
}

#[test]
fn binary_halves_go_to_the_even_thousandth() {
    // 1088 / 1024 = 1.0625, halfway between 1.062 and 1.063
    assert_eq!(to_binary_prefix(1024 + 64), "1.062 KiB");
    // 1216 / 1024 = 1.1875, halfway between 1.187 and 1.188
    assert_eq!(to_binary_prefix(1024 + 192), "1.188 KiB");
    binary_agrees(1024 + 64);
    binary_agrees(1024 + 192);
    binary_agrees((1 << 30) + (1 << 16));
    binary_agrees((1 << 30) + 3 * (1 << 16));
}

#[test]
fn negative_sizes_keep_their_sign_and_digits() {
    assert_eq!(to_binary_prefix(-1025), "-1.001 KiB");
    assert_eq!(to_decimal_prefix(-1_500_000), "-1.500 MB");
    assert_eq!(to_decimal_prefix(-12_345), "-12.345 KB");
}

#[test]
fn sizes_out_of_reach_are_not_written() {
    assert_eq!(checked_binary_prefix(EXACT_LIMIT + 1), None);
    assert_eq!(checked_binary_prefix(-EXACT_LIMIT - 1), None);
    assert_eq!(checked_binary_prefix(i128::MAX), None);
    assert_eq!(checked_binary_prefix(i128::MIN), None);
    assert_eq!(checked_binary_prefix(EXACT_LIMIT), Some(String::from("8 PiB")));
    assert_eq!(checked_decimal_prefix(DECIMAL_LIMIT), None);
    assert_eq!(checked_decimal_prefix(-DECIMAL_LIMIT), None);
    assert_eq!(checked_decimal_prefix(i128::MIN), None);
    assert_eq!(checked_decimal_prefix(DECIMAL_LIMIT - 1), Some(String::from("1000.000 TB")));
}

#[test]
fn decimal_halves_are_not_written() {
    // 1.0635, 1.0005 and 2.3455 thousands of the unit
    assert_eq!(checked_decimal_prefix(1_063_500), None);
    assert_eq!(checked_decimal_prefix(-1_000_500), None);
    assert_eq!(checked_decimal_prefix(2_345_500_000), None);
    assert_eq!(checked_decimal_prefix(1_063_499), Some(String::from("1.063 MB")));
    assert_eq!(checked_decimal_prefix(1_063_501), Some(String::from("1.064 MB")));
    // below a million every size is a whole number of thousandths
    assert_eq!(checked_decimal_prefix(1_500), Some(String::from("1.500 KB")));
}

#[test]
fn binary_agrees_with_floating_point_on_small_sizes() {
    for value in 0..=70_000 {
        binary_agrees(value);
    }
}

#[test]
fn binary_agrees_with_floating_point_around_powers_of_two() {
    for power in 0..=53 {
        for offset in -40..=40 {
            let value: i128 = (1 << power) + offset;
            if 0 <= value && value <= EXACT_LIMIT {
                binary_agrees(value);
            }
        }
    }
}

#[test]
fn binary_agrees_with_floating_point_on_scattered_sizes() {
    let mut state = 7;
    for _ in 0..150_000 {
        let bits = next_random(&mut state) % 54;
        let value = (next_random(&mut state) as i128) % ((1i128 << bits) + 1);
        binary_agrees(value);
    }
}

#[test]
fn decimal_agrees_with_floating_point_on_small_sizes() {
    for value in 0..=70_000 {
        assert!(decimal_agrees(value));
    }
}

#[test]
fn decimal_agrees_with_floating_point_around_powers_of_ten() {
    let mut power: i128 = 1;
    for _ in 0..=15 {
        for factor in 1..=9 {
            for offset in -40..=40 {
                let value = factor * power + offset;
                if value >= 0 {
                    decimal_agrees(value);
                }
            }
        }
        power *= 10;
    }
}

#[test]
fn decimal_agrees_with_floating_point_beside_the_halves() {
    let mut state = 11;
    let mut unit: i128 = 1_000_000;
    while unit < DECIMAL_LIMIT {
        let step = unit / 1000;
        for _ in 0..20_000 {
            let thousandths = 1000 + (next_random(&mut state) % 999_000) as i128;
            let half = thousandths * step + step / 2;
            assert_eq!(checked_decimal_prefix(half), None);
            for offset in [-2, -1, 1, 2] {
                assert!(decimal_agrees(half + offset) || step == 2);
            }
        }
        unit *= 1000;
    }
}

#[test]
fn decimal_agrees_with_floating_point_on_scattered_sizes() {
    let mut state = 13;
    let mut within = 0;
    for _ in 0..150_000 {
        let digits = next_random(&mut state) % 16;
        let bound = 10i128.pow(digits as u32);
        let value = (next_random(&mut state) as i128) % bound;
        if decimal_agrees(value) {
            within += 1;
        }
    }
    assert!(within > 140_000);
}

#[test]
fn decimal_agrees_with_floating_point_beside_whole_numbers() {
    let mut state = 17;
    let mut unit: i128 = 1_000;
    while unit < DECIMAL_LIMIT {
        for _ in 0..20_000 {
            let whole = 1 + (next_random(&mut state) % 999) as i128;
            for offset in [-3, -2, -1, 0, 1, 2, 3] {
                let value = whole * unit + offset;
                if value < DECIMAL_LIMIT {
                    decimal_agrees(value);
                }
            }
        }
        unit *= 1000;
    }
}

#[test]
fn decimal_agrees_with_floating_point_in_the_largest_unit() {
    let mut state = 19;
    for _ in 0..150_000 {
        let value = 1_000_000_000_000 + (next_random(&mut state) as i128) % 999_000_000_000_000;
        decimal_agrees(value);
    }
}
