use response_cache::{fmt_bytes, fmt_thousands, fmt_tokens};

#[test]
fn test_fmt_tokens() {
    assert_eq!(fmt_tokens(0), "0");
    assert_eq!(fmt_tokens(500), "500");
    assert_eq!(fmt_tokens(999), "999");
    assert_eq!(fmt_tokens(1_000), "1.0k");
    assert_eq!(fmt_tokens(1_500), "1.5k");
    assert_eq!(fmt_tokens(42_100), "42.1k");
    assert_eq!(fmt_tokens(999_999), "1000.0k");
    assert_eq!(fmt_tokens(1_000_000), "1.0M");
    assert_eq!(fmt_tokens(1_500_000), "1.5M");
}

#[test]
fn test_fmt_thousands() {
    assert_eq!(fmt_thousands(0), "0");
    assert_eq!(fmt_thousands(999), "999");
    assert_eq!(fmt_thousands(1_000), "1.000");
    assert_eq!(fmt_thousands(1_234_567), "1.234.567");
}

#[test]
fn thousands_of_the_largest_number() {
    assert_eq!(fmt_thousands(u64::MAX), "18.446.744.073.709.551.615");
    assert_eq!(fmt_thousands(1_000_000), "1.000.000");
    assert_eq!(fmt_thousands(10_020), "10.020");
}

#[test]
fn bytes_in_each_unit() {
    assert_eq!(fmt_bytes(0), "0 B");
    assert_eq!(fmt_bytes(1_023), "1023 B");
    assert_eq!(fmt_bytes(1_024), "1.0 KB");
    assert_eq!(fmt_bytes(1_536), "1.5 KB");
    assert_eq!(fmt_bytes(1_048_575), "1024.0 KB");
    assert_eq!(fmt_bytes(1_048_576), "1.0 MB");
    assert_eq!(fmt_bytes(1_073_741_824), "1.0 GB");
    assert_eq!(fmt_bytes(u64::MAX), "17179869184.0 GB");
}

#[test]
fn ties_go_to_the_even_tenth() {
    // 1.25 and 1.75 are doubles, halfway between two tenths.
    assert_eq!(fmt_bytes(1_280), "1.2 KB");
    assert_eq!(fmt_bytes(1_792), "1.8 KB");
    // 1.05 is not: the nearest double lies above. The one for 1.15 lies below.
    assert_eq!(fmt_tokens(1_050), "1.1k");
    assert_eq!(fmt_tokens(1_150), "1.1k");
}

fn expected_tokens(n: u64) -> String {
    if n >= 1_000_000 {
        format!("{:.1}M", n as f64 / 1_000_000.0)
    } else if n >= 1_000 {
        format!("{:.1}k", n as f64 / 1_000.0)
    } else {
        format!("{}", n)
    }
}

fn expected_bytes(n: u64) -> String {
    if n >= 1_073_741_824 {
        format!("{:.1} GB", n as f64 / 1_073_741_824.0)
    } else if n >= 1_048_576 {
        format!("{:.1} MB", n as f64 / 1_048_576.0)
    } else if n >= 1_024 {
        format!("{:.1} KB", n as f64 / 1_024.0)
    } else {
        format!("{} B", n)
    }
}

#[test]
fn small_numbers_look_like_printed_doubles() {
    for n in 0..1_200_000u64 {
        assert_eq!(fmt_tokens(n), expected_tokens(n));
    }
    for n in 0..1_200_000u64 {
        assert_eq!(fmt_bytes(n), expected_bytes(n));
    }
}

#[test]
fn large_numbers_look_like_printed_doubles() {
    let mut x: u64 = 0x9E37_79B9_7F4A_7C15;
    for i in 0..200_000u64 {
        x ^= x << 13;
        x ^= x >> 7;
        x ^= x << 17;
        let n = x >> (i % 50);
        assert_eq!(fmt_tokens(n), expected_tokens(n));
        assert_eq!(fmt_bytes(n), expected_bytes(n));
    }
    for k in 0..200_000u64 {
        // Halfway between two tenths, and next to it.
        let tokens = 1_000_000 * (k % 1_000 + 1) + 100_000 * (k / 1_000 % 10) + 50_000;
        for n in [tokens - 1, tokens, tokens + 1] {
            assert_eq!(fmt_tokens(n), expected_tokens(n));
        }
    }
    for shift in 53..64 {
        let base = 1u64 << shift;
        for d in 0..5_000u64 {
            assert_eq!(fmt_bytes(base + d), expected_bytes(base + d));
            assert_eq!(fmt_bytes(base - d), expected_bytes(base - d));
            assert_eq!(fmt_tokens(base + d), expected_tokens(base + d));
        }
    }
    assert_eq!(fmt_tokens(u64::MAX), expected_tokens(u64::MAX));
    assert_eq!(fmt_bytes(u64::MAX - 1024), expected_bytes(u64::MAX - 1024));
}

#[test]
fn thousands_read_back_without_dots() {
    let mut x: u64 = 12345;
    for i in 0..10_000u64 {
        x = x.wrapping_mul(6364136223846793005).wrapping_add(1442695040888963407);
        let n = x >> (i % 64);
        let digits: String = fmt_thousands(n).chars().filter(|c| *c != '.').collect();
        assert_eq!(digits, format!("{}", n));
    }
}

// The number that a text shows, times ten.
fn ten_times(text: &str) -> u128 {
    text.chars().filter(|c| *c != '.').collect::<String>().parse().unwrap()
}

fn tokens_shown(n: u64) -> u128 {
    let text = fmt_tokens(n);
    if let Some(number) = text.strip_suffix('M') {
        1_000_000 * ten_times(number)
    } else if let Some(number) = text.strip_suffix('k') {
        1_000 * ten_times(number)
    } else {
        10 * text.parse::<u128>().unwrap()
    }
}

fn bytes_shown(n: u64) -> u128 {
    let text = fmt_bytes(n);
    for (suffix, unit) in [(" GB", 1u128 << 30), (" MB", 1 << 20), (" KB", 1 << 10)] {
        if let Some(number) = text.strip_suffix(suffix) {
            return unit * ten_times(number);
        }
    }
    10 * text.strip_suffix(" B").unwrap().parse::<u128>().unwrap()
}

#[test]
fn larger_numbers_are_not_shown_as_smaller_ones() {
    let mut numbers: Vec<u64> = Vec::new();
    for center in [0, 1_000, 1_024, 1_000_000, 1 << 20, 1 << 30, 1 << 53, 1 << 63, u64::MAX] {
        for d in 0..300u64 {
            numbers.push(u64::saturating_sub(center, d));
            numbers.push(u64::saturating_add(center, d));
        }
    }
    let mut x: u64 = 3;
    for _ in 0..3_000 {
        x = x.wrapping_mul(6364136223846793005).wrapping_add(1442695040888963407);
        numbers.push(x >> (x % 64));
    }
    numbers.sort();
    for pair in numbers.windows(2) {
        assert!(tokens_shown(pair[0]) <= tokens_shown(pair[1]));
        assert!(bytes_shown(pair[0]) <= bytes_shown(pair[1]));
    }
    assert_eq!(tokens_shown(999_999), tokens_shown(1_000_000));
    assert_eq!(tokens_shown(42_149), 421_000);
}
