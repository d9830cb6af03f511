use disk_flashlight::format::{human_size, thousands};

#[test]
fn sizes() {
    assert_eq!(human_size(0), "0 B");
    assert_eq!(human_size(1023), "1023 B");
    assert_eq!(human_size(1024), "1.0 KB");
    assert_eq!(human_size(4_939_212_390), "4.6 GB");
    assert_eq!(human_size(136_628_000), "130 MB");
}

#[test]
fn groups() {
    assert_eq!(thousands(0), "0");
    assert_eq!(thousands(999), "999");
    assert_eq!(thousands(1000), "1\u{2009}000");
    assert_eq!(thousands(1234567), "1\u{2009}234\u{2009}567");
}

/// The integer rendering agrees with the floating-point formatting it
/// describes, including ties (which go to the even digit).
fn float_reference(bytes: u64) -> String {
    const UNITS: [&str; 6] = ["B", "KB", "MB", "GB", "TB", "PB"];
    if bytes < 1024 {
        return format!("{bytes} B");
    }
    let mut v = bytes as f64;
    let mut unit = 0;
    while v >= 1024.0 && unit < UNITS.len() - 1 {
        v /= 1024.0;
        unit += 1;
    }
    if v >= 100.0 {
        format!("{v:.0} {}", UNITS[unit])
    } else {
        format!("{v:.1} {}", UNITS[unit])
    }
}

#[test]
fn human_size_matches_float_formatting() {
    let mut samples: Vec<u64> = vec![
        1024, 1075, 1280, 1331, 1536, 10 * 1024 - 1, 102_348, 102_399, 102_400, 1_048_575,
        1_048_576, 5 * 256 * 1024, 99 * 1024 * 1024 + 1023 * 1024, u64::MAX, u64::MAX - 1,
        (1u64 << 53) + 1, (1u64 << 54) + 3, 1u64 << 60, (1u64 << 60) * 15,
    ];
    let mut x: u64 = 88_172_645_463_325_252;
    for _ in 0..20_000 {
        x ^= x << 13;
        x ^= x >> 7;
        x ^= x << 17;
        samples.push(x >> (x % 60));
    }
    for b in samples {
        assert_eq!(human_size(b), float_reference(b), "bytes {b}");
    }
}

#[test]
fn human_size_units() {
    assert_eq!(human_size(1u64 << 50), "1.0 PB");
    assert_eq!(human_size(u64::MAX), "16384 PB");
    assert_eq!(human_size(1536), "1.5 KB");
    assert_eq!(human_size(1280), "1.2 KB");
}

#[test]
fn thousands_large() {
    assert_eq!(thousands(1_000_001), "1\u{2009}000\u{2009}001");
    assert_eq!(
        thousands(u64::MAX),
        "18\u{2009}446\u{2009}744\u{2009}073\u{2009}709\u{2009}551\u{2009}615"
    );
}
