use sdft::progress::{format_bytes, progress_percent};

/// The same amount, formatted in floating point.
fn formatted_in_floating_point(bytes: u64) -> String {
    let units = ["B", "KiB", "MiB", "GiB", "TiB"];
    let mut value = bytes as f64;
    let mut unit = 0;
    while value >= 1024.0 && unit < units.len() - 1 {
        value /= 1024.0;
        unit += 1;
    }
    if unit == 0 {
        format!("{bytes} {}", units[unit])
    } else {
        format!("{value:.1} {}", units[unit])
    }
}

#[test]
fn amounts_are_shown_in_tenths_of_their_unit() {
    assert_eq!(format_bytes(0), "0 B");
    assert_eq!(format_bytes(1023), "1023 B");
    assert_eq!(format_bytes(1024), "1.0 KiB");
    assert_eq!(format_bytes(1536), "1.5 KiB");
    assert_eq!(format_bytes(700_000), "683.6 KiB");
    assert_eq!(format_bytes(5 * 1024 * 1024), "5.0 MiB");
    assert_eq!(format_bytes(u64::MAX), "16777216.0 TiB");
}

#[test]
fn amounts_agree_with_floating_point() {
    for bytes in 0..6000_u64 {
        assert_eq!(format_bytes(bytes), formatted_in_floating_point(bytes));
    }
    let mut value = 1_u64;
    for _ in 0..20_000 {
        value = value
            .wrapping_mul(6_364_136_223_846_793_005)
            .wrapping_add(1_442_695_040_888_963_407);
        for shift in [0, 9, 13, 24, 33, 43, 50] {
            let bytes = value >> shift;
            assert_eq!(format_bytes(bytes), formatted_in_floating_point(bytes));
        }
    }
    for exponent in 0..64 {
        let power = 1_u64 << exponent;
        for bytes in [power - 1, power, power + 1, power + power / 4, power + power / 20] {
            assert_eq!(format_bytes(bytes), formatted_in_floating_point(bytes));
        }
    }
    for tie in 0..5000_u64 {
        let bytes = (1 << 53) + (tie << 38) + 1;
        assert_eq!(format_bytes(bytes), formatted_in_floating_point(bytes));
    }
}

#[test]
fn ties_go_to_the_even_tenth() {
    assert_eq!(format_bytes(1280), "1.2 KiB");
    assert_eq!(format_bytes(1792), "1.8 KiB");
}

#[test]
fn percentages_are_rounded_down() {
    assert_eq!(progress_percent(0, 3), 0);
    assert_eq!(progress_percent(1, 3), 33);
    assert_eq!(progress_percent(3, 3), 100);
    assert_eq!(progress_percent(0, 0), 100);
    assert_eq!(progress_percent(7, 0), 100);
}

#[test]
fn huge_percentages_saturate() {
    assert_eq!(progress_percent(u64::MAX, u64::MAX), 1);
    assert_eq!(progress_percent(u64::MAX, 2), u64::MAX / 2);
}
