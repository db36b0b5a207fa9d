use tree_map_base::format::{format_duration_compact, human_size};

fn float_rendering(bytes: u64) -> String {
    const UNITS: [&str; 6] = ["B", "KB", "MB", "GB", "TB", "PB"];
    if bytes < 1024 {
        return format!("{bytes} B");
    }
    let mut value = bytes as f64;
    let mut unit_index = 0_usize;
    while value >= 1024.0 && unit_index + 1 < UNITS.len() {
        value /= 1024.0;
        unit_index += 1;
    }
    if value >= 10.0 {
        format!("{value:.1} {}", UNITS[unit_index])
    } else {
        format!("{value:.2} {}", UNITS[unit_index])
    }
}

#[test]
fn human_size_below_one_kilobyte_shows_bytes() {
    assert_eq!(human_size(0), "0 B");
    assert_eq!(human_size(1), "1 B");
    assert_eq!(human_size(512), "512 B");
    assert_eq!(human_size(1023), "1023 B");
}

#[test]
fn human_size_picks_unit_and_decimals() {
    assert_eq!(human_size(1024), "1.00 KB");
    assert_eq!(human_size(1536), "1.50 KB");
    assert_eq!(human_size(10 * 1024), "10.0 KB");
    assert_eq!(human_size(10 * 1024 + 512), "10.5 KB");
    assert_eq!(human_size(1024 * 1024), "1.00 MB");
    assert_eq!(human_size(3 * 1024 * 1024 * 1024), "3.00 GB");
    assert_eq!(human_size(1 << 40), "1.00 TB");
    assert_eq!(human_size(1 << 50), "1.00 PB");
    assert_eq!(human_size(u64::MAX), "16384.0 PB");
}

#[test]
fn human_size_rounds_ties_to_even() {
    assert_eq!(human_size(10496), "10.2 KB");
    assert_eq!(human_size(10496 + 512), "10.8 KB");
    assert_eq!(human_size(1024 + 128), "1.12 KB");
    assert_eq!(human_size(1024 + 384), "1.38 KB");
    assert_eq!(human_size(1023 * 1024 + 1023), "1024.0 KB");
    assert_eq!(human_size(10 * 1024 - 1), "10.00 KB");
}

#[test]
fn human_size_agrees_with_floating_point_rendering() {
    let mut seed: u64 = 0x9E37_79B9_7F4A_7C15;
    for round in 0..200_000u64 {
        seed = seed.wrapping_mul(6364136223846793005).wrapping_add(1442695040888963407);
        let bytes = seed >> (round % 64);
        assert_eq!(human_size(bytes), float_rendering(bytes), "bytes = {}", bytes);
    }
    for bytes in 0..70_000u64 {
        assert_eq!(human_size(bytes), float_rendering(bytes), "bytes = {}", bytes);
    }
    for shift in 0..64u32 {
        let base = 1u64 << shift;
        for delta in 0..4096u64 {
            for bytes in [base.wrapping_add(delta), base.wrapping_sub(delta)] {
                assert_eq!(human_size(bytes), float_rendering(bytes), "bytes = {}", bytes);
            }
        }
    }
    for step in 0..100_000u64 {
        let bytes = u64::MAX - step * 977;
        assert_eq!(human_size(bytes), float_rendering(bytes), "bytes = {}", bytes);
        let bytes = (1u64 << 53) + step * 3;
        assert_eq!(human_size(bytes), float_rendering(bytes), "bytes = {}", bytes);
        let bytes = 256 * (2 * step + 1);
        assert_eq!(human_size(bytes), float_rendering(bytes), "bytes = {}", bytes);
    }
}

#[test]
fn duration_shows_largest_unit_first() {
    assert_eq!(format_duration_compact(0), "0s");
    assert_eq!(format_duration_compact(59), "59s");
    assert_eq!(format_duration_compact(60), "1m 00s");
    assert_eq!(format_duration_compact(125), "2m 05s");
    assert_eq!(format_duration_compact(3600), "1h 00m 00s");
    assert_eq!(format_duration_compact(3723), "1h 02m 03s");
    assert_eq!(format_duration_compact(360_000), "100h 00m 00s");
}
