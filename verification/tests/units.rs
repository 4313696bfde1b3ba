use disk_usage::units::{decimal_string, format_size, SizeUnit, GB, KB, MB, TB};

fn reference(bytes: u64) -> String {
    for (unit, factor) in [("TB", TB), ("GB", GB), ("MB", MB), ("KB", KB)] {
        if bytes >= factor {
            return format!("{:.2} {}", bytes as f64 / factor as f64, unit);
        }
    }
    format!("{:.2} B", bytes as f64)
}

#[test]
fn unit_thresholds_are_powers_of_1024() {
    assert_eq!(KB, 1024);
    assert_eq!(MB, 1024 * 1024);
    assert_eq!(GB, 1024 * 1024 * 1024);
    assert_eq!(TB, 1024u64 * 1024 * 1024 * 1024);
    assert_eq!(SizeUnit::B.factor(), 1);
    assert_eq!(SizeUnit::KB.factor(), KB);
    assert_eq!(SizeUnit::MB.factor(), MB);
    assert_eq!(SizeUnit::GB.factor(), GB);
    assert_eq!(SizeUnit::TB.factor(), TB);
}

#[test]
fn unit_selection_takes_largest_reached() {
    assert_eq!(SizeUnit::of(0), SizeUnit::B);
    assert_eq!(SizeUnit::of(1023), SizeUnit::B);
    assert_eq!(SizeUnit::of(1024), SizeUnit::KB);
    assert_eq!(SizeUnit::of(MB - 1), SizeUnit::KB);
    assert_eq!(SizeUnit::of(MB), SizeUnit::MB);
    assert_eq!(SizeUnit::of(GB - 1), SizeUnit::MB);
    assert_eq!(SizeUnit::of(GB), SizeUnit::GB);
    assert_eq!(SizeUnit::of(TB - 1), SizeUnit::GB);
    assert_eq!(SizeUnit::of(TB), SizeUnit::TB);
    assert_eq!(SizeUnit::of(u64::MAX), SizeUnit::TB);
}

#[test]
fn unit_labels() {
    assert_eq!(SizeUnit::B.label(), "B");
    assert_eq!(SizeUnit::KB.label(), "KB");
    assert_eq!(SizeUnit::MB.label(), "MB");
    assert_eq!(SizeUnit::GB.label(), "GB");
    assert_eq!(SizeUnit::TB.label(), "TB");
}

#[test]
fn format_boundary_below_kilobyte() {
    assert_eq!(format_size(1023), "1023.00 B");
}

#[test]
fn format_boundary_at_kilobyte() {
    assert_eq!(format_size(1024), "1.00 KB");
}

#[test]
fn format_boundary_at_terabyte() {
    assert_eq!(format_size(1024u64 * 1024 * 1024 * 1024), "1.00 TB");
}

#[test]
fn format_zero_and_small() {
    assert_eq!(format_size(0), "0.00 B");
    assert_eq!(format_size(1), "1.00 B");
    assert_eq!(format_size(60), "60.00 B");
}

#[test]
fn format_each_unit() {
    assert_eq!(format_size(1536), "1.50 KB");
    assert_eq!(format_size(MB), "1.00 MB");
    assert_eq!(format_size(MB + MB / 2), "1.50 MB");
    assert_eq!(format_size(GB), "1.00 GB");
    assert_eq!(format_size(1_320_702_444), "1.23 GB");
    assert_eq!(format_size(5 * TB + TB / 4), "5.25 TB");
}

#[test]
fn format_just_below_a_threshold() {
    assert_eq!(format_size(MB - 1), "1024.00 KB");
    assert_eq!(format_size(GB - 1), "1024.00 MB");
    assert_eq!(format_size(TB - 1), "1024.00 GB");
}

#[test]
fn format_rounds_halves_to_even() {
    // 1152 / 1024 = 1.125 and 1408 / 1024 = 1.375, both exact halves.
    assert_eq!(format_size(1152), "1.12 KB");
    assert_eq!(format_size(1408), "1.38 KB");
    assert_eq!(format_size(1152), reference(1152));
    assert_eq!(format_size(1408), reference(1408));
}

#[test]
fn format_largest_count() {
    assert_eq!(format_size(u64::MAX), "16777216.00 TB");
    assert_eq!(format_size(u64::MAX), reference(u64::MAX));
}

#[test]
fn format_agrees_with_floating_point_near_thresholds() {
    for base in [KB, MB, GB, TB, 1u64 << 52, 1u64 << 53, 1u64 << 54, 1u64 << 60, 1u64 << 63] {
        let mut delta: u64 = 0;
        while delta < 3000 {
            assert_eq!(format_size(base + delta), reference(base + delta));
            assert_eq!(format_size(base - delta), reference(base - delta));
            delta += 1;
        }
    }
}

#[test]
fn format_agrees_with_floating_point_on_scattered_counts() {
    let mut state: u64 = 0x9E37_79B9_7F4A_7C15;
    let mut round: u32 = 0;
    while round < 200_000 {
        state = state.wrapping_mul(6364136223846793005).wrapping_add(1442695040888963407);
        let bytes: u64 = state >> (round % 64);
        assert_eq!(format_size(bytes), reference(bytes), "bytes = {}", bytes);
        round += 1;
    }
}

#[test]
fn format_agrees_with_floating_point_at_halfway_points() {
    // Counts beyond 2^53 that lie exactly between two doubles, and their
    // neighbours.
    let mut k: u64 = 0;
    while k < 2000 {
        for shift in [1u32, 2, 5, 10, 11] {
            let step: u64 = 1u64 << shift;
            let low: u64 = (1u64 << (52 + shift)) + k * step;
            let mid: u64 = low + step / 2;
            assert_eq!(format_size(mid), reference(mid), "bytes = {}", mid);
            assert_eq!(format_size(mid - 1), reference(mid - 1), "bytes = {}", mid - 1);
            assert_eq!(format_size(mid + 1), reference(mid + 1), "bytes = {}", mid + 1);
        }
        k += 1;
    }
}

#[test]
fn format_agrees_with_floating_point_at_hundredth_ties() {
    // In terabytes a tie at the third decimal needs a multiple of 2^37.
    let mut k: u64 = 1;
    while k < 5000 {
        let bytes: u64 = TB + k * (1u64 << 37) / 25;
        assert_eq!(format_size(bytes), reference(bytes), "bytes = {}", bytes);
        let kilo: u64 = KB + k * 128 % (MB - KB);
        assert_eq!(format_size(kilo), reference(kilo), "bytes = {}", kilo);
        k += 1;
    }
}

#[test]
fn decimal_notation() {
    assert_eq!(decimal_string(0), "0");
    assert_eq!(decimal_string(7), "7");
    assert_eq!(decimal_string(10), "10");
    assert_eq!(decimal_string(1023), "1023");
    assert_eq!(decimal_string(u64::MAX), "18446744073709551615");
}
