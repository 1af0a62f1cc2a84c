use wal_rust::vcd::convert::{format_size, parse_timescale, parse_timestamp, parse_value_change};

/// The size text as a double computes it.
fn size_by_double(bytes: u64) -> String {
    let units = ["B", "KB", "MB", "GB", "TB"];
    let mut size = bytes as f64;
    let mut unit_idx = 0;
    while size >= 1024.0 && unit_idx < units.len() - 1 {
        size /= 1024.0;
        unit_idx += 1;
    }
    format!("{:.1} {}", size, units[unit_idx])
}

#[test]
fn sizes_as_text() {
    assert_eq!(format_size(0), "0.0 B");
    assert_eq!(format_size(1023), "1023.0 B");
    assert_eq!(format_size(1024), "1.0 KB");
    assert_eq!(format_size(1536), "1.5 KB");
    assert_eq!(format_size(1280), "1.2 KB");
    assert_eq!(format_size(1792), "1.8 KB");
    assert_eq!(format_size(1126), "1.1 KB");
    assert_eq!(format_size(1024 * 1024 - 1), "1024.0 KB");
    assert_eq!(format_size(5 * 1024 * 1024 * 1024), "5.0 GB");
    assert_eq!(format_size(u64::MAX), "16777216.0 TB");
}

#[test]
fn sizes_agree_with_double_arithmetic() {
    let mut edge: Vec<u64> = vec![
        0,
        1,
        1023,
        1024,
        1025,
        1280,
        1792,
        (1u64 << 53) - 1,
        1u64 << 53,
        (1u64 << 53) + 1,
        (1u64 << 53) + 3,
        (1u64 << 54) + 2,
        (1u64 << 54) + 6,
        u64::MAX,
        u64::MAX - 1024,
    ];
    for p in 0..64u32 {
        edge.push(1u64 << p);
        edge.push((1u64 << p).wrapping_sub(1));
        edge.push((1u64 << p) + (1u64 << p) / 2);
    }
    let mut x: u64 = 0x9e37_79b9_7f4a_7c15;
    for i in 0..20_000u64 {
        x = x.wrapping_mul(6364136223846793005).wrapping_add(1442695040888963407);
        edge.push(x >> (i % 64));
    }
    for b in edge {
        assert_eq!(format_size(b), size_by_double(b), "bytes {}", b);
    }
}

/// The exponent as a double computes it.
fn timescale_by_double(num: u32, exp: i8) -> i8 {
    exp + (num as f64).log10().round() as i8
}

#[test]
fn timescale_lines() {
    assert_eq!(parse_timescale(b"$timescale 1 ns $end"), Some(-9));
    assert_eq!(parse_timescale(b"$timescale 10 PS $end"), Some(-11));
    assert_eq!(parse_timescale(b"$timescale 100 us"), Some(-4));
    assert_eq!(parse_timescale(b"$timescale 3 s $end"), Some(0));
    assert_eq!(parse_timescale(b"$timescale 4 fs $end"), Some(-14));
    assert_eq!(parse_timescale(b"$timescale 0 s $end"), Some(-128));
    assert_eq!(parse_timescale(b"$timescale 1ns $end"), None);
    assert_eq!(parse_timescale(b"$timescale 1 xs $end"), None);
    assert_eq!(parse_timescale(b"$timescale x ns $end"), None);
    assert_eq!(parse_timescale(b"$timescale 1 \xff $end"), None);
    for &num in &[
        1u32, 2, 3, 4, 9, 10, 31, 32, 99, 100, 316, 317, 3162, 3163, 31622, 31623, 316227,
        316228, 3162277, 3162278, 31622776, 31622777, 316227766, 316227767, 3162277660,
        3162277661, u32::MAX,
    ] {
        let line = format!("$timescale {} ms $end", num);
        assert_eq!(parse_timescale(line.as_bytes()), Some(timescale_by_double(num, -3)), "{}", num);
    }
}

#[test]
fn conversion_value_lines() {
    assert_eq!(parse_value_change(b"1!"), Some((b"!".to_vec(), b"1".to_vec())));
    assert_eq!(parse_value_change(b"b10x1 #"), Some((b"#".to_vec(), b"1001".to_vec())));
    assert_eq!(parse_value_change(b"b #"), None);
    assert_eq!(parse_value_change(b"r1.5 %"), Some((b"%".to_vec(), b"1.5".to_vec())));
    assert_eq!(parse_value_change(b"b1 "), Some((Vec::new(), b"1".to_vec())));
    assert_eq!(parse_value_change(b"1 "), None);
    assert_eq!(parse_value_change(b"x"), None);
    assert_eq!(parse_value_change(b" a"), Some((b"a".to_vec(), b" ".to_vec())));
    assert_eq!(parse_timestamp(b"#250"), 250);
}
