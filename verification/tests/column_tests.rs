use wal_rust::trace::column::{
    decode_col_cache, decode_col_points, encode_col_cache, eval_column, eval_column_spans,
    find_cond_matches, get_scalar, parse_col_header, put_scalar, sv_as_bit, sv_is_defined,
    sv_is_zero, sv_norm, sv_same, sv_to_i64,
};
use wal_rust::trace::trace::{FindCondition, ScalarValue};

fn bits(s: &str) -> ScalarValue {
    ScalarValue::Vector(s.as_bytes().to_vec())
}

fn real_value(x: f64) -> ScalarValue {
    ScalarValue::Real(x.to_bits())
}

#[test]
fn col_cache_round_trip_keeps_4state() {
    let fp = 0x1234_5678_9abc_def0u64;
    let init = ScalarValue::Bit(b'x');
    let pts = vec![
        (5u64, ScalarValue::Bit(b'0')),
        (9u64, ScalarValue::Bit(b'z')),
        (12u64, ScalarValue::Bit(b'1')),
        (40u64, ScalarValue::Vector(vec![b'1', b'0', b'x', b'z'])),
    ];
    let buf = encode_col_cache(fp, 4, Some(&init), &pts);
    let (width, got_init, off) = parse_col_header(&buf, fp).expect("header");
    assert_eq!(width, 4);
    assert_eq!(got_init, Some(ScalarValue::Bit(b'x')));
    assert_eq!(decode_col_points(&buf, off).unwrap(), pts);
}

#[test]
fn col_cache_distinguishes_absent_init() {
    let fp = 7u64;
    let buf = encode_col_cache(fp, 1, None, &[(3u64, ScalarValue::Bit(b'1'))]);
    let (_, init, _) = parse_col_header(&buf, fp).expect("header");
    assert_eq!(init, None);
}

#[test]
fn col_cache_real_value_round_trip() {
    let fp = 42u64;
    let pts = vec![(11u64, real_value(1.5)), (19u64, real_value(-0.25))];
    let buf = encode_col_cache(fp, 64, Some(&real_value(3.0)), &pts);
    let (_, init, off) = parse_col_header(&buf, fp).expect("header");
    assert_eq!(init, Some(real_value(3.0)));
    assert_eq!(decode_col_points(&buf, off).unwrap(), pts);
}

#[test]
fn col_cache_rejects_stale_fingerprint() {
    let buf = encode_col_cache(1u64, 1, None, &[(3u64, ScalarValue::Bit(b'1'))]);
    assert!(parse_col_header(&buf, 2u64).is_none());
}

#[test]
fn col_cache_rejects_corrupt() {
    let buf = encode_col_cache(1u64, 1, None, &[(3u64, ScalarValue::Bit(b'1'))]);
    assert!(parse_col_header(&buf[..10], 1u64).is_none());
    let mut bad = buf.clone();
    bad[20] = 9;
    assert!(parse_col_header(&bad, 1u64).is_none());
    assert!(decode_col_points(&buf, buf.len() - 1).is_none());
}

#[test]
fn col_cache_exact_layout() {
    let buf = encode_col_cache(
        0x0102_0304_0506_0708,
        3,
        Some(&bits("10x")),
        &[(5, ScalarValue::Bit(b'1')), (3, bits("01"))],
    );
    let mut want: Vec<u8> = b"WALFCOL2".to_vec();
    want.extend_from_slice(&[8, 7, 6, 5, 4, 3, 2, 1]);
    want.extend_from_slice(&[3, 0, 0, 0]);
    want.extend_from_slice(&[2, 3, b'1', b'0', b'x']);
    want.extend_from_slice(&[2, 0, 0, 0]);
    want.extend_from_slice(&[5, 0, b'1']);
    // 3 - 5 wraps to 2^64 - 2: a ten-byte varint
    want.extend_from_slice(&[0xfe, 0xff, 0xff, 0xff, 0xff, 0xff, 0xff, 0xff, 0xff, 0x01]);
    want.extend_from_slice(&[1, 2, b'0', b'1']);
    assert_eq!(buf, want);
    let (init, pts) = decode_col_cache(&buf, 0x0102_0304_0506_0708, 3).unwrap();
    assert_eq!(init, Some(bits("10x")));
    assert_eq!(pts, vec![(5, ScalarValue::Bit(b'1')), (3, bits("01"))]);
    assert!(decode_col_cache(&buf, 0x0102_0304_0506_0708, 4).is_none());
}

#[test]
fn scalar_bytes_round_trip() {
    let mut out = Vec::new();
    put_scalar(&mut out, &ScalarValue::Bit(b'z'));
    put_scalar(&mut out, &bits("1x"));
    put_scalar(&mut out, &real_value(2.5));
    assert_eq!(&out[..4], &[0, b'z', 1, 2]);
    let mut pos = 0usize;
    assert_eq!(get_scalar(&out, &mut pos), Some(ScalarValue::Bit(b'z')));
    assert_eq!(pos, 2);
    assert_eq!(get_scalar(&out, &mut pos), Some(bits("1x")));
    assert_eq!(get_scalar(&out, &mut pos), Some(real_value(2.5)));
    assert_eq!(pos, out.len());
    assert_eq!(get_scalar(&out, &mut pos), None);
    let mut p2 = 0usize;
    assert_eq!(get_scalar(&[7, 1], &mut p2), None);
}

#[test]
fn scalar_reading() {
    assert_eq!(sv_as_bit(&ScalarValue::Bit(b'1')), Some(b'1'));
    assert_eq!(sv_as_bit(&bits("0")), Some(b'0'));
    assert_eq!(sv_as_bit(&bits("01")), None);
    assert_eq!(sv_as_bit(&real_value(1.0)), None);
    assert!(sv_is_defined(&bits("0101")));
    assert!(!sv_is_defined(&bits("01x1")));
    assert!(!sv_is_defined(&bits("")));
    assert!(sv_is_defined(&real_value(0.0)));
    assert_eq!(sv_is_zero(&bits("000")), Some(true));
    assert_eq!(sv_is_zero(&bits("010")), Some(false));
    assert_eq!(sv_is_zero(&bits("0z0")), None);
    assert_eq!(sv_is_zero(&ScalarValue::Bit(b'x')), None);
    assert_eq!(sv_to_i64(&bits("1010")), Some(10));
    assert_eq!(sv_to_i64(&ScalarValue::Bit(b'1')), Some(1));
    assert_eq!(sv_to_i64(&ScalarValue::Bit(b'x')), None);
    assert_eq!(sv_to_i64(&bits("10x")), None);
    assert_eq!(sv_to_i64(&bits(&"1".repeat(64))), Some(-1));
    let wide_ok = format!("{}{}", "0".repeat(6), "1".repeat(3));
    assert_eq!(sv_to_i64(&bits(&wide_ok)), Some(7));
    let wide_zero_head = format!("{}{}", "0".repeat(10), "1".repeat(64));
    assert_eq!(sv_to_i64(&bits(&wide_zero_head)), Some(-1));
    let wide_bad = format!("1{}", "0".repeat(64));
    assert_eq!(sv_to_i64(&bits(&wide_bad)), None);
    assert_eq!(ScalarValue::Bit(b'1').to_int(), Some(49));
    assert_eq!(bits("1").to_int(), None);
}

#[test]
fn scalar_sameness() {
    assert_eq!(sv_norm(&bits("xXx")), ScalarValue::Bit(b'x'));
    assert_eq!(sv_norm(&bits("zz")), ScalarValue::Bit(b'z'));
    assert_eq!(sv_norm(&bits("xz")), bits("xz"));
    assert!(sv_same(&bits("xxxx"), &ScalarValue::Bit(b'x')));
    assert!(!sv_same(&bits("0000"), &ScalarValue::Bit(b'0')));
    assert!(sv_same(&real_value(0.0), &real_value(-0.0)));
    assert!(!sv_same(&real_value(f64::NAN), &real_value(f64::NAN)));
    assert!(!sv_same(&real_value(1.0), &ScalarValue::Bit(b'1')));
}

#[test]
fn find_conditions_on_values() {
    let one = ScalarValue::Bit(b'1');
    let zero = ScalarValue::Bit(b'0');
    assert!(find_cond_matches(&one, Some(&zero), &FindCondition::Rising));
    assert!(!find_cond_matches(&one, Some(&one), &FindCondition::Rising));
    assert!(find_cond_matches(&bits("0100"), Some(&bits("0000")), &FindCondition::Rising));
    assert!(find_cond_matches(&bits("0000"), Some(&bits("0010")), &FindCondition::Falling));
    assert!(!find_cond_matches(&one, None, &FindCondition::Rising));
    assert!(find_cond_matches(&one, None, &FindCondition::High));
    assert!(find_cond_matches(&zero, None, &FindCondition::Low));
    assert!(find_cond_matches(&one, None, &FindCondition::Value(1)));
    assert!(find_cond_matches(&one, None, &FindCondition::Value(b'1')));
    assert!(find_cond_matches(&bits("101"), None, &FindCondition::Value(5)));
    assert!(find_cond_matches(&bits("101"), None, &FindCondition::ValueI64(5)));
    assert!(find_cond_matches(&bits("101"), None, &FindCondition::Neq(4)));
    assert!(!find_cond_matches(&zero, None, &FindCondition::Neq(0)));
    assert!(find_cond_matches(&bits("101"), None, &FindCondition::NeqI64(4)));
    assert!(find_cond_matches(&bits("1X1"), None, &FindCondition::IsX));
    assert!(find_cond_matches(&bits("1z1"), None, &FindCondition::IsZ));
    assert!(!find_cond_matches(&real_value(1.0), None, &FindCondition::IsX));
    assert!(find_cond_matches(&one, Some(&zero), &FindCondition::Changed));
    assert!(!find_cond_matches(&bits("xx"), Some(&ScalarValue::Bit(b'x')), &FindCondition::Changed));
    assert!(!find_cond_matches(&one, None, &FindCondition::Changed));
}

#[test]
fn column_conditions() {
    let pts = vec![
        (0usize, ScalarValue::Bit(b'0')),
        (3usize, ScalarValue::Bit(b'1')),
        (5usize, ScalarValue::Bit(b'0')),
        (9usize, ScalarValue::Bit(b'1')),
    ];
    // the first change at index 0 follows nothing without a defined initial value
    assert_eq!(eval_column(7, &pts, None, &FindCondition::Rising), vec![3]);
    assert_eq!(eval_column(7, &pts, None, &FindCondition::Changed), vec![3, 5]);
    assert_eq!(
        eval_column(7, &pts, Some(&ScalarValue::Bit(b'1')), &FindCondition::Changed),
        vec![0, 3, 5]
    );
    assert_eq!(eval_column(7, &pts, None, &FindCondition::High), vec![3, 4]);
    assert_eq!(eval_column(10, &pts, None, &FindCondition::High), vec![3, 4, 9, 10]);
    let (edges, spans) = eval_column_spans(10, &pts, None, &FindCondition::Low);
    assert!(edges.is_empty());
    assert_eq!(spans, vec![(0, 3), (5, 9)]);
    let late = vec![(4usize, ScalarValue::Bit(b'1'))];
    assert_eq!(eval_column(6, &late, None, &FindCondition::IsX), vec![0, 1, 2, 3]);
    assert_eq!(eval_column(6, &late, Some(&ScalarValue::Bit(b'0')), &FindCondition::Rising), vec![4]);
    assert_eq!(eval_column(2, &late, None, &FindCondition::High), Vec::<usize>::new());
}
