use wal_rust::trace::vcd::{
    adapt_lru_capacity, build_ts_store, col_states_from_vcd, find_signal_in_block, hash_sig_id,
    is_ts_line, is_ts_line_at, parse_scope_name, parse_timestamp_fast, parse_value_change_fast,
    parse_var_decl_fast, parse_var_decl_fast2, val_to_bit, vcd_from_states, vcd_is_zero,
    vcd_semantic_eq, TsStore,
};
use wal_rust::vcd::types::VcdValue;

fn vec_of(s: &str) -> VcdValue {
    VcdValue::Vector(s.as_bytes().to_vec())
}

#[test]
fn identifier_hashes_and_timestamps() {
    assert_eq!(hash_sig_id(b"!"), 33);
    assert_eq!(hash_sig_id(b"ab"), 0x6162);
    assert_eq!(hash_sig_id(b""), 0);
    assert_eq!(hash_sig_id(b"123456789"), 0x3233_3435_3637_3839);
    assert!(is_ts_line(b"#100"));
    assert!(!is_ts_line(b"#%"));
    assert!(!is_ts_line(b"#"));
    assert_eq!(parse_timestamp_fast(b"#12345"), 12345);
    assert_eq!(parse_timestamp_fast(b"#12a5"), 12);
    assert_eq!(parse_timestamp_fast(b"#"), 0);
    assert!(is_ts_line_at(b"x\n#123\nb1 !", 2));
    assert!(!is_ts_line_at(b"x\n#123\nb1 !", 7));
    assert!(is_ts_line_at(b"#9", 0));
}

#[test]
fn cache_capacity() {
    assert_eq!(adapt_lru_capacity(1000, 10), 50_000);
    assert_eq!(adapt_lru_capacity(2_000_000_000, 100_000), 1_500_000);
    assert_eq!(adapt_lru_capacity(60_000_000_000, 300_000), 5_000_000);
    assert_eq!(adapt_lru_capacity(10, 20_000), 100_000);
}

#[test]
fn value_helpers() {
    assert_eq!(val_to_bit(&vec_of("1")), Some(b'1'));
    assert_eq!(val_to_bit(&vec_of("10")), None);
    assert_eq!(val_to_bit(&VcdValue::Bit(b'z')), Some(b'z'));
    assert_eq!(vcd_is_zero(&vec_of("000")), Some(true));
    assert_eq!(vcd_is_zero(&vec_of("0x")), None);
    assert_eq!(vcd_is_zero(&VcdValue::Bit(b'1')), Some(false));
    assert!(vcd_semantic_eq(&vec_of("xxxx"), &VcdValue::Bit(b'x')));
    assert!(vcd_semantic_eq(&vec_of("01"), &vec_of("01")));
    assert!(!vcd_semantic_eq(&vec_of("01"), &vec_of("10")));
    assert!(vcd_semantic_eq(&VcdValue::Real("1.0".to_string()), &VcdValue::Real("1.0".to_string())));
}

#[test]
fn timestamp_tables() {
    let u = build_ts_store(vec![10, 20, 30]);
    assert!(matches!(u, TsStore::Uniform { start: 10, step: 10, count: 3 }));
    assert_eq!(u.len(), 3);
    assert_eq!(u.get(2), 30);
    assert_eq!(u.search(20), Ok(1));
    assert_eq!(u.search(25), Err(2));
    assert_eq!(u.search(5), Err(0));
    assert_eq!(u.search(40), Err(3));
    let d = build_ts_store(vec![1, 2, 4]);
    assert!(matches!(d, TsStore::Dense(_)));
    assert_eq!(d.search(3), Err(2));
    assert_eq!(d.search(4), Ok(2));
    assert_eq!(d.get(1), 2);
    let flat = build_ts_store(vec![7, 7]);
    assert!(matches!(flat, TsStore::Dense(_)));
    let one = build_ts_store(vec![5]);
    assert!(matches!(one, TsStore::Dense(_)));
}

#[test]
fn value_change_lines() {
    assert_eq!(parse_value_change_fast(b"1!"), Some((33, VcdValue::Bit(b'1'))));
    assert_eq!(parse_value_change_fast(b"b1010 !"), Some((33, vec_of("1010"))));
    assert_eq!(parse_value_change_fast(b"b1010!"), Some((33, vec_of("1010"))));
    assert_eq!(
        parse_value_change_fast(b"r3.14 !"),
        Some((33, VcdValue::Real("3.14".to_string())))
    );
    assert_eq!(parse_value_change_fast(b"rabc !"), None);
    assert_eq!(parse_value_change_fast(b"x"), None);
    assert_eq!(parse_value_change_fast(b"b10 "), None);
    assert_eq!(parse_value_change_fast(b"#%"), None);
    assert_eq!(parse_value_change_fast(b"b10"), None);
    assert_eq!(parse_value_change_fast(b"z$"), Some((36, VcdValue::Bit(b'z'))));
}

#[test]
fn var_declaration_lines() {
    let (h, name, w, id, ev) = parse_var_decl_fast2(b"$var wire 8 # data $end").unwrap();
    assert_eq!((h, name.as_str(), w, id.as_slice(), ev), (35, "data", 8, &b"#"[..], false));
    let (_, name, w, _, ev) = parse_var_decl_fast2(b"$var event 1 ! ev $end").unwrap();
    assert_eq!((name.as_str(), w, ev), ("ev", 1, true));
    assert!(parse_var_decl_fast2(b"$var wire 0 ! x $end").is_none());
    assert!(parse_var_decl_fast2(b"$var wire 1 ! clk").is_none());
    let (_, name, _) = parse_var_decl_fast(b"$var wire 1 ! clk ").unwrap();
    assert_eq!(name, "clk");
    let (_, name, w, id, _) = parse_var_decl_fast2(b"$var\twire\t4\tab\tbus [3:0]\t$end").unwrap();
    assert_eq!(w, 4);
    assert_eq!(id, b"ab\tbus".to_vec());
    assert_eq!(name, "bus [3:0]");
    assert!(parse_var_decl_fast2(b"$var wire 1 ! \xff $end").is_none());
}

#[test]
fn scope_lines() {
    assert_eq!(parse_scope_name(b"$scope module top $end"), Some("top".to_string()));
    assert_eq!(parse_scope_name(b"$scope module my scope $end"), Some("my scope".to_string()));
    assert_eq!(parse_scope_name(b"$scope module $end"), None);
    assert_eq!(parse_scope_name(b"$scope module"), None);
    assert_eq!(parse_scope_name(b"$scope module a$end$end"), Some("a".to_string()));
    assert_eq!(parse_scope_name(b"$scope module \xff $end"), None);
}

#[test]
fn packed_states() {
    assert_eq!(col_states_from_vcd(&VcdValue::Bit(b'1'), 1), Some(1));
    assert_eq!(col_states_from_vcd(&vec_of("10xz"), 4), Some(0x4B));
    assert_eq!(vcd_from_states(0x4B, 4), vec_of("10xz"));
    assert_eq!(col_states_from_vcd(&VcdValue::Bit(b'z'), 3), Some(48));
    assert_eq!(vcd_from_states(48, 3), vec_of("z00"));
    assert_eq!(col_states_from_vcd(&vec_of("1X"), 2), Some(6));
    assert_eq!(vcd_from_states(6, 2), vec_of("1x"));
    assert_eq!(col_states_from_vcd(&vec_of("10"), 3), None);
    assert_eq!(col_states_from_vcd(&VcdValue::Real("1".to_string()), 1), None);
    assert_eq!(col_states_from_vcd(&vec_of("1q"), 2), None);
    assert_eq!(vcd_from_states(1, 1), VcdValue::Bit(b'1'));
    let wide = "z".repeat(64);
    assert_eq!(col_states_from_vcd(&vec_of(&wide), 64), Some(u128::MAX));
    assert_eq!(vcd_from_states(u128::MAX, 64), vec_of(&wide));
}

#[test]
fn values_in_a_timestamp_block() {
    let block = b"#10\n1!\nb0101 \"\n0!\n";
    assert_eq!(find_signal_in_block(block, b"!", 1), Some(VcdValue::Bit(b'0')));
    assert_eq!(find_signal_in_block(block, b"\"", 1), Some(vec_of("0101")));
    assert_eq!(find_signal_in_block(block, b"#", 1), None);
    assert_eq!(find_signal_in_block(b"1!", b"!", 1), None);
    assert_eq!(find_signal_in_block(b"#1\n\n1!", b"!", 1), Some(VcdValue::Bit(b'1')));
}
