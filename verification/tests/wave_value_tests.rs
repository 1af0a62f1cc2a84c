use wal_rust::trace::fst::{sv_bit_string, value_to_scalar, WaveValue};
use wal_rust::trace::trace::ScalarValue;

#[test]
fn test_sv_bit_string_no_panic_on_non_bitvector() {
    let real = WaveValue::Real(1.5f64.to_bits());
    assert!(sv_bit_string(&real).is_none());
    let s = WaveValue::String("abc".to_string());
    assert!(sv_bit_string(&s).is_none());
    assert!(sv_bit_string(&WaveValue::Event).is_none());
    let bin = WaveValue::Binary(vec![0b0000_0101u8], 4);
    assert_eq!(sv_bit_string(&bin).as_deref(), Some("0101"));
    assert!(matches!(value_to_scalar(&real), ScalarValue::Real(_)));
}

#[test]
fn wave_values_as_scalars() {
    // four states, two bits per bit: 'x' (2) then '1' (1)
    let four = WaveValue::FourValue(vec![0b0000_1001u8], 2);
    assert_eq!(sv_bit_string(&four).as_deref(), Some("x1"));
    assert_eq!(value_to_scalar(&four), ScalarValue::Vector(b"x1".to_vec()));
    let one = WaveValue::Binary(vec![1u8], 1);
    assert_eq!(value_to_scalar(&one), ScalarValue::Bit(b'1'));
    assert_eq!(value_to_scalar(&WaveValue::Event), ScalarValue::Bit(b'1'));
    assert_eq!(value_to_scalar(&WaveValue::String("ab".to_string())), ScalarValue::Vector(b"ab".to_vec()));
}

#[test]
fn multi_state_bit_strings_read_most_significant_first() {
    // four states, two bits each: x, 1, z from the top
    let four = WaveValue::FourValue(vec![0x27u8], 3);
    assert_eq!(sv_bit_string(&four).as_deref(), Some("x1z"));
    // nine states, a nibble each, the low states in the last byte: h, -, u
    let nine = WaveValue::NineValue(vec![0x04u8, 0x85], 3);
    assert_eq!(sv_bit_string(&nine).as_deref(), Some("h-u"));
    // a single bit is a bit, more bits a vector
    assert_eq!(value_to_scalar(&WaveValue::Binary(vec![1u8], 1)), ScalarValue::Bit(b'1'));
    assert_eq!(
        value_to_scalar(&four),
        ScalarValue::Vector(vec![b'x', b'1', b'z'])
    );
}
