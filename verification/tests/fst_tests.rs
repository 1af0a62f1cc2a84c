use wal_rust::fst::blocks::{encode_scope_entry, BlockWriter};
use wal_rust::fst::compress::{Compressor, Lz4Compressor, ZlibCompressor};
use wal_rust::fst::reader::{detect_endianness, FstReader};
use wal_rust::fst::types::{BlockType, ScopeType, VarType};
use wal_rust::fst::varint::{
    decode_fst_svarint, decode_signed_varint, decode_varint, encode_fst_svarint,
    decode_fst_svarint_from_reader, encode_signed_varint, encode_time_delta, encode_varint,
};
use wal_rust::fst::writer::{FstOptions, FstWriter};

#[test]
fn test_block_writer() {
    let mut bw = BlockWriter::new(BlockType::Geom);
    bw.write_u64(42);
    bw.write_bytes(b"hello");
    let block = bw.finalize();

    assert_eq!(block[0], BlockType::Geom.code());
    let len = u64::from_le_bytes(block[1..9].try_into().unwrap());
    assert_eq!(len, 13);
    assert_eq!(&block[9..], &[42, 0, 0, 0, 0, 0, 0, 0, 104, 101, 108, 108, 111]);
}

#[test]
fn test_encode_scope_entry() {
    let entry = encode_scope_entry("top", ScopeType::VcdModule);
    assert_eq!(entry[0], 0x01);
    assert_eq!(entry[1], ScopeType::VcdModule.code());
    assert!(entry.ends_with(&[0]));
}

#[test]
fn test_lz4_roundtrip() {
    let data = b"Hello, this is a test of the LZ4 compression!";
    let compressor = Lz4Compressor::new();
    let compressed = compressor.compress(data);
    let decompressed = compressor.decompress(&compressed, data.len()).unwrap();
    assert_eq!(&decompressed[..], data);
}

#[test]
fn test_zlib_roundtrip() {
    let data = b"Hello, this is a test of the zlib compression!";
    let compressor = ZlibCompressor::default();
    let compressed = compressor.compress(data);
    let decompressed = compressor.decompress(&compressed, data.len()).unwrap();
    assert_eq!(&decompressed[..], data);
}

#[test]
fn test_vartype_from_u8() {
    assert_eq!(VarType::from_u8(16), VarType::VcdWire);
    assert_eq!(VarType::from_u8(3), VarType::Real);
    assert_eq!(VarType::from_u8(99), VarType::VcdWire);
}

#[test]
fn test_scopetype_from_u8() {
    assert_eq!(ScopeType::from_u8(0), ScopeType::VcdModule);
    assert_eq!(ScopeType::from_u8(5), ScopeType::VcdGenerate);
    assert_eq!(ScopeType::from_u8(99), ScopeType::VcdModule);
}

#[test]
fn test_detect_endianness_le() {
    let mut buf = vec![0x00u8];
    buf.extend_from_slice(&321u64.to_le_bytes());
    buf.extend_from_slice(&[0u8; 16]);
    buf.extend_from_slice(&f64::to_le_bytes(3.141592653589793));
    assert_eq!(detect_endianness(&buf, 10000), false);
}

#[test]
fn test_detect_endianness_be() {
    let mut buf = vec![0x00u8];
    buf.extend_from_slice(&329u64.to_be_bytes());
    buf.extend_from_slice(&[0u8; 16]);
    buf.extend_from_slice(&f64::to_le_bytes(2.718281828459045));
    assert_eq!(detect_endianness(&buf, 10000), true);
}

#[test]
fn test_detect_endianness_both_invalid() {
    let buf = vec![0x00, 0xff, 0xff, 0xff, 0xff, 0xff, 0xff, 0xff, 0xff];
    assert_eq!(detect_endianness(&buf, 10), false);
}

#[test]
fn test_reader_roundtrip_le() {
    let mut data = Vec::new();
    data.push(0x00);
    let hdr_pos = data.len();
    data.extend_from_slice(&[0u8; 8]);
    let hdr_body_start = data.len();
    data.extend_from_slice(&0u64.to_le_bytes());
    data.extend_from_slice(&100u64.to_le_bytes());
    data.extend_from_slice(&f64::to_le_bytes(3.141592653589793));
    data.extend_from_slice(&[0u8; 8]);
    data.extend_from_slice(&1u64.to_le_bytes());
    data.extend_from_slice(&1u64.to_le_bytes());
    data.extend_from_slice(&0u64.to_le_bytes());
    data.extend_from_slice(&0u64.to_le_bytes());
    data.push(0i8 as u8);
    data.extend_from_slice(&[0u8; 128]);
    data.extend_from_slice(&[0u8; 128]);
    let hdr_body_len = (data.len() - hdr_body_start) as u64;
    data[hdr_pos..hdr_pos + 8].copy_from_slice(&hdr_body_len.to_le_bytes());

    data.push(0x03);
    let geom_pos = data.len();
    data.extend_from_slice(&[0u8; 8]);
    let geom_body_start = data.len();
    data.extend_from_slice(&0u64.to_le_bytes());
    data.extend_from_slice(&0u64.to_le_bytes());
    data.extend_from_slice(&0u64.to_le_bytes());
    data.extend_from_slice(&0u32.to_le_bytes());
    data.push(5u8);
    data.extend_from_slice(b"hello");
    data.push(16u8);
    data.push(0u8);
    data.extend_from_slice(&1u32.to_le_bytes());
    let geom_body_len = (data.len() - geom_body_start) as u64;
    data[geom_pos..geom_pos + 8].copy_from_slice(&geom_body_len.to_le_bytes());

    let reader = FstReader::from_bytes(&data).unwrap();
    assert_eq!(reader.file.header.end_time, 100);
    assert_eq!(reader.file.signals.len(), 1);
    assert_eq!(reader.file.signals[0].name, "hello");
    assert_eq!(reader.file_size(), data.len() as u64);
}

#[test]
fn test_reader_roundtrip_be() {
    let mut data = Vec::new();
    data.push(0x00);
    let hdr_pos = data.len();
    data.extend_from_slice(&[0u8; 8]);
    let hdr_body_start = data.len();
    data.extend_from_slice(&0u64.to_be_bytes());
    data.extend_from_slice(&200u64.to_be_bytes());
    data.extend_from_slice(&f64::to_le_bytes(2.718281828459045));
    data.extend_from_slice(&[0u8; 8]);
    data.extend_from_slice(&1u64.to_be_bytes());
    data.extend_from_slice(&1u64.to_be_bytes());
    data.extend_from_slice(&0u64.to_be_bytes());
    data.extend_from_slice(&0u64.to_be_bytes());
    data.push(0i8 as u8);
    data.extend_from_slice(&[0u8; 128]);
    data.extend_from_slice(&[0u8; 128]);
    let hdr_body_len = (data.len() - hdr_body_start) as u64;
    data[hdr_pos..hdr_pos + 8].copy_from_slice(&hdr_body_len.to_be_bytes());

    let hier_data = vec![
        0xFE, 0x00, b't', b'o', b'p', 0x00, 0x00, 16, 0x00, b'w', b'o', b'r', b'l', b'd', 0x00,
        0x02, 0x00, 0xFF,
    ];
    data.push(0x04);
    data.extend_from_slice(&(hier_data.len() as u64).to_be_bytes());
    data.extend_from_slice(&hier_data);

    let reader = FstReader::from_bytes(&data).unwrap();
    assert_eq!(reader.file.header.end_time, 200);
    assert_eq!(reader.file.signals.len(), 1);
    assert_eq!(reader.file.signals[0].name, "world");
    assert_eq!(reader.file.signals[0].width, 2);
    assert_eq!(reader.file.scopes.len(), 1);
    assert_eq!(reader.file.scopes[0].name, "top");
}

#[test]
fn test_detect_endianness_from_header() {
    let mut le_data = vec![0x00u8; 33];
    le_data[1..9].copy_from_slice(&100u64.to_le_bytes());
    le_data[25..33].copy_from_slice(&f64::to_le_bytes(3.141592653589793));
    assert!(!detect_endianness(&le_data, 1000));

    let mut be_data = vec![0x00u8; 33];
    be_data[1..9].copy_from_slice(&100u64.to_be_bytes());
    be_data[25..33].copy_from_slice(&f64::to_le_bytes(2.718281828459045));
    assert!(detect_endianness(&be_data, 1000));
}

#[test]
fn test_varint_encode_decode() {
    let test_cases = [0u64, 1, 127, 128, 255, 256, 1000, 1000000, u64::MAX];
    for n in test_cases {
        let encoded = encode_varint(n);
        let (decoded, consumed) = decode_varint(&encoded).unwrap();
        assert_eq!(n, decoded);
        assert_eq!(encoded.len(), consumed);
    }
}

#[test]
fn test_time_delta() {
    let times = [0u64, 100, 101, 102, 200, 1000000];
    let mut prev = 0;
    for &t in &times {
        let delta = encode_time_delta(prev, t);
        let (decoded, _) = decode_varint(&delta).unwrap();
        assert_eq!(decoded, t - prev);
        prev = t;
    }
}

#[test]
fn test_fst_svarint_roundtrip() {
    let cases = [
        0i64, 1, -1, 127, -127, 128, -128, 255, 256, 1000, -1000, 100000, 43981, 0xABCD, -43981,
        i64::MAX, i64::MIN,
    ];
    for &n in &cases {
        let encoded = encode_fst_svarint(n);
        let (decoded, consumed) = decode_fst_svarint(&encoded).unwrap();
        assert_eq!(n, decoded, "roundtrip failed for {}", n);
        assert_eq!(encoded.len(), consumed);
    }
}

#[test]
fn test_signed_varint() {
    let test_cases = [0i64, 1, 2, 127, 128, 255, 256, 1000, 1000000, i64::MAX];
    for n in test_cases {
        let encoded = encode_signed_varint(n);
        let (decoded, consumed) = decode_signed_varint(&encoded).unwrap();
        assert_eq!(n, decoded, "encode/decode failed for {}", n);
        assert_eq!(encoded.len(), consumed);
    }
}

#[test]
fn test_basic_write() {
    let mut writer = FstWriter::new(FstOptions::default());

    writer.set_timescale(-9);
    writer.push_scope("top", ScopeType::VcdModule);

    let clk_handle = writer.create_var("clk", 1, VarType::VcdWire);
    let data_handle = writer.create_var("data", 8, VarType::VcdWire);

    writer.pop_scope();

    writer.emit_time_change(0);
    writer.emit_value_change(clk_handle, &[b'0']);
    writer.emit_value_change(data_handle, &[b'0', b'0', b'0', b'0', b'0', b'0', b'0', b'0']);

    let (_bytes, stats) = writer.close();

    assert_eq!(stats.signals, 2);
    assert_eq!(stats.scopes, 0);
    assert!(stats.timestamps >= 1);
}

#[test]
fn close_rewrites_the_header_with_the_final_state() {
    let mut w = FstWriter::new(FstOptions::default());
    w.set_timescale(-12);
    w.emit_time_change(0);
    w.emit_time_change(50);
    let (out, _stats) = w.close();
    assert_eq!(out[0], 0x00);
    assert_eq!(out[73] as i8, -12);
    let mut end = [0u8; 8];
    end.copy_from_slice(&out[17..25]);
    assert_eq!(u64::from_le_bytes(end), 50);
}

#[test]
fn close_after_taking_output_leaves_header_alone() {
    let mut w = FstWriter::new(FstOptions::default());
    let first = w.take_output();
    assert_eq!(first[0], 0x00);
    w.set_timescale(-12);
    let (out, _stats) = w.close();
    assert!(out.is_empty() || out[0] != 0x00);
}

#[test]
fn unflushed_changes_without_time_are_dropped() {
    let mut w = FstWriter::new(FstOptions::default());
    let h = w.create_var("s", 1, VarType::VcdWire);
    // not a packable 1-bit value, and no timestamp pending: dropped on close
    w.emit_value_change(h, b"0101");
    let (_out, stats) = w.close();
    assert_eq!(stats.value_changes, 1);
    assert_eq!(stats.blocks_written, 3);
}

#[test]
fn signed_varint_uses_standard_zigzag() {
    assert_eq!(encode_signed_varint(-1), vec![0x01]);
    assert_eq!(encode_signed_varint(1), vec![0x02]);
    assert_eq!(encode_signed_varint(-2), vec![0x03]);
    assert_eq!(encode_signed_varint(i64::MIN), encode_varint(u64::MAX));
    for n in [-1i64, -2, -64, -65, -1000, i64::MIN, i64::MIN + 1, i64::MAX, 0] {
        let e = encode_signed_varint(n);
        assert_eq!(decode_signed_varint(&e), Some((n, e.len())));
    }
}

#[test]
fn svarint_reader_positions_and_errors() {
    let data = [0x82u8, 0x2C, 0xFF];
    let mut pos = 0usize;
    assert_eq!(decode_fst_svarint_from_reader(&data, &mut pos), Ok(300));
    assert_eq!(pos, 2);
    let long = [0xFFu8; 12];
    let mut pos = 1usize;
    assert_eq!(decode_fst_svarint_from_reader(&long, &mut pos), Err("Signed varint too long".to_string()));
    assert_eq!(pos, 11);
    let short = [0x80u8, 0x80];
    let mut pos = 0usize;
    let r = decode_fst_svarint_from_reader(&short, &mut pos);
    assert!(r.unwrap_err().starts_with("Read error:"));
    assert_eq!(pos, 2);
}
