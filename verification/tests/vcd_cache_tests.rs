use wal_rust::trace::vcd::TsStore;
use wal_rust::trace::vcd_cache::{decode_vcd_cache, encode_vcd_cache, CacheKey, CachedSignal, VcdCacheSnapshot};
use wal_rust::vcd::types::VcdValue;

fn snapshot() -> VcdCacheSnapshot {
    VcdCacheSnapshot {
        header_end: 123,
        scopes: vec!["top".to_string(), "top.sub".to_string()],
        timescale: Some(-9),
        signals: vec![
            CachedSignal { name: "top.clk".to_string(), id: b"!".to_vec(), width: 1, initial: Some(VcdValue::Bit(b'0')) },
            CachedSignal { name: "top.d".to_string(), id: b"#".to_vec(), width: 4, initial: Some(VcdValue::Vector(b"0101".to_vec())) },
            CachedSignal { name: "top.r".to_string(), id: b"%".to_vec(), width: 1, initial: Some(VcdValue::Real("2.5".to_string())) },
            CachedSignal { name: "top.e".to_string(), id: b"&".to_vec(), width: 1, initial: None },
        ],
        timestamps: TsStore::Dense(vec![0, 10, 20]),
        offsets: vec![200],
        anchors: vec![(0, vec![(10, 210), (20, 230)])],
        events: vec![3],
        points: vec![(3, vec![1, 2])],
    }
}

fn key() -> CacheKey {
    CacheKey { size: 1000, mtime: 1_700_000_000, fingerprint: 0xdead_beef }
}

#[test]
fn cache_round_trip() {
    let bytes = encode_vcd_cache(&key(), &snapshot());
    assert_eq!(&bytes[..8], b"WALVC001");
    assert_eq!(u32::from_le_bytes([bytes[8], bytes[9], bytes[10], bytes[11]]), 1);
    let s = decode_vcd_cache(&bytes, &key()).unwrap();
    assert_eq!(s.header_end, 123);
    assert_eq!(s.scopes, snapshot().scopes);
    assert_eq!(s.timescale, Some(-9));
    assert_eq!(s.signals.len(), 4);
    assert_eq!(s.signals[1].initial, Some(VcdValue::Vector(b"0101".to_vec())));
    assert_eq!(s.signals[2].initial, Some(VcdValue::Real("2.5".to_string())));
    assert_eq!(s.signals[3].initial, None);
    assert_eq!(s.signals[0].id, b"!".to_vec());
    match s.timestamps {
        TsStore::Dense(v) => assert_eq!(v, vec![0, 10, 20]),
        _ => panic!("dense timestamps expected"),
    }
    assert_eq!(s.offsets, vec![200]);
    assert_eq!(s.anchors, vec![(0, vec![(10, 210), (20, 230)])]);
    assert_eq!(s.events, vec![3]);
    assert_eq!(s.points, vec![(3, vec![1, 2])]);
}

#[test]
fn cache_refused_for_another_key_or_cut_short() {
    let bytes = encode_vcd_cache(&key(), &snapshot());
    let other = CacheKey { size: 1001, ..key() };
    assert!(decode_vcd_cache(&bytes, &other).is_none());
    assert!(decode_vcd_cache(&bytes[..bytes.len() - 1], &key()).is_none());
    assert!(decode_vcd_cache(b"WALVC002", &key()).is_none());
    let mut uni = snapshot();
    uni.timestamps = TsStore::Uniform { start: 5, step: 10, count: 3 };
    let b2 = encode_vcd_cache(&key(), &uni);
    match decode_vcd_cache(&b2, &key()).unwrap().timestamps {
        TsStore::Uniform { start, step, count } => assert_eq!((start, step, count), (5, 10, 3)),
        _ => panic!("uniform timestamps expected"),
    }
}

#[test]
fn cache_head_must_match_the_key_exactly() {
    let bytes = encode_vcd_cache(&key(), &snapshot());
    let mut v2 = bytes.clone();
    v2[8] = 2;
    assert!(decode_vcd_cache(&v2, &key()).is_none());
    let mut other_time = bytes.clone();
    other_time[20] ^= 1;
    assert!(decode_vcd_cache(&other_time, &key()).is_none());
    let mut other_fp = bytes.clone();
    other_fp[35] ^= 0x80;
    assert!(decode_vcd_cache(&other_fp, &key()).is_none());
}

#[test]
fn lenient_timescale_tag_and_trailing_bytes_are_read_as_written() {
    let mut snap = snapshot();
    snap.timescale = None;
    let bytes = encode_vcd_cache(&key(), &snap);
    // head (36), dump start (8), two scopes (4 + 7 + 11): the timescale tag
    assert_eq!(bytes[66], 0);
    let mut patched = bytes.clone();
    patched[66] = 2;
    patched.push(0xaa);
    let s = decode_vcd_cache(&patched, &key()).unwrap();
    assert_eq!(s.timescale, None);
    assert_eq!(s.points, vec![(3, vec![1, 2])]);
}
