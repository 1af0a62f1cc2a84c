use std::collections::HashMap;
use wal_rust::trace::trace::resolve_index;
use wal_rust::trace::vcd_index::{dumpvars_snapshot, scan_chunk};
use wal_rust::trace::vcd_query::route_name;
use wal_rust::trace::trace::FindCondition;
use wal_rust::trace::vcd::{build_ts_store, col_states_from_vcd};
use wal_rust::trace::vcd_index::{scan_header, Col, LoadIndex};
use wal_rust::trace::vcd_query::{
    anchored_changes, col_changes, find_indices, find_indices_batch, id_scan_changes,
    index_space_max, read_signal_value_at, source_ids, FindQuery, TraceSummary,
};
use wal_rust::vcd::reader::MmapReader;
use wal_rust::vcd::types::VcdValue;

fn bit(c: u8) -> VcdValue {
    VcdValue::Bit(c)
}

fn changes() -> Vec<(u32, VcdValue)> {
    vec![(2, bit(b'1')), (5, bit(b'0'))]
}

#[test]
fn find_levels_and_edges() {
    let cs = changes();
    assert_eq!(find_indices(7, &cs, &bit(b'0'), &FindCondition::High), vec![2, 3, 4]);
    assert_eq!(find_indices(7, &cs, &bit(b'0'), &FindCondition::Low), vec![0, 1, 5, 6, 7]);
    assert_eq!(find_indices(7, &cs, &bit(b'0'), &FindCondition::Rising), vec![2]);
    assert_eq!(find_indices(7, &cs, &bit(b'0'), &FindCondition::Falling), vec![5]);
    assert_eq!(find_indices(7, &cs, &bit(b'0'), &FindCondition::Changed), vec![2, 5]);
    // a change past the index space stops the walk
    assert_eq!(find_indices(3, &cs, &bit(b'0'), &FindCondition::Low), vec![0, 1]);
    // the first change at index 0 follows nothing: no edge there
    let at0 = vec![(0, bit(b'1'))];
    assert_eq!(find_indices(2, &at0, &bit(b'0'), &FindCondition::Rising), Vec::<usize>::new());
}

#[test]
fn find_vector_values() {
    let cs = vec![(1, VcdValue::Vector(b"0101".to_vec())), (3, VcdValue::Vector(b"1x00".to_vec()))];
    let init = VcdValue::Vector(b"0000".to_vec());
    assert_eq!(find_indices(4, &cs, &init, &FindCondition::Value(5)), vec![1, 2]);
    assert_eq!(find_indices(4, &cs, &init, &FindCondition::IsX), vec![3, 4]);
    assert_eq!(find_indices(4, &cs, &init, &FindCondition::Rising), vec![1]);
    let qs = vec![
        FindQuery { changes: cs.clone(), initial: init.clone(), cond: FindCondition::Value(5) },
        FindQuery { changes: cs, initial: init, cond: FindCondition::ValueI64(0) },
    ];
    assert_eq!(find_indices_batch(4, &qs), vec![vec![1, 2], vec![0]]);
}

#[test]
fn index_space_follows_the_waveforms_read() {
    let traces = vec![
        TraceSummary { names: vec!["top.a".to_string()], max_index: 10 },
        TraceSummary { names: vec!["top.b".to_string(), "top.a2".to_string()], max_index: 20 },
    ];
    assert_eq!(index_space_max(&traces, &["top.b".to_string()]), 20);
    assert_eq!(index_space_max(&traces, &[]), 10);
    assert_eq!(index_space_max(&traces, &["nope".to_string()]), 0);
    assert_eq!(source_ids(&traces, &["top.b".to_string(), "top.a".to_string(), "top.b".to_string()]), vec![1, 0]);
}

#[test]
fn column_changes_unpack() {
    let st = col_states_from_vcd(&VcdValue::Vector(b"0101".to_vec()), 4).unwrap();
    let col = Col { width: 4, idxs: vec![1, 3], states: vec![st, st] };
    let cs = col_changes(&col);
    assert_eq!(cs, vec![(1, VcdValue::Vector(b"0101".to_vec())), (3, VcdValue::Vector(b"0101".to_vec()))]);
}

const WAVE: &[u8] = b"$timescale 1 ns $end
$var wire 1 ! clk $end
$var wire 4 # data $end
$enddefinitions $end
$dumpvars
0!
b0000 #
$end
#0
1!
#5
b0101 #
0!
#6
1!
1!
#9
0!
";

#[test]
fn changes_found_by_scanning_for_the_identifier() {
    let cs = id_scan_changes(WAVE, 0, b"!").unwrap();
    assert_eq!(cs, vec![(0, bit(b'1')), (1, bit(b'0')), (2, bit(b'1')), (3, bit(b'0'))]);
    let ds = id_scan_changes(WAVE, 0, b"#").unwrap();
    assert_eq!(ds, vec![(1, VcdValue::Vector(b"0101".to_vec()))]);
    let mut reader = MmapReader::from_data(WAVE.to_vec());
    let h = scan_header(&mut reader).unwrap();
    let idx = LoadIndex::new(2);
    assert_eq!(anchored_changes(&idx, WAVE, &h, 0), Some(cs));
}

#[test]
fn value_at_a_time() {
    let mut reader = MmapReader::from_data(WAVE.to_vec());
    let h = scan_header(&mut reader).unwrap();
    let ts = build_ts_store(vec![0, 5, 6, 9]);
    let init = bit(b'0');
    assert_eq!(read_signal_value_at(WAVE, &h, &ts, 0, 5, &init), Some(bit(b'0')));
    assert_eq!(read_signal_value_at(WAVE, &h, &ts, 0, 7, &init), Some(bit(b'1')));
    assert_eq!(read_signal_value_at(WAVE, &h, &ts, 1, 4, &VcdValue::Vector(b"0000".to_vec())), Some(VcdValue::Vector(b"0000".to_vec())));
    assert_eq!(read_signal_value_at(WAVE, &h, &ts, 1, 9, &init), Some(VcdValue::Vector(b"0101".to_vec())));
}

#[test]
fn value_bytes() {
    assert_eq!(bit(b'x').to_bytes(), vec![b'x']);
    assert_eq!(VcdValue::Vector(b"0101".to_vec()).to_bytes(), b"0101".to_vec());
}

const MINI: &[u8] = b"$timescale 1ns $end
$scope module top $end
$var wire 1 ! clk $end
$var wire 1 \" a $end
$upscope $end
$enddefinitions $end
$dumpvars
#0
0!
1\"
$end
#20
1!
0\"
$end
#40
0!
1\"
$end
";

/// The signal `name`'s change list, initial value and index space in MINI.
fn mini_changes(name: &str) -> (Vec<(u32, VcdValue)>, VcdValue, usize) {
    let mut reader = MmapReader::from_data(MINI.to_vec());
    let h = scan_header(&mut reader).unwrap();
    let n = h.signals.len();
    let (init, stop): (HashMap<u32, VcdValue>, usize) = dumpvars_snapshot(MINI, h.header_end_offset as usize, &h);
    let scan = scan_chunk(MINI, stop, MINI.len(), &h.signal_ids, n, &h.event_signals, false).unwrap();
    let mut idx = LoadIndex::new(n);
    assert!(idx.merge_fits(&scan, 0));
    idx.merge_chunk(scan, 0, false);
    let i = resolve_index(&h.signals, name).unwrap();
    let cs = anchored_changes(&idx, MINI, &h, i as u32).unwrap();
    let initial = init.get(&(i as u32)).cloned().unwrap_or(VcdValue::Bit(b'x'));
    (cs, initial, idx.timestamps.len() - 1)
}

#[test]
fn test_find_changed_vector() {
    let (cs, init, max) = mini_changes("top.a");
    let idx = find_indices(max, &cs, &init, &FindCondition::Changed);
    assert!(idx.len() >= 1, "no changes detected");
}

#[test]
fn test_find_rising_vector() {
    let (cs, init, max) = mini_changes("top.a");
    let idx = find_indices(max, &cs, &init, &FindCondition::Rising);
    assert!(!idx.is_empty(), "no rising detected");
}

#[test]
fn rising_edges_are_changes() {
    let cs = vec![(1, bit(b'x')), (2, bit(b'1')), (3, bit(b'0')), (4, bit(b'1'))];
    let r = find_indices(5, &cs, &bit(b'0'), &FindCondition::Rising);
    let c = find_indices(5, &cs, &bit(b'0'), &FindCondition::Changed);
    assert_eq!(r, vec![4]);
    assert_eq!(c, vec![1, 2, 3, 4]);
    assert!(r.iter().all(|i| c.contains(i)));
}

#[test]
fn the_first_loaded_waveform_answers() {
    let traces = vec![
        TraceSummary { names: vec!["top.s".to_string()], max_index: 3 },
        TraceSummary { names: vec!["top.s".to_string()], max_index: 9 },
    ];
    assert_eq!(route_name(&traces, "top.s"), Ok(0));
    assert_eq!(route_name(&traces, "nope"), Err("signal 'nope' not found in any loaded trace".to_string()));
}
