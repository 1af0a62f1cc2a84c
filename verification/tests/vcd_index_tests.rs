use std::collections::HashMap;
use wal_rust::trace::vcd_index::{dumpvars_snapshot, id_bytes, scan_chunk, scan_header, LoadIndex};
use wal_rust::vcd::reader::MmapReader;
use wal_rust::vcd::types::VcdValue;

const WAVE: &[u8] = b"$date today $end
$timescale 1 ns $end
$scope module top $end
 $var wire 1 ! clk $end
\t$var wire 8 # data $end
$scope module sub $end
$var event 1 % ev $end
$upscope $end
$upscope $end
$enddefinitions $end
$dumpvars
0!
b00001111 #
r2.5 %
$end
#10
1!
";

#[test]
fn header_pass_collects_signals_and_scopes() {
    let mut reader = MmapReader::from_data(WAVE.to_vec());
    let h = scan_header(&mut reader).unwrap();
    assert_eq!(h.signals, vec!["top.clk".to_string(), "top.data".to_string(), "top.sub.ev".to_string()]);
    assert_eq!(h.scopes, vec!["top".to_string(), "top.sub".to_string()]);
    assert_eq!(h.signal_widths, vec![1, 8, 1]);
    assert_eq!(h.event_signals, vec![2]);
    assert_eq!(h.id_blob, b"!#%".to_vec());
    assert_eq!(h.id_offsets, vec![0, 1, 2]);
    assert_eq!(h.signal_ids.get(&33), Some(&0));
    assert_eq!(h.signal_ids.get(&35), Some(&1));
    assert_eq!(h.signal_ids.get(&37), Some(&2));
    assert_eq!(h.timescale_exp, Some(-9));
    let end_line = WAVE.windows(15).position(|w| w == b"$enddefinitions").unwrap();
    assert_eq!(h.header_end_offset as usize, end_line + "$enddefinitions $end".len() + 1);
    assert_eq!(&WAVE[h.header_end_offset as usize..h.header_end_offset as usize + 9], b"$dumpvars");
    assert_eq!(id_bytes(&h.id_offsets, &h.id_blob, 1), Some(&b"#"[..]));
    assert_eq!(id_bytes(&h.id_offsets, &h.id_blob, 3), None);
}

#[test]
fn header_pass_without_end_runs_to_the_end() {
    let data = b"$timescale\n- 10 ps\n$end\n$scope module a $end\n$var reg 4 xy q $end\n".to_vec();
    let len = data.len();
    let mut reader = MmapReader::from_data(data);
    let h = scan_header(&mut reader).unwrap();
    assert_eq!(h.signals, vec!["a.q".to_string()]);
    assert_eq!(h.timescale_exp, Some(-11));
    assert_eq!(h.header_end_offset as usize, len);
    assert_eq!(h.id_blob, b"xy".to_vec());
    // the value on the next line is read as the line's second and third words
    let mut r2 = MmapReader::from_data(b"$timescale\n 1 us $end\n".to_vec());
    assert_eq!(scan_header(&mut r2).unwrap().timescale_exp, None);
}

#[test]
fn dumpvars_snapshot_gives_initial_values() {
    let mut reader = MmapReader::from_data(WAVE.to_vec());
    let h = scan_header(&mut reader).unwrap();
    let (init, stop) = dumpvars_snapshot(WAVE, h.header_end_offset as usize, &h);
    assert_eq!(init.get(&0), Some(&VcdValue::Bit(b'0')));
    assert_eq!(init.get(&1), Some(&VcdValue::Vector(b"00001111".to_vec())));
    assert_eq!(init.get(&2), Some(&VcdValue::Real("2.5".to_string())));
    assert_eq!(init.len(), 3);
    assert_eq!(&WAVE[stop..stop + 3], b"#10");
}

#[test]
fn header_pass_refuses_an_overflowing_timescale() {
    let mut reader = MmapReader::from_data(b"$timescale 0 ns $end\n$enddefinitions $end\n".to_vec());
    assert!(scan_header(&mut reader).is_none());
    let mut ok = MmapReader::from_data(b"$timescale 0 s $end\n$enddefinitions $end\n".to_vec());
    assert_eq!(scan_header(&mut ok).unwrap().timescale_exp, Some(-128));
}

#[test]
fn chunk_scan_collects_and_refuses_unreadable_lines() {
    let mut ids: HashMap<u64, u32> = HashMap::new();
    ids.insert(33, 0);
    let data = b"#5\n1!\n#7\n0!\n";
    let r = scan_chunk(data, 0, data.len(), &ids, 1, &vec![], true).unwrap();
    assert_eq!(r.timestamps, vec![5, 7]);
    assert_eq!(r.ts_offsets, vec![0, 6]);
    assert_eq!(r.cols.len(), 2);
    assert_eq!(r.cols[0].0, 0);
    assert_eq!(r.cols[1].1, 1);
    let bad = b"#5\n ab\n";
    assert!(scan_chunk(bad, 0, bad.len(), &ids, 1, &vec![], true).is_none());
}

#[test]
fn merged_chunk_fills_the_index() {
    let mut ids: HashMap<u64, u32> = HashMap::new();
    ids.insert(33, 0);
    let data = b"#5\n1!\n#7\n0!\n1!\n";
    let scan = scan_chunk(data, 0, data.len(), &ids, 1, &vec![], true).unwrap();
    let mut idx = LoadIndex::new(1);
    assert!(idx.merge_fits(&scan, 1000));
    idx.merge_chunk(scan, 1000, false);
    assert_eq!(idx.timestamps, vec![5, 7]);
    assert_eq!(idx.base, 2);
    let col = idx.col_cache[0].as_ref().unwrap();
    // a new column takes every entry of its first chunk as it comes
    assert_eq!(col.idxs, vec![0, 1, 1]);
    assert_eq!(col.states.len(), 3);
    assert_eq!(idx.col_bytes, 60);
    let bad = scan_chunk(data, 0, data.len(), &ids, 1, &vec![], true).unwrap();
    let small = LoadIndex::new(0);
    assert!(!small.merge_fits(&bad, 1000));
}
