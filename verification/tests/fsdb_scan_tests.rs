use wal_rust::trace::fsdb_scan::{
    count_edge_matches, finish_timeline, scan_column, fsdb_sig_table, scan_event, scan_targets, timeline_event, ScanChunkState,
};
use wal_rust::trace::trace::{FindCondition, ScalarValue};

#[test]
fn scan_visits_all_or_the_wanted_sorted() {
    assert_eq!(scan_targets(4, &[2], true), vec![0, 1, 2, 3]);
    assert_eq!(scan_targets(10, &[7, 2, 7, 5], false), vec![2, 5, 7]);
    assert_eq!(scan_targets(10, &[], false), Vec::<usize>::new());
}

#[test]
fn scan_events_collect_first_values_times_and_changes() {
    let mut st = ScanChunkState::new(3);
    // unknown handle: skipped
    scan_event(&mut st, 5, None, true, true, Some(ScalarValue::Bit(b'1')));
    // time 0: first value kept, later ones ignored
    scan_event(&mut st, 0, Some(1), true, true, Some(ScalarValue::Bit(b'0')));
    scan_event(&mut st, 0, Some(1), true, true, Some(ScalarValue::Bit(b'1')));
    scan_event(&mut st, 10, Some(1), true, true, Some(ScalarValue::Bit(b'1')));
    scan_event(&mut st, 10, Some(2), false, true, None);
    scan_event(&mut st, 20, Some(1), true, true, Some(ScalarValue::Bit(b'0')));
    assert_eq!(st.inits[1], Some(ScalarValue::Bit(b'0')));
    assert_eq!(st.inits[0], None);
    assert_eq!(st.times, vec![10, 20]);
    assert_eq!(st.raw[1], vec![(10, ScalarValue::Bit(b'1')), (20, ScalarValue::Bit(b'0'))]);
    assert!(st.raw[2].is_empty());
    let first = st.take_times();
    assert_eq!(first, vec![10, 20]);
    assert!(st.times.is_empty());
}

#[test]
fn timeline_scan_and_merge() {
    let mut t = Vec::new();
    for x in [0u64, 3, 3, 7, 7, 9] {
        timeline_event(&mut t, x);
    }
    assert_eq!(t, vec![3, 7, 9]);
    let merged = finish_timeline(vec![vec![3, 7, 9], vec![1, 7, 12], vec![5, 2, 5]]);
    assert_eq!(merged, vec![1, 2, 3, 5, 7, 9, 12]);
}

#[test]
fn fsdb_signal_table() {
    let names = vec!["top.u1.clk".to_string(), "rst".to_string()];
    let t = fsdb_sig_table(&names, &vec![1]);
    assert_eq!(t[0].leaf, b"clk".to_vec());
    assert_eq!(t[0].full, "top.u1.clk");
    assert_eq!(t[1].leaf, b"rst".to_vec());
    assert_eq!(t[1].width, 1);
}

#[test]
fn edge_counts_follow_each_change() {
    let b = |c: u8| ScalarValue::Bit(c);
    let pts = vec![(5u64, b(b'0')), (9, b(b'1')), (12, b(b'0')), (20, b(b'1'))];
    assert_eq!(count_edge_matches(&pts, Some(&b(b'0')), &FindCondition::Rising, None), 2);
    assert_eq!(count_edge_matches(&pts, Some(&b(b'0')), &FindCondition::Falling, None), 1);
    // no value at time zero: x before the first change, so x -> 0 is no falling edge
    let pts2 = vec![(3u64, b(b'0')), (5, b(b'1')), (6, b(b'0'))];
    assert_eq!(count_edge_matches(&pts2, None, &FindCondition::Falling, None), 1);
    assert_eq!(count_edge_matches(&pts2, None, &FindCondition::Rising, None), 1);
}

#[test]
fn first_change_at_wave_start_has_no_predecessor() {
    let b = |c: u8| ScalarValue::Bit(c);
    let pts = vec![(3u64, b(b'1')), (7, b(b'0'))];
    // the first change is the wave's earliest: it is not a change
    assert_eq!(count_edge_matches(&pts, None, &FindCondition::Changed, Some(3)), 1);
    // otherwise x -> 1 is a change
    assert_eq!(count_edge_matches(&pts, None, &FindCondition::Changed, Some(1)), 2);
    // a defined value at time zero always stands before the first change
    assert_eq!(count_edge_matches(&pts, Some(&b(b'1')), &FindCondition::Changed, Some(3)), 1);
    assert_eq!(count_edge_matches(&pts, Some(&b(b'0')), &FindCondition::Changed, Some(3)), 2);
}

#[test]
fn scanned_column_keeps_last_write_and_real_changes() {
    let b = |c: u8| ScalarValue::Bit(c);
    let list = vec![(5u64, b(b'1')), (5, b(b'0')), (7, b(b'0')), (9, b(b'1'))];
    assert_eq!(scan_column(&list, Some(&b(b'0'))), vec![(9u64, b(b'1'))]);
    assert_eq!(scan_column(&list, None), vec![(5u64, b(b'0')), (9, b(b'1'))]);
    assert_eq!(scan_column(&Vec::new(), None), Vec::<(u64, ScalarValue)>::new());
}
