use wal_rust::trace::fsdb::{
    merge_sorted_unique, merge_time_sets, parse_timeline_jobs, resolve_timeline_jobs, times_len_ok,
};
use wal_rust::trace::fsdb_test_api::{decode, decode_tree, encode, encode_tree, round_robin_slice};
use wal_rust::trace::name_store::{fnv1a, mix64, NameArena};
use wal_rust::trace::trace::{BatchEntry, FindCondition};

fn with_fp(mut blob: Vec<u8>, fp: u64) -> Vec<u8> {
    blob[8..16].copy_from_slice(&fp.to_le_bytes());
    blob
}

#[test]
fn timeline_cache_round_trip() {
    let times = vec![0u64, 5, 5, 17, 1_000_000, u64::MAX];
    let blob = with_fp(encode(&times, Some(3)), 0xABCD);
    assert_eq!(&blob[..8], b"WALFTL01");
    assert_eq!(decode(&blob, 0xABCD), Some((times.clone(), Some(3))));
    let blob2 = with_fp(encode(&times, None), 7);
    assert_eq!(decode(&blob2, 7), Some((times, None)));
}

#[test]
fn timeline_cache_refuses_other_fingerprint_and_damage() {
    let times = vec![1u64, 2, 3];
    let blob = with_fp(encode(&times, None), 1);
    assert_eq!(decode(&blob, 2), None);
    assert_eq!(decode(&blob[..blob.len() - 1], 1), None);
    let mut bad = blob.clone();
    bad[0] = b'X';
    assert_eq!(decode(&bad, 1), None);
    // A point count larger than the bytes that follow is refused.
    let mut big = blob.clone();
    big[25..33].copy_from_slice(&1000u64.to_le_bytes());
    assert_eq!(decode(&big, 1), None);
}

#[test]
fn timeline_delta_encoding_is_exact() {
    let blob = encode(&[300u64], None);
    assert_eq!(blob.len(), 33 + 2);
    assert_eq!(&blob[33..], &[0xAC, 0x02]);
    assert_eq!(blob[16], 0);
    assert_eq!(&blob[25..33], &1u64.to_le_bytes());
}

#[test]
fn name_tree_cache_round_trip() {
    let names = vec!["tb.clk".to_string(), "tb.u_cpu.数据".to_string()];
    let widths = vec![1usize, 32];
    let scopes = vec!["tb".to_string(), "tb.u_cpu".to_string()];
    let blob = with_fp(encode_tree(&names, &widths, &scopes), 99);
    assert_eq!(&blob[..8], b"WALFNM01");
    assert_eq!(decode_tree(&blob, 99), Some((names, widths, scopes)));
    assert_eq!(decode_tree(&blob, 98), None);
}

#[test]
fn name_tree_of_nothing_is_too_short_to_read() {
    let blob = encode_tree(&[], &[], &[]);
    assert_eq!(blob.len(), 18);
    assert_eq!(decode_tree(&blob, 0), None);
}

#[test]
fn name_tree_refuses_invalid_utf8() {
    let names = vec!["abcdefgh".to_string()];
    let mut blob = encode_tree(&names, &[4], &["s".to_string()]);
    blob[18] = 0xFF;
    assert_eq!(decode_tree(&blob, 0), None);
}

#[test]
fn round_robin_slices_partition_the_signals() {
    assert_eq!(round_robin_slice(10, 0, 3), vec![0, 3, 6, 9]);
    assert_eq!(round_robin_slice(10, 1, 3), vec![1, 4, 7]);
    assert_eq!(round_robin_slice(10, 2, 3), vec![2, 5, 8]);
    assert_eq!(round_robin_slice(4, 0, 0), vec![0, 1, 2, 3]);
    assert_eq!(round_robin_slice(4, 5, 2), Vec::<usize>::new());
    let n = 101;
    let stride = 7;
    let mut seen = vec![0u32; n];
    for o in 0..stride {
        for i in round_robin_slice(n, o, stride) {
            seen[i] += 1;
        }
    }
    assert!(seen.iter().all(|&c| c == 1));
}

#[test]
fn merging_time_lists() {
    assert_eq!(merge_sorted_unique(&[1, 3, 5], &[2, 3, 6]), vec![1, 2, 3, 5, 6]);
    assert_eq!(merge_sorted_unique(&[], &[4, 9]), vec![4, 9]);
    assert_eq!(merge_sorted_unique(&[4, 9], &[]), vec![4, 9]);
    assert_eq!(
        merge_time_sets(vec![vec![5, 10], vec![1], vec![10, 11], vec![0, 5]]),
        vec![0, 1, 5, 10, 11]
    );
    assert_eq!(merge_time_sets(vec![]), Vec::<u64>::new());
    assert_eq!(merge_time_sets(vec![vec![2, 4]]), vec![2, 4]);
}

#[test]
fn timeline_job_counts() {
    assert_eq!(resolve_timeline_jobs(Some(" AUTO "), 16, false), 8);
    assert_eq!(resolve_timeline_jobs(Some("auto"), 0, false), 1);
    assert_eq!(resolve_timeline_jobs(Some("4"), 16, false), 4);
    assert_eq!(resolve_timeline_jobs(Some("x"), 16, true), 1);
    assert_eq!(resolve_timeline_jobs(Some("  "), 3, true), 3);
    assert_eq!(resolve_timeline_jobs(None, 12, true), 8);
    assert_eq!(resolve_timeline_jobs(None, 12, false), 1);
    assert_eq!(parse_timeline_jobs("+3", 2), 3);
    assert!(times_len_ok(256));
    assert!(!times_len_ok(255));
}

#[test]
fn hashes_match_their_definitions() {
    assert_eq!(fnv1a(b""), 0xcbf2_9ce4_8422_2325);
    assert_eq!(fnv1a(b"a"), 0xaf63_dc4c_8601_ec8c);
    assert_eq!(mix64(0), 0);
    assert_ne!(mix64(1), 1);
}

#[test]
fn arena_spans_give_back_the_names() {
    let mut a = NameArena::with_capacity(0, 0);
    a.push("x.y");
    a.push("");
    a.push("z");
    assert_eq!(a.span(0), (0, 3));
    assert_eq!(a.span(2), (3, 1));
    assert_eq!(a.bytes_at(0, 3), b"x.y");
    assert_eq!(a.bytes_at(3, 5), b"");
    assert_eq!(a.get(1), "");
    assert_eq!(a.get_opt(2), Some("z"));
}

#[test]
fn query_types() {
    let e = BatchEntry::And(vec![("a".to_string(), FindCondition::Rising), ("b".to_string(), FindCondition::Value(1))]);
    match e {
        BatchEntry::And(v) => assert_eq!(v[1].1, FindCondition::Value(1)),
        BatchEntry::Simple(..) => unreachable!(),
    }
    assert_ne!(FindCondition::ValueI64(-1), FindCondition::NeqI64(-1));
}
