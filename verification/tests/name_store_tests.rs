use wal_rust::trace::name_store::{fnv1a, NameArena, OpenIndex};

#[test]
fn arena_round_trip() {
    let mut a = NameArena::with_capacity(3, 64);
    let i0 = a.push("tb.u_cpu.clk");
    let i1 = a.push("tb.u_cpu.rst_n");
    let i2 = a.push("短名");
    assert_eq!((i0, i1, i2), (0, 1, 2));
    assert_eq!(a.get(0), "tb.u_cpu.clk");
    assert_eq!(a.get(1), "tb.u_cpu.rst_n");
    assert_eq!(a.get(2), "短名");
    assert_eq!(a.len(), 3);
    assert_eq!(a.get_opt(3), None);
    assert_eq!(a.blob_len(), "tb.u_cpu.clk".len() + "tb.u_cpu.rst_n".len() + "短名".len());
}

#[test]
fn open_index_hit_miss_and_grow() {
    let mut ix = OpenIndex::new(4);
    let names: Vec<String> = (0..500).map(|i| format!("tb.sig_{}", i)).collect();
    for (i, n) in names.iter().enumerate() {
        let h = fnv1a(n.as_bytes());
        let idx = i as u32;
        ix.insert(h, idx, |j| fnv1a(names[j as usize].as_bytes()));
    }
    assert_eq!(ix.len(), 500);
    for (i, n) in names.iter().enumerate() {
        let h = fnv1a(n.as_bytes());
        let got = ix.find_verified(h, |j| names[j as usize] == *n);
        assert_eq!(got, Some(i as u32), "lookup {}", n);
    }
    assert_eq!(ix.find(fnv1a(b"tb.not_there")), None);
}

fn old_style_bytes_per_signal(n: usize) -> usize {
    let full: Vec<String> = (0..n)
        .map(|i| format!("tb.u_subsys_{}.u_blk_{}.sig_{}", i % 1000, i % 97, i))
        .collect();
    let leaf: Vec<String> = full.iter().map(|s| s.rsplit('.').next().unwrap().to_string()).collect();
    let mut map: std::collections::HashMap<&str, usize> = std::collections::HashMap::with_capacity(n);
    for (i, name) in full.iter().enumerate() {
        map.entry(name.as_str()).or_insert(i);
    }
    let str_cost = |v: &Vec<String>| -> usize { v.iter().map(|s| s.capacity() + 24).sum() };
    let keys_heap: usize = full.iter().map(|s| s.capacity()).sum();
    let map_buckets = map.capacity() * 48;
    (str_cost(&full) * 2 + str_cost(&leaf) + keys_heap + map_buckets) / n
}

#[test]
fn per_signal_bytes_stay_small() {
    const N: usize = 200_000;
    let mut arena = NameArena::with_capacity(N, N * 40);
    let mut ix = OpenIndex::new(N);
    let mut hashes: Vec<u64> = Vec::with_capacity(N);
    for i in 0..N {
        let name = format!("tb.u_subsys_{}.u_blk_{}.sig_{}", i % 1000, i % 97, i);
        let h = fnv1a(name.as_bytes());
        hashes.push(h);
        let idx = arena.push(&name);
        assert_eq!(idx as usize, i);
        ix.insert(h, idx, |j| hashes[j as usize]);
    }
    let per_sig = (arena.blob_len() + arena.len() * 8 + ix.bytes()) / N;
    let old = old_style_bytes_per_signal(N);
    println!(
        "name storage: {}B/signal (arena {} + spans 8 + index {}) vs {}B/signal before",
        per_sig,
        arena.blob_len() / N,
        ix.bytes() / N,
        old
    );
    assert!(per_sig < 200, "{}B per signal is too much", per_sig);
    assert!(per_sig * 2 < old, "new storage must take under half the old (new {} vs old {})", per_sig, old);
}

#[test]
fn presized_index_does_not_grow() {
    let h = 100usize;
    let mut ix = OpenIndex::new(h);
    let c = (h * 3 / 2 + 16).next_power_of_two();
    assert_eq!(ix.bytes(), 12 * c);
    let hashes: Vec<u64> = (0..h as u64).map(|i| i.wrapping_mul(0x9E37_79B9_7F4A_7C15)).collect();
    for i in 0..h {
        ix.insert(hashes[i], i as u32, |j| hashes[j as usize]);
    }
    assert_eq!(ix.len(), h);
    assert_eq!(ix.bytes(), 12 * c);
}
