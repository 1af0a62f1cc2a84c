//! Encoding of one value-change block in the DYNALIAS2 layout (block type
//! 0x08): `[header24] [checkpoint] [vc_header] [chain_data] [index]
//! [time_section]`.
//!
//! Each signal's value changes form a chain of entries whose time deltas
//! count timestamps of the block; each chain is zlib-compressed on its own,
//! the index table records where each chain starts, and the block's
//! timestamps are stored as zlib-compressed varint deltas.
use vstd::prelude::*;

use crate::bytes::{append_bytes, le64, le64_bytes};
use crate::fst::compress::{zlib_compress, zlib_encode};
use crate::fst::types::{sig_views, SignalDecl, SignalView};
use crate::fst::varint::{
    encode_fst_svarint, encode_varint, spec_encode_fst_svarint, spec_encode_varint,
};

verus! {

/// One value change waiting in the current block.
pub struct BlockEntry {
    pub handle: u32,
    /// Index of its timestamp among the block's timestamps.
    pub time_idx: u32,
    pub value: Vec<u8>,
}

/// A pending change as values: handle, time index, value bytes.
pub type EntryView = (u32, u32, Seq<u8>);

/// The views of a sequence of pending changes.
pub open spec fn entry_views(es: Seq<BlockEntry>) -> Seq<EntryView> {
    es.map_values(|e: BlockEntry| (e.handle, e.time_idx, e.value@))
}

// ---------------------------------------------------------------------------
// Specification
// ---------------------------------------------------------------------------

/// `a - b`, or 0 when `b > a`.
pub open spec fn sat_sub64(a: u64, b: u64) -> u64 {
    if a >= b { (a - b) as u64 } else { 0 }
}

/// `a - b`, or 0 when `b > a`.
pub open spec fn sat_sub32(a: u32, b: u32) -> u32 {
    if a >= b { (a - b) as u32 } else { 0 }
}

/// `a + b` modulo 2^64.
pub open spec fn wrap_add64(a: u64, b: u64) -> u64 {
    if a + b > u64::MAX { (a + b - 0x1_0000_0000_0000_0000) as u64 } else { (a + b) as u64 }
}

/// The time section before compression: each timestamp's distance from the
/// one before it (from 0 for the first), as varints.
pub open spec fn time_raw(ts: Seq<u64>) -> Seq<u8>
    decreases ts.len(),
{
    if ts.len() == 0 {
        Seq::empty()
    } else {
        let n = ts.len() - 1;
        let prev = if n == 0 { 0u64 } else { ts[n - 1] };
        time_raw(ts.drop_last()) + spec_encode_varint(sat_sub64(ts[n], prev))
    }
}

/// The width used for the chain of handle `h`: that of signal `h` (handles
/// count from 1; handle 0 takes the first signal's), or 1 for a handle with
/// no signal.
pub open spec fn width_of(sigs: Seq<SignalView>, h: int) -> u32 {
    let k = if h == 0 { 0 } else { h - 1 };
    if k < sigs.len() { sigs[k].width } else { 1 }
}

/// The multi-state value characters "xzhuwl-?" in FST's order.
pub open spec fn rcv_chars() -> Seq<u8> {
    seq![0x78u8, 0x7a, 0x68, 0x75, 0x77, 0x6c, 0x2d, 0x3f]
}

/// Position of `b` among the multi-state value characters, 0 when absent.
pub open spec fn rcv_index(b: u8) -> u64 {
    if b == 0x78 { 0 } else if b == 0x7a { 1 } else if b == 0x68 { 2 } else if b == 0x75 { 3 }
    else if b == 0x77 { 4 } else if b == 0x6c { 5 } else if b == 0x2d { 6 } else if b == 0x3f { 7 }
    else { 0 }
}

/// Every byte is '0' or '1'.
pub open spec fn all_binary(v: Seq<u8>) -> bool {
    forall|j: int| 0 <= j < v.len() ==> v[j] == 0x30u8 || v[j] == 0x31u8
}

/// Number of bytes that hold `width` bits.
pub open spec fn packed_len(width: u32) -> nat {
    ((width as nat) + 7) / 8
}

/// Bit `j` of a value is set: it exists and is '1'.
pub open spec fn bit_set(v: Seq<u8>, j: int) -> bool {
    0 <= j < v.len() && v[j] == 0x31u8
}

/// Byte `k` of a bit-packed value: bit `8k` in the most significant place.
pub open spec fn packed_byte(v: Seq<u8>, k: int) -> u8 {
    (if bit_set(v, 8 * k) { 0x80u8 } else { 0u8 }) | (if bit_set(v, 8 * k + 1) { 0x40u8 } else {
        0u8
    }) | (if bit_set(v, 8 * k + 2) { 0x20u8 } else { 0u8 }) | (if bit_set(v, 8 * k + 3) {
        0x10u8
    } else {
        0u8
    }) | (if bit_set(v, 8 * k + 4) { 0x08u8 } else { 0u8 }) | (if bit_set(v, 8 * k + 5) {
        0x04u8
    } else {
        0u8
    }) | (if bit_set(v, 8 * k + 6) { 0x02u8 } else { 0u8 }) | (if bit_set(v, 8 * k + 7) {
        0x01u8
    } else {
        0u8
    })
}

/// A binary value packed into `n` bytes, first bit in the most significant
/// place of the first byte.
pub open spec fn pack_bits(v: Seq<u8>, n: nat) -> Seq<u8> {
    Seq::new(n, |k: int| packed_byte(v, k))
}

/// A scalar is written as one varint.
pub open spec fn is_scalar_change(width: u32, val: Seq<u8>) -> bool {
    width <= 1 && val.len() <= 1
}

/// One chain entry for a change `tdelta` timestamps after the previous one
/// of the same signal.
pub open spec fn chain_entry(tdelta: u32, width: u32, val: Seq<u8>) -> Seq<u8> {
    if is_scalar_change(width, val) {
        let byte = if val.len() == 0 { 0x78u8 } else { val[0] };
        if byte == 0x30 || byte == 0x31 {
            let bit: u64 = if byte == 0x31 { 1 } else { 0 };
            spec_encode_varint(((tdelta as u64) << 2u64) | (bit << 1u64))
        } else {
            spec_encode_varint(((tdelta as u64) << 4u64) | (rcv_index(byte) << 1u64) | 1u64)
        }
    } else if all_binary(val) {
        spec_encode_varint((tdelta as u64) << 1u64) + pack_bits(val, packed_len(width))
    } else {
        spec_encode_varint(((tdelta as u64) << 1u64) | 1u64) + spec_encode_varint(val.len() as u64)
            + val
    }
}

/// A change can be written: a binary vector used no '1' beyond the bytes its
/// width gives it.
pub open spec fn packable(width: u32, val: Seq<u8>) -> bool {
    !is_scalar_change(width, val) && all_binary(val) ==> forall|j: int|
        8 * packed_len(width) <= j < val.len() ==> val[j] != 0x31u8
}

/// The chains after the given changes: for each handle `0..=max_h`, its
/// entries so far, whether it used any, and the time index of its last one.
pub open spec fn chain_state(sigs: Seq<SignalView>, entries: Seq<EntryView>, max_h: nat) -> (
    Seq<Seq<u8>>,
    Seq<bool>,
    Seq<u32>,
)
    decreases entries.len(),
{
    if entries.len() == 0 {
        (
            Seq::new(max_h + 1, |i: int| Seq::<u8>::empty()),
            Seq::new(max_h + 1, |i: int| false),
            Seq::new(max_h + 1, |i: int| 0u32),
        )
    } else {
        let prev = chain_state(sigs, entries.drop_last(), max_h);
        let e = entries.last();
        let h = e.0 as int;
        if h > max_h {
            prev
        } else {
            let td = sat_sub32(e.1, prev.2[h]);
            (
                prev.0.update(h, prev.0[h] + chain_entry(td, width_of(sigs, h), e.2)),
                prev.1.update(h, true),
                prev.2.update(h, e.1),
            )
        }
    }
}

/// The chain state has one slot per handle `0..=max_h`.
pub proof fn lemma_chain_state_len(sigs: Seq<SignalView>, entries: Seq<EntryView>, max_h: nat)
    ensures
        chain_state(sigs, entries, max_h).0.len() == max_h + 1,
        chain_state(sigs, entries, max_h).1.len() == max_h + 1,
        chain_state(sigs, entries, max_h).2.len() == max_h + 1,
    decreases entries.len(),
{
    if entries.len() > 0 {
        lemma_chain_state_len(sigs, entries.drop_last(), max_h);
    }
}

/// The chain area keeps one offset per handle.
pub proof fn lemma_chain_area_len(raw: Seq<Seq<u8>>, used: Seq<bool>, n: nat)
    requires
        n <= raw.len(),
    ensures
        chain_area(raw, used, n).1.len() == raw.len(),
    decreases n,
{
    if n > 0 {
        lemma_chain_area_len(raw, used, (n - 1) as nat);
    }
}

/// The chain data area for handles `0..n`: for each handle with changes, its
/// uncompressed length as a varint and its zlib-compressed chain; with each
/// such handle's offset in the area and the sum of uncompressed lengths.
pub open spec fn chain_area(raw: Seq<Seq<u8>>, used: Seq<bool>, n: nat) -> (Seq<u8>, Seq<u64>, u64)
    decreases n,
{
    if n == 0 {
        (Seq::empty(), Seq::new(raw.len(), |i: int| 0u64), 0u64)
    } else {
        let prev = chain_area(raw, used, (n - 1) as nat);
        let h = n - 1;
        if !used[h] {
            prev
        } else {
            (
                prev.0 + spec_encode_varint(raw[h].len() as u64) + zlib_compress(6, raw[h]),
                prev.1.update(h, prev.0.len() as u64),
                wrap_add64(prev.2, raw[h].len() as u64),
            )
        }
    }
}

/// Number of handles without changes starting at `h`, up to `max_h`.
pub open spec fn skip_run(used: Seq<bool>, h: int, max_h: int) -> nat
    decreases max_h + 1 - h,
{
    if h > max_h || h < 0 || used[h] {
        0
    } else {
        1 + skip_run(used, h + 1, max_h)
    }
}

/// A run of handles without changes stays within `h..=max_h`.
pub proof fn lemma_skip_run_bound(used: Seq<bool>, h: int, max_h: int)
    ensures
        h <= max_h + 1 ==> h + skip_run(used, h, max_h) <= max_h + 1,
    decreases max_h + 1 - h,
{
    if h <= max_h && h >= 0 && !used[h] {
        lemma_skip_run_bound(used, h + 1, max_h);
    }
}

/// The index table from handle `h` on, `pval` being the offset of the last
/// chain before it: a run of handles without changes as `2 * run`, a chain
/// as `2 * (offset - pval) + 1`, each as an FST signed varint.
pub open spec fn index_table(used: Seq<bool>, offs: Seq<u64>, h: int, max_h: int, pval: u64) -> Seq<
    u8,
>
    decreases max_h + 1 - h, 1nat,
{
    if h > max_h || h < 0 {
        Seq::empty()
    } else if !used[h] {
        let n = skip_run(used, h, max_h);
        proof {
            lemma_skip_run_bound(used, h, max_h);
        }
        if n == 0 {
            Seq::empty()
        } else {
            spec_encode_fst_svarint((2 * n) as i64) + index_table(used, offs, h + n, max_h, pval)
        }
    } else {
        let d = sat_sub64(offs[h], pval);
        spec_encode_fst_svarint((((d << 1u64) | 1u64) as i64)) + index_table(
            used,
            offs,
            h + 1,
            max_h,
            offs[h],
        )
    }
}

/// A complete value-change block for the given timestamps and changes;
/// empty when there are no timestamps.
pub open spec fn block_08(
    sigs: Seq<SignalView>,
    ts: Seq<u64>,
    entries: Seq<EntryView>,
    time_begin: u64,
    end_time: u64,
) -> Seq<u8> {
    if ts.len() == 0 {
        Seq::empty()
    } else {
        let max_handle = sigs.len() as u32;
        let max_h = max_handle as nat;
        let traw = time_raw(ts);
        let tcomp = zlib_compress(1, traw);
        let st = chain_state(sigs, entries, max_h);
        let area = chain_area(st.0, st.1, max_h + 1);
        let idx = index_table(st.1, area.1, 0, max_h as int, 0);
        let cp = spec_encode_varint(0) + spec_encode_varint(0) + spec_encode_varint(
            max_handle as u64,
        );
        let vc = spec_encode_varint(max_handle as u64) + seq![0x5Au8];
        let body = le64(time_begin) + le64(end_time) + le64(area.2) + cp + vc + area.0 + idx
            + le64(idx.len() as u64) + tcomp + le64(traw.len() as u64) + le64(tcomp.len() as u64)
            + le64(ts.len() as u64);
        seq![0x08u8] + le64(body.len() as u64) + body
    }
}

/// Every change of the block that is written (its handle is at most the
/// signal count; the others are skipped) can be written with the widths
/// of `sigs`.
pub open spec fn entries_packable(sigs: Seq<SignalView>, entries: Seq<EntryView>) -> bool {
    forall|i: int|
        0 <= i < entries.len() && entries[i].0 <= sigs.len() ==> packable(
            width_of(sigs, entries[i].0 as int),
            #[trigger] entries[i].2,
        )
}

// ---------------------------------------------------------------------------
// Implementation
// ---------------------------------------------------------------------------

/// The uncompressed time section.
pub fn encode_time_section(ts: &[u64]) -> (raw: Vec<u8>)
    ensures
        raw@ == time_raw(ts@),
{
    let mut raw: Vec<u8> = Vec::new();
    let mut prev: u64 = 0;
    let mut i: usize = 0;
    while i < ts.len()
        invariant
            i <= ts@.len(),
            raw@ == time_raw(ts@.take(i as int)),
            prev == (if i == 0 { 0u64 } else { ts@[i - 1] }),
        decreases ts@.len() - i,
    {
        let t: u64 = ts[i];
        let delta: u64 = t.saturating_sub(prev);
        let enc = encode_varint(delta);
        append_bytes(&mut raw, enc.as_slice());
        proof {
            let s = ts@.take(i + 1);
            assert(s.drop_last() =~= ts@.take(i as int));
        }
        prev = t;
        i = i + 1;
    }
    assert(ts@.take(ts@.len() as int) =~= ts@);
    raw
}

/// Position of `b` among the multi-state value characters, 0 when absent.
pub fn rcv_position(b: u8) -> (r: u64)
    ensures
        r == rcv_index(b),
{
    let chars: [u8; 8] = [0x78, 0x7a, 0x68, 0x75, 0x77, 0x6c, 0x2d, 0x3f];
    let mut i: usize = 0;
    while i < 8
        invariant
            i <= 8,
            chars@ == rcv_chars(),
            forall|j: int| 0 <= j < i ==> chars@[j] != b,
        decreases 8 - i,
    {
        if chars[i] == b {
            return i as u64;
        }
        i = i + 1;
    }
    0
}

/// Whether every byte is '0' or '1'.
pub fn is_all_binary(v: &[u8]) -> (r: bool)
    ensures
        r == all_binary(v@),
{
    let mut i: usize = 0;
    while i < v.len()
        invariant
            i <= v@.len(),
            forall|j: int| 0 <= j < i ==> v@[j] == 0x30u8 || v@[j] == 0x31u8,
        decreases v@.len() - i,
    {
        if v[i] != 0x30 && v[i] != 0x31 {
            return false;
        }
        i = i + 1;
    }
    true
}

fn bit_set_at(v: &[u8], j: usize) -> (r: bool)
    ensures
        r == bit_set(v@, j as int),
{
    j < v.len() && v[j] == 0x31
}

/// The value packed into `n` bytes.
pub fn pack_value_bits(v: &[u8], n: usize) -> (r: Vec<u8>)
    requires
        n <= 0x2000_0000,
    ensures
        r@ == pack_bits(v@, n as nat),
{
    let mut out: Vec<u8> = Vec::new();
    let mut k: usize = 0;
    while k < n
        invariant
            k <= n,
            n <= 0x2000_0000,
            out@ =~= pack_bits(v@, n as nat).take(k as int),
        decreases n - k,
    {
        let base: usize = 8 * k;
        let b: u8 = (if bit_set_at(v, base) { 0x80u8 } else { 0u8 }) | (if bit_set_at(v, base + 1) {
            0x40u8
        } else {
            0u8
        }) | (if bit_set_at(v, base + 2) { 0x20u8 } else { 0u8 }) | (if bit_set_at(v, base + 3) {
            0x10u8
        } else {
            0u8
        }) | (if bit_set_at(v, base + 4) { 0x08u8 } else { 0u8 }) | (if bit_set_at(v, base + 5) {
            0x04u8
        } else {
            0u8
        }) | (if bit_set_at(v, base + 6) { 0x02u8 } else { 0u8 }) | (if bit_set_at(v, base + 7) {
            0x01u8
        } else {
            0u8
        });
        assert(b == packed_byte(v@, k as int));
        out.push(b);
        k = k + 1;
    }
    out
}

/// One chain entry.
pub fn encode_chain_entry(tdelta: u32, width: u32, val: &[u8]) -> (r: Vec<u8>)
    ensures
        r@ == chain_entry(tdelta, width, val@),
{
    if width <= 1 && val.len() <= 1 {
        let byte: u8 = if val.len() == 0 { 0x78 } else { val[0] };
        if byte == 0x30 || byte == 0x31 {
            let bit: u64 = if byte == 0x31 { 1 } else { 0 };
            encode_varint(((tdelta as u64) << 2u64) | (bit << 1u64))
        } else {
            let idx: u64 = rcv_position(byte);
            encode_varint(((tdelta as u64) << 4u64) | (idx << 1u64) | 1u64)
        }
    } else if is_all_binary(val) {
        let mut out = encode_varint((tdelta as u64) << 1u64);
        let n: u64 = ((width as u64) + 7) / 8;
        assert(n == packed_len(width));
        let packed = pack_value_bits(val, n as usize);
        append_bytes(&mut out, packed.as_slice());
        out
    } else {
        let mut out = encode_varint(((tdelta as u64) << 1u64) | 1u64);
        let lenc = encode_varint(val.len() as u64);
        append_bytes(&mut out, lenc.as_slice());
        append_bytes(&mut out, val);
        out
    }
}

/// The chains of handles `0..=max_h` for the given changes.
pub fn build_chains(sigs: &[SignalDecl], entries: &[BlockEntry], max_h: usize) -> (r: (
    Vec<Vec<u8>>,
    Vec<bool>,
))
    requires
        max_h < usize::MAX,
    ensures
        r.0@.len() == max_h + 1,
        r.1@ == chain_state(sig_views(sigs@), entry_views(entries@), max_h as nat).1,
        r.0@.map_values(|v: Vec<u8>| v@) == chain_state(
            sig_views(sigs@),
            entry_views(entries@),
            max_h as nat,
        ).0,
{
    let ghost sv = sig_views(sigs@);
    let ghost ev = entry_views(entries@);
    let mut raw: Vec<Vec<u8>> = Vec::new();
    let mut used: Vec<bool> = Vec::new();
    let mut last: Vec<u32> = Vec::new();
    let mut h: usize = 0;
    while h <= max_h
        invariant
            h <= max_h + 1,
            max_h < usize::MAX,
            raw@.len() == h,
            used@.len() == h,
            last@.len() == h,
            forall|i: int| 0 <= i < h ==> (#[trigger] raw@[i])@.len() == 0,
            forall|i: int| 0 <= i < h ==> !(#[trigger] used@[i]),
            forall|i: int| 0 <= i < h ==> #[trigger] last@[i] == 0,
        decreases max_h + 1 - h,
    {
        raw.push(Vec::new());
        used.push(false);
        last.push(0);
        h = h + 1;
    }
    proof {
        let st0 = chain_state(sv, ev.take(0), max_h as nat);
        assert(ev.take(0).len() == 0);
        assert(used@ =~= st0.1);
        assert(last@ =~= st0.2);
    }
    let mut i: usize = 0;
    while i < entries.len()
        invariant
            i <= entries@.len(),
            max_h < usize::MAX,
            sv == sig_views(sigs@),
            ev == entry_views(entries@),
            raw@.len() == max_h + 1,
            used@.len() == max_h + 1,
            last@.len() == max_h + 1,
            used@ == chain_state(sv, ev.take(i as int), max_h as nat).1,
            last@ == chain_state(sv, ev.take(i as int), max_h as nat).2,
            forall|k: int|
                0 <= k <= max_h ==> #[trigger] raw@[k]@ == chain_state(
                    sv,
                    ev.take(i as int),
                    max_h as nat,
                ).0[k],
        decreases entries@.len() - i,
    {
        let ghost prev = chain_state(sv, ev.take(i as int), max_h as nat);
        proof {
            lemma_chain_state_len(sv, ev.take(i as int), max_h as nat);
            lemma_chain_state_len(sv, ev.take(i + 1), max_h as nat);
            let t = ev.take(i + 1);
            assert(t.drop_last() =~= ev.take(i as int));
            assert(t.last() == ev[i as int]);
            assert(ev[i as int] == (entries@[i as int].handle, entries@[i as int].time_idx, entries@[i as int].value@));
        }
        let e = &entries[i];
        let hh: usize = e.handle as usize;
        if hh <= max_h {
            let k: usize = if hh == 0 { 0 } else { hh - 1 };
            let width: u32 = if k < sigs.len() { sigs[k].width } else { 1 };
            assert(width == width_of(sv, hh as int));
            let td: u32 = e.time_idx.saturating_sub(last[hh]);
            let enc = encode_chain_entry(td, width, e.value.as_slice());
            let ghost old_raw = raw@;
            append_bytes(&mut raw[hh], enc.as_slice());
            used.set(hh, true);
            last.set(hh, e.time_idx);
            proof {
                let cur = chain_state(sv, ev.take(i + 1), max_h as nat);
                assert(used@ =~= cur.1);
                assert(last@ =~= cur.2);
                assert forall|k: int| 0 <= k <= max_h implies #[trigger] raw@[k]@ == cur.0[k] by {
                    if k != hh {
                        assert(raw@[k] == old_raw[k]);
                    }
                }
            }
        }
        i = i + 1;
    }
    assert(ev.take(ev.len() as int) =~= ev);
    proof {
        lemma_chain_state_len(sv, ev, max_h as nat);
        assert(raw@.map_values(|v: Vec<u8>| v@) =~= chain_state(sv, ev, max_h as nat).0);
    }
    (raw, used)
}

/// The chain data area, with each chain's offset and the sum of the
/// uncompressed chain lengths.
pub fn build_chain_area(raw: &Vec<Vec<u8>>, used: &Vec<bool>) -> (r: (Vec<u8>, Vec<u64>, u64))
    requires
        raw@.len() == used@.len(),
    ensures
        r.0@ == chain_area(raw@.map_values(|v: Vec<u8>| v@), used@, raw@.len()).0,
        r.1@ == chain_area(raw@.map_values(|v: Vec<u8>| v@), used@, raw@.len()).1,
        r.2 == chain_area(raw@.map_values(|v: Vec<u8>| v@), used@, raw@.len()).2,
{
    let ghost rv = raw@.map_values(|v: Vec<u8>| v@);
    let mut area: Vec<u8> = Vec::new();
    let mut offs: Vec<u64> = Vec::new();
    let mut k: usize = 0;
    while k < raw.len()
        invariant
            k <= raw@.len(),
            offs@.len() == k,
            forall|j: int| 0 <= j < k ==> #[trigger] offs@[j] == 0u64,
        decreases raw@.len() - k,
    {
        offs.push(0);
        k = k + 1;
    }
    proof {
        assert(offs@ =~= chain_area(rv, used@, 0).1);
    }
    assert(rv.len() == raw@.len());
    let mut mem: u64 = 0;
    let mut h: usize = 0;
    while h < raw.len()
        invariant
            h <= raw@.len(),
            raw@.len() == used@.len(),
            rv == raw@.map_values(|v: Vec<u8>| v@),
            area@ == chain_area(rv, used@, h as nat).0,
            offs@ == chain_area(rv, used@, h as nat).1,
            mem == chain_area(rv, used@, h as nat).2,
            offs@.len() == raw@.len(),
        decreases raw@.len() - h,
    {
        proof {
            lemma_chain_area_len(rv, used@, h as nat);
        }
        if used[h] {
            let chain: &Vec<u8> = &raw[h];
            mem = mem.wrapping_add(chain.len() as u64);
            let compressed = zlib_encode(6, chain.as_slice());
            offs.set(h, area.len() as u64);
            let lenc = encode_varint(chain.len() as u64);
            append_bytes(&mut area, lenc.as_slice());
            append_bytes(&mut area, compressed.as_slice());
            assert(rv[h as int] == chain@);
        }
        h = h + 1;
    }
    (area, offs, mem)
}

/// The index table for handles `0..=max_h`.
pub fn build_index_table(used: &Vec<bool>, offs: &Vec<u64>, max_h: usize) -> (r: Vec<u8>)
    requires
        used@.len() == max_h + 1,
        offs@.len() == max_h + 1,
        max_h <= u32::MAX,
        max_h < usize::MAX,
    ensures
        r@ == index_table(used@, offs@, 0, max_h as int, 0),
{
    let mut idx: Vec<u8> = Vec::new();
    let mut pval: u64 = 0;
    let mut h: usize = 0;
    while h <= max_h
        invariant
            h <= max_h + 1,
            max_h <= u32::MAX,
            max_h < usize::MAX,
            used@.len() == max_h + 1,
            offs@.len() == max_h + 1,
            index_table(used@, offs@, 0, max_h as int, 0) == idx@ + index_table(
                used@,
                offs@,
                h as int,
                max_h as int,
                pval,
            ),
        decreases max_h + 1 - h,
    {
        if !used[h] {
            let start: usize = h;
            let mut skip: usize = 0;
            while h <= max_h && !used[h]
                invariant
                    start <= h <= max_h + 1,
                    max_h <= u32::MAX,
                    max_h < usize::MAX,
                    used@.len() == max_h + 1,
                    offs@.len() == max_h + 1,
                    !used@[start as int],
                    start <= max_h,
                    index_table(used@, offs@, 0, max_h as int, 0) == idx@ + index_table(
                        used@,
                        offs@,
                        start as int,
                        max_h as int,
                        pval,
                    ),
                    skip == h - start,
                    skip_run(used@, start as int, max_h as int) == skip + skip_run(
                        used@,
                        h as int,
                        max_h as int,
                    ),
                decreases max_h + 1 - h,
            {
                skip = skip + 1;
                h = h + 1;
            }
            assert(skip_run(used@, h as int, max_h as int) == 0);
            assert(skip > 0);
            let enc = encode_fst_svarint((skip as i64) * 2);
            append_bytes(&mut idx, enc.as_slice());
        } else {
            let raw_delta: u64 = offs[h].saturating_sub(pval);
            pval = offs[h];
            let sval: i64 = ((raw_delta << 1u64) | 1u64) as i64;
            let enc = encode_fst_svarint(sval);
            append_bytes(&mut idx, enc.as_slice());
            h = h + 1;
        }
    }
    idx
}

/// Builds the value-change block for the given timestamps and changes.
pub fn build_block_08(
    sigs: &[SignalDecl],
    ts: &[u64],
    entries: &[BlockEntry],
    time_begin: u64,
    end_time: u64,
) -> (block: Vec<u8>)
    requires
        ts@.len() > 0 ==> entries_packable(sig_views(sigs@), entry_views(entries@)),
        sigs@.len() < usize::MAX,
    ensures
        block@ == block_08(sig_views(sigs@), ts@, entry_views(entries@), time_begin, end_time),
{
    if ts.len() == 0 {
        return Vec::new();
    }
    let max_handle: u32 = sigs.len() as u32;
    let max_h: usize = max_handle as usize;
    let nsigs: usize = sigs.len();
    assert(max_h <= nsigs) by (bit_vector)
        requires
            max_handle == nsigs as u32,
            max_h == max_handle as usize,
    ;
    // -- 1. Time section --
    let time_raw_v = encode_time_section(ts);
    let time_comp = zlib_encode(1, time_raw_v.as_slice());
    let tsec_uclen: u64 = time_raw_v.len() as u64;
    let tsec_clen: u64 = time_comp.len() as u64;
    let tsec_nitems: u64 = ts.len() as u64;
    // -- 2. Per-signal chains --
    let (chain_raw, chain_used) = build_chains(sigs, entries, max_h);
    let ghost st = chain_state(sig_views(sigs@), entry_views(entries@), max_h as nat);
    proof {
        lemma_chain_state_len(sig_views(sigs@), entry_views(entries@), max_h as nat);
        lemma_chain_area_len(st.0, st.1, (max_h + 1) as nat);
    }
    let (chain_area_v, chain_offsets, mem_required) = build_chain_area(&chain_raw, &chain_used);
    // -- 3. Index table --
    let idx_buf = build_index_table(&chain_used, &chain_offsets, max_h);
    let chain_clen: u64 = idx_buf.len() as u64;
    // -- 4. Checkpoint --
    let mut cp_buf: Vec<u8> = encode_varint(0);
    let z = encode_varint(0);
    append_bytes(&mut cp_buf, z.as_slice());
    let mh = encode_varint(max_handle as u64);
    append_bytes(&mut cp_buf, mh.as_slice());
    // -- 5. VC header --
    let mut vc_buf: Vec<u8> = encode_varint(max_handle as u64);
    vc_buf.push(0x5A);
    // -- 6. Assemble --
    let mut body: Vec<u8> = Vec::new();
    append_bytes(&mut body, &le64_bytes(time_begin));
    append_bytes(&mut body, &le64_bytes(end_time));
    append_bytes(&mut body, &le64_bytes(mem_required));
    append_bytes(&mut body, cp_buf.as_slice());
    append_bytes(&mut body, vc_buf.as_slice());
    append_bytes(&mut body, chain_area_v.as_slice());
    append_bytes(&mut body, idx_buf.as_slice());
    append_bytes(&mut body, &le64_bytes(chain_clen));
    append_bytes(&mut body, time_comp.as_slice());
    append_bytes(&mut body, &le64_bytes(tsec_uclen));
    append_bytes(&mut body, &le64_bytes(tsec_clen));
    append_bytes(&mut body, &le64_bytes(tsec_nitems));
    let section_length: u64 = body.len() as u64;
    let mut block: Vec<u8> = Vec::new();
    block.push(0x08);
    append_bytes(&mut block, &le64_bytes(section_length));
    append_bytes(&mut block, body.as_slice());
    block
}

} // verus!
