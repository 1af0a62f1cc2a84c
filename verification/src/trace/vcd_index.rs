//! Indexing a VCD file for the waveform back end: the header pass that
//! collects signals, identifiers, widths, event signals, scopes and the
//! timescale.
use std::collections::HashMap;

use vstd::prelude::*;

use crate::fst::writer::join_dot;
use crate::text::{lossy_utf8, seq_starts_with};
use crate::trace::vcd::{
    col_states, first_of, id_hash, last_space, line_timestamp, scope_name_of, ts_line,
    value_change_of, var_decl_fast,
};
use crate::vcd::types::{is_float_literal, ValueView, VcdValue};
use crate::vcd::convert::timescale_of;
use crate::vcd::reader::{line_end, raw_line, MmapReader};

verus! {

// ---------------------------------------------------------------------------
// The header pass
// ---------------------------------------------------------------------------

/// What the header pass has collected.
#[verifier::ext_equal]
pub struct HeaderState {
    /// Full (dotted) signal names, in declaration order.
    pub names: Seq<Seq<char>>,
    /// Identifier hashes, per signal.
    pub hashes: Seq<u64>,
    /// Identifier bytes, per signal.
    pub ids: Seq<Seq<u8>>,
    /// Declared widths, per signal.
    pub widths: Seq<u32>,
    /// Indices of the event signals, ascending.
    pub events: Seq<u32>,
    /// Open scopes, outermost first.
    pub stack: Seq<Seq<char>>,
    /// Every scope opened, as its dotted path, in order.
    pub scopes: Seq<Seq<char>>,
    pub timescale: Option<i8>,
    /// No timescale line had an exponent outside `i8` (its conversion
    /// overflows).
    pub ok: bool,
}

/// Nothing collected yet.
pub open spec fn empty_header() -> HeaderState {
    HeaderState {
        names: Seq::empty(),
        hashes: Seq::empty(),
        ids: Seq::empty(),
        widths: Seq::empty(),
        events: Seq::empty(),
        stack: Seq::empty(),
        scopes: Seq::empty(),
        timescale: None,
        ok: true,
    }
}

/// The first position from `i` that holds neither a space nor a tab.
pub open spec fn skip_blank(l: Seq<u8>, i: int) -> int
    decreases l.len() - i,
{
    if i < 0 || i >= l.len() {
        i
    } else if l[i] == 0x20 || l[i] == 0x09 {
        skip_blank(l, i + 1)
    } else {
        i
    }
}

/// A header line without its leading spaces and tabs.
pub open spec fn header_text(line: Seq<u8>) -> Seq<u8> {
    line.skip(skip_blank(line, 0))
}

/// A `$var` line: "$var" and something after it.
pub open spec fn is_var_line(hl: Seq<u8>) -> bool {
    hl.len() > 4 && hl[1] == 0x76 && hl[2] == 0x61 && hl[3] == 0x72
}

/// "$scope", "$timescale", "$upscope", "$enddefinitions".
pub open spec fn kw_scope() -> Seq<u8> {
    seq![0x24u8, 0x73, 0x63, 0x6f, 0x70, 0x65]
}

pub open spec fn kw_timescale() -> Seq<u8> {
    seq![0x24u8, 0x74, 0x69, 0x6d, 0x65, 0x73, 0x63, 0x61, 0x6c, 0x65]
}

pub open spec fn kw_upscope() -> Seq<u8> {
    seq![0x24u8, 0x75, 0x70, 0x73, 0x63, 0x6f, 0x70, 0x65]
}

pub open spec fn kw_enddefinitions() -> Seq<u8> {
    seq![0x24u8, 0x65, 0x6e, 0x64, 0x64, 0x65, 0x66, 0x69, 0x6e, 0x69, 0x74, 0x69, 0x6f, 0x6e, 0x73]
}

/// A variable's full name: the open scopes and its short name, joined by
/// dots.
pub open spec fn full_name(stack: Seq<Seq<char>>, short: Seq<char>) -> Seq<char> {
    if stack.len() == 0 {
        short
    } else {
        join_dot(stack) + seq!['.'] + short
    }
}

/// The header state after a `$var` line: a readable declaration adds a
/// signal (an event declaration also its index).
pub open spec fn add_var(st: HeaderState, hl: Seq<u8>) -> HeaderState {
    match var_decl_fast(hl) {
        None => st,
        Some((h, nm, w, id, ev)) => HeaderState {
            names: st.names.push(full_name(st.stack, lossy_utf8(nm))),
            hashes: st.hashes.push(h),
            ids: st.ids.push(id),
            widths: st.widths.push(w as u32),
            events: if ev {
                st.events.push(st.names.len() as u32)
            } else {
                st.events
            },
            ..st
        },
    }
}

/// The header state after a `$scope` line: a named scope is opened and
/// its path recorded.
pub open spec fn add_scope(st: HeaderState, hl: Seq<u8>) -> HeaderState {
    match scope_name_of(hl) {
        None => st,
        Some(nb) => {
            let stack = st.stack.push(lossy_utf8(nb));
            HeaderState { stack, scopes: st.scopes.push(join_dot(stack)), ..st }
        },
    }
}

/// The header state with a timescale line's exponent.
pub open spec fn set_timescale(st: HeaderState, tl: Seq<u8>) -> HeaderState {
    match timescale_of(tl) {
        None => HeaderState { timescale: None, ..st },
        Some(v) => HeaderState {
            timescale: Some(v as i8),
            ok: st.ok && v >= -128,
            ..st
        },
    }
}

/// A `$timescale` line whose value is on it (it has a space or runs past
/// the keyword).
pub open spec fn timescale_inline(hl: Seq<u8>) -> bool {
    hl.contains(0x20u8) || hl.len() > 10
}

/// The header pass from position `p`: what it collects, and where the
/// header ends (after the `$enddefinitions` line, counted from that line's
/// start plus its text after leading blanks and one; the end of the data
/// when there is none).
pub open spec fn header_scan(d: Seq<u8>, p: int, st: HeaderState) -> (HeaderState, int)
    decreases d.len() - p,
{
    if p < 0 || p >= d.len() {
        (st, d.len() as int)
    } else {
        let e = line_end(d, p);
        let hl = header_text(raw_line(d, p));
        if e <= p || e > d.len() {
            (st, d.len() as int)
        } else if hl.len() == 0 || hl[0] != 0x24 {
            header_scan(d, e, st)
        } else if is_var_line(hl) {
            header_scan(d, e, add_var(st, hl))
        } else if seq_starts_with(hl, kw_scope()) {
            header_scan(d, e, add_scope(st, hl))
        } else if seq_starts_with(hl, kw_timescale()) {
            if !timescale_inline(hl) && e < d.len() && e < line_end(d, e) <= d.len() {
                header_scan(d, line_end(d, e), set_timescale(st, raw_line(d, e)))
            } else {
                header_scan(d, e, set_timescale(st, hl))
            }
        } else if seq_starts_with(hl, kw_upscope()) {
            header_scan(
                d,
                e,
                HeaderState {
                    stack: if st.stack.len() > 0 {
                        st.stack.drop_last()
                    } else {
                        st.stack
                    },
                    ..st
                },
            )
        } else if seq_starts_with(hl, kw_enddefinitions()) {
            (st, p + hl.len() + 1)
        } else {
            header_scan(d, e, st)
        }
    }
}

/// The identifiers' bytes one after another.
pub open spec fn concat_ids(ids: Seq<Seq<u8>>) -> Seq<u8>
    decreases ids.len(),
{
    if ids.len() == 0 {
        Seq::empty()
    } else {
        concat_ids(ids.drop_last()) + ids.last()
    }
}

/// Where each identifier starts in their concatenation.
pub open spec fn id_starts(ids: Seq<Seq<u8>>) -> Seq<u32> {
    Seq::new(ids.len(), |i: int| concat_ids(ids.take(i)).len() as u32)
}

/// Identifier hashes to signal indices, a later signal winning.
pub open spec fn hash_index(hashes: Seq<u64>) -> Map<u64, u32>
    decreases hashes.len(),
{
    if hashes.len() == 0 {
        Map::empty()
    } else {
        hash_index(hashes.drop_last()).insert(hashes.last(), (hashes.len() - 1) as u32)
    }
}

/// The result of the header pass.
pub struct VcdHeader {
    /// Full signal names.
    pub signals: Vec<String>,
    /// Identifier hash to signal index.
    pub signal_ids: HashMap<u64, u32>,
    /// All identifiers' bytes one after another.
    pub id_blob: Vec<u8>,
    /// Where each signal's identifier starts in `id_blob`.
    pub id_offsets: Vec<u32>,
    pub signal_widths: Vec<u32>,
    /// Indices of the event signals, ascending.
    pub event_signals: Vec<u32>,
    pub scopes: Vec<String>,
    pub timescale_exp: Option<i8>,
    /// Where the dump section starts.
    pub header_end_offset: u64,
}

/// The header's contents as `HeaderState` holds them.
pub open spec fn header_matches(h: VcdHeader, st: HeaderState, end: int) -> bool {
    &&& h.signals@.map_values(|s: String| s@) == st.names
    &&& h.signal_ids@ == hash_index(st.hashes)
    &&& h.id_blob@ == concat_ids(st.ids)
    &&& h.id_offsets@ == id_starts(st.ids)
    &&& h.signal_widths@ == st.widths
    &&& h.event_signals@ == st.events
    &&& h.scopes@.map_values(|s: String| s@) == st.scopes
    &&& h.timescale_exp == st.timescale
    &&& h.header_end_offset == end
}

proof fn lemma_header_scan_grows(d: Seq<u8>, p: int, st: HeaderState)
    ensures
        header_scan(d, p, st).0.names.len() >= st.names.len(),
        concat_ids(header_scan(d, p, st).0.ids).len() >= concat_ids(st.ids).len(),
        header_scan(d, p, st).0.ok ==> st.ok,
    decreases d.len() - p,
{
    if 0 <= p < d.len() {
        let e = line_end(d, p);
        let hl = header_text(raw_line(d, p));
        if p < e <= d.len() {
            if hl.len() == 0 || hl[0] != 0x24 {
                lemma_header_scan_grows(d, e, st);
            } else if is_var_line(hl) {
                lemma_header_scan_grows(d, e, add_var(st, hl));
                match var_decl_fast(hl) {
                    None => {},
                    Some((h, nm, w, id, ev)) => {
                        let n = add_var(st, hl);
                        assert(n.ids.drop_last() =~= st.ids);
                    },
                }
            } else if seq_starts_with(hl, kw_scope()) {
                lemma_header_scan_grows(d, e, add_scope(st, hl));
            } else if seq_starts_with(hl, kw_timescale()) {
                if !timescale_inline(hl) && e < d.len() && e < line_end(d, e) <= d.len() {
                    lemma_header_scan_grows(d, line_end(d, e), set_timescale(st, raw_line(d, e)));
                } else {
                    lemma_header_scan_grows(d, e, set_timescale(st, hl));
                }
            } else if seq_starts_with(hl, kw_upscope()) {
                lemma_header_scan_grows(
                    d,
                    e,
                    HeaderState {
                        stack: if st.stack.len() > 0 {
                            st.stack.drop_last()
                        } else {
                            st.stack
                        },
                        ..st
                    },
                );
            } else if seq_starts_with(hl, kw_enddefinitions()) {
            } else {
                lemma_header_scan_grows(d, e, st);
            }
        }
    }
}

/// The names joined by dots.
fn join_names(names: &Vec<String>) -> (r: String)
    requires
        names@.len() > 0,
    ensures
        r@ == join_dot(names@.map_values(|s: String| s@)),
{
    let ghost v = names@.map_values(|s: String| s@);
    let mut full: String = names[0].clone();
    let mut i: usize = 1;
    assert(v.take(1) =~= seq![v[0]]);
    while i < names.len()
        invariant
            1 <= i <= names@.len(),
            v == names@.map_values(|s: String| s@),
            full@ == join_dot(v.take(i as int)),
        decreases names@.len() - i,
    {
        proof {
            assert(v.take(i + 1).drop_last() =~= v.take(i as int));
            reveal_strlit(".");
        }
        full.append(".");
        full.append(names[i].as_str());
        i = i + 1;
    }
    assert(v.take(i as int) =~= v);
    full
}

fn blank_end(l: &[u8]) -> (r: usize)
    ensures
        r as int == skip_blank(l@, 0),
        r <= l@.len(),
{
    let mut i: usize = 0;
    while i < l.len() && (l[i] == 0x20 || l[i] == 0x09)
        invariant
            i <= l@.len(),
            skip_blank(l@, 0) == skip_blank(l@, i as int),
        decreases l@.len() - i,
    {
        i = i + 1;
    }
    i
}

/// The header state that the collected values stand for.
pub open spec fn state_of(
    signals: Seq<String>,
    hashes: Seq<u64>,
    ids: Seq<Seq<u8>>,
    widths: Seq<u32>,
    events: Seq<u32>,
    stack: Seq<String>,
    scopes: Seq<String>,
    timescale: Option<i8>,
    ok: bool,
) -> HeaderState {
    HeaderState {
        names: signals.map_values(|s: String| s@),
        hashes,
        ids,
        widths,
        events,
        stack: stack.map_values(|s: String| s@),
        scopes: scopes.map_values(|s: String| s@),
        timescale,
        ok,
    }
}

/// The header pass over the lines from the reader's position (see
/// `header_scan`); the reader ends after the `$enddefinitions` line, or at
/// the end. `None` when the pass meets a timescale whose exponent
/// overflows, or the signal count or identifier bytes do not fit 32 bits.
#[verifier::rlimit(40)]
pub fn scan_header(reader: &mut MmapReader) -> (h: Option<VcdHeader>)
    requires
        old(reader)@.data.len() < u64::MAX,
    ensures
        final(reader)@.data == old(reader)@.data,
        ({
            let t = header_scan(old(reader)@.data, old(reader)@.pos, empty_header());
            let fits = t.0.ok && t.0.names.len() < u32::MAX && concat_ids(t.0.ids).len() <= u32::MAX;
            match h {
                Some(h) => fits && header_matches(h, t.0, t.1) && offsets_ok(h.id_offsets@, h.id_blob@),
                None => !fits,
            }
        }),
{
    broadcast use vstd::std_specs::hash::group_hash_axioms;

    let ghost d = reader@.data;
    let ghost target = header_scan(d, reader@.pos, empty_header());
    let mut signals: Vec<String> = Vec::new();
    let mut signal_ids: HashMap<u64, u32> = HashMap::new();
    let mut id_blob: Vec<u8> = Vec::new();
    let mut id_offsets: Vec<u32> = Vec::new();
    let mut signal_widths: Vec<u32> = Vec::new();
    let mut event_signals: Vec<u32> = Vec::new();
    let mut stack: Vec<String> = Vec::new();
    let mut scopes: Vec<String> = Vec::new();
    let mut timescale_exp: Option<i8> = None;
    let ghost mut hashes: Seq<u64> = Seq::empty();
    let ghost mut ids: Seq<Seq<u8>> = Seq::empty();
    proof {
        assert(state_of(signals@, hashes, ids, signal_widths@, event_signals@, stack@, scopes@,
            timescale_exp, true) =~= empty_header());
    }
    let mut header_end_offset: u64 = 0;
    let mut found_end: bool = false;
    let _start = reader.current_offset();
    loop
        invariant_except_break
            !found_end,
            header_scan(d, reader@.pos, state_of(signals@, hashes, ids, signal_widths@,
                event_signals@, stack@, scopes@, timescale_exp, true)) == target,
        invariant
            reader@.data == d,
            d.len() < u64::MAX,
            0 <= reader@.pos <= d.len(),
            target == header_scan(d, old(reader)@.pos, empty_header()),
            d == old(reader)@.data,
            signals@.len() < u32::MAX,
            id_blob@.len() <= u32::MAX,
            signals@.len() == hashes.len(),
            signals@.len() == ids.len(),
            signals@.len() == signal_widths@.len(),
            signal_ids@ == hash_index(hashes),
            id_blob@ == concat_ids(ids),
            id_offsets@ == id_starts(ids),
        ensures
            reader@.data == d,
            found_end ==> state_of(signals@, hashes, ids, signal_widths@, event_signals@, stack@,
                scopes@, timescale_exp, true) == target.0 && header_end_offset == target.1,
            !found_end ==> state_of(signals@, hashes, ids, signal_widths@, event_signals@, stack@,
                scopes@, timescale_exp, true) == target.0 && reader@.pos == target.1,
            signal_ids@ == hash_index(hashes),
            id_blob@ == concat_ids(ids),
            id_offsets@ == id_starts(ids),
        decreases d.len() - reader@.pos,
    {
        let ghost cur = state_of(signals@, hashes, ids, signal_widths@, event_signals@, stack@,
            scopes@, timescale_exp, true);
        let ghost p = reader@.pos;
        let line_offset = reader.current_offset();
        let line = match reader.read_line_bytes() {
            Some(l) => l,
            None => {
                break;
            },
        };
        let ghost e = line_end(d, p);
        proof {
            crate::vcd::reader::lemma_line_end(d, p);
            lemma_header_scan_grows(d, e, cur);
        }
        let b = blank_end(line);
        let hl: &[u8] = vstd::slice::slice_subrange(line, b, line.len());
        assert(hl@ =~= header_text(raw_line(d, p)));
        if hl.len() == 0 || hl[0] != 0x24 {
            continue;
        }
        let kw_scope_b: [u8; 6] = [0x24, 0x73, 0x63, 0x6f, 0x70, 0x65];
        let kw_ts_b: [u8; 10] = [0x24, 0x74, 0x69, 0x6d, 0x65, 0x73, 0x63, 0x61, 0x6c, 0x65];
        let kw_up_b: [u8; 8] = [0x24, 0x75, 0x70, 0x73, 0x63, 0x6f, 0x70, 0x65];
        let kw_end_b: [u8; 15] = [0x24, 0x65, 0x6e, 0x64, 0x64, 0x65, 0x66, 0x69, 0x6e, 0x69, 0x74,
            0x69, 0x6f, 0x6e, 0x73];
        assert(kw_scope_b@ =~= kw_scope());
        assert(kw_ts_b@ =~= kw_timescale());
        assert(kw_up_b@ =~= kw_upscope());
        assert(kw_end_b@ =~= kw_enddefinitions());
        if hl.len() > 4 && hl[1] == 0x76 && hl[2] == 0x61 && hl[3] == 0x72 {
            match crate::trace::vcd::parse_var_decl_fast2(hl) {
                Some((sig_hash, short_name, width, id_bytes, is_event)) => {
                    proof {
                        lemma_header_scan_grows(d, e, add_var(cur, hl@));
                        assert(header_scan(d, p, cur) == header_scan(d, e, add_var(cur, hl@)));
                        let nv = add_var(cur, hl@);
                        assert(nv.ids.drop_last() =~= cur.ids);
                    }
                    if signals.len() >= 0xFFFF_FFFE || id_bytes.len() > 0xFFFF_FFFF - id_blob.len() {
                        return None;
                    }
                    let idx: u32 = signals.len() as u32;
                    let full: String = if stack.len() == 0 {
                        short_name
                    } else {
                        let mut f = join_names(&stack);
                        f.append(".");
                        f.append(short_name.as_str());
                        proof {
                            reveal_strlit(".");
                        }
                        f
                    };
                    let ghost full_v = full@;
                    proof {
                        let (h2, nm, w2, id2, ev2) = var_decl_fast(hl@).unwrap();
                        assert(full_v == full_name(cur.stack, lossy_utf8(nm)));
                    }
                    let ghost sigs_before = signals@;
                    signals.push(full);
                    proof {
                        assert(signals@.map_values(|s: String| s@) =~= sigs_before.map_values(
                            |s: String| s@,
                        ).push(full_v));
                    }
                    signal_ids.insert(sig_hash, idx);
                    id_offsets.push(id_blob.len() as u32);
                    let ghost old_ids = ids;
                    let ghost old_hashes = hashes;
                    let ghost old_sigs = signals@;
                    crate::bytes::append_bytes(&mut id_blob, id_bytes.as_slice());
                    signal_widths.push(width as u32);
                    if is_event {
                        event_signals.push(idx);
                    }
                    proof {
                        hashes = hashes.push(sig_hash);
                        ids = ids.push(id_bytes@);
                        assert(ids.drop_last() =~= old_ids);
                        assert(id_offsets@ =~= id_starts(ids)) by {
                            assert forall|i: int| 0 <= i < ids.len() implies #[trigger] id_offsets@[i]
                                == id_starts(ids)[i] by {
                                if i < old_ids.len() {
                                    assert(ids.take(i) =~= old_ids.take(i));
                                } else {
                                    assert(ids.take(i) =~= old_ids);
                                }
                            }
                        }
                        assert(hashes.drop_last() =~= old_hashes);
                        let nv = add_var(cur, hl@);
                        let sv = state_of(signals@, hashes, ids, signal_widths@, event_signals@,
                            stack@, scopes@, timescale_exp, true);
                        assert(sv.hashes =~= nv.hashes);
                        assert(sv.ids =~= nv.ids);
                        assert(sv.widths =~= nv.widths);
                        assert(sv.events =~= nv.events);
                        assert(sv.names =~= nv.names);
                        assert(sv =~= nv);
                    }
                },
                None => {},
            }
            continue;
        }
        if crate::text::starts_with(hl, kw_scope_b.as_slice()) {
            match crate::trace::vcd::parse_scope_name(hl) {
                Some(name) => {
                    let ghost stack_before = stack@;
                    let ghost scopes_before = scopes@;
                    let ghost name_v = name@;
                    stack.push(name);
                    let path = join_names(&stack);
                    let ghost path_v = path@;
                    scopes.push(path);
                    proof {
                        assert(stack@.map_values(|s: String| s@) =~= stack_before.map_values(
                            |s: String| s@,
                        ).push(name_v));
                        assert(scopes@.map_values(|s: String| s@) =~= scopes_before.map_values(
                            |s: String| s@,
                        ).push(path_v));
                        assert(state_of(signals@, hashes, ids, signal_widths@, event_signals@,
                            stack@, scopes@, timescale_exp, true) =~= add_scope(cur, hl@));
                    }
                },
                None => {},
            }
            continue;
        }
        if crate::text::starts_with(hl, kw_ts_b.as_slice()) {
            let inline_value = crate::text::find_byte(hl, 0x20, 0).is_some() || hl.len() > 10;
            proof {
                if inline_value {
                    if hl.len() <= 10 {
                        let k = choose|k: int| 0 <= k < hl@.len() && hl@[k] == 0x20;
                        assert(hl@.contains(0x20u8));
                    }
                } else {
                    if hl@.contains(0x20u8) {
                        let k = choose|k: int| 0 <= k < hl@.len() && hl@[k] == 0x20;
                        assert(hl@[k] == 0x20);
                    }
                }
            }
            if inline_value {
                proof {
                    lemma_header_scan_grows(d, e, set_timescale(cur, hl@));
                    assert(header_scan(d, p, cur) == header_scan(d, e, set_timescale(cur, hl@)));
                }
                if let Some(v) = crate::vcd::convert::timescale_exp_wide(hl) {
                    if v < -128 {
                        return None;
                    }
                }
                timescale_exp = crate::vcd::convert::parse_timescale(hl);
                continue;
            }
            let hl_copy: Vec<u8> = vstd::slice::slice_to_vec(hl);
            if reader.current_offset() < reader.data_len() as u64 {
                let ghost e2 = line_end(d, e);
                proof {
                    crate::vcd::reader::lemma_line_end(d, e);
                    lemma_header_scan_grows(d, e2, set_timescale(cur, raw_line(d, e)));
                }
                match reader.read_line_bytes() {
                    Some(next) => {
                        proof {
                            assert(header_scan(d, p, cur) == header_scan(d, e2, set_timescale(cur, raw_line(d, e))));
                        }
                        if let Some(v) = crate::vcd::convert::timescale_exp_wide(next) {
                            if v < -128 {
                                return None;
                            }
                        }
                        timescale_exp = crate::vcd::convert::parse_timescale(next);
                    },
                    None => {},
                }
                continue;
            }
            proof {
                lemma_header_scan_grows(d, e, set_timescale(cur, hl@));
                assert(header_scan(d, p, cur) == header_scan(d, e, set_timescale(cur, hl@)));
            }
            if let Some(v) = crate::vcd::convert::timescale_exp_wide(hl_copy.as_slice()) {
                if v < -128 {
                    return None;
                }
            }
            timescale_exp = crate::vcd::convert::parse_timescale(hl_copy.as_slice());
            continue;
        }
        if crate::text::starts_with(hl, kw_up_b.as_slice()) {
            let _ = stack.pop();
            proof {
                assert(state_of(signals@, hashes, ids, signal_widths@, event_signals@, stack@, scopes@,
                    timescale_exp, true) =~= HeaderState {
                    stack: if cur.stack.len() > 0 {
                        cur.stack.drop_last()
                    } else {
                        cur.stack
                    },
                    ..cur
                });
            }
            continue;
        }
        if crate::text::starts_with(hl, kw_end_b.as_slice()) {
            header_end_offset = line_offset + hl.len() as u64 + 1;
            found_end = true;
            break;
        }
    }
    if !found_end {
        header_end_offset = reader.current_offset();
    }
    proof {
        lemma_id_starts_ok(ids);
    }
    Some(VcdHeader {
        signals,
        signal_ids,
        id_blob,
        id_offsets,
        signal_widths,
        event_signals,
        scopes,
        timescale_exp,
        header_end_offset,
    })
}

// ---------------------------------------------------------------------------
// Identifier bytes
// ---------------------------------------------------------------------------

/// Identifier offsets that can slice the blob: each within it and none
/// before the one it follows.
pub open spec fn offsets_ok(offsets: Seq<u32>, blob: Seq<u8>) -> bool {
    &&& forall|i: int| 0 <= i < offsets.len() ==> #[trigger] offsets[i] <= blob.len()
    &&& forall|i: int, j: int| 0 <= i <= j < offsets.len() ==> offsets[i] <= offsets[j]
}

/// The identifier bytes of signal `sidx`: from its offset to the next
/// signal's (or the blob's end), cut at the blob's end.
pub open spec fn id_bytes_of(offsets: Seq<u32>, blob: Seq<u8>, sidx: u32) -> Option<Seq<u8>> {
    if sidx >= offsets.len() {
        None
    } else {
        let st = offsets[sidx as int] as int;
        let en = if sidx + 1 < offsets.len() {
            offsets[sidx + 1] as int
        } else {
            blob.len() as int
        };
        let en2 = if en < blob.len() {
            en
        } else {
            blob.len() as int
        };
        Some(blob.subrange(st, en2))
    }
}

/// The identifier bytes of signal `sidx` (see `id_bytes_of`).
pub fn id_bytes<'a>(id_offsets: &Vec<u32>, id_blob: &'a Vec<u8>, sidx: u32) -> (r: Option<&'a [u8]>)
    requires
        offsets_ok(id_offsets@, id_blob@),
    ensures
        match r {
            Some(b) => id_bytes_of(id_offsets@, id_blob@, sidx) == Some(b@),
            None => id_bytes_of(id_offsets@, id_blob@, sidx) is None,
        },
{
    let i = sidx as usize;
    if i >= id_offsets.len() {
        return None;
    }
    let st = id_offsets[i] as usize;
    let en: usize = if i + 1 < id_offsets.len() {
        id_offsets[i + 1] as usize
    } else {
        id_blob.len()
    };
    let en2: usize = if en < id_blob.len() {
        en
    } else {
        id_blob.len()
    };
    proof {
        if i + 1 < id_offsets@.len() {
            assert(id_offsets@[i as int] <= id_offsets@[i + 1]);
        }
    }
    Some(vstd::slice::slice_subrange(id_blob.as_slice(), st, en2))
}

proof fn lemma_concat_ids_prefix(ids: Seq<Seq<u8>>, i: int, j: int)
    requires
        0 <= i <= j <= ids.len(),
    ensures
        concat_ids(ids.take(i)).len() <= concat_ids(ids.take(j)).len(),
    decreases j - i,
{
    if i < j {
        lemma_concat_ids_prefix(ids, i, j - 1);
        assert(ids.take(j).drop_last() =~= ids.take(j - 1));
    }
}

/// The identifier offsets of a header pass can slice its blob.
pub proof fn lemma_id_starts_ok(ids: Seq<Seq<u8>>)
    requires
        concat_ids(ids).len() <= u32::MAX,
    ensures
        offsets_ok(id_starts(ids), concat_ids(ids)),
{
    assert(ids.take(ids.len() as int) =~= ids);
    assert forall|i: int| 0 <= i < ids.len() implies #[trigger] id_starts(ids)[i] <= concat_ids(ids).len() by {
        lemma_concat_ids_prefix(ids, i, ids.len() as int);
    }
    assert forall|i: int, j: int| 0 <= i <= j < ids.len() implies id_starts(ids)[i] <= id_starts(ids)[j] by {
        lemma_concat_ids_prefix(ids, i, j);
        lemma_concat_ids_prefix(ids, j, ids.len() as int);
    }
}

// ---------------------------------------------------------------------------
// The $dumpvars snapshot
// ---------------------------------------------------------------------------

/// A snapshot line's value given where its identifier starts: a vector
/// ('b') up to the space before the identifier (or up to the identifier),
/// a real ('r') when its trimmed text is a float literal (invalid UTF-8
/// reads as "0"), else 'x'; any other first byte is a scalar.
pub open spec fn snapshot_value(line: Seq<u8>, id_start: int) -> ValueView {
    if line[0] == 0x62 {
        let ve = id_start - 1;
        if ve > 1 && line[ve] == 0x20 {
            ValueView::Vector(line.subrange(1, ve))
        } else {
            ValueView::Vector(line.subrange(1, id_start))
        }
    } else if line[0] == 0x72 {
        let raw = line.subrange(1, id_start);
        let text = if vstd::utf8::valid_utf8(raw) {
            crate::text::trimmed(raw)
        } else {
            seq![0x30u8]
        };
        if is_float_literal(text) {
            ValueView::Real(lossy_utf8(text))
        } else {
            ValueView::Bit(0x78)
        }
    } else {
        ValueView::Bit(line[0])
    }
}

/// The identifier of a snapshot line, trying the last `k`, then fewer,
/// bytes: a candidate follows a space or tab (or everything after the
/// first byte), its hash names a signal, and that signal's identifier
/// bytes equal it. Gives the signal and the identifier's start.
pub open spec fn snapshot_id(
    line: Seq<u8>,
    k: int,
    index: Map<u64, u32>,
    offsets: Seq<u32>,
    blob: Seq<u8>,
) -> Option<(u32, int)>
    decreases k,
{
    if k < 1 {
        None
    } else {
        let id_start = line.len() - k;
        let id = line.skip(id_start);
        let candidate = !(id_start > 0 && line[id_start - 1] != 0x20 && line[id_start - 1] != 0x09
            && line.len() != k + 1);
        if candidate && index.contains_key(id_hash(id)) && id_bytes_of(
            offsets,
            blob,
            index[id_hash(id)],
        ) == Some(id) {
            Some((index[id_hash(id)], id_start))
        } else {
            snapshot_id(line, k - 1, index, offsets, blob)
        }
    }
}

/// The `$dumpvars` snapshot from `p`: every newline-terminated line before
/// the first line that starts with '#' gives, when it is a value line (not
/// empty, not a '$' line) with a known identifier (at most 5 bytes), that
/// signal's initial value (a later line wins). Also where it stops.
pub open spec fn snapshot_scan(
    d: Seq<u8>,
    p: int,
    index: Map<u64, u32>,
    offsets: Seq<u32>,
    blob: Seq<u8>,
    m: Map<u32, ValueView>,
) -> (Map<u32, ValueView>, int)
    decreases d.len() - p,
{
    if p < 0 || p >= d.len() || d[p] == 0x23 {
        (m, p)
    } else {
        let e = first_of(d, 0x0A, p);
        if e >= d.len() || e < p {
            (m, p)
        } else {
            let line = d.subrange(p, e);
            let k = (if line.len() < 6 { line.len() } else { 6 }) - 1;
            let m2 = if line.len() > 0 && line[0] != 0x24 {
                match snapshot_id(line, k, index, offsets, blob) {
                    Some((sidx, id_start)) => m.insert(sidx, snapshot_value(line, id_start)),
                    None => m,
                }
            } else {
                m
            };
            snapshot_scan(d, e + 1, index, offsets, blob, m2)
        }
    }
}

/// A map's values by their views.
pub open spec fn values_view(m: Map<u32, VcdValue>) -> Map<u32, ValueView> {
    m.map_values(|v: VcdValue| v@)
}

fn snapshot_value_exec(line: &[u8], id_start: usize) -> (r: VcdValue)
    requires
        1 <= id_start <= line@.len(),
    ensures
        r@ == snapshot_value(line@, id_start as int),
{
    if line[0] == 0x62 {
        let ve = id_start - 1;
        if ve > 1 && line[ve] == 0x20 {
            VcdValue::Vector(vstd::slice::slice_to_vec(vstd::slice::slice_subrange(line, 1, ve)))
        } else {
            VcdValue::Vector(vstd::slice::slice_to_vec(vstd::slice::slice_subrange(line, 1, id_start)))
        }
    } else if line[0] == 0x72 {
        let raw: &[u8] = vstd::slice::slice_subrange(line, 1, id_start);
        let zero: [u8; 1] = [0x30];
        let text: &[u8] = match crate::text::str_from_utf8(raw) {
            Some(_) => crate::text::trim_slice(raw),
            None => zero.as_slice(),
        };
        assert(zero@ =~= seq![0x30u8]);
        match crate::vcd::types::real_from_bytes(text) {
            Some(v) => v,
            None => VcdValue::Bit(0x78),
        }
    } else {
        VcdValue::Bit(line[0])
    }
}

/// The `$dumpvars` snapshot of the data from `dump_start` (see
/// `snapshot_scan`): each signal's initial value, and where the snapshot
/// stops.
pub fn dumpvars_snapshot(data: &[u8], dump_start: usize, header: &VcdHeader) -> (r: (
    HashMap<u32, VcdValue>,
    usize,
))
    requires
        offsets_ok(header.id_offsets@, header.id_blob@),
    ensures
        values_view(r.0@) == snapshot_scan(
            data@,
            dump_start as int,
            header.signal_ids@,
            header.id_offsets@,
            header.id_blob@,
            Map::empty(),
        ).0,
        r.1 as int == snapshot_scan(
            data@,
            dump_start as int,
            header.signal_ids@,
            header.id_offsets@,
            header.id_blob@,
            Map::empty(),
        ).1,
{
    broadcast use vstd::std_specs::hash::group_hash_axioms;

    let ghost d = data@;
    let ghost index = header.signal_ids@;
    let ghost offs = header.id_offsets@;
    let ghost blob = header.id_blob@;
    let ghost target = snapshot_scan(d, dump_start as int, index, offs, blob, Map::empty());
    let mut iv: HashMap<u32, VcdValue> = HashMap::new();
    assert(values_view(iv@) =~= Map::<u32, ValueView>::empty());
    let n = data.len();
    let mut ls: usize = dump_start;
    while ls < n && data[ls] != 0x23
        invariant_except_break
            snapshot_scan(d, ls as int, index, offs, blob, values_view(iv@)) == target,
        invariant
            n == d.len(),
            d == data@,
            index == header.signal_ids@,
            offs == header.id_offsets@,
            blob == header.id_blob@,
            offsets_ok(offs, blob),
            target == snapshot_scan(d, dump_start as int, index, offs, blob, Map::empty()),
        ensures
            snapshot_scan(d, ls as int, index, offs, blob, values_view(iv@)) == target,
            values_view(iv@) == target.0,
            ls == target.1,
        decreases n - ls,
    {
        let rest: &[u8] = vstd::slice::slice_subrange(data, ls, n);
        let e: usize = match crate::vcd::reader::memchr_first(0x0A, rest) {
            Some(k) => ls + k,
            None => {
                proof {
                    assert forall|k: int| ls <= k < n implies d[k] != 0x0A by {
                        assert(rest@[k - ls] == d[k]);
                    }
                    crate::trace::vcd::lemma_first_of_bound(d, 0x0A, ls as int);
                    if first_of(d, 0x0A, ls as int) < n {
                        let f = first_of(d, 0x0A, ls as int);
                        assert(d[f] == 0x0A);
                    }
                }
                break;
            },
        };
        proof {
            assert forall|k: int| ls <= k < e implies d[k] != 0x0A by {
                assert(rest@[k - ls] == d[k]);
            }
            assert(rest@[e - ls] == d[e as int]);
            crate::trace::vcd::lemma_first_of_bound(d, 0x0A, ls as int);
            lemma_first_is(d, 0x0A, ls as int, e as int);
        }
        let line: &[u8] = vstd::slice::slice_subrange(data, ls, e);
        let ghost m = values_view(iv@);
        if line.len() > 0 && line[0] != 0x24 {
            let maxk: usize = if line.len() < 6 {
                line.len()
            } else {
                6
            };
            let mut k: usize = maxk - 1;
            let ghost k0 = k as int;
            while k >= 1
                invariant_except_break
                    values_view(iv@) == m,
                    snapshot_id(line@, k0, index, offs, blob) == snapshot_id(line@, k as int, index, offs, blob),
                invariant
                    k <= k0 < line@.len(),
                    k0 == (if line@.len() < 6 { line@.len() } else { 6 }) - 1,
                    index == header.signal_ids@,
                    offs == header.id_offsets@,
                    blob == header.id_blob@,
                    offsets_ok(offs, blob),
                ensures
                    values_view(iv@) == (match snapshot_id(line@, k0, index, offs, blob) {
                        Some((sidx, id_start)) => m.insert(sidx, snapshot_value(line@, id_start)),
                        None => m,
                    }),
                decreases k,
            {
                let id_start = line.len() - k;
                let candidate = !(id_start > 0 && line[id_start - 1] != 0x20 && line[id_start - 1]
                    != 0x09 && line.len() != k + 1);
                let id: &[u8] = vstd::slice::slice_subrange(line, id_start, line.len());
                assert(id@ =~= line@.skip(id_start as int));
                if candidate {
                    let h = crate::trace::vcd::hash_sig_id(id);
                    match header.signal_ids.get(&h) {
                        Some(sidx_ref) => {
                            let sidx: u32 = *sidx_ref;
                            let matched = match id_bytes(&header.id_offsets, &header.id_blob, sidx) {
                                Some(b) => crate::text::bytes_eq(b, id),
                                None => false,
                            };
                            if matched {
                                let val = snapshot_value_exec(line, id_start);
                                let ghost vv = val@;
                                iv.insert(sidx, val);
                                proof {
                                    assert(values_view(iv@) =~= m.insert(sidx, vv));
                                }
                                break;
                            }
                        },
                        None => {},
                    }
                }
                k = k - 1;
            }
            proof {
                if snapshot_id(line@, 0, index, offs, blob) is Some {
                    assert(false);
                }
            }
        }
        proof {
            assert(line@ == d.subrange(ls as int, e as int));
        }
        ls = e + 1;
    }
    (iv, ls)
}

proof fn lemma_first_is(s: Seq<u8>, b: u8, i: int, j: int)
    requires
        0 <= i <= j < s.len(),
        s[j] == b,
        forall|k: int| i <= k < j ==> s[k] != b,
    ensures
        first_of(s, b, i) == j,
    decreases j - i,
{
    if i < j {
        lemma_first_is(s, b, i + 1, j);
    }
}

// ---------------------------------------------------------------------------
// Splitting the dump for parallel scanning
// ---------------------------------------------------------------------------

/// The start of the first timestamp line ('#' and digits) among the lines
/// from the one that starts at `p`; the end when there is none.
pub open spec fn next_ts_line(d: Seq<u8>, p: int) -> int
    decreases d.len() - p,
{
    if p < 0 || p >= d.len() {
        d.len() as int
    } else if d[p] == 0x23 && ts_line(d.subrange(p, first_of(d, 0x0A, p))) {
        p
    } else {
        let e = first_of(d, 0x0A, p);
        if e >= d.len() || e < p {
            d.len() as int
        } else {
            next_ts_line(d, e + 1)
        }
    }
}

/// What the `i`-th split point is: none and no more (`None`), or the
/// start of the first timestamp line after the line that holds
/// `start + i * chunk` (`Some`, which is the end when there is none).
pub open spec fn split_point(d: Seq<u8>, start: int, chunk: int, i: int) -> Option<int> {
    let p0 = start + i * chunk;
    if p0 >= d.len() {
        None
    } else {
        let nl = first_of(d, 0x0A, p0);
        let p1 = if nl < d.len() {
            nl + 1
        } else {
            nl
        };
        if p1 >= d.len() {
            None
        } else {
            Some(next_ts_line(d, p1))
        }
    }
}

/// The split points `i .. n` that fall inside the data, up to the first
/// that has none.
pub open spec fn splits_from(d: Seq<u8>, start: int, chunk: int, i: int, n: int) -> Seq<int>
    decreases n - i,
{
    if i >= n {
        Seq::empty()
    } else {
        match split_point(d, start, chunk, i) {
            None => Seq::empty(),
            Some(p) => if p < d.len() {
                seq![p] + splits_from(d, start, chunk, i + 1, n)
            } else {
                splits_from(d, start, chunk, i + 1, n)
            },
        }
    }
}

/// The chunk boundaries of a dump of `dump_len` bytes for `n` workers:
/// the scan start, the split points (each at a timestamp line, so that a
/// timestamp's value lines stay in its chunk), and the end.
pub open spec fn chunk_bounds(d: Seq<u8>, start: int, dump_len: int, n: int) -> Seq<int> {
    seq![start] + splits_from(d, start, dump_len / n, 1, n) + seq![d.len() as int]
}

fn next_ts_line_exec(data: &[u8], p: usize) -> (r: usize)
    requires
        p <= data@.len(),
    ensures
        r as int == next_ts_line(data@, p as int),
{
    let n = data.len();
    let mut q: usize = p;
    while q < n
        invariant
            q <= n,
            n == data@.len(),
            next_ts_line(data@, p as int) == next_ts_line(data@, q as int),
        decreases n - q,
    {
        if data[q] == 0x23 && crate::trace::vcd::is_ts_line_at(data, q) {
            return q;
        }
        let rest: &[u8] = vstd::slice::slice_subrange(data, q, n);
        match crate::vcd::reader::memchr_first(0x0A, rest) {
            Some(k) => {
                proof {
                    assert forall|j: int| q <= j < q + k implies data@[j] != 0x0A by {
                        assert(rest@[j - q] == data@[j]);
                    }
                    assert(rest@[k as int] == data@[q + k]);
                    lemma_first_is(data@, 0x0A, q as int, q + k);
                }
                q = q + k + 1;
            },
            None => {
                proof {
                    assert forall|j: int| q <= j < n implies data@[j] != 0x0A by {
                        assert(rest@[j - q] == data@[j]);
                    }
                    crate::trace::vcd::lemma_first_of_bound(data@, 0x0A, q as int);
                    if first_of(data@, 0x0A, q as int) < n {
                        assert(data@[first_of(data@, 0x0A, q as int)] == 0x0A);
                    }
                }
                return n;
            },
        }
    }
    n
}

/// The chunk boundaries for `n_threads` workers (see `chunk_bounds`).
pub fn chunk_boundaries(data: &[u8], actual_start: usize, dump_len: usize, n_threads: usize) -> (r: Vec<usize>)
    requires
        n_threads >= 1,
        data@.len() <= isize::MAX,
        actual_start <= data@.len(),
        dump_len <= data@.len(),
    ensures
        r@.map_values(|x: usize| x as int) == chunk_bounds(data@, actual_start as int, dump_len as int, n_threads as int),
{
    let n = data.len();
    let chunk_size = dump_len / n_threads;
    let mut b: Vec<usize> = Vec::new();
    b.push(actual_start);
    let ghost first = seq![actual_start as int];
    let mut i: usize = 1;
    proof {
        vstd::arithmetic::div_mod::lemma_fundamental_div_mod(dump_len as int, n_threads as int);
        vstd::arithmetic::div_mod::lemma_mod_pos_bound(dump_len as int, n_threads as int);
    }
    while i < n_threads
        invariant
            1 <= i <= n_threads,
            n == data@.len() <= isize::MAX,
            actual_start <= n,
            chunk_size == dump_len / n_threads,
            n_threads * chunk_size <= dump_len <= n,
            b@.map_values(|x: usize| x as int) + splits_from(data@, actual_start as int, chunk_size as int, i as int, n_threads as int)
                == first + splits_from(data@, actual_start as int, chunk_size as int, 1, n_threads as int),
        ensures
            b@.map_values(|x: usize| x as int) == first + splits_from(data@, actual_start as int, chunk_size as int, 1, n_threads as int),
        decreases n_threads - i,
    {
        proof {
            assert(i * chunk_size <= n_threads * chunk_size) by (nonlinear_arith)
                requires i <= n_threads;
            assert(actual_start + i * chunk_size <= 2 * (isize::MAX as int));
        }
        let mut p: usize = actual_start + i * chunk_size;
        if p >= n {
            proof {
                assert(splits_from(data@, actual_start as int, chunk_size as int, i as int, n_threads as int) =~= Seq::<int>::empty());
                assert(b@.map_values(|x: usize| x as int) + Seq::<int>::empty() =~= b@.map_values(|x: usize| x as int));
            }
            break;
        }
        let rest: &[u8] = vstd::slice::slice_subrange(data, p, n);
        let nl: usize = match crate::vcd::reader::memchr_first(0x0A, rest) {
            Some(k) => {
                proof {
                    assert forall|j: int| p <= j < p + k implies data@[j] != 0x0A by {
                        assert(rest@[j - p] == data@[j]);
                    }
                    assert(rest@[k as int] == data@[p + k]);
                    lemma_first_is(data@, 0x0A, p as int, p + k);
                }
                p + k
            },
            None => {
                proof {
                    assert forall|j: int| p <= j < n implies data@[j] != 0x0A by {
                        assert(rest@[j - p] == data@[j]);
                    }
                    crate::trace::vcd::lemma_first_of_bound(data@, 0x0A, p as int);
                    if first_of(data@, 0x0A, p as int) < n {
                        assert(data@[first_of(data@, 0x0A, p as int)] == 0x0A);
                    }
                }
                n
            },
        };
        p = if nl < n {
            nl + 1
        } else {
            nl
        };
        if p >= n {
            proof {
                assert(splits_from(data@, actual_start as int, chunk_size as int, i as int, n_threads as int) =~= Seq::<int>::empty());
                assert(b@.map_values(|x: usize| x as int) + Seq::<int>::empty() =~= b@.map_values(|x: usize| x as int));
            }
            break;
        }
        let q = next_ts_line_exec(data, p);
        let ghost before = b@.map_values(|x: usize| x as int);
        if q < n {
            b.push(q);
            proof {
                assert(b@.map_values(|x: usize| x as int) =~= before.push(q as int));
                assert(before + splits_from(data@, actual_start as int, chunk_size as int, i as int, n_threads as int)
                    =~= before.push(q as int) + splits_from(data@, actual_start as int, chunk_size as int, i + 1, n_threads as int));
            }
        }
        i = i + 1;
    }
    let ghost before = b@.map_values(|x: usize| x as int);
    b.push(n);
    proof {
        assert(b@.map_values(|x: usize| x as int) =~= before.push(n as int));
    }
    b
}

// ---------------------------------------------------------------------------
// Scanning a chunk of the dump
// ---------------------------------------------------------------------------

/// How often a value line leaves an anchor: every hundredth.
pub open spec fn anchor_interval() -> int {
    100
}

/// What scanning a chunk has collected.
#[verifier::ext_equal]
pub struct ChunkState {
    /// Timestamps, in order.
    pub times: Seq<u64>,
    /// Where each timestamp line starts.
    pub offsets: Seq<u64>,
    /// (signal, timestamp, line start) of every hundredth value line.
    pub anchors: Seq<(u32, u64, u64)>,
    /// (signal, timestamp) of each change of an event signal.
    pub events: Seq<(u32, u64)>,
    /// (signal, chunk-local timestamp index, packed value, line start,
    /// width) of each packable change, in file order.
    pub cols: Seq<(u32, i64, u128, u64, u8)>,
    /// The time of the last timestamp line (0 before the first).
    pub current: u64,
    /// Timestamp lines seen.
    pub seen: int,
    /// Value lines seen.
    pub counter: int,
    /// No value line that is read has its only space first (reading it
    /// fails).
    pub ok: bool,
}

/// Nothing collected yet.
pub open spec fn empty_chunk() -> ChunkState {
    ChunkState {
        times: Seq::empty(),
        offsets: Seq::empty(),
        anchors: Seq::empty(),
        events: Seq::empty(),
        cols: Seq::empty(),
        current: 0,
        seen: 0,
        counter: 0,
        ok: true,
    }
}

/// The width a value is packed at: a vector's length, 1 for a bit, 0 for a
/// real.
pub open spec fn packed_width(v: ValueView) -> int {
    match v {
        ValueView::Vector(x) => x.len() as int,
        ValueView::Bit(_) => 1,
        ValueView::Real(_) => 0,
    }
}

/// A value line read by the scan: counted, and, when it is read (every
/// hundredth line, or every line when there are event signals or columns
/// are kept) and names a known signal, recorded as an anchor (hundredth
/// lines), an event change and a column entry.
pub open spec fn value_line_step(
    st: ChunkState,
    line: Seq<u8>,
    off: u64,
    index: Map<u64, u32>,
    events: Seq<u32>,
    col_on: bool,
) -> ChunkState {
    let counter = st.counter + 1;
    let sampled = counter % anchor_interval() == 0;
    let st1 = ChunkState { counter, ..st };
    if !(events.len() > 0 || col_on || sampled) {
        st1
    } else if !(line.len() < 2 || last_space(line, line.len() as int) != 0) {
        ChunkState { ok: false, ..st1 }
    } else {
        match value_change_of(line) {
            None => st1,
            Some((h, v)) => if !index.contains_key(h) {
                st1
            } else {
                let sig = index[h];
                let w = packed_width(v);
                ChunkState {
                    anchors: if sampled {
                        st1.anchors.push((sig, st1.current, off))
                    } else {
                        st1.anchors
                    },
                    events: if events.len() > 0 && events.contains(sig) {
                        st1.events.push((sig, st1.current))
                    } else {
                        st1.events
                    },
                    cols: if col_on && 1 <= w <= 64 && col_states(v, w as nat) is Some {
                        st1.cols.push(
                            (sig, (st1.seen - 1) as i64, col_states(v, w as nat).unwrap() as u128, off, w as u8),
                        )
                    } else {
                        st1.cols
                    },
                    ..st1
                }
            },
        }
    }
}

/// One line of a chunk: a timestamp line records its time and start, a
/// '$' line is skipped, any other non-empty line is a value line.
pub open spec fn chunk_line_step(
    st: ChunkState,
    line: Seq<u8>,
    off: u64,
    index: Map<u64, u32>,
    events: Seq<u32>,
    col_on: bool,
) -> ChunkState {
    if line.len() == 0 || line[0] == 0x24 {
        st
    } else if line[0] == 0x23 {
        if ts_line(line) {
            let t = line_timestamp(line);
            ChunkState {
                times: st.times.push(t),
                offsets: st.offsets.push(off),
                current: t,
                seen: st.seen + 1,
                ..st
            }
        } else {
            st
        }
    } else {
        value_line_step(st, line, off, index, events, col_on)
    }
}

/// Scanning the newline-terminated lines of chunk `c` from `p` (a last
/// line without a newline is left out); line starts are counted from
/// `base`.
pub open spec fn chunk_scan(
    c: Seq<u8>,
    p: int,
    base: int,
    index: Map<u64, u32>,
    events: Seq<u32>,
    col_on: bool,
    st: ChunkState,
) -> ChunkState
    decreases c.len() - p,
{
    if p < 0 || p >= c.len() {
        st
    } else {
        let e = first_of(c, 0x0A, p);
        if e >= c.len() || e < p {
            st
        } else {
            chunk_scan(
                c,
                e + 1,
                base,
                index,
                events,
                col_on,
                chunk_line_step(st, c.subrange(p, e), (base + p) as u64, index, events, col_on),
            )
        }
    }
}

/// The result of scanning a chunk.
pub struct ChunkScan {
    pub timestamps: Vec<u64>,
    pub ts_offsets: Vec<u64>,
    pub anchors: Vec<(u32, u64, u64)>,
    pub events: Vec<(u32, u64)>,
    pub cols: Vec<(u32, i64, u128, u64, u8)>,
}

/// A chunk scan's vectors hold what `ChunkState` collected, the column
/// entries grouped by signal (signals below `n_sigs`).
pub open spec fn chunk_matches(r: ChunkScan, st: ChunkState, n_sigs: int) -> bool {
    &&& r.timestamps@ == st.times
    &&& r.ts_offsets@ == st.offsets
    &&& r.anchors@ == st.anchors
    &&& r.events@ == st.events
    &&& r.cols@ == grouped_upto(st.cols, n_sigs)
}

fn holds_u32(v: &Vec<u32>, x: u32) -> (r: bool)
    ensures
        r == v@.contains(x),
{
    let mut i: usize = 0;
    while i < v.len()
        invariant
            i <= v@.len(),
            forall|k: int| 0 <= k < i ==> v@[k] != x,
        decreases v@.len() - i,
    {
        if v[i] == x {
            assert(v@[i as int] == x);
            return true;
        }
        i = i + 1;
    }
    false
}

/// Whether a line is at least two bytes long and its only space, or its
/// last one, is its first byte (such a value line cannot be read).
pub(crate) fn space_first_only(line: &[u8]) -> (r: bool)
    ensures
        r == !(line@.len() < 2 || last_space(line@, line@.len() as int) != 0),
{
    let mut k: usize = line.len();
    while k > 0 && line[k - 1] != 0x20
        invariant
            k <= line@.len(),
            last_space(line@, line@.len() as int) == last_space(line@, k as int),
        decreases k,
    {
        k = k - 1;
    }
    line.len() >= 2 && k == 1
}

/// Scan the chunk `data[start..end]` (see `chunk_scan`): timestamps and
/// their line starts, anchors, event changes and, with `col_on`, packed
/// column entries grouped by signal. Every signal index is below
/// `n_sigs`, and the data is of a size a slice can have. `None` when a
/// value line that is read cannot be (see `ChunkState::ok`).
pub fn scan_chunk(
    data: &[u8],
    start: usize,
    end: usize,
    signal_ids: &HashMap<u64, u32>,
    n_sigs: usize,
    event_signals: &Vec<u32>,
    col_on: bool,
) -> (r: Option<ChunkScan>)
    requires
        start <= end <= data@.len() <= isize::MAX,
        forall|h: u64| #[trigger] signal_ids@.contains_key(h) ==> signal_ids@[h] < n_sigs,
    ensures
        ({
            let st = chunk_scan(data@.subrange(start as int, end as int), 0, start as int,
                signal_ids@, event_signals@, col_on, empty_chunk());
            match r {
                Some(r) => st.ok && chunk_matches(r, st, n_sigs as int),
                None => !st.ok,
            }
        }),
{
    broadcast use vstd::std_specs::hash::group_hash_axioms;

    let chunk: &[u8] = vstd::slice::slice_subrange(data, start, end);
    let ghost c = chunk@;
    let ghost index = signal_ids@;
    let ghost evs = event_signals@;
    let ghost target = chunk_scan(c, 0, start as int, index, evs, col_on, empty_chunk());
    let n = chunk.len();
    let base: u64 = start as u64;
    let has_events = event_signals.len() > 0;
    let mut ts: Vec<u64> = Vec::new();
    let mut ts_offsets: Vec<u64> = Vec::new();
    let mut si: Vec<(u32, u64, u64)> = Vec::new();
    let mut event_cp: Vec<(u32, u64)> = Vec::new();
    let mut cols: Vec<(u32, i64, u128, u64, u8)> = Vec::new();
    let mut current_timestamp: u64 = 0;
    let mut ts_seen: i64 = 0;
    let mut anchor_counter: u64 = 0;
    let mut lp: usize = 0;
    while lp < n
        invariant_except_break
            chunk_scan(c, lp as int, start as int, index, evs, col_on, ChunkState {
                times: ts@,
                offsets: ts_offsets@,
                anchors: si@,
                events: event_cp@,
                cols: cols@,
                current: current_timestamp,
                seen: ts_seen as int,
                counter: anchor_counter as int,
                ok: true,
            }) == target,
        invariant
            n == c.len(),
            c == chunk@,
            start + n <= isize::MAX,
            base == start,
            has_events == (evs.len() > 0),
            c == data@.subrange(start as int, end as int),
            target == chunk_scan(c, 0, start as int, index, evs, col_on, empty_chunk()),
            index == signal_ids@,
            evs == event_signals@,
            lp <= n,
            0 <= ts_seen <= lp,
            anchor_counter <= lp,
            forall|h: u64| #[trigger] index.contains_key(h) ==> index[h] < n_sigs,
            forall|q: int| 0 <= q < cols@.len() ==> (#[trigger] cols@[q]).0 < n_sigs,
        ensures
            chunk_scan(c, lp as int, start as int, index, evs, col_on, ChunkState {
                times: ts@,
                offsets: ts_offsets@,
                anchors: si@,
                events: event_cp@,
                cols: cols@,
                current: current_timestamp,
                seen: ts_seen as int,
                counter: anchor_counter as int,
                ok: true,
            }) == target,
            lp >= n || first_of(c, 0x0A, lp as int) >= n,
        decreases n - lp,
    {
        let ghost cur = ChunkState {
            times: ts@,
            offsets: ts_offsets@,
            anchors: si@,
            events: event_cp@,
            cols: cols@,
            current: current_timestamp,
            seen: ts_seen as int,
            counter: anchor_counter as int,
            ok: true,
        };
        let line_start = lp;
        let rest: &[u8] = vstd::slice::slice_subrange(chunk, lp, n);
        let line_end: usize = match crate::vcd::reader::memchr_first(0x0A, rest) {
            Some(k) => {
                proof {
                    assert forall|j: int| lp <= j < lp + k implies c[j] != 0x0A by {
                        assert(rest@[j - lp] == c[j]);
                    }
                    assert(rest@[k as int] == c[lp + k]);
                    lemma_first_is(c, 0x0A, lp as int, lp + k);
                }
                lp + k
            },
            None => {
                proof {
                    assert forall|j: int| lp <= j < n implies c[j] != 0x0A by {
                        assert(rest@[j - lp] == c[j]);
                    }
                    crate::trace::vcd::lemma_first_of_bound(c, 0x0A, lp as int);
                    if first_of(c, 0x0A, lp as int) < n {
                        assert(c[first_of(c, 0x0A, lp as int)] == 0x0A);
                    }
                }
                break;
            },
        };
        lp = line_end + 1;
        let line: &[u8] = vstd::slice::slice_subrange(chunk, line_start, line_end);
        let off: u64 = base + line_start as u64;
        proof {
            lemma_chunk_scan_ok(c, lp as int, start as int, index, evs, col_on,
                chunk_line_step(cur, line@, off, index, evs, col_on));
        }
        if line.len() == 0 {
            continue;
        }
        let first = line[0];
        if first == 0x23 {
            if crate::trace::vcd::is_ts_line(line) {
                current_timestamp = crate::trace::vcd::parse_timestamp_fast(line);
                ts_seen = ts_seen + 1;
                ts.push(current_timestamp);
                ts_offsets.push(off);
            }
        } else if first == 0x24 {
        } else {
            anchor_counter = anchor_counter + 1;
            let sampled = anchor_counter % 100 == 0;
            if has_events || col_on || sampled {
                if space_first_only(line) {
                    proof {
                        let stepped = chunk_line_step(cur, line@, off, index, evs, col_on);
                        assert(!stepped.ok);
                        assert(line@ == c.subrange(line_start as int, line_end as int));
                        assert(chunk_scan(c, line_start as int, start as int, index, evs, col_on, cur)
                            == chunk_scan(c, lp as int, start as int, index, evs, col_on, stepped));
                        assert(!target.ok);
                    }
                    return None;
                }
                match crate::trace::vcd::parse_value_change_fast(line) {
                    Some((sig_hash, value)) => {
                        match signal_ids.get(&sig_hash) {
                            Some(sig_ref) => {
                                let sig_idx: u32 = *sig_ref;
                                if sampled {
                                    si.push((sig_idx, current_timestamp, off));
                                }
                                if has_events && holds_u32(event_signals, sig_idx) {
                                    event_cp.push((sig_idx, current_timestamp));
                                }
                                if col_on {
                                    let vw: usize = match &value {
                                        VcdValue::Vector(v) => v.len(),
                                        VcdValue::Bit(_) => 1,
                                        VcdValue::Real(_) => 0,
                                    };
                                    if vw >= 1 && vw <= 64 {
                                        match crate::trace::vcd::col_states_from_vcd(&value, vw) {
                                            Some(st) => {
                                                cols.push((sig_idx, ts_seen - 1, st, off, vw as u8));
                                            },
                                            None => {},
                                        }
                                    }
                                }
                            },
                            None => {},
                        }
                    },
                    None => {},
                }
            }
        }
        proof {
            let now = ChunkState {
                times: ts@,
                offsets: ts_offsets@,
                anchors: si@,
                events: event_cp@,
                cols: cols@,
                current: current_timestamp,
                seen: ts_seen as int,
                counter: anchor_counter as int,
                ok: true,
            };
            assert(now =~= chunk_line_step(cur, line@, off, index, evs, col_on));
        }
    }
    proof {
        let fin = ChunkState {
            times: ts@,
            offsets: ts_offsets@,
            anchors: si@,
            events: event_cp@,
            cols: cols@,
            current: current_timestamp,
            seen: ts_seen as int,
            counter: anchor_counter as int,
            ok: true,
        };
        assert(chunk_scan(c, lp as int, start as int, index, evs, col_on, fin) == fin);
    }
    let grouped = group_by_signal(&cols, n_sigs);
    Some(ChunkScan { timestamps: ts, ts_offsets, anchors: si, events: event_cp, cols: grouped })
}

proof fn lemma_chunk_scan_ok(
    c: Seq<u8>,
    p: int,
    base: int,
    index: Map<u64, u32>,
    events: Seq<u32>,
    col_on: bool,
    st: ChunkState,
)
    ensures
        chunk_scan(c, p, base, index, events, col_on, st).ok ==> st.ok,
    decreases c.len() - p,
{
    if 0 <= p < c.len() {
        let e = first_of(c, 0x0A, p);
        if p <= e < c.len() {
            let st2 = chunk_line_step(st, c.subrange(p, e), (base + p) as u64, index, events, col_on);
            lemma_chunk_scan_ok(c, e + 1, base, index, events, col_on, st2);
        }
    }
}

// ---------------------------------------------------------------------------
// Grouping column entries by signal
// ---------------------------------------------------------------------------

/// The entries of signal `s`, in order.
pub open spec fn sig_group(cols: Seq<(u32, i64, u128, u64, u8)>, s: int) -> Seq<(u32, i64, u128, u64, u8)>
    decreases cols.len(),
{
    if cols.len() == 0 {
        Seq::empty()
    } else {
        sig_group(cols.drop_last(), s) + (if cols.last().0 == s {
            seq![cols.last()]
        } else {
            Seq::empty()
        })
    }
}

/// The entries of signals `0 .. k`, signal by signal, each in order.
pub open spec fn grouped_upto(cols: Seq<(u32, i64, u128, u64, u8)>, k: int) -> Seq<(u32, i64, u128, u64, u8)>
    decreases k,
{
    if k <= 0 {
        Seq::empty()
    } else {
        grouped_upto(cols, k - 1) + sig_group(cols, k - 1)
    }
}

/// Group column entries by signal, signals ascending, each signal's
/// entries in their order (see `grouped_upto`); every signal is below
/// `n_sigs`.
pub fn group_by_signal(cols: &Vec<(u32, i64, u128, u64, u8)>, n_sigs: usize) -> (r: Vec<(u32, i64, u128, u64, u8)>)
    requires
        forall|i: int| 0 <= i < cols@.len() ==> (#[trigger] cols@[i]).0 < n_sigs,
    ensures
        r@ == grouped_upto(cols@, n_sigs as int),
{
    let mut buckets: Vec<Vec<(u32, i64, u128, u64, u8)>> = Vec::new();
    let mut s: usize = 0;
    while s < n_sigs
        invariant
            s <= n_sigs,
            buckets@.len() == s,
            forall|k: int| 0 <= k < s ==> (#[trigger] buckets@[k])@ == Seq::<(u32, i64, u128, u64, u8)>::empty(),
        decreases n_sigs - s,
    {
        buckets.push(Vec::new());
        s = s + 1;
    }
    let mut i: usize = 0;
    while i < cols.len()
        invariant
            i <= cols@.len(),
            buckets@.len() == n_sigs,
            forall|j: int| 0 <= j < cols@.len() ==> (#[trigger] cols@[j]).0 < n_sigs,
            forall|k: int| 0 <= k < n_sigs ==> (#[trigger] buckets@[k])@ == sig_group(cols@.take(i as int), k),
        decreases cols@.len() - i,
    {
        let c = cols[i];
        let b = c.0 as usize;
        buckets[b].push(c);
        proof {
            assert(cols@.take(i + 1).drop_last() =~= cols@.take(i as int));
            assert(cols@.take(i + 1).last() == c);
            assert forall|k: int| 0 <= k < n_sigs implies (#[trigger] buckets@[k])@ == sig_group(cols@.take(i + 1), k) by {
                if k != b {
                    assert(sig_group(cols@.take(i + 1), k) =~= sig_group(cols@.take(i as int), k));
                }
            }
        }
        i = i + 1;
    }
    assert(cols@.take(i as int) =~= cols@);
    let mut out: Vec<(u32, i64, u128, u64, u8)> = Vec::new();
    let mut k: usize = 0;
    while k < n_sigs
        invariant
            k <= n_sigs,
            buckets@.len() == n_sigs,
            forall|q: int| 0 <= q < n_sigs ==> (#[trigger] buckets@[q])@ == sig_group(cols@, q),
            out@ == grouped_upto(cols@, k as int),
        decreases n_sigs - k,
    {
        let mut j: usize = 0;
        let ghost before = out@;
        while j < buckets[k].len()
            invariant
                k < n_sigs,
                buckets@.len() == n_sigs,
                j <= buckets@[k as int]@.len(),
                out@ == before + buckets@[k as int]@.take(j as int),
            decreases buckets@[k as int]@.len() - j,
        {
            out.push(buckets[k][j]);
            proof {
                assert(buckets@[k as int]@.take(j + 1) =~= buckets@[k as int]@.take(j as int).push(buckets@[k as int]@[j as int]));
            }
            j = j + 1;
        }
        proof {
            assert(buckets@[k as int]@.take(j as int) =~= buckets@[k as int]@);
        }
        k = k + 1;
    }
    out
}

// ---------------------------------------------------------------------------
// Merging chunk scans
// ---------------------------------------------------------------------------

/// A signal's column: its width, and per change its global timestamp index
/// and packed value.
pub struct Col {
    pub width: usize,
    pub idxs: Vec<u32>,
    pub states: Vec<u128>,
}

/// A signal's offsets-only column: per change its global timestamp index
/// and line start.
pub struct OffCol {
    pub idxs: Vec<u32>,
    pub offsets: Vec<u64>,
}

/// What a column holds.
pub struct ColView {
    pub width: usize,
    pub idxs: Seq<u32>,
    pub states: Seq<u128>,
}

/// What an offsets-only column holds.
pub struct OffView {
    pub idxs: Seq<u32>,
    pub offsets: Seq<u64>,
}

impl View for Col {
    type V = ColView;

    open spec fn view(&self) -> ColView {
        ColView { width: self.width, idxs: self.idxs@, states: self.states@ }
    }
}

impl View for OffCol {
    type V = OffView;

    open spec fn view(&self) -> OffView {
        OffView { idxs: self.idxs@, offsets: self.offsets@ }
    }
}

/// Per-signal lists with one more entry appended to signal `sig`'s.
pub open spec fn append_at<T>(lists: Seq<Seq<T>>, sig: int, x: T) -> Seq<Seq<T>> {
    lists.update(sig, lists[sig].push(x))
}

/// Anchors added to the per-signal anchor lists, in order.
pub open spec fn add_anchors(lists: Seq<Seq<(u64, u64)>>, anchors: Seq<(u32, u64, u64)>) -> Seq<Seq<(u64, u64)>>
    decreases anchors.len(),
{
    if anchors.len() == 0 {
        lists
    } else {
        let a = anchors.last();
        append_at(add_anchors(lists, anchors.drop_last()), a.0 as int, (a.1, a.2))
    }
}

/// Event changes added to the per-signal event time lists, in order.
pub open spec fn add_events(lists: Seq<Seq<u64>>, events: Seq<(u32, u64)>) -> Seq<Seq<u64>>
    decreases events.len(),
{
    if events.len() == 0 {
        lists
    } else {
        let e = events.last();
        append_at(add_events(lists, events.drop_last()), e.0 as int, e.1)
    }
}

/// Every signal of a list of entries is below `n`.
pub open spec fn sigs_below_a(xs: Seq<(u32, u64, u64)>, n: int) -> bool {
    forall|i: int| 0 <= i < xs.len() ==> (#[trigger] xs[i]).0 < n
}

pub open spec fn sigs_below_e(xs: Seq<(u32, u64)>, n: int) -> bool {
    forall|i: int| 0 <= i < xs.len() ==> (#[trigger] xs[i]).0 < n
}

/// Append each anchor to its signal's list (see `add_anchors`).
fn merge_anchors(lists: &mut Vec<Vec<(u64, u64)>>, anchors: &Vec<(u32, u64, u64)>)
    requires
        sigs_below_a(anchors@, old(lists)@.len() as int),
    ensures
        final(lists)@.len() == old(lists)@.len(),
        final(lists)@.map_values(|l: Vec<(u64, u64)>| l@) == add_anchors(
            old(lists)@.map_values(|l: Vec<(u64, u64)>| l@),
            anchors@,
        ),
{
    let ghost start = old(lists)@.map_values(|l: Vec<(u64, u64)>| l@);
    let mut i: usize = 0;
    while i < anchors.len()
        invariant
            i <= anchors@.len(),
            lists@.len() == start.len(),
            sigs_below_a(anchors@, start.len() as int),
            lists@.map_values(|l: Vec<(u64, u64)>| l@) == add_anchors(start, anchors@.take(i as int)),
        decreases anchors@.len() - i,
    {
        let a = anchors[i];
        let sig = a.0 as usize;
        let ghost before = lists@.map_values(|l: Vec<(u64, u64)>| l@);
        lists[sig].push((a.1, a.2));
        proof {
            assert(anchors@.take(i + 1).drop_last() =~= anchors@.take(i as int));
            assert(lists@.map_values(|l: Vec<(u64, u64)>| l@) =~= append_at(before, sig as int, (a.1, a.2)));
        }
        i = i + 1;
    }
    assert(anchors@.take(i as int) =~= anchors@);
}

/// Append each event change to its signal's list (see `add_events`).
fn merge_events(lists: &mut Vec<Vec<u64>>, events: &Vec<(u32, u64)>)
    requires
        sigs_below_e(events@, old(lists)@.len() as int),
    ensures
        final(lists)@.len() == old(lists)@.len(),
        final(lists)@.map_values(|l: Vec<u64>| l@) == add_events(
            old(lists)@.map_values(|l: Vec<u64>| l@),
            events@,
        ),
{
    let ghost start = old(lists)@.map_values(|l: Vec<u64>| l@);
    let mut i: usize = 0;
    while i < events.len()
        invariant
            i <= events@.len(),
            lists@.len() == start.len(),
            sigs_below_e(events@, start.len() as int),
            lists@.map_values(|l: Vec<u64>| l@) == add_events(start, events@.take(i as int)),
        decreases events@.len() - i,
    {
        let e = events[i];
        let sig = e.0 as usize;
        let ghost before = lists@.map_values(|l: Vec<u64>| l@);
        lists[sig].push(e.1);
        proof {
            assert(events@.take(i + 1).drop_last() =~= events@.take(i as int));
            assert(lists@.map_values(|l: Vec<u64>| l@) =~= append_at(before, sig as int, e.1));
        }
        i = i + 1;
    }
    assert(events@.take(i as int) =~= events@);
}

/// The global timestamp index of a column entry: the chunk's first index
/// plus the entry's chunk-local one, cut to 32 bits.
pub open spec fn global_idx(base: int, e: (u32, i64, u128, u64, u8)) -> u32 {
    (base + e.1) as u32
}

/// A column extended by entries: a change at the same index as the last
/// one replaces its value, any other is appended (and costs 20 bytes).
pub open spec fn col_extend(c: ColView, es: Seq<(u32, i64, u128, u64, u8)>, base: int) -> (ColView, int)
    decreases es.len(),
{
    if es.len() == 0 {
        (c, 0)
    } else {
        let (c1, b1) = col_extend(c, es.drop_last(), base);
        let e = es.last();
        let g = global_idx(base, e);
        if c1.idxs.len() > 0 && c1.idxs.last() == g {
            (ColView { states: c1.states.update(c1.states.len() - 1, e.2), ..c1 }, b1)
        } else {
            (ColView { idxs: c1.idxs.push(g), states: c1.states.push(e.2), ..c1 }, b1 + 20)
        }
    }
}

/// An offsets-only column extended by entries, in the same way.
pub open spec fn off_extend(o: OffView, es: Seq<(u32, i64, u128, u64, u8)>, base: int) -> OffView
    decreases es.len(),
{
    if es.len() == 0 {
        o
    } else {
        let o1 = off_extend(o, es.drop_last(), base);
        let e = es.last();
        let g = global_idx(base, e);
        if o1.idxs.len() > 0 && o1.idxs.last() == g {
            OffView { offsets: o1.offsets.update(o1.offsets.len() - 1, e.3), ..o1 }
        } else {
            OffView { idxs: o1.idxs.push(g), offsets: o1.offsets.push(e.3) }
        }
    }
}

/// The column caches while chunks are merged.
#[verifier::ext_equal]
pub struct ColMerge {
    pub cols: Seq<Option<ColView>>,
    pub offs: Seq<Option<OffView>>,
    /// Bytes the value columns hold, by 20 per entry.
    pub bytes: int,
}

/// One signal's entries of a chunk merged into the caches: nothing when
/// the first lies before the first timestamp; else added to the signal's
/// value column if it has one; else a new value column while the budget
/// lasts; else (unless offsets-only columns are off) added to its
/// offsets-only column, or a new one while twice the budget lasts.
pub open spec fn apply_group(
    m: ColMerge,
    es: Seq<(u32, i64, u128, u64, u8)>,
    base: int,
    budget: int,
    skip_off: bool,
) -> ColMerge {
    let sig = es[0].0 as int;
    if base + es[0].1 < 0 {
        m
    } else if m.cols[sig] is Some {
        let (c, add) = col_extend(m.cols[sig].unwrap(), es, base);
        ColMerge { cols: m.cols.update(sig, Some(c)), bytes: m.bytes + add, ..m }
    } else if m.bytes < budget {
        let c = ColView {
            width: es[0].4 as usize,
            idxs: es.map_values(|e: (u32, i64, u128, u64, u8)| global_idx(base, e)),
            states: es.map_values(|e: (u32, i64, u128, u64, u8)| e.2),
        };
        ColMerge { cols: m.cols.update(sig, Some(c)), bytes: m.bytes + 20 * es.len(), ..m }
    } else if skip_off {
        m
    } else if m.offs[sig] is Some {
        ColMerge { offs: m.offs.update(sig, Some(off_extend(m.offs[sig].unwrap(), es, base))), ..m }
    } else if m.bytes < 2 * budget {
        let o = OffView {
            idxs: es.map_values(|e: (u32, i64, u128, u64, u8)| global_idx(base, e)),
            offsets: es.map_values(|e: (u32, i64, u128, u64, u8)| e.3),
        };
        ColMerge { offs: m.offs.update(sig, Some(o)), ..m }
    } else {
        m
    }
}

/// Where the run of entries of the same signal that starts at `i` ends.
pub open spec fn run_end(cols: Seq<(u32, i64, u128, u64, u8)>, i: int, j: int) -> int
    decreases cols.len() - j,
{
    if j < cols.len() && j >= 0 && cols[j].0 == cols[i].0 {
        run_end(cols, i, j + 1)
    } else {
        j
    }
}

/// A chunk's grouped column entries merged run by run from `i`.
pub open spec fn merge_groups(
    m: ColMerge,
    cols: Seq<(u32, i64, u128, u64, u8)>,
    i: int,
    base: int,
    budget: int,
    skip_off: bool,
) -> ColMerge
    decreases cols.len() - i,
{
    if i < 0 || i >= cols.len() {
        m
    } else {
        let j = run_end(cols, i, i);
        if j <= i || j > cols.len() {
            m
        } else {
            merge_groups(apply_group(m, cols.subrange(i, j), base, budget, skip_off), cols, j, base, budget, skip_off)
        }
    }
}

/// The caches' contents.
pub open spec fn merge_view(cols: Seq<Option<Col>>, offs: Seq<Option<OffCol>>, bytes: usize) -> ColMerge {
    ColMerge {
        cols: cols.map_values(|o: Option<Col>| match o {
            Some(c) => Some(c@),
            None => None,
        }),
        offs: offs.map_values(|o: Option<OffCol>| match o {
            Some(c) => Some(c@),
            None => None,
        }),
        bytes: bytes as int,
    }
}


/// Every column holds as many values (or offsets) as timestamp indices.
pub open spec fn merge_ok(m: ColMerge) -> bool {
    &&& m.cols.len() == m.offs.len()
    &&& forall|s: int| 0 <= s < m.cols.len() && (#[trigger] m.cols[s]) is Some
        ==> m.cols[s].unwrap().idxs.len() == m.cols[s].unwrap().states.len()
    &&& forall|s: int| 0 <= s < m.offs.len() && (#[trigger] m.offs[s]) is Some
        ==> m.offs[s].unwrap().idxs.len() == m.offs[s].unwrap().offsets.len()
}

/// What a chunk's column entries need of their signals and local indices.
pub open spec fn entries_ok(es: Seq<(u32, i64, u128, u64, u8)>, n_sigs: int, base: int) -> bool {
    &&& base <= i64::MAX
    &&& forall|k: int| 0 <= k < es.len() ==> (#[trigger] es[k]).0 < n_sigs && -1 <= es[k].1
        && base + es[k].1 <= i64::MAX
}

fn global_idx_exec(base: usize, e: (u32, i64, u128, u64, u8)) -> (r: u32)
    requires
        base <= i64::MAX,
        -1 <= e.1,
        base + e.1 <= i64::MAX,
    ensures
        r == global_idx(base as int, e),
{
    let b: i64 = base as i64;
    (b + e.1) as u32
}

/// Extend a value column by the entries `es[i..j]` (see `col_extend`).
fn extend_col(col: &mut Col, es: &Vec<(u32, i64, u128, u64, u8)>, i: usize, j: usize, base: usize) -> (added: usize)
    requires
        i <= j <= es@.len(),
        old(col).idxs@.len() == old(col).states@.len(),
        entries_ok(es@, u32::MAX as int + 1, base as int),
        20 * (j - i) <= usize::MAX,
    ensures
        (final(col)@, added as int) == col_extend(old(col)@, es@.subrange(i as int, j as int), base as int),
        final(col).idxs@.len() == final(col).states@.len(),
        added <= 20 * (j - i),
{
    let ghost c0 = col@;
    let mut added: usize = 0;
    let mut k: usize = i;
    while k < j
        invariant
            i <= k <= j <= es@.len(),
            entries_ok(es@, u32::MAX as int + 1, base as int),
            col.idxs@.len() == col.states@.len(),
            20 * (j - i) <= usize::MAX,
            added <= 20 * (k - i),
            (col@, added as int) == col_extend(c0, es@.subrange(i as int, k as int), base as int),
        decreases j - k,
    {
        let e = es[k];
        let g = global_idx_exec(base, e);
        let n = col.idxs.len();
        proof {
            assert(es@.subrange(i as int, k + 1).drop_last() =~= es@.subrange(i as int, k as int));
            assert(es@.subrange(i as int, k + 1).last() == e);
        }
        if n > 0 && col.idxs[n - 1] == g {
            col.states.set(n - 1, e.2);
        } else {
            col.idxs.push(g);
            col.states.push(e.2);
            added = added + 20;
        }
        k = k + 1;
    }
    added
}

/// Extend an offsets-only column by the entries `es[i..j]` (see `off_extend`).
fn extend_off(off: &mut OffCol, es: &Vec<(u32, i64, u128, u64, u8)>, i: usize, j: usize, base: usize)
    requires
        i <= j <= es@.len(),
        old(off).idxs@.len() == old(off).offsets@.len(),
        entries_ok(es@, u32::MAX as int + 1, base as int),
    ensures
        final(off)@ == off_extend(old(off)@, es@.subrange(i as int, j as int), base as int),
        final(off).idxs@.len() == final(off).offsets@.len(),
{
    let ghost o0 = off@;
    let mut k: usize = i;
    while k < j
        invariant
            i <= k <= j <= es@.len(),
            entries_ok(es@, u32::MAX as int + 1, base as int),
            off.idxs@.len() == off.offsets@.len(),
            off@ == off_extend(o0, es@.subrange(i as int, k as int), base as int),
        decreases j - k,
    {
        let e = es[k];
        let g = global_idx_exec(base, e);
        let n = off.idxs.len();
        proof {
            assert(es@.subrange(i as int, k + 1).drop_last() =~= es@.subrange(i as int, k as int));
            assert(es@.subrange(i as int, k + 1).last() == e);
        }
        if n > 0 && off.idxs[n - 1] == g {
            off.offsets.set(n - 1, e.3);
        } else {
            off.idxs.push(g);
            off.offsets.push(e.3);
        }
        k = k + 1;
    }
}

/// The global indices of the entries `es[i..j]`, with one of their fields.
fn run_columns(es: &Vec<(u32, i64, u128, u64, u8)>, i: usize, j: usize, base: usize) -> (r: (Vec<u32>, Vec<u128>, Vec<u64>))
    requires
        i <= j <= es@.len(),
        entries_ok(es@, u32::MAX as int + 1, base as int),
    ensures
        r.0@ == es@.subrange(i as int, j as int).map_values(|e: (u32, i64, u128, u64, u8)| global_idx(base as int, e)),
        r.1@ == es@.subrange(i as int, j as int).map_values(|e: (u32, i64, u128, u64, u8)| e.2),
        r.2@ == es@.subrange(i as int, j as int).map_values(|e: (u32, i64, u128, u64, u8)| e.3),
{
    let mut idxs: Vec<u32> = Vec::new();
    let mut states: Vec<u128> = Vec::new();
    let mut offs: Vec<u64> = Vec::new();
    let mut k: usize = i;
    while k < j
        invariant
            i <= k <= j <= es@.len(),
            entries_ok(es@, u32::MAX as int + 1, base as int),
            idxs@ == es@.subrange(i as int, k as int).map_values(|e: (u32, i64, u128, u64, u8)| global_idx(base as int, e)),
            states@ == es@.subrange(i as int, k as int).map_values(|e: (u32, i64, u128, u64, u8)| e.2),
            offs@ == es@.subrange(i as int, k as int).map_values(|e: (u32, i64, u128, u64, u8)| e.3),
        decreases j - k,
    {
        let e = es[k];
        idxs.push(global_idx_exec(base, e));
        states.push(e.2);
        offs.push(e.3);
        proof {
            assert(idxs@ =~= es@.subrange(i as int, k + 1).map_values(|e: (u32, i64, u128, u64, u8)| global_idx(base as int, e)));
            assert(states@ =~= es@.subrange(i as int, k + 1).map_values(|e: (u32, i64, u128, u64, u8)| e.2));
            assert(offs@ =~= es@.subrange(i as int, k + 1).map_values(|e: (u32, i64, u128, u64, u8)| e.3));
        }
        k = k + 1;
    }
    (idxs, states, offs)
}


/// Merge one signal's run of entries `es[i..j]` into the caches (see `apply_group`).
fn merge_group(
    col_cache: &mut Vec<Option<Col>>,
    off_cache: &mut Vec<Option<OffCol>>,
    bytes: &mut usize,
    es: &Vec<(u32, i64, u128, u64, u8)>,
    i: usize,
    j: usize,
    base: usize,
    budget: usize,
    skip_off: bool,
)
    requires
        i < j <= es@.len(),
        forall|k: int| i <= k < j ==> (#[trigger] es@[k]).0 == es@[i as int].0,
        entries_ok(es@, old(col_cache)@.len() as int, base as int),
        merge_ok(merge_view(old(col_cache)@, old(off_cache)@, *old(bytes))),
        *old(bytes) + 20 * (j - i) <= usize::MAX,
        2 * budget <= usize::MAX,
    ensures
        merge_view(final(col_cache)@, final(off_cache)@, *final(bytes)) == apply_group(
            merge_view(old(col_cache)@, old(off_cache)@, *old(bytes)),
            es@.subrange(i as int, j as int),
            base as int,
            budget as int,
            skip_off,
        ),
        merge_ok(merge_view(final(col_cache)@, final(off_cache)@, *final(bytes))),
        final(col_cache)@.len() == old(col_cache)@.len(),
        *final(bytes) <= *old(bytes) + 20 * (j - i),
{
    let ghost m0 = merge_view(col_cache@, off_cache@, *bytes);
    let ghost run = es@.subrange(i as int, j as int);
    assert(run[0] == es@[i as int]);
    assert(entries_ok(es@, u32::MAX as int + 1, base as int));
    let sig = es[i].0 as usize;
    let b: i64 = base as i64;
    if b + es[i].1 < 0 {
        return;
    }
    let taken = col_cache[sig].take();
    match taken {
        Some(mut col) => {
            assert(m0.cols[sig as int] == Some(col@));
            let add = extend_col(&mut col, es, i, j, base);
            col_cache.set(sig, Some(col));
            *bytes = *bytes + add;
            proof {
                let m1 = merge_view(col_cache@, off_cache@, *bytes);
                assert(m1.cols =~= m0.cols.update(sig as int, Some(col@)));
                assert(m1.offs =~= m0.offs);
            }
        },
        None => {
            assert(col_cache@ =~= old(col_cache)@);
            if *bytes < budget {
                let (idxs, states, _o) = run_columns(es, i, j, base);
                let c = Col { width: es[i].4 as usize, idxs, states };
                col_cache.set(sig, Some(c));
                *bytes = *bytes + 20 * (j - i);
                proof {
                    let m1 = merge_view(col_cache@, off_cache@, *bytes);
                    assert(m1.cols =~= m0.cols.update(sig as int, Some(c@)));
                    assert(m1.offs =~= m0.offs);
                }
            } else if skip_off {
            } else {
                let taken_off = off_cache[sig].take();
                match taken_off {
                    Some(mut off) => {
                        assert(m0.offs[sig as int] == Some(off@));
                        extend_off(&mut off, es, i, j, base);
                        off_cache.set(sig, Some(off));
                        proof {
                            let m1 = merge_view(col_cache@, off_cache@, *bytes);
                            assert(m1.offs =~= m0.offs.update(sig as int, Some(off@)));
                            assert(m1.cols =~= m0.cols);
                        }
                    },
                    None => {
                        assert(off_cache@ =~= old(off_cache)@);
                        if *bytes < 2 * budget {
                            let (idxs, _s, offs) = run_columns(es, i, j, base);
                            let o = OffCol { idxs, offsets: offs };
                            off_cache.set(sig, Some(o));
                            proof {
                                let m1 = merge_view(col_cache@, off_cache@, *bytes);
                                assert(m1.offs =~= m0.offs.update(sig as int, Some(o@)));
                                assert(m1.cols =~= m0.cols);
                            }
                        }
                    },
                }
            }
        },
    }
}


/// Merge a chunk's grouped column entries into the caches, run by run
/// (see `merge_groups`).
pub fn merge_chunk_cols(
    col_cache: &mut Vec<Option<Col>>,
    off_cache: &mut Vec<Option<OffCol>>,
    bytes: &mut usize,
    es: &Vec<(u32, i64, u128, u64, u8)>,
    base: usize,
    budget: usize,
    skip_off: bool,
)
    requires
        entries_ok(es@, old(col_cache)@.len() as int, base as int),
        merge_ok(merge_view(old(col_cache)@, old(off_cache)@, *old(bytes))),
        *old(bytes) + 20 * es@.len() <= usize::MAX,
        2 * budget <= usize::MAX,
    ensures
        merge_view(final(col_cache)@, final(off_cache)@, *final(bytes)) == merge_groups(
            merge_view(old(col_cache)@, old(off_cache)@, *old(bytes)),
            es@,
            0,
            base as int,
            budget as int,
            skip_off,
        ),
        merge_ok(merge_view(final(col_cache)@, final(off_cache)@, *final(bytes))),
        final(col_cache)@.len() == old(col_cache)@.len(),
        *final(bytes) <= *old(bytes) + 20 * es@.len(),
{
    let ghost target = merge_groups(merge_view(col_cache@, off_cache@, *bytes), es@, 0, base as int, budget as int, skip_off);
    let ghost n = col_cache@.len();
    let ghost b0 = *bytes;
    let mut i: usize = 0;
    while i < es.len()
        invariant
            i <= es@.len(),
            col_cache@.len() == n,
            entries_ok(es@, n as int, base as int),
            merge_ok(merge_view(col_cache@, off_cache@, *bytes)),
            *bytes <= b0 + 20 * i,
            b0 + 20 * es@.len() <= usize::MAX,
            2 * budget <= usize::MAX,
            merge_groups(merge_view(col_cache@, off_cache@, *bytes), es@, i as int, base as int, budget as int, skip_off)
                == target,
        decreases es@.len() - i,
    {
        let sig = es[i].0;
        let mut j: usize = i;
        while j < es.len() && es[j].0 == sig
            invariant
                i <= j <= es@.len(),
                i < es@.len(),
                es@[i as int].0 == sig,
                run_end(es@, i as int, j as int) == run_end(es@, i as int, i as int),
                forall|k: int| i <= k < j ==> (#[trigger] es@[k]).0 == sig,
            decreases es@.len() - j,
        {
            j = j + 1;
        }
        assert(run_end(es@, i as int, j as int) == j);
        let ghost m = merge_view(col_cache@, off_cache@, *bytes);
        merge_group(col_cache, off_cache, bytes, es, i, j, base, budget, skip_off);
        assert(merge_groups(m, es@, i as int, base as int, budget as int, skip_off) == merge_groups(
            apply_group(m, es@.subrange(i as int, j as int), base as int, budget as int, skip_off),
            es@,
            j as int,
            base as int,
            budget as int,
            skip_off,
        ));
        i = j;
    }
}


// ---------------------------------------------------------------------------
// The index built from the chunks, in chunk order
// ---------------------------------------------------------------------------

/// The value-change index while chunk scans are merged in file order:
/// timestamps and their line starts, per-signal anchors and event times,
/// the column caches and the bytes they hold, and how many timestamps the
/// merged chunks had.
pub struct LoadIndex {
    pub timestamps: Vec<u64>,
    pub ts_offsets: Vec<u64>,
    pub anchors: Vec<Vec<(u64, u64)>>,
    pub event_times: Vec<Vec<u64>>,
    pub col_cache: Vec<Option<Col>>,
    pub off_cache: Vec<Option<OffCol>>,
    pub col_bytes: usize,
    pub base: usize,
}

impl LoadIndex {
    /// The column caches' contents.
    pub open spec fn merged(&self) -> ColMerge {
        merge_view(self.col_cache@, self.off_cache@, self.col_bytes)
    }

    /// Per-signal anchor lists.
    pub open spec fn anchor_lists(&self) -> Seq<Seq<(u64, u64)>> {
        self.anchors@.map_values(|l: Vec<(u64, u64)>| l@)
    }

    /// Per-signal event time lists.
    pub open spec fn event_lists(&self) -> Seq<Seq<u64>> {
        self.event_times@.map_values(|l: Vec<u64>| l@)
    }

    /// Per-signal tables for `n` signals, and the caches' columns of equal
    /// lengths.
    pub open spec fn wf(&self, n: int) -> bool {
        &&& self.anchors@.len() == n
        &&& self.event_times@.len() == n
        &&& self.col_cache@.len() == n
        &&& merge_ok(self.merged())
    }

    /// An empty index for `n_sigs` signals.
    pub fn new(n_sigs: usize) -> (r: LoadIndex)
        ensures
            r.wf(n_sigs as int),
            r.timestamps@.len() == 0,
            r.ts_offsets@.len() == 0,
            r.base == 0,
            r.col_bytes == 0,
            forall|s: int| 0 <= s < n_sigs ==> (#[trigger] r.anchor_lists()[s]).len() == 0
                && r.event_lists()[s].len() == 0 && r.merged().cols[s] is None && r.merged().offs[s] is None,
    {
        let mut anchors: Vec<Vec<(u64, u64)>> = Vec::new();
        let mut event_times: Vec<Vec<u64>> = Vec::new();
        let mut col_cache: Vec<Option<Col>> = Vec::new();
        let mut off_cache: Vec<Option<OffCol>> = Vec::new();
        let mut k: usize = 0;
        while k < n_sigs
            invariant
                k <= n_sigs,
                anchors@.len() == k,
                event_times@.len() == k,
                col_cache@.len() == k,
                off_cache@.len() == k,
                forall|s: int| 0 <= s < k ==> (#[trigger] anchors@[s])@.len() == 0,
                forall|s: int| 0 <= s < k ==> (#[trigger] event_times@[s])@.len() == 0,
                forall|s: int| 0 <= s < k ==> (#[trigger] col_cache@[s]) is None,
                forall|s: int| 0 <= s < k ==> (#[trigger] off_cache@[s]) is None,
            decreases n_sigs - k,
        {
            anchors.push(Vec::new());
            event_times.push(Vec::new());
            col_cache.push(None);
            off_cache.push(None);
            k = k + 1;
        }
        let r = LoadIndex {
            timestamps: Vec::new(),
            ts_offsets: Vec::new(),
            anchors,
            event_times,
            col_cache,
            off_cache,
            col_bytes: 0,
            base: 0,
        };
        proof {
            assert forall|s: int| 0 <= s < n_sigs implies (#[trigger] r.merged().cols[s]) is None
                && r.merged().offs[s] is None && r.anchor_lists()[s].len() == 0 && r.event_lists()[s].len() == 0 by {
                assert(r.col_cache@[s] is None);
                assert(r.off_cache@[s] is None);
                assert(r.anchors@[s]@.len() == 0);
                assert(r.event_times@[s]@.len() == 0);
            }
        }
        r
    }

    /// Merge the next chunk's scan: its timestamps and line starts are
    /// appended, its anchors and event changes added to their signals'
    /// lists, its column entries merged into the caches with chunk-local
    /// indices counted from the timestamps merged before (see
    /// `merge_groups`), and the count of merged timestamps advanced.
    pub fn merge_chunk(&mut self, scan: ChunkScan, budget: usize, skip_off: bool)
        requires
            old(self).wf(old(self).anchors@.len() as int),
            sigs_below_a(scan.anchors@, old(self).anchors@.len() as int),
            sigs_below_e(scan.events@, old(self).anchors@.len() as int),
            entries_ok(scan.cols@, old(self).anchors@.len() as int, old(self).base as int),
            old(self).col_bytes + 20 * scan.cols@.len() <= usize::MAX,
            2 * budget <= usize::MAX,
            old(self).base + scan.timestamps@.len() <= usize::MAX,
        ensures
            final(self).wf(old(self).anchors@.len() as int),
            final(self).timestamps@ == old(self).timestamps@ + scan.timestamps@,
            final(self).ts_offsets@ == old(self).ts_offsets@ + scan.ts_offsets@,
            final(self).anchor_lists() == add_anchors(old(self).anchor_lists(), scan.anchors@),
            final(self).event_lists() == add_events(old(self).event_lists(), scan.events@),
            final(self).merged() == merge_groups(
                old(self).merged(),
                scan.cols@,
                0,
                old(self).base as int,
                budget as int,
                skip_off,
            ),
            final(self).base == old(self).base + scan.timestamps@.len(),
            final(self).col_bytes <= old(self).col_bytes + 20 * scan.cols@.len(),
    {
        let n_ts = scan.timestamps.len();
        let mut times = scan.timestamps;
        let mut offs = scan.ts_offsets;
        self.timestamps.append(&mut times);
        self.ts_offsets.append(&mut offs);
        merge_anchors(&mut self.anchors, &scan.anchors);
        merge_events(&mut self.event_times, &scan.events);
        merge_chunk_cols(
            &mut self.col_cache,
            &mut self.off_cache,
            &mut self.col_bytes,
            &scan.cols,
            self.base,
            budget,
            skip_off,
        );
        self.base = self.base + n_ts;
    }
}


/// The first position from `ti` on whose timestamp is not below `t`.
pub open spec fn advance(times: Seq<u64>, ti: int, t: u64) -> int
    decreases times.len() - ti,
{
    if 0 <= ti < times.len() && times[ti] < t {
        advance(times, ti + 1, t)
    } else {
        ti
    }
}

/// Event times turned into timestamp indices by one forward walk over the
/// timestamps: each time moves the position on to the first timestamp not
/// below it, and yields that position if the timestamp there is the time.
/// Also gives where the walk stopped.
pub open spec fn event_walk(times: Seq<u64>, list: Seq<u64>) -> (Seq<usize>, int)
    decreases list.len(),
{
    if list.len() == 0 {
        (Seq::empty(), 0)
    } else {
        let (r, ti) = event_walk(times, list.drop_last());
        let t = list.last();
        let ti2 = advance(times, ti, t);
        if 0 <= ti2 < times.len() && times[ti2] == t {
            (r.push(ti2 as usize), ti2)
        } else {
            (r, ti2)
        }
    }
}

proof fn lemma_advance_range(times: Seq<u64>, ti: int, t: u64)
    requires
        0 <= ti <= times.len(),
    ensures
        ti <= advance(times, ti, t) <= times.len(),
    decreases times.len() - ti,
{
    if 0 <= ti < times.len() && times[ti] < t {
        lemma_advance_range(times, ti + 1, t);
    }
}

proof fn lemma_event_walk_range(times: Seq<u64>, list: Seq<u64>)
    ensures
        0 <= event_walk(times, list).1 <= times.len(),
    decreases list.len(),
{
    if list.len() > 0 {
        lemma_event_walk_range(times, list.drop_last());
        lemma_advance_range(times, event_walk(times, list.drop_last()).1, list.last());
    }
}

/// The timestamp indices of a signal's event times (see `event_walk`):
/// each one names a timestamp equal to one of the times.
pub fn event_indices(times: &Vec<u64>, ts_list: &Vec<u64>) -> (r: Vec<usize>)
    ensures
        r@ == event_walk(times@, ts_list@).0,
        forall|k: int| 0 <= k < r@.len() ==> (#[trigger] r@[k]) < times@.len()
            && ts_list@.contains(times@[r@[k] as int]),
{
    let mut out: Vec<usize> = Vec::new();
    let mut ti: usize = 0;
    let mut i: usize = 0;
    while i < ts_list.len()
        invariant
            i <= ts_list@.len(),
            (out@, ti as int) == event_walk(times@, ts_list@.take(i as int)),
            ti <= times@.len(),
            forall|k: int| 0 <= k < out@.len() ==> (#[trigger] out@[k]) < times@.len()
                && ts_list@.take(i as int).contains(times@[out@[k] as int]),
        decreases ts_list@.len() - i,
    {
        let t = ts_list[i];
        let ghost prev = ts_list@.take(i as int);
        let ghost start = ti as int;
        assert(ts_list@.take(i + 1).drop_last() =~= prev);
        assert(ts_list@.take(i + 1).last() == t);
        while ti < times.len() && times[ti] < t
            invariant
                start <= ti <= times@.len(),
                advance(times@, ti as int, t) == advance(times@, start, t),
            decreases times@.len() - ti,
        {
            ti = ti + 1;
        }
        assert(advance(times@, ti as int, t) == ti);
        proof {
            assert forall|k: int| 0 <= k < out@.len() implies ts_list@.take(i + 1).contains(
                times@[(#[trigger] out@[k]) as int],
            ) by {
                let x = times@[out@[k] as int];
                let w = choose|w: int| 0 <= w < prev.len() && prev[w] == x;
                assert(ts_list@.take(i + 1)[w] == x);
            }
        }
        if ti < times.len() && times[ti] == t {
            out.push(ti);
            proof {
                assert(ts_list@.take(i + 1)[i as int] == t);
            }
        }
        i = i + 1;
    }
    assert(ts_list@.take(i as int) =~= ts_list@);
    out
}

/// Every signal's event times turned into timestamp indices.
pub fn event_change_points(times: &Vec<u64>, event_times: &Vec<Vec<u64>>) -> (r: Vec<Vec<usize>>)
    ensures
        r@.len() == event_times@.len(),
        forall|s: int| 0 <= s < r@.len() ==> (#[trigger] r@[s])@ == event_walk(times@, event_times@[s]@).0,
{
    let mut out: Vec<Vec<usize>> = Vec::new();
    let mut s: usize = 0;
    while s < event_times.len()
        invariant
            s <= event_times@.len(),
            out@.len() == s,
            forall|k: int| 0 <= k < s ==> (#[trigger] out@[k])@ == event_walk(times@, event_times@[k]@).0,
        decreases event_times@.len() - s,
    {
        out.push(event_indices(times, &event_times[s]));
        s = s + 1;
    }
    out
}

/// Every 64th timestamp line start, from the first.
pub fn sample_offsets(offs: &Vec<u64>) -> (r: Vec<u64>)
    ensures
        r@.len() == (offs@.len() + 63) / 64,
        forall|k: int| 0 <= k < r@.len() ==> #[trigger] r@[k] == offs@[64 * k],
{
    let mut out: Vec<u64> = Vec::new();
    let mut i: usize = 0;
    let ghost mut k: int = 0;
    while i < offs.len()
        invariant
            i <= offs@.len(),
            out@.len() == k,
            i == 64 * k || (i == offs@.len() && 64 * k - 64 < offs@.len() <= 64 * k),
            forall|j: int| 0 <= j < out@.len() ==> #[trigger] out@[j] == offs@[64 * j],
        decreases offs@.len() - i,
    {
        out.push(offs[i]);
        proof {
            k = k + 1;
        }
        if offs.len() - i <= 64 {
            i = offs.len();
        } else {
            i = i + 64;
        }
    }
    let ghost n = offs@.len() as int;
    assert(k == (n + 63) / 64) by (nonlinear_arith)
        requires
            64 * k - 64 < n <= 64 * k || n == 64 * k,
            n >= 0,
            k >= 0,
    ;
    out
}


impl LoadIndex {
    /// Whether a chunk's scan can be merged next (see `merge_chunk`): its
    /// anchors, event changes and column entries name signals of the
    /// index, its column entries' indices fit 64 bits once counted from the
    /// timestamps merged before, and the column bytes, the budget and the
    /// timestamp count stay within their integers.
    pub fn merge_fits(&self, scan: &ChunkScan, budget: usize) -> (r: bool)
        ensures
            r == (sigs_below_a(scan.anchors@, self.anchors@.len() as int)
                && sigs_below_e(scan.events@, self.anchors@.len() as int)
                && entries_ok(scan.cols@, self.anchors@.len() as int, self.base as int)
                && self.col_bytes + 20 * scan.cols@.len() <= usize::MAX
                && 2 * budget <= usize::MAX
                && self.base + scan.timestamps@.len() <= usize::MAX),
    {
        let n = self.anchors.len();
        let mut i: usize = 0;
        while i < scan.anchors.len()
            invariant
                i <= scan.anchors@.len(),
                n == self.anchors@.len(),
                forall|k: int| 0 <= k < i ==> (#[trigger] scan.anchors@[k]).0 < n,
            decreases scan.anchors@.len() - i,
        {
            if scan.anchors[i].0 as usize >= n {
                assert(!sigs_below_a(scan.anchors@, n as int));
                return false;
            }
            i = i + 1;
        }
        let mut i: usize = 0;
        while i < scan.events.len()
            invariant
                i <= scan.events@.len(),
                n == self.anchors@.len(),
                forall|k: int| 0 <= k < i ==> (#[trigger] scan.events@[k]).0 < n,
            decreases scan.events@.len() - i,
        {
            if scan.events[i].0 as usize >= n {
                assert(!sigs_below_e(scan.events@, n as int));
                return false;
            }
            i = i + 1;
        }
        if self.base as u64 > 0x7FFF_FFFF_FFFF_FFFFu64 {
            return false;
        }
        let b: i64 = self.base as i64;
        let mut i: usize = 0;
        while i < scan.cols.len()
            invariant
                i <= scan.cols@.len(),
                n == self.anchors@.len(),
                b == self.base,
                self.base <= i64::MAX,
                forall|k: int| 0 <= k < i ==> (#[trigger] scan.cols@[k]).0 < n && -1 <= scan.cols@[k].1
                    && self.base + scan.cols@[k].1 <= i64::MAX,
            decreases scan.cols@.len() - i,
        {
            let e = scan.cols[i];
            if e.0 as usize >= n || e.1 < -1 || e.1 > 0x7FFF_FFFF_FFFF_FFFF - b {
                assert(!entries_ok(scan.cols@, n as int, self.base as int)) by {
                    assert(scan.cols@[i as int] == e);
                }
                return false;
            }
            i = i + 1;
        }
        if scan.cols.len() > (usize::MAX - self.col_bytes) / 20 {
            return false;
        }
        if budget > usize::MAX / 2 {
            return false;
        }
        if scan.timestamps.len() > usize::MAX - self.base {
            return false;
        }
        true
    }
}

} // verus!
