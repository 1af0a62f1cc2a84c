//! Queries over loaded waveforms: which loaded waveform answers a name,
//! the index space of a query, and the per-index evaluation of a find
//! condition over a signal's change list.
use vstd::prelude::*;
use vstd::string::StringSliceAdditionalSpecFns;
use crate::trace::column::{bit_is, check_has_either, has_either, i64_of, sv_to_i64};
use crate::trace::trace::{
    names_bytes, resolve_index, resolved_index, FindCondition, ScalarValue, ScalarView,
};
use crate::trace::vcd::{
    bit_of, first_of, hash_sig_id, id_hash, is_ts_line, last_space, lemma_first_of_bound,
    line_timestamp, parse_timestamp_fast, parse_value_change_fast, same_state, states_value, ts_line,
    val_to_bit, value_change_of, vcd_from_states, vcd_is_zero, vcd_semantic_eq, zero_of, TsStore,
    is_state_byte,
};
use crate::text::{lossy_utf8, trim_slice, trimmed};
use crate::vcd::types::{is_float_literal, real_from_bytes};
use crate::trace::vcd_index::{
    id_bytes, id_bytes_of, merge_ok, offsets_ok, space_first_only, Col, LoadIndex, OffCol,
    VcdHeader,
};
use crate::vcd::types::{ValueView, VcdValue};

verus! {

// ---------------------------------------------------------------------------
// Routing a query over the loaded waveforms
// ---------------------------------------------------------------------------

/// What a query needs of a loaded waveform: its full signal names and its
/// largest timestamp index.
pub struct TraceSummary {
    pub names: Vec<String>,
    pub max_index: usize,
}

/// A waveform resolves a name (see `resolved_index`).
pub open spec fn resolves(t: TraceSummary, name: Seq<u8>) -> bool {
    resolved_index(names_bytes(t.names@), name) is Some
}

/// The first waveform, in load order from `k`, that resolves `name`.
pub open spec fn first_resolving(traces: Seq<TraceSummary>, name: Seq<u8>, k: int) -> Option<int>
    decreases traces.len() - k,
{
    if k < 0 || k >= traces.len() {
        None
    } else if resolves(traces[k], name) {
        Some(k)
    } else {
        first_resolving(traces, name, k + 1)
    }
}

proof fn lemma_first_resolving_range(traces: Seq<TraceSummary>, name: Seq<u8>, k: int)
    requires
        0 <= k,
    ensures
        first_resolving(traces, name, k) matches Some(i) ==> k <= i < traces.len() && resolves(
            traces[i],
            name,
        ),
    decreases traces.len() - k,
{
    if k < traces.len() && !resolves(traces[k], name) {
        lemma_first_resolving_range(traces, name, k + 1);
    }
}

/// The waveform that answers a name: the first, in load order, that
/// resolves it.
pub fn source_of(traces: &[TraceSummary], name: &str) -> (r: Option<usize>)
    ensures
        match r {
            Some(i) => first_resolving(traces@, name.spec_bytes(), 0) == Some(i as int),
            None => first_resolving(traces@, name.spec_bytes(), 0) is None,
        },
{
    let mut k: usize = 0;
    while k < traces.len()
        invariant
            k <= traces@.len(),
            first_resolving(traces@, name.spec_bytes(), 0) == first_resolving(
                traces@,
                name.spec_bytes(),
                k as int,
            ),
        decreases traces@.len() - k,
    {
        if resolve_index(traces[k].names.as_slice(), name).is_some() {
            return Some(k);
        }
        k = k + 1;
    }
    None
}

/// The waveforms that answer the first `n` names, each once, in the order
/// the names first reach them.
pub open spec fn sources_upto(traces: Seq<TraceSummary>, names: Seq<Seq<u8>>, n: int) -> Seq<usize>
    decreases n,
{
    if n <= 0 {
        Seq::empty()
    } else {
        let prev = sources_upto(traces, names, n - 1);
        match first_resolving(traces, names[n - 1], 0) {
            Some(i) => if prev.contains(i as usize) {
                prev
            } else {
                prev.push(i as usize)
            },
            None => prev,
        }
    }
}

/// The waveforms a query over `names` reads: for no names, the first
/// waveform loaded; else, for each name in turn, the waveform that answers
/// it, each waveform once.
pub open spec fn source_list(traces: Seq<TraceSummary>, names: Seq<String>) -> Seq<usize> {
    if names.len() == 0 {
        if traces.len() > 0 {
            seq![0usize]
        } else {
            Seq::empty()
        }
    } else {
        sources_upto(traces, names_bytes(names), names.len() as int)
    }
}

fn holds_usize(v: &Vec<usize>, x: usize) -> (r: bool)
    ensures
        r == v@.contains(x),
{
    let mut i: usize = 0;
    while i < v.len()
        invariant
            i <= v@.len(),
            forall|k: int| 0 <= k < i ==> v@[k] != x,
        decreases v@.len() - i,
    {
        if v[i] == x {
            assert(v@[i as int] == x);
            return true;
        }
        i = i + 1;
    }
    false
}

/// The waveforms a query over `names` reads (see `source_list`).
pub fn source_ids(traces: &[TraceSummary], names: &[String]) -> (r: Vec<usize>)
    ensures
        r@ == source_list(traces@, names@),
{
    if names.len() == 0 {
        let mut out: Vec<usize> = Vec::new();
        if traces.len() > 0 {
            out.push(0);
        }
        assert(out@ =~= source_list(traces@, names@));
        return out;
    }
    let ghost nb = names_bytes(names@);
    let mut out: Vec<usize> = Vec::new();
    let mut j: usize = 0;
    while j < names.len()
        invariant
            j <= names@.len(),
            nb == names_bytes(names@),
            out@ == sources_upto(traces@, nb, j as int),
        decreases names@.len() - j,
    {
        let nm: &str = names[j].as_str();
        assert(nb[j as int] == nm.spec_bytes());
        match source_of(traces, nm) {
            Some(i) => {
                if !holds_usize(&out, i) {
                    out.push(i);
                }
            },
            None => {},
        }
        j = j + 1;
    }
    out
}

/// The largest index among the listed waveforms (0 for none).
pub open spec fn max_index_of(traces: Seq<TraceSummary>, ids: Seq<usize>) -> usize
    decreases ids.len(),
{
    if ids.len() == 0 {
        0
    } else {
        let m = max_index_of(traces, ids.drop_last());
        let i = ids.last() as int;
        let here = if 0 <= i < traces.len() { traces[i].max_index } else { 0 };
        if here > m { here } else { m }
    }
}

/// The upper end of a query's index space: the largest index among the
/// waveforms it reads (0 when it reads none). A waveform that is not read
/// does not widen it.
pub fn index_space_max(traces: &[TraceSummary], names: &[String]) -> (m: usize)
    ensures
        m == max_index_of(traces@, source_list(traces@, names@)),
{
    let ids = source_ids(traces, names);
    let mut m: usize = 0;
    let mut k: usize = 0;
    while k < ids.len()
        invariant
            k <= ids@.len(),
            m == max_index_of(traces@, ids@.take(k as int)),
        decreases ids@.len() - k,
    {
        let i = ids[k];
        let here: usize = if i < traces.len() {
            traces[i].max_index
        } else {
            0
        };
        if here > m {
            m = here;
        }
        proof {
            assert(ids@.take(k + 1).drop_last() =~= ids@.take(k as int));
        }
        k = k + 1;
    }
    assert(ids@.take(k as int) =~= ids@);
    m
}


// ---------------------------------------------------------------------------
// Find conditions over a change list
// ---------------------------------------------------------------------------

/// The integer value of a bit or bit vector (see `i64_of`); none for a real.
pub open spec fn vcd_i64(v: ValueView) -> Option<i64> {
    match v {
        ValueView::Bit(b) => i64_of(ScalarView::Bit(b)),
        ValueView::Vector(s) => i64_of(ScalarView::Vector(s)),
        ValueView::Real(_) => None,
    }
}

/// A bit or one bit of a vector is `lo` or `up`.
pub open spec fn vcd_has(v: ValueView, lo: u8, up: u8) -> bool {
    match v {
        ValueView::Bit(b) => b == lo || b == up,
        ValueView::Vector(s) => has_either(s, lo, up),
        ValueView::Real(_) => false,
    }
}

/// Whether `val` (with `prev` before it, if any) meets `cond`: a rising
/// (falling) edge goes from a defined zero to a defined non-zero (or back),
/// or from the bit '0' to '1' (or back); high and low are the single bits
/// '1' and '0'; a byte value matches a single bit (see `bit_is`) or the
/// integer value of a wider one; an i64 value matches the integer value,
/// the "not" forms are their negations; x and z look for one such bit in
/// either case; changed needs a previous value that is not the same state.
pub open spec fn vcd_cond(val: ValueView, prev: Option<ValueView>, cond: FindCondition) -> bool {
    let prev_bit = match prev {
        Some(p) => bit_of(p),
        None => None,
    };
    let prev_zero = match prev {
        Some(p) => zero_of(p),
        None => None,
    };
    match cond {
        FindCondition::Rising => (prev_zero == Some(true) && zero_of(val) == Some(false)) || (
        prev_bit == Some(0x30u8) && bit_of(val) == Some(0x31u8)),
        FindCondition::Falling => (prev_zero == Some(false) && zero_of(val) == Some(true)) || (
        prev_bit == Some(0x31u8) && bit_of(val) == Some(0x30u8)),
        FindCondition::High => bit_of(val) == Some(0x31u8),
        FindCondition::Low => bit_of(val) == Some(0x30u8),
        FindCondition::Value(v) => match bit_of(val) {
            Some(bit) => bit_is(bit, v),
            None => vcd_i64(val) == Some(v as i64),
        },
        FindCondition::ValueI64(t) => vcd_i64(val) == Some(t),
        FindCondition::Neq(v) => match bit_of(val) {
            Some(bit) => !bit_is(bit, v),
            None => vcd_i64(val) != Some(v as i64),
        },
        FindCondition::NeqI64(t) => vcd_i64(val) != Some(t),
        FindCondition::IsX => vcd_has(val, 0x78, 0x58),
        FindCondition::IsZ => vcd_has(val, 0x7A, 0x5A),
        FindCondition::Changed => match prev {
            Some(p) => !same_state(p, val),
            None => false,
        },
    }
}

fn vcd_to_i64(v: &VcdValue) -> (r: Option<i64>)
    ensures
        r == vcd_i64(v@),
{
    match v {
        VcdValue::Bit(b) => sv_to_i64(&ScalarValue::Bit(*b)),
        VcdValue::Vector(x) => {
            let c: Vec<u8> = vstd::slice::slice_to_vec(x.as_slice());
            sv_to_i64(&ScalarValue::Vector(c))
        },
        VcdValue::Real(_) => None,
    }
}

fn vcd_has_exec(v: &VcdValue, lo: u8, up: u8) -> (r: bool)
    ensures
        r == vcd_has(v@, lo, up),
{
    match v {
        VcdValue::Bit(b) => *b == lo || *b == up,
        VcdValue::Vector(x) => check_has_either(x.as_slice(), lo, up),
        VcdValue::Real(_) => false,
    }
}

/// The view of an optional value.
pub open spec fn opt_value(o: Option<&VcdValue>) -> Option<ValueView> {
    match o {
        Some(v) => Some(v@),
        None => None,
    }
}

/// Whether a value meets a condition (see `vcd_cond`).
pub fn find_cond_matches(val: &VcdValue, prev: Option<&VcdValue>, cond: &FindCondition) -> (r: bool)
    ensures
        r == vcd_cond(val@, opt_value(prev), *cond),
{
    let prev_bit: Option<u8> = match prev {
        Some(p) => val_to_bit(p),
        None => None,
    };
    let prev_zero: Option<bool> = match prev {
        Some(p) => vcd_is_zero(p),
        None => None,
    };
    match cond {
        FindCondition::Rising => {
            (prev_zero == Some(true) && vcd_is_zero(val) == Some(false)) || (prev_bit == Some(0x30u8)
                && val_to_bit(val) == Some(0x31u8))
        },
        FindCondition::Falling => {
            (prev_zero == Some(false) && vcd_is_zero(val) == Some(true)) || (prev_bit == Some(0x31u8)
                && val_to_bit(val) == Some(0x30u8))
        },
        FindCondition::High => val_to_bit(val) == Some(0x31u8),
        FindCondition::Low => val_to_bit(val) == Some(0x30u8),
        FindCondition::Value(v) => match val_to_bit(val) {
            Some(bit) => bit == *v || (bit == 0x31 && *v == 1) || (bit == 0x30 && *v == 0),
            None => vcd_to_i64(val) == Some(*v as i64),
        },
        FindCondition::ValueI64(t) => vcd_to_i64(val) == Some(*t),
        FindCondition::Neq(v) => match val_to_bit(val) {
            Some(bit) => !(bit == *v || (bit == 0x31 && *v == 1) || (bit == 0x30 && *v == 0)),
            None => vcd_to_i64(val) != Some(*v as i64),
        },
        FindCondition::NeqI64(t) => vcd_to_i64(val) != Some(*t),
        FindCondition::IsX => vcd_has_exec(val, 0x78, 0x58),
        FindCondition::IsZ => vcd_has_exec(val, 0x7A, 0x5A),
        FindCondition::Changed => match prev {
            Some(p) => !vcd_semantic_eq(p, val),
            None => false,
        },
    }
}

/// The indices `lo .. hi`.
pub open spec fn index_range(lo: int, hi: int) -> Seq<usize> {
    if hi <= lo {
        Seq::empty()
    } else {
        Seq::new((hi - lo) as nat, |i: int| (lo + i) as usize)
    }
}

/// A change list's values by their views.
pub open spec fn changes_view(changes: Seq<(u32, VcdValue)>) -> Seq<(u32, ValueView)> {
    changes.map_values(|c: (u32, VcdValue)| (c.0, c.1@))
}

/// An edge condition: rising, falling or changed.
pub open spec fn edge_cond(cond: FindCondition) -> bool {
    cond is Rising || cond is Falling || cond is Changed
}

/// Where the change after change `k` starts (one past the last index when
/// there is none).
pub open spec fn next_start(cs: Seq<(u32, ValueView)>, k: int, max_index: int) -> int {
    if k + 1 < cs.len() { cs[k + 1].0 as int } else { max_index + 1 }
}

/// The indices before the first change where a level condition holds of
/// the initial value.
pub open spec fn head_indices(
    cs: Seq<(u32, ValueView)>,
    initial: ValueView,
    cond: FindCondition,
    max_index: int,
) -> Seq<usize> {
    if !edge_cond(cond) && vcd_cond(initial, None, cond) {
        let first = if cs.len() > 0 { cs[0].0 as int } else { max_index + 1 };
        index_range(0, if first < max_index + 1 { first } else { max_index + 1 })
    } else {
        Seq::empty()
    }
}

/// The walk over the first `k` changes: the indices found, the previous
/// value, and whether a change past the last index stopped it. The first
/// change follows the initial value, unless it is at index 0; a matching
/// change yields its index (edges) or the indices it holds for (levels).
pub open spec fn change_walk(
    cs: Seq<(u32, ValueView)>,
    initial: ValueView,
    cond: FindCondition,
    max_index: int,
    k: int,
) -> (Seq<usize>, Option<ValueView>, bool)
    decreases k,
{
    if k <= 0 {
        let prev = if cs.len() > 0 && cs[0].0 == 0 { None } else { Some(initial) };
        (head_indices(cs, initial, cond, max_index), prev, false)
    } else {
        let (r, prev, stopped) = change_walk(cs, initial, cond, max_index, k - 1);
        let (idx, v) = cs[k - 1];
        if stopped || idx > max_index {
            (r, prev, true)
        } else if !vcd_cond(v, prev, cond) {
            (r, Some(v), false)
        } else if edge_cond(cond) {
            (r.push(idx as usize), Some(v), false)
        } else {
            let end = next_start(cs, k - 1, max_index);
            (r + index_range(idx as int, if end < max_index + 1 { end } else { max_index + 1 }), Some(v), false)
        }
    }
}

/// The indices, up to `max_index`, at which a condition holds of a signal
/// with this initial value and change list (see `change_walk`).
pub open spec fn find_spec(
    cs: Seq<(u32, ValueView)>,
    initial: ValueView,
    cond: FindCondition,
    max_index: int,
) -> Seq<usize> {
    change_walk(cs, initial, cond, max_index, cs.len() as int).0
}

proof fn lemma_walk_stopped(
    cs: Seq<(u32, ValueView)>,
    initial: ValueView,
    cond: FindCondition,
    max_index: int,
    j: int,
    n: int,
)
    requires
        0 < j <= n,
        change_walk(cs, initial, cond, max_index, j).2,
    ensures
        change_walk(cs, initial, cond, max_index, n) == change_walk(cs, initial, cond, max_index, j),
    decreases n - j,
{
    if n > j {
        lemma_walk_stopped(cs, initial, cond, max_index, j, n - 1);
    }
}

fn push_range(out: &mut Vec<usize>, lo: usize, hi: usize)
    ensures
        final(out)@ == old(out)@ + index_range(lo as int, hi as int),
{
    let ghost start = out@;
    let mut i: usize = lo;
    while i < hi
        invariant
            lo <= i <= hi || (hi <= lo && i == lo),
            out@ == start + index_range(lo as int, i as int),
        decreases hi - i,
    {
        out.push(i);
        proof {
            assert(index_range(lo as int, i + 1) =~= index_range(lo as int, i as int).push(i));
        }
        i = i + 1;
    }
    if hi <= lo {
        assert(index_range(lo as int, hi as int) =~= Seq::<usize>::empty());
        assert(out@ =~= start + index_range(lo as int, hi as int));
    }
}

/// The indices, up to `max_index`, at which a condition holds of a signal
/// with this initial value and change list (see `find_spec`).
pub fn find_indices(
    max_index: usize,
    changes: &[(u32, VcdValue)],
    initial: &VcdValue,
    cond: &FindCondition,
) -> (r: Vec<usize>)
    requires
        max_index < usize::MAX,
    ensures
        r@ == find_spec(changes_view(changes@), initial@, *cond, max_index as int),
{
    let ghost cs = changes_view(changes@);
    let is_edge = match cond {
        FindCondition::Rising | FindCondition::Falling | FindCondition::Changed => true,
        _ => false,
    };
    let first_is_zero = changes.len() > 0 && changes[0].0 == 0;
    let mut prev: Option<&VcdValue> = if first_is_zero { None } else { Some(initial) };
    let mut indices: Vec<usize> = Vec::new();
    if !is_edge && find_cond_matches(initial, None, cond) {
        let first: usize = if changes.len() > 0 { changes[0].0 as usize } else { max_index + 1 };
        let hi: usize = if first < max_index + 1 { first } else { max_index + 1 };
        push_range(&mut indices, 0, hi);
    }
    assert(indices@ =~= change_walk(cs, initial@, *cond, max_index as int, 0).0);
    let mut k: usize = 0;
    while k < changes.len()
        invariant_except_break
            change_walk(cs, initial@, *cond, max_index as int, k as int) == (indices@, opt_value(prev), false),
        invariant
            k <= changes@.len(),
            cs == changes_view(changes@),
            max_index < usize::MAX,
            is_edge == edge_cond(*cond),
        ensures
            change_walk(cs, initial@, *cond, max_index as int, cs.len() as int).0 == indices@,
        decreases changes@.len() - k,
    {
        let idx: usize = changes[k].0 as usize;
        let v: &VcdValue = &changes[k].1;
        assert(cs[k as int] == (changes@[k as int].0, v@));
        if idx > max_index {
            proof {
                lemma_walk_stopped(cs, initial@, *cond, max_index as int, k + 1, cs.len() as int);
            }
            break;
        }
        let matched = find_cond_matches(v, prev, cond);
        prev = Some(v);
        if matched {
            if is_edge {
                indices.push(idx);
            } else {
                let end: usize = if k + 1 < changes.len() { changes[k + 1].0 as usize } else { max_index + 1 };
                let hi: usize = if end < max_index + 1 { end } else { max_index + 1 };
                proof {
                    if k + 1 < changes@.len() {
                        assert(cs[k + 1] == (changes@[k + 1].0, changes@[k + 1].1@));
                    }
                }
                push_range(&mut indices, idx, hi);
            }
        }
        k = k + 1;
    }
    indices
}


// ---------------------------------------------------------------------------
// A signal's change list
// ---------------------------------------------------------------------------

/// A change list with one more change: a change at the index of the last
/// one replaces it (the last write wins), any other is appended.
pub open spec fn add_change(cs: Seq<(u32, ValueView)>, idx: u32, v: ValueView) -> Seq<(u32, ValueView)> {
    if cs.len() > 0 && cs.last().0 == idx {
        cs.update(cs.len() - 1, (idx, v))
    } else {
        cs.push((idx, v))
    }
}

/// The changes a value column holds: per entry its index and its unpacked
/// value.
pub open spec fn col_change_list(c: Seq<u32>, states: Seq<u128>, width: usize) -> Seq<(u32, ValueView)> {
    Seq::new(c.len(), |i: int| (c[i], states_value(states[i] as nat, width as nat)))
}

/// The change list of a value column (see `col_change_list`).
pub fn col_changes(col: &Col) -> (r: Vec<(u32, VcdValue)>)
    requires
        col.width <= 64,
        col.idxs@.len() == col.states@.len(),
    ensures
        changes_view(r@) == col_change_list(col.idxs@, col.states@, col.width),
{
    let mut out: Vec<(u32, VcdValue)> = Vec::new();
    let mut i: usize = 0;
    while i < col.idxs.len()
        invariant
            i <= col.idxs@.len(),
            col.idxs@.len() == col.states@.len(),
            col.width <= 64,
            changes_view(out@) == col_change_list(col.idxs@, col.states@, col.width).take(i as int),
        decreases col.idxs@.len() - i,
    {
        let v = vcd_from_states(col.states[i], col.width);
        let ghost before = out@;
        out.push((col.idxs[i], v));
        proof {
            assert(changes_view(out@) =~= changes_view(before).push((col.idxs@[i as int], v@)));
            assert(changes_view(out@) =~= col_change_list(col.idxs@, col.states@, col.width).take(i + 1));
        }
        i = i + 1;
    }
    assert(col_change_list(col.idxs@, col.states@, col.width).take(i as int) =~= col_change_list(
        col.idxs@,
        col.states@,
        col.width,
    ));
    out
}

/// Where the line holding byte `pos` starts.
pub open spec fn line_start_before(d: Seq<u8>, pos: int) -> int
    decreases pos,
{
    if pos <= 0 {
        0
    } else if d[pos - 1] == 0x0A {
        pos
    } else {
        line_start_before(d, pos - 1)
    }
}

/// A line that cannot be read: at least two bytes, with its last space
/// first.
pub open spec fn unreadable(line: Seq<u8>) -> bool {
    !(line.len() < 2 || last_space(line, line.len() as int) != 0)
}

/// The changes an offsets column names, read from the lines at its
/// offsets (past the data's end, an offset is skipped; a line that does
/// not parse is skipped); `None` when one of the lines cannot be read.
pub open spec fn off_change_list(idxs: Seq<u32>, offs: Seq<u64>, d: Seq<u8>, k: int) -> Option<Seq<(u32, ValueView)>>
    decreases k,
{
    if k <= 0 {
        Some(Seq::empty())
    } else {
        match off_change_list(idxs, offs, d, k - 1) {
            None => None,
            Some(prev) => {
                let pos = offs[k - 1] as int;
                if pos >= d.len() {
                    Some(prev)
                } else {
                    let line = d.subrange(line_start_before(d, pos), first_of(d, 0x0A, pos));
                    if unreadable(line) {
                        None
                    } else {
                        match value_change_of(line) {
                            Some((_h, v)) => Some(prev.push((idxs[k - 1], v))),
                            None => Some(prev),
                        }
                    }
                }
            },
        }
    }
}

proof fn lemma_line_start_before(d: Seq<u8>, pos: int)
    requires
        0 <= pos <= d.len(),
    ensures
        0 <= line_start_before(d, pos) <= pos,
    decreases pos,
{
    if pos > 0 && d[pos - 1] != 0x0A {
        lemma_line_start_before(d, pos - 1);
    }
}

fn line_start_exec(data: &[u8], pos: usize) -> (r: usize)
    requires
        pos <= data@.len(),
    ensures
        r == line_start_before(data@, pos as int),
        r <= pos,
{
    let mut p: usize = pos;
    while p > 0 && data[p - 1] != 0x0A
        invariant
            p <= pos <= data@.len(),
            line_start_before(data@, p as int) == line_start_before(data@, pos as int),
        decreases p,
    {
        p = p - 1;
    }
    p
}

fn line_end_exec(data: &[u8], pos: usize) -> (r: usize)
    requires
        pos <= data@.len(),
    ensures
        r == first_of(data@, 0x0A, pos as int),
        pos <= r <= data@.len(),
{
    let mut p: usize = pos;
    while p < data.len() && data[p] != 0x0A
        invariant
            pos <= p <= data@.len(),
            first_of(data@, 0x0A, p as int) == first_of(data@, 0x0A, pos as int),
        decreases data@.len() - p,
    {
        p = p + 1;
    }
    p
}

proof fn lemma_off_none(idxs: Seq<u32>, offs: Seq<u64>, d: Seq<u8>, k: int, n: int)
    requires
        0 < k <= n,
        off_change_list(idxs, offs, d, k) is None,
    ensures
        off_change_list(idxs, offs, d, n) is None,
    decreases n - k,
{
    if n > k {
        lemma_off_none(idxs, offs, d, k, n - 1);
    }
}

/// The change list of an offsets column (see `off_change_list`).
pub fn off_changes(off: &OffCol, data: &[u8]) -> (r: Option<Vec<(u32, VcdValue)>>)
    requires
        off.idxs@.len() == off.offsets@.len(),
    ensures
        match r {
            Some(v) => off_change_list(off.idxs@, off.offsets@, data@, off.idxs@.len() as int) == Some(
                changes_view(v@),
            ),
            None => off_change_list(off.idxs@, off.offsets@, data@, off.idxs@.len() as int) is None,
        },
{
    let mut out: Vec<(u32, VcdValue)> = Vec::new();
    let mut k: usize = 0;
    while k < off.idxs.len()
        invariant
            k <= off.idxs@.len(),
            off.idxs@.len() == off.offsets@.len(),
            off_change_list(off.idxs@, off.offsets@, data@, k as int) == Some(changes_view(out@)),
        decreases off.idxs@.len() - k,
    {
        let pos64 = off.offsets[k];
        if pos64 < data.len() as u64 {
            let pos = pos64 as usize;
            let ls = line_start_exec(data, pos);
            let le = line_end_exec(data, pos);
            let line: &[u8] = vstd::slice::slice_subrange(data, ls, le);
            if space_first_only(line) {
                proof {
                    assert(off_change_list(off.idxs@, off.offsets@, data@, k + 1) is None);
                    lemma_off_none(off.idxs@, off.offsets@, data@, k + 1, off.idxs@.len() as int);
                }
                return None;
            }
            match parse_value_change_fast(line) {
                Some((_h, v)) => {
                    let ghost before = out@;
                    out.push((off.idxs[k], v));
                    proof {
                        assert(changes_view(out@) =~= changes_view(before).push((off.idxs@[k as int], v@)));
                    }
                },
                None => {},
            }
        }
        k = k + 1;
    }
    Some(out)
}


// ---------------------------------------------------------------------------
// Changes found by scanning the dump for a signal's identifier
// ---------------------------------------------------------------------------

/// `line` ends with `id`.
pub open spec fn ends_with(line: Seq<u8>, id: Seq<u8>) -> bool {
    line.len() >= id.len() && line.skip(line.len() - id.len()) == id
}

/// The value of a line that ends with the identifier, which starts at
/// `is`: a vector's bits run from after 'b' to the space before the
/// identifier (or to the identifier); a real's trimmed text must be a
/// float literal, else the value is 'x'; anything else is the scalar of
/// the first byte. `None` where the value's range is empty-ended (a 'b'
/// or 'r' line that is only the identifier).
pub open spec fn id_line_value(line: Seq<u8>, is: int) -> Option<ValueView> {
    if line[0] == 0x62 {
        if is == 0 {
            None
        } else {
            let ve = is - 1;
            if ve > 1 && line[ve] == 0x20 {
                Some(ValueView::Vector(line.subrange(1, ve)))
            } else {
                Some(ValueView::Vector(line.subrange(1, is)))
            }
        }
    } else if line[0] == 0x72 {
        if is == 0 {
            None
        } else {
            let t = trimmed(line.subrange(1, is));
            if is_float_literal(t) {
                Some(ValueView::Real(lossy_utf8(t)))
            } else {
                Some(ValueView::Bit(0x78))
            }
        }
    } else {
        Some(ValueView::Bit(line[0]))
    }
}

/// The line reads as a change of the identifier `id`.
pub open spec fn reads_as_id(line: Seq<u8>, id: Seq<u8>) -> bool {
    match value_change_of(line) {
        Some((hh, _v)) => hh == id_hash(id),
        None => false,
    }
}

/// One newline-terminated line of the scan: a timestamp line counts; a
/// value line ending with the identifier is a change of the signal when
/// the identifier follows a space or starts the line, or follows a state
/// byte and the line reads as a change of that identifier. A change before
/// the first timestamp is left out; one at the index of the last replaces
/// it. `None` once a line that had to be read cannot be.
pub open spec fn id_scan_step(
    st: Option<(Seq<(u32, ValueView)>, int)>,
    line: Seq<u8>,
    id: Seq<u8>,
) -> Option<(Seq<(u32, ValueView)>, int)> {
    match st {
        None => None,
        Some((cs, n)) => if line.len() > 0 && line[0] == 0x23 && ts_line(line) {
            Some((cs, n + 1))
        } else if line.len() > 0 && line[0] != 0x24 && ends_with(line, id) {
            let is = line.len() - id.len();
            let plain = is == 0 || line[is - 1] == 0x20;
            let stc = is > 0 && is_state_byte(line[is - 1]);
            if !plain && stc && unreadable(line) {
                None
            } else if plain || (stc && reads_as_id(line, id)) {
                match id_line_value(line, is) {
                    None => None,
                    Some(v) => if n > 0 {
                        Some((add_change(cs, (n - 1) as u32, v), n))
                    } else {
                        Some((cs, n))
                    },
                }
            } else {
                Some((cs, n))
            }
        } else {
            Some((cs, n))
        }
    }
}

/// The scan over the newline-terminated lines of `d` from `p` (see
/// `id_scan_step`).
pub open spec fn id_scan(
    d: Seq<u8>,
    p: int,
    id: Seq<u8>,
    st: Option<(Seq<(u32, ValueView)>, int)>,
) -> Option<(Seq<(u32, ValueView)>, int)>
    decreases d.len() - p,
{
    if p < 0 || p >= d.len() {
        st
    } else {
        let e = first_of(d, 0x0A, p);
        if e >= d.len() || e < p {
            st
        } else {
            id_scan(d, e + 1, id, id_scan_step(st, d.subrange(p, e), id))
        }
    }
}

proof fn lemma_id_scan_none(d: Seq<u8>, p: int, id: Seq<u8>)
    ensures
        id_scan(d, p, id, None) is None,
    decreases d.len() - p,
{
    if 0 <= p < d.len() {
        let e = first_of(d, 0x0A, p);
        if p <= e < d.len() {
            lemma_id_scan_none(d, e + 1, id);
        }
    }
}

fn ends_with_exec(line: &[u8], id: &[u8]) -> (r: bool)
    ensures
        r == ends_with(line@, id@),
{
    if line.len() < id.len() {
        return false;
    }
    let off = line.len() - id.len();
    let mut i: usize = 0;
    while i < id.len()
        invariant
            i <= id@.len(),
            id@.len() <= line@.len(),
            off + id@.len() == line@.len(),
            forall|k: int| 0 <= k < i ==> line@[off + k] == id@[k],
        decreases id@.len() - i,
    {
        let ix: usize = line.len() - id.len() + i;
        if line[ix] != id[i] {
            assert(line@.skip(off as int)[i as int] != id@[i as int]);
            return false;
        }
        i = i + 1;
    }
    assert(line@.skip(off as int) =~= id@);
    true
}

fn id_line_value_exec(line: &[u8], is: usize) -> (r: Option<VcdValue>)
    requires
        line@.len() > 0,
        is <= line@.len(),
    ensures
        match r {
            Some(v) => id_line_value(line@, is as int) == Some(v@),
            None => id_line_value(line@, is as int) is None,
        },
{
    if line[0] == 0x62 {
        if is == 0 {
            return None;
        }
        let ve = is - 1;
        if ve > 1 && line[ve] == 0x20 {
            Some(VcdValue::Vector(vstd::slice::slice_to_vec(vstd::slice::slice_subrange(line, 1, ve))))
        } else {
            Some(VcdValue::Vector(vstd::slice::slice_to_vec(vstd::slice::slice_subrange(line, 1, is))))
        }
    } else if line[0] == 0x72 {
        if is == 0 {
            return None;
        }
        let t = trim_slice(vstd::slice::slice_subrange(line, 1, is));
        match real_from_bytes(t) {
            Some(v) => Some(v),
            None => Some(VcdValue::Bit(0x78)),
        }
    } else {
        Some(VcdValue::Bit(line[0]))
    }
}

fn push_change(out: &mut Vec<(u32, VcdValue)>, idx: u32, v: VcdValue)
    ensures
        changes_view(final(out)@) == add_change(changes_view(old(out)@), idx, v@),
{
    let ghost before = changes_view(out@);
    let n = out.len();
    if n > 0 && out[n - 1].0 == idx {
        out.set(n - 1, (idx, v));
        assert(changes_view(out@) =~= before.update(n - 1, (idx, v@)));
    } else {
        out.push((idx, v));
        assert(changes_view(out@) =~= before.push((idx, v@)));
    }
}

/// The changes of the signal with identifier `id`, found by scanning the
/// lines of `data` from `start` (see `id_scan`); `None` when a line that
/// had to be read cannot be.
pub fn id_scan_changes(data: &[u8], start: usize, id: &[u8]) -> (r: Option<Vec<(u32, VcdValue)>>)
    requires
        start <= data@.len(),
    ensures
        match r {
            Some(v) => id_scan(data@, start as int, id@, Some((Seq::empty(), 0))) matches Some((cs, _n))
                && cs == changes_view(v@),
            None => id_scan(data@, start as int, id@, Some((Seq::empty(), 0))) is None,
        },
{
    let ghost d = data@;
    let ghost target = id_scan(d, start as int, id@, Some((Seq::empty(), 0)));
    let h = hash_sig_id(id);
    let mut out: Vec<(u32, VcdValue)> = Vec::new();
    let mut n: usize = 0;
    let mut p: usize = start;
    proof {
        assert(changes_view(out@) =~= Seq::<(u32, ValueView)>::empty());
    }
    while p < data.len()
        invariant_except_break
            id_scan(d, p as int, id@, Some((changes_view(out@), n as int))) == target,
        invariant
            d == data@,
            start <= p <= data@.len(),
            n <= p,
            h == id_hash(id@),
            target == id_scan(d, start as int, id@, Some((Seq::empty(), 0))),
        ensures
            id_scan(d, p as int, id@, Some((changes_view(out@), n as int))) == target,
            id_scan(d, p as int, id@, Some((changes_view(out@), n as int))) == Some((changes_view(out@), n as int)),
        decreases data@.len() - p,
    {
        let ls = p;
        let le = line_end_exec(data, p);
        if le >= data.len() {
            break;
        }
        let ghost cur = Some((changes_view(out@), n as int));
        let line: &[u8] = vstd::slice::slice_subrange(data, ls, le);
        p = le + 1;
        proof {
            assert(id_scan(d, ls as int, id@, cur) == id_scan(d, p as int, id@, id_scan_step(cur, line@, id@)));
        }
        if line.len() > 0 && line[0] == 0x23 && is_ts_line(line) {
            n = n + 1;
        } else if line.len() > 0 && line[0] != 0x24 && ends_with_exec(line, id) {
            let is = line.len() - id.len();
            let plain = is == 0 || line[is - 1] == 0x20;
            let b = if is > 0 { line[is - 1] } else { 0 };
            let stc = is > 0 && (b == 0x30 || b == 0x31 || b == 0x78 || b == 0x58 || b == 0x7A || b == 0x5A);
            if !plain && stc && space_first_only(line) {
                proof {
                    lemma_id_scan_none(d, p as int, id@);
                }
                return None;
            }
            let exact = plain || (stc && match parse_value_change_fast(line) {
                Some((hh, _v)) => hh == h,
                None => false,
            });
            if exact {
                match id_line_value_exec(line, is) {
                    None => {
                        proof {
                            lemma_id_scan_none(d, p as int, id@);
                        }
                        return None;
                    },
                    Some(v) => {
                        if n > 0 {
                            push_change(&mut out, (n - 1) as u32, v);
                        }
                    },
                }
            }
        }
    }
    proof {
        if p >= data.len() {
            assert(id_scan(d, p as int, id@, Some((changes_view(out@), n as int))) == Some((changes_view(out@), n as int)));
        }
    }
    Some(out)
}


// ---------------------------------------------------------------------------
// Where a signal's changes come from
// ---------------------------------------------------------------------------

/// The view of an optional change list.
pub open spec fn opt_changes(o: Option<Vec<(u32, VcdValue)>>) -> Option<Seq<(u32, ValueView)>> {
    match o {
        Some(v) => Some(changes_view(v@)),
        None => None,
    }
}

/// A signal's change list: from its value column if it has one, else from
/// its offsets column, else by scanning the dump (from the header's end)
/// for its identifier; `None` when the signal has no identifier or a line
/// that had to be read cannot be.
pub open spec fn changes_of(idx: &LoadIndex, d: Seq<u8>, hdr: &VcdHeader, sig: u32) -> Option<Seq<(u32, ValueView)>> {
    let s = sig as int;
    if s < idx.col_cache@.len() && idx.col_cache@[s] is Some {
        let c = idx.col_cache@[s].unwrap();
        Some(col_change_list(c.idxs@, c.states@, c.width))
    } else if s < idx.off_cache@.len() && idx.off_cache@[s] is Some {
        let o = idx.off_cache@[s].unwrap();
        off_change_list(o.idxs@, o.offsets@, d, o.idxs@.len() as int)
    } else {
        match id_bytes_of(hdr.id_offsets@, hdr.id_blob@, sig) {
            None => None,
            Some(id) => {
                let start = if hdr.header_end_offset <= d.len() { hdr.header_end_offset as int } else { d.len() as int };
                match id_scan(d, start, id, Some((Seq::empty(), 0))) {
                    Some((cs, _n)) => Some(cs),
                    None => None,
                }
            },
        }
    }
}

/// A signal's change list (see `changes_of`). The value columns are at
/// most 64 bits wide and every column holds one value (or offset) per
/// index.
pub fn anchored_changes(idx: &LoadIndex, data: &[u8], hdr: &VcdHeader, sig: u32) -> (r: Option<Vec<(u32, VcdValue)>>)
    requires
        merge_ok(idx.merged()),
        forall|s: int| 0 <= s < idx.col_cache@.len() && (#[trigger] idx.col_cache@[s]) is Some
            ==> idx.col_cache@[s].unwrap().width <= 64,
        offsets_ok(hdr.id_offsets@, hdr.id_blob@),
    ensures
        opt_changes(r) == changes_of(idx, data@, hdr, sig),
{
    let s = sig as usize;
    if s < idx.col_cache.len() {
        match &idx.col_cache[s] {
            Some(c) => {
                proof {
                    assert(idx.merged().cols[s as int] == Some(c@));
                }
                return Some(col_changes(c));
            },
            None => {},
        }
    }
    if s < idx.off_cache.len() {
        match &idx.off_cache[s] {
            Some(o) => {
                proof {
                    assert(idx.merged().offs[s as int] == Some(o@));
                }
                return off_changes(o, data);
            },
            None => {},
        }
    }
    let id = match id_bytes(&hdr.id_offsets, &hdr.id_blob, sig) {
        Some(b) => b,
        None => {
            return None;
        },
    };
    let start: usize = if hdr.header_end_offset <= data.len() as u64 {
        hdr.header_end_offset as usize
    } else {
        data.len()
    };
    id_scan_changes(data, start, id)
}

// ---------------------------------------------------------------------------
// A signal's value at a time
// ---------------------------------------------------------------------------

/// The walk over the lines of the dump for the value of the signal with
/// identifier hash `h` at time `t`: the last value seen, whether a
/// timestamp line was seen, and whether a timestamp past `t` stopped it.
/// At each timestamp line not past `t` an event signal reads '0'; a value
/// line after the first timestamp line that reads as a change of the
/// signal gives its value. `None` once such a line cannot be read.
pub open spec fn value_step(
    st: Option<(Option<ValueView>, bool, bool)>,
    line: Seq<u8>,
    h: u64,
    t: u64,
    is_event: bool,
) -> Option<(Option<ValueView>, bool, bool)> {
    match st {
        None => None,
        Some((last, seen, stopped)) => if stopped {
            st
        } else if line.len() > 0 && line[0] == 0x23 && ts_line(line) {
            if line_timestamp(line) > t {
                Some((last, seen, true))
            } else if is_event {
                Some((Some(ValueView::Bit(0x30)), true, false))
            } else {
                Some((last, true, false))
            }
        } else if !seen || line.len() == 0 {
            st
        } else if unreadable(line) {
            None
        } else {
            match value_change_of(line) {
                Some((hh, v)) => if hh == h {
                    Some((Some(v), seen, false))
                } else {
                    st
                },
                None => st,
            }
        }
    }
}

/// The walk over the lines of `d` from `p` (the last one may lack its
/// newline).
pub open spec fn value_walk(
    d: Seq<u8>,
    p: int,
    h: u64,
    t: u64,
    is_event: bool,
    st: Option<(Option<ValueView>, bool, bool)>,
) -> Option<(Option<ValueView>, bool, bool)>
    decreases d.len() - p,
{
    if p < 0 || p >= d.len() {
        st
    } else {
        let e = first_of(d, 0x0A, p);
        if e < p || e > d.len() {
            st
        } else if e >= d.len() {
            value_step(st, d.subrange(p, e), h, t, is_event)
        } else {
            value_walk(d, e + 1, h, t, is_event, value_step(st, d.subrange(p, e), h, t, is_event))
        }
    }
}

proof fn lemma_value_walk_none(d: Seq<u8>, p: int, h: u64, t: u64, is_event: bool)
    ensures
        value_walk(d, p, h, t, is_event, None) is None,
    decreases d.len() - p,
{
    if 0 <= p < d.len() {
        let e = first_of(d, 0x0A, p);
        lemma_first_of_bound(d, 0x0A, p);
        if p <= e < d.len() {
            lemma_value_walk_none(d, e + 1, h, t, is_event);
        }
    }
}

/// The value of a signal at time `t`: 'x' before the first timestamp (or
/// with no identifier); else the last value the walk from the header's end
/// gives, or the initial value when it gives none. `None` when a line that
/// had to be read cannot be.
pub open spec fn value_at(
    d: Seq<u8>,
    hdr: &VcdHeader,
    times: Seq<u64>,
    sig: u32,
    t: u64,
    initial: ValueView,
) -> Option<ValueView> {
    if forall|j: int| 0 <= j < times.len() ==> times[j] > t {
        Some(ValueView::Bit(0x78))
    } else {
        match id_bytes_of(hdr.id_offsets@, hdr.id_blob@, sig) {
            None => Some(ValueView::Bit(0x78)),
            Some(id) => {
                let start = if hdr.header_end_offset <= d.len() { hdr.header_end_offset as int } else { d.len() as int };
                let is_event = hdr.event_signals@.contains(sig);
                match value_walk(d, start, id_hash(id), t, is_event, Some((None, false, false))) {
                    None => None,
                    Some((last, _seen, _stopped)) => match last {
                        Some(v) => Some(v),
                        None => Some(initial),
                    },
                }
            },
        }
    }
}

fn holds_sig(v: &Vec<u32>, x: u32) -> (r: bool)
    ensures
        r == v@.contains(x),
{
    let mut i: usize = 0;
    while i < v.len()
        invariant
            i <= v@.len(),
            forall|k: int| 0 <= k < i ==> v@[k] != x,
        decreases v@.len() - i,
    {
        if v[i] == x {
            assert(v@[i as int] == x);
            return true;
        }
        i = i + 1;
    }
    false
}

/// The value of signal `sig` at time `t` (see `value_at`), with its
/// initial value from the dump's first values.
pub fn read_signal_value_at(
    data: &[u8],
    hdr: &VcdHeader,
    ts: &TsStore,
    sig: u32,
    t: u64,
    initial: &VcdValue,
) -> (r: Option<VcdValue>)
    requires
        ts.wf(),
        offsets_ok(hdr.id_offsets@, hdr.id_blob@),
    ensures
        opt_value_owned(r) == value_at(data@, hdr, ts@, sig, t, initial@),
{
    match ts.search(t) {
        Err(0) => {
            return Some(VcdValue::Bit(0x78));
        },
        Ok(i) => {
            assert(!(ts@[i as int] > t));
        },
        Err(i) => {
            assert(ts@[0] < t);
        },
    }
    let id = match id_bytes(&hdr.id_offsets, &hdr.id_blob, sig) {
        Some(b) => b,
        None => {
            return Some(VcdValue::Bit(0x78));
        },
    };
    let h = hash_sig_id(id);
    let is_event = holds_sig(&hdr.event_signals, sig);
    let start: usize = if hdr.header_end_offset <= data.len() as u64 {
        hdr.header_end_offset as usize
    } else {
        data.len()
    };
    let ghost d = data@;
    let ghost target = value_walk(d, start as int, h, t, is_event, Some((None, false, false)));
    let mut last: Option<VcdValue> = None;
    let mut seen = false;
    let mut p: usize = start;
    while p < data.len()
        invariant_except_break
            value_walk(d, p as int, h, t, is_event, Some((opt_value_owned(last), seen, false))) == target,
        invariant
            d == data@,
            p <= data@.len(),
            h == id_hash(id@),
            value_at(data@, hdr, ts@, sig, t, initial@) == match target {
                None => None,
                Some((l, _a, _b)) => match l {
                    Some(v) => Some(v),
                    None => Some(initial@),
                },
            },
        ensures
            target matches Some((l, _a, _b)) && l == opt_value_owned(last),
        decreases data@.len() - p,
    {
        let ls = p;
        let le = line_end_exec(data, p);
        let ghost cur = Some((opt_value_owned(last), seen, false));
        let line: &[u8] = vstd::slice::slice_subrange(data, ls, le);
        if le < data.len() {
            p = le + 1;
        } else {
            p = data.len();
        }
        proof {
            assert(value_walk(d, ls as int, h, t, is_event, cur) == value_walk(d, p as int, h, t, is_event,
                value_step(cur, line@, h, t, is_event)));
        }
        if line.len() > 0 && line[0] == 0x23 && is_ts_line(line) {
            let lt = parse_timestamp_fast(line);
            if lt > t {
                proof {
                    lemma_value_walk_stopped(d, p as int, h, t, is_event, value_step(cur, line@, h, t, is_event));
                }
                break;
            }
            if is_event {
                last = Some(VcdValue::Bit(0x30));
            }
            seen = true;
        } else if !seen || line.len() == 0 {
        } else {
            if space_first_only(line) {
                proof {
                    lemma_value_walk_none(d, p as int, h, t, is_event);
                }
                return None;
            }
            match parse_value_change_fast(line) {
                Some((hh, v)) => {
                    if hh == h {
                        last = Some(v);
                    }
                },
                None => {},
            }
        }
    }
    match last {
        Some(v) => Some(v),
        None => Some(copy_value(initial)),
    }
}

proof fn lemma_value_walk_stopped(
    d: Seq<u8>,
    p: int,
    h: u64,
    t: u64,
    is_event: bool,
    st: Option<(Option<ValueView>, bool, bool)>,
)
    requires
        st matches Some((_l, _s, stopped)) && stopped,
    ensures
        value_walk(d, p, h, t, is_event, st) == st,
    decreases d.len() - p,
{
    if 0 <= p < d.len() {
        let e = first_of(d, 0x0A, p);
        lemma_first_of_bound(d, 0x0A, p);
        if p <= e < d.len() {
            lemma_value_walk_stopped(d, e + 1, h, t, is_event, st);
        }
    }
}

/// A copy of a value.
fn copy_value(v: &VcdValue) -> (r: VcdValue)
    ensures
        r@ == v@,
{
    match v {
        VcdValue::Bit(b) => VcdValue::Bit(*b),
        VcdValue::Vector(x) => VcdValue::Vector(vstd::slice::slice_to_vec(x.as_slice())),
        VcdValue::Real(t) => VcdValue::Real(t.as_str().to_owned()),
    }
}

/// The view of an optional owned value.
pub open spec fn opt_value_owned(o: Option<VcdValue>) -> Option<ValueView> {
    match o {
        Some(v) => Some(v@),
        None => None,
    }
}


/// One query of a batch: a signal's change list, its initial value and the
/// condition.
pub struct FindQuery {
    pub changes: Vec<(u32, VcdValue)>,
    pub initial: VcdValue,
    pub cond: FindCondition,
}

/// Every query of a batch answered over the same index space (see
/// `find_spec`).
pub fn find_indices_batch(max_index: usize, queries: &[FindQuery]) -> (r: Vec<Vec<usize>>)
    requires
        max_index < usize::MAX,
    ensures
        r@.len() == queries@.len(),
        forall|i: int| 0 <= i < r@.len() ==> (#[trigger] r@[i])@ == find_spec(
            changes_view(queries@[i].changes@),
            queries@[i].initial@,
            queries@[i].cond,
            max_index as int,
        ),
{
    let mut out: Vec<Vec<usize>> = Vec::new();
    let mut i: usize = 0;
    while i < queries.len()
        invariant
            i <= queries@.len(),
            out@.len() == i,
            max_index < usize::MAX,
            forall|k: int| 0 <= k < i ==> (#[trigger] out@[k])@ == find_spec(
                changes_view(queries@[k].changes@),
                queries@[k].initial@,
                queries@[k].cond,
                max_index as int,
            ),
        decreases queries@.len() - i,
    {
        let q = &queries[i];
        out.push(find_indices(max_index, q.changes.as_slice(), &q.initial, &q.cond));
        i = i + 1;
    }
    out
}


proof fn lemma_walk_within(
    cs: Seq<(u32, ValueView)>,
    initial: ValueView,
    cond: FindCondition,
    max_index: int,
    k: int,
)
    requires
        0 <= max_index,
    ensures
        forall|j: int| 0 <= j < change_walk(cs, initial, cond, max_index, k).0.len()
            ==> (#[trigger] change_walk(cs, initial, cond, max_index, k).0[j]) <= max_index,
    decreases k,
{
    let w = change_walk(cs, initial, cond, max_index, k);
    if k <= 0 {
        let first = if cs.len() > 0 { cs[0].0 as int } else { max_index + 1 };
        let hi = if first < max_index + 1 { first } else { max_index + 1 };
        assert forall|j: int| 0 <= j < index_range(0, hi).len() implies #[trigger] index_range(0, hi)[j]
            <= max_index by {}
    } else {
        lemma_walk_within(cs, initial, cond, max_index, k - 1);
        let (r, prev, stopped) = change_walk(cs, initial, cond, max_index, k - 1);
        let (idx, v) = cs[k - 1];
        if !(stopped || idx > max_index) && vcd_cond(v, prev, cond) && !edge_cond(cond) {
            let end = next_start(cs, k - 1, max_index);
            let hi = if end < max_index + 1 { end } else { max_index + 1 };
            let ir = index_range(idx as int, hi);
            assert forall|j: int| 0 <= j < ir.len() implies #[trigger] ir[j] <= max_index by {}
            assert forall|j: int| 0 <= j < w.0.len() implies #[trigger] w.0[j] <= max_index by {
                if j < r.len() {
                    assert(w.0[j] == r[j]);
                } else {
                    assert(w.0[j] == ir[j - r.len()]);
                }
            }
        }
    }
}

/// Every index a find returns lies in the query's index space `0 ..=
/// max_index`.
pub proof fn lemma_find_in_index_space(
    cs: Seq<(u32, ValueView)>,
    initial: ValueView,
    cond: FindCondition,
    max_index: usize,
)
    ensures
        forall|j: int| 0 <= j < find_spec(cs, initial, cond, max_index as int).len()
            ==> (#[trigger] find_spec(cs, initial, cond, max_index as int)[j]) <= max_index,
{
    lemma_walk_within(cs, initial, cond, max_index as int, cs.len() as int);
}


/// A rising edge is a change: when a value rises from `prev`, it is not
/// the same state as `prev`.
pub proof fn lemma_rising_is_change(val: ValueView, prev: ValueView)
    requires
        vcd_cond(val, Some(prev), FindCondition::Rising),
    ensures
        vcd_cond(val, Some(prev), FindCondition::Changed),
{
    if same_state(prev, val) {
        match prev {
            ValueView::Vector(s) => {
                if s.len() > 0 {
                    assert(s[0] == s[0]);
                }
            },
            _ => {},
        }
        match val {
            ValueView::Vector(s) => {
                if s.len() > 0 {
                    assert(s[0] == s[0]);
                }
            },
            _ => {},
        }
    }
}

/// From 'x' to '1' is a change but no rising edge.
pub proof fn lemma_x_to_one()
    ensures
        vcd_cond(ValueView::Bit(0x31), Some(ValueView::Bit(0x78)), FindCondition::Changed),
        !vcd_cond(ValueView::Bit(0x31), Some(ValueView::Bit(0x78)), FindCondition::Rising),
{
}

/// Falling is rising reversed: a value falls from `prev` exactly when
/// `prev` rises from it.
pub proof fn lemma_falling_is_rising_reversed(val: ValueView, prev: ValueView)
    ensures
        vcd_cond(val, Some(prev), FindCondition::Falling) == vcd_cond(
            prev,
            Some(val),
            FindCondition::Rising,
        ),
{
}

/// Edges of bit vectors: from a vector of '0'/'1' bits with a '1' in it to
/// a vector of '0' bits is a falling edge, and the other way round a rising
/// one, whatever their widths.
pub proof fn lemma_vector_edges(hi: Seq<u8>, lo: Seq<u8>, k: int)
    requires
        forall|i: int| 0 <= i < hi.len() ==> hi[i] == '0' as u8 || hi[i] == '1' as u8,
        0 <= k < hi.len(),
        hi[k] == '1' as u8,
        forall|i: int| 0 <= i < lo.len() ==> lo[i] == '0' as u8,
    ensures
        vcd_cond(ValueView::Vector(lo), Some(ValueView::Vector(hi)), FindCondition::Falling),
        vcd_cond(ValueView::Vector(hi), Some(ValueView::Vector(lo)), FindCondition::Rising),
        !vcd_cond(ValueView::Vector(hi), Some(ValueView::Vector(lo)), FindCondition::Falling),
        !vcd_cond(ValueView::Vector(lo), Some(ValueView::Vector(hi)), FindCondition::Rising),
{
    assert(!crate::trace::vcd::all_zero(hi));
    assert(crate::trace::vcd::all_defined(hi));
    assert(crate::trace::vcd::all_defined(lo));
    assert(crate::trace::vcd::all_zero(lo));
}

proof fn lemma_walk_rising_changed(
    cs: Seq<(u32, ValueView)>,
    initial: ValueView,
    max_index: int,
    k: int,
)
    ensures
        change_walk(cs, initial, FindCondition::Rising, max_index, k).1 == change_walk(
            cs,
            initial,
            FindCondition::Changed,
            max_index,
            k,
        ).1,
        change_walk(cs, initial, FindCondition::Rising, max_index, k).2 == change_walk(
            cs,
            initial,
            FindCondition::Changed,
            max_index,
            k,
        ).2,
        forall|x: usize| change_walk(cs, initial, FindCondition::Rising, max_index, k).0.contains(x)
            ==> change_walk(cs, initial, FindCondition::Changed, max_index, k).0.contains(x),
    decreases k,
{
    let r = change_walk(cs, initial, FindCondition::Rising, max_index, k);
    let c = change_walk(cs, initial, FindCondition::Changed, max_index, k);
    if k <= 0 {
        assert(r.0 =~= Seq::<usize>::empty());
    } else {
        lemma_walk_rising_changed(cs, initial, max_index, k - 1);
        let r0 = change_walk(cs, initial, FindCondition::Rising, max_index, k - 1);
        let c0 = change_walk(cs, initial, FindCondition::Changed, max_index, k - 1);
        let (idx, v) = cs[k - 1];
        if !(r0.2 || idx > max_index) {
            if vcd_cond(v, r0.1, FindCondition::Rising) {
                lemma_rising_is_change(v, r0.1.unwrap());
                assert forall|x: usize| r.0.contains(x) implies c.0.contains(x) by {
                    if x != idx as usize {
                        assert(r0.0.contains(x));
                        let j = choose|j: int| 0 <= j < r0.0.len() && r0.0[j] == x;
                        let j2 = choose|j2: int| 0 <= j2 < c0.0.len() && c0.0[j2] == x;
                        assert(c.0[j2] == x);
                    } else {
                        assert(c.0[c.0.len() - 1] == x);
                    }
                }
            } else {
                assert forall|x: usize| r.0.contains(x) implies c.0.contains(x) by {
                    let j2 = choose|j2: int| 0 <= j2 < c0.0.len() && c0.0[j2] == x;
                    assert(c.0[j2] == x);
                }
            }
        }
    }
}

/// Every index where a signal rises is one where it changes.
pub proof fn lemma_rising_within_changed(cs: Seq<(u32, ValueView)>, initial: ValueView, max_index: int)
    ensures
        forall|x: usize| find_spec(cs, initial, FindCondition::Rising, max_index).contains(x)
            ==> find_spec(cs, initial, FindCondition::Changed, max_index).contains(x),
{
    lemma_walk_rising_changed(cs, initial, max_index, cs.len() as int);
}


/// The waveform that answers a query on a name: the first, in load order,
/// that resolves it (later ones never answer, and their index sets are
/// never merged in), or the error that no loaded waveform has the name.
pub fn route_name(traces: &[TraceSummary], name: &str) -> (r: Result<usize, String>)
    ensures
        match r {
            Ok(i) => first_resolving(traces@, name.spec_bytes(), 0) == Some(i as int),
            Err(e) => first_resolving(traces@, name.spec_bytes(), 0) is None && e@ == "signal '"@ + name@
                + "' not found in any loaded trace"@,
        },
{
    match source_of(traces, name) {
        Some(i) => Ok(i),
        None => {
            let mut e = "signal '".to_owned();
            e.append(name);
            e.append("' not found in any loaded trace");
            Err(e)
        },
    }
}

} // verus!
