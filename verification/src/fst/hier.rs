//! Parsers for the signal tables of an FST file: the hierarchy records
//! (scopes and variables) and the signal entries of a geometry block.
use vstd::prelude::*;
use vstd::string::StringSliceAdditionalSpecFns;

use crate::bytes::{le32, lemma_le32_roundtrip, read_u32_le, u32_from_le};
use crate::fst::blocks::{geom_entries, geom_entry, str_bytes};
use crate::fst::types::{
    lemma_var_type_code_roundtrip, scope_type_of_code, sig_views, var_type_code, var_type_of_code, ScopeType, SignalDecl, SignalView, VarType,
};
use crate::fst::varint::{
    decode_varint, lemma_decode_varint_len, lemma_encode_varint_len, spec_decode_varint,
    spec_encode_varint,
};
use crate::trace::fsdb::lemma_decode_varint_prefix;
use crate::text::{lossy_utf8, string_from_utf8_lossy};

verus! {

/// A scope of the hierarchy.
#[derive(Debug, Clone)]
pub struct ScopeInfo {
    pub name: String,
    pub scope_type: ScopeType,
    /// Index of the enclosing scope in the file's scope list.
    pub parent_idx: Option<usize>,
}

/// What a scope holds, its name as characters.
pub struct ScopeView {
    pub name: Seq<char>,
    pub scope_type: ScopeType,
    pub parent_idx: Option<usize>,
}

impl View for ScopeInfo {
    type V = ScopeView;

    open spec fn view(&self) -> ScopeView {
        ScopeView { name: self.name@, scope_type: self.scope_type, parent_idx: self.parent_idx }
    }
}

/// The views of a sequence of scopes.
pub open spec fn scope_views(s: Seq<ScopeInfo>) -> Seq<ScopeView> {
    s.map_values(|x: ScopeInfo| x@)
}

// ---------------------------------------------------------------------------
// Null-terminated strings
// ---------------------------------------------------------------------------

/// Number of bytes from `p` up to the first zero byte (or the end).
pub open spec fn cstr_len(d: Seq<u8>, p: int) -> nat
    decreases d.len() - p,
{
    if p < 0 || p >= d.len() || d[p] == 0 {
        0
    } else {
        1 + cstr_len(d, p + 1)
    }
}

/// The string that starts at `p`, read as lossy UTF-8.
pub open spec fn cstr_at_spec(d: Seq<u8>, p: int) -> Seq<char> {
    lossy_utf8(d.subrange(p, p + cstr_len(d, p)))
}

pub proof fn lemma_cstr_len_bound(d: Seq<u8>, p: int)
    requires
        0 <= p <= d.len(),
    ensures
        p + cstr_len(d, p) <= d.len(),
        p + cstr_len(d, p) < d.len() ==> d[p + cstr_len(d, p)] == 0,
        forall|j: int| p <= j < p + cstr_len(d, p) ==> d[j] != 0,
    decreases d.len() - p,
{
    if p < d.len() && d[p] != 0 {
        lemma_cstr_len_bound(d, p + 1);
    }
}

/// The string that starts at `p` and the bytes it takes with its
/// terminator (one more than its length, also when it runs to the end).
pub fn cstr_at(d: &[u8], p: usize) -> (r: (String, usize))
    requires
        p <= d@.len(),
        d@.len() < usize::MAX,
    ensures
        r.0@ == cstr_at_spec(d@, p as int),
        r.1 == cstr_len(d@, p as int) + 1,
{
    let mut q: usize = p;
    proof {
        lemma_cstr_len_bound(d@, p as int);
    }
    while q < d.len() && d[q] != 0
        invariant
            p <= q <= d@.len(),
            cstr_len(d@, p as int) == (q - p) + cstr_len(d@, q as int),
        decreases d@.len() - q,
    {
        q = q + 1;
    }
    let bytes: &[u8] = vstd::slice::slice_subrange(d, p, q);
    let name = string_from_utf8_lossy(bytes);
    (name, q - p + 1)
}

// ---------------------------------------------------------------------------
// Hierarchy records
// ---------------------------------------------------------------------------

/// The state of the hierarchy parser.
pub struct HierState {
    pub pos: int,
    /// Indices of the open scopes in `scopes`.
    pub stack: Seq<usize>,
    /// Unknown record codes in a row.
    pub unknown: int,
    pub sigs: Seq<SignalView>,
    pub scopes: Seq<ScopeView>,
}

/// One step of the hierarchy parser.
pub enum HierStep {
    Next(HierState),
    Stop(HierState),
    /// The record runs past the end in a way the parser cannot slice.
    Malformed,
}

/// Number of bytes in 0x20..=0x7E (ASCII graphic characters and space).
pub open spec fn printable_count(b: Seq<u8>) -> nat
    decreases b.len(),
{
    if b.len() == 0 {
        0
    } else {
        printable_count(b.drop_last()) + if 0x20 <= b.last() <= 0x7E { 1nat } else { 0 }
    }
}

/// `n - k`, or 0 when `k > n`.
pub open spec fn sat_sub_nat(n: nat, k: nat) -> nat {
    if n >= k { (n - k) as nat } else { 0 }
}

/// A variable's name (as UTF-8 bytes) is kept: not a short alias name, not
/// empty, ASCII, not only control characters, and printable but for at most
/// three characters.
pub open spec fn var_name_ok(b: Seq<u8>, alias: u64) -> bool {
    if alias > 0 && b.len() <= 3 {
        false
    } else if b.len() < 1 {
        false
    } else if !(forall|j: int| 0 <= j < b.len() ==> b[j] < 0x80) {
        false
    } else if forall|j: int| 0 <= j < b.len() ==> (b[j] < 0x20 || b[j] == 0x7F) {
        false
    } else {
        printable_count(b) >= sat_sub_nat(b.len(), 3)
    }
}

/// Position of the first 0xFE at or after `p`, or the end.
pub open spec fn scan_to_fe(d: Seq<u8>, p: int) -> int
    decreases d.len() - p,
{
    if p < 0 || p >= d.len() || d[p] == 0xFE {
        p
    } else {
        scan_to_fe(d, p + 1)
    }
}

/// A variable record after its name: width and alias varints.
pub open spec fn hier_var_tail(
    d: Seq<u8>,
    s: HierState,
    code: u8,
    p3: int,
    name: Seq<char>,
) -> HierStep {
    let nb = str_bytes(name);
    let len = d.len() as int;
    if printable_count(nb) < sat_sub_nat(nb.len(), 1) {
        match spec_decode_varint(d.skip(p3)) {
            None => HierStep::Stop(HierState { pos: p3, unknown: 0, ..s }),
            Some((_w, c)) => {
                let p4 = p3 + c;
                if p4 >= len {
                    HierStep::Stop(HierState { pos: p4, unknown: 0, ..s })
                } else {
                    match spec_decode_varint(d.skip(p4)) {
                        None => HierStep::Stop(HierState { pos: p4, unknown: 0, ..s }),
                        Some((_a, c2)) => HierStep::Next(HierState { pos: p4 + c2, unknown: 0, ..s }),
                    }
                }
            },
        }
    } else {
        match spec_decode_varint(d.skip(p3)) {
            None => HierStep::Stop(HierState { pos: p3, unknown: 0, ..s }),
            Some((w, c)) => {
                let p4 = p3 + c;
                if p4 >= len {
                    HierStep::Stop(HierState { pos: p4, unknown: 0, ..s })
                } else {
                    match spec_decode_varint(d.skip(p4)) {
                        None => HierStep::Stop(HierState { pos: p4, unknown: 0, ..s }),
                        Some((alias, c2)) => {
                            let sigs = if var_name_ok(nb, alias) {
                                s.sigs.push(
                                    SignalView {
                                        handle: s.sigs.len() as u32,
                                        name,
                                        width: w as u32,
                                        var_type: var_type_of_code(code),
                                    },
                                )
                            } else {
                                s.sigs
                            };
                            HierStep::Next(HierState { pos: p4 + c2, unknown: 0, sigs, ..s })
                        },
                    }
                }
            },
        }
    }
}

/// One record of hierarchy data at `s.pos`.
pub open spec fn hier_step(d: Seq<u8>, s: HierState) -> HierStep {
    let len = d.len() as int;
    let code = d[s.pos];
    let p1 = s.pos + 1;
    if code == 0xFC {
        HierStep::Next(HierState { pos: scan_to_fe(d, p1), ..s })
    } else if code == 0xFD {
        HierStep::Next(HierState { pos: p1, unknown: 0, ..s })
    } else if code == 0xFE {
        if p1 >= len {
            HierStep::Stop(HierState { pos: p1, unknown: 0, ..s })
        } else {
            let st = d[p1];
            let p2 = p1 + 1;
            let name = cstr_at_spec(d, p2);
            let p3 = p2 + cstr_len(d, p2) + 1;
            if p3 > len {
                HierStep::Malformed
            } else {
                let p4 = p3 + cstr_len(d, p3) + 1;
                let parent = if s.stack.len() == 0 { None } else { Some(s.stack.last()) };
                let scopes = s.scopes.push(
                    ScopeView { name, scope_type: scope_type_of_code(st), parent_idx: parent },
                );
                HierStep::Next(
                    HierState {
                        pos: p4,
                        unknown: 0,
                        stack: s.stack.push((scopes.len() - 1) as usize),
                        scopes,
                        ..s
                    },
                )
            }
        }
    } else if code == 0xFF {
        HierStep::Next(
            HierState {
                pos: p1,
                unknown: 0,
                stack: if s.stack.len() == 0 { s.stack } else { s.stack.drop_last() },
                ..s
            },
        )
    } else if code <= 29 {
        if p1 >= len {
            HierStep::Stop(HierState { pos: p1, unknown: 0, ..s })
        } else {
            let p2 = p1 + 1;
            let name = cstr_at_spec(d, p2);
            let p3 = p2 + cstr_len(d, p2) + 1;
            if p3 >= len {
                HierStep::Stop(HierState { pos: p3, unknown: 0, ..s })
            } else {
                hier_var_tail(d, s, code, p3, name)
            }
        }
    } else {
        HierStep::Next(HierState { pos: p1, unknown: s.unknown + 1, ..s })
    }
}

/// A step moves forward and stays at most one past the end.
pub proof fn lemma_hier_step_progress(d: Seq<u8>, s: HierState)
    requires
        0 <= s.pos < d.len(),
    ensures
        hier_step(d, s) matches HierStep::Next(t) ==> s.pos < t.pos <= d.len() + 1,
{
    let p1 = s.pos + 1;
    let code = d[s.pos];
    if code == 0xFC {
        lemma_scan_to_fe(d, p1);
    } else if code == 0xFE && p1 < d.len() {
        let p2 = p1 + 1;
        lemma_cstr_len_bound(d, p2);
        let p3 = p2 + cstr_len(d, p2) + 1;
        if p3 <= d.len() {
            lemma_cstr_len_bound(d, p3);
        }
    } else if code <= 29 && p1 < d.len() {
        let p2 = p1 + 1;
        lemma_cstr_len_bound(d, p2);
        let p3 = p2 + cstr_len(d, p2) + 1;
        if p3 < d.len() {
            lemma_decode_varint_len(d.skip(p3));
            if let Some((_w, c)) = spec_decode_varint(d.skip(p3)) {
                if p3 + c < d.len() {
                    lemma_decode_varint_len(d.skip(p3 + c));
                }
            }
        }
    }
}

pub proof fn lemma_scan_to_fe(d: Seq<u8>, p: int)
    requires
        0 <= p <= d.len(),
    ensures
        p <= scan_to_fe(d, p) <= d.len(),
        scan_to_fe(d, p) < d.len() ==> d[scan_to_fe(d, p)] == 0xFE,
    decreases d.len() - p,
{
    if p < d.len() && d[p] != 0xFE {
        lemma_scan_to_fe(d, p + 1);
    }
}

/// The hierarchy parser run from `s` to its end: `None` when it meets a
/// malformed record.
pub open spec fn hier_run(d: Seq<u8>, s: HierState) -> Option<HierState>
    decreases d.len() + 1 - s.pos,
{
    if !(0 <= s.pos < d.len() && s.unknown < 500) {
        Some(s)
    } else {
        proof {
            lemma_hier_step_progress(d, s);
        }
        match hier_step(d, s) {
            HierStep::Next(t) => hier_run(d, t),
            HierStep::Stop(t) => Some(t),
            HierStep::Malformed => None,
        }
    }
}

proof fn lemma_run_stop(d: Seq<u8>, s: HierState, t: HierState)
    requires
        0 <= s.pos < d.len(),
        s.unknown < 500,
        hier_step(d, s) == HierStep::Stop(t),
    ensures
        hier_run(d, s) == Some(t),
{
}

proof fn lemma_run_malformed(d: Seq<u8>, s: HierState)
    requires
        0 <= s.pos < d.len(),
        s.unknown < 500,
        hier_step(d, s) == HierStep::Malformed,
    ensures
        hier_run(d, s) is None,
{
}

/// The parser's state at the start of hierarchy data.
pub open spec fn hier_start(sigs: Seq<SignalView>, scopes: Seq<ScopeView>) -> HierState {
    HierState { pos: 0, stack: Seq::empty(), unknown: 0, sigs, scopes }
}

/// Bytes `0x20..=0x7E` in `b`.
fn count_printable(b: &[u8]) -> (n: usize)
    ensures
        n == printable_count(b@),
{
    let mut n: usize = 0;
    let mut i: usize = 0;
    while i < b.len()
        invariant
            i <= b@.len(),
            n == printable_count(b@.take(i as int)),
            n <= i,
        decreases b@.len() - i,
    {
        proof {
            let t = b@.take(i + 1);
            assert(t.drop_last() =~= b@.take(i as int));
        }
        if 0x20 <= b[i] && b[i] <= 0x7E {
            n = n + 1;
        }
        i = i + 1;
    }
    assert(b@.take(b@.len() as int) =~= b@);
    n
}

/// Whether a variable's name is kept.
fn var_name_ok_exec(b: &[u8], alias: u64) -> (r: bool)
    ensures
        r == var_name_ok(b@, alias),
{
    if alias > 0 && b.len() <= 3 {
        return false;
    }
    if b.len() < 1 {
        return false;
    }
    let mut i: usize = 0;
    while i < b.len()
        invariant
            i <= b@.len(),
            forall|j: int| 0 <= j < i ==> b@[j] < 0x80,
        decreases b@.len() - i,
    {
        if b[i] >= 0x80 {
            return false;
        }
        i = i + 1;
    }
    let mut k: usize = 0;
    let mut all_control: bool = true;
    while k < b.len()
        invariant
            k <= b@.len(),
            all_control == forall|j: int| 0 <= j < k ==> (b@[j] < 0x20 || b@[j] == 0x7F),
        decreases b@.len() - k,
    {
        if !(b[k] < 0x20 || b[k] == 0x7F) {
            all_control = false;
        }
        k = k + 1;
    }
    if all_control {
        return false;
    }
    let p = count_printable(b);
    let lim: usize = if b.len() >= 3 { b.len() - 3 } else { 0 };
    p >= lim
}

/// Parse hierarchy records, adding the scopes and the kept variables to
/// `scopes` and `signals`. Returns false, with the lists in an unspecified
/// state, on a scope record whose name runs to the end of the data.
pub fn parse_hier_data(data: &[u8], signals: &mut Vec<SignalDecl>, scopes: &mut Vec<ScopeInfo>) -> (ok: bool)
    requires
        data@.len() < usize::MAX,
    ensures
        ok == hier_run(data@, hier_start(sig_views(old(signals)@), scope_views(old(scopes)@))) is Some,
        ok ==> sig_views(final(signals)@) == hier_run(
            data@,
            hier_start(sig_views(old(signals)@), scope_views(old(scopes)@)),
        )->0.sigs,
        ok ==> scope_views(final(scopes)@) == hier_run(
            data@,
            hier_start(sig_views(old(signals)@), scope_views(old(scopes)@)),
        )->0.scopes,
{
    let ghost d = data@;
    let ghost start = hier_start(sig_views(signals@), scope_views(scopes@));
    let len: usize = data.len();
    let mut pos: usize = 0;
    let mut stack: Vec<usize> = Vec::new();
    let mut unknown: u32 = 0;
    loop
        invariant
            d == data@,
            len == d.len(),
            len < usize::MAX,
            start == hier_start(sig_views(old(signals)@), scope_views(old(scopes)@)),
            pos <= len + 1,
            unknown <= 500,
            hier_run(d, start) == hier_run(
                d,
                HierState {
                    pos: pos as int,
                    stack: stack@,
                    unknown: unknown as int,
                    sigs: sig_views(signals@),
                    scopes: scope_views(scopes@),
                },
            ),
        decreases len + 1 - pos,
    {
        let ghost s = HierState {
            pos: pos as int,
            stack: stack@,
            unknown: unknown as int,
            sigs: sig_views(signals@),
            scopes: scope_views(scopes@),
        };
        if !(pos < len && unknown < 500) {
            assert(hier_run(d, s) == Some(s));
            return true;
        }
        proof {
            lemma_hier_step_progress(d, s);
        }
        let code: u8 = data[pos];
        let p1: usize = pos + 1;
        if code == 0xFC {
            let mut q: usize = p1;
            proof {
                lemma_scan_to_fe(d, p1 as int);
            }
            while q < len && data[q] != 0xFE
                invariant
                    p1 <= q <= len,
                    len == d.len(),
                    d == data@,
                    scan_to_fe(d, p1 as int) == scan_to_fe(d, q as int),
                decreases len - q,
            {
                q = q + 1;
            }
            pos = q;
        } else if code == 0xFD {
            unknown = 0;
            pos = p1;
        } else if code == 0xFE {
            if p1 >= len {
                proof {
                    lemma_run_stop(d, s, HierState { pos: p1 as int, unknown: 0, ..s });
                }
                return true;
            }
            unknown = 0;
            let st: u8 = data[p1];
            let p2: usize = p1 + 1;
            let (name, c) = cstr_at(data, p2);
            proof {
                lemma_cstr_len_bound(d, p2 as int);
            }
            let p3: usize = p2 + c;
            if p3 > len {
                proof {
                    lemma_run_malformed(d, s);
                }
                return false;
            }
            let (_comp, c2) = cstr_at(data, p3);
            proof {
                lemma_cstr_len_bound(d, p3 as int);
            }
            let parent: Option<usize> = if stack.len() == 0 {
                None
            } else {
                Some(stack[stack.len() - 1])
            };
            scopes.push(ScopeInfo { name, scope_type: ScopeType::from_u8(st), parent_idx: parent });
            stack.push(scopes.len() - 1);
            pos = p3 + c2;
            proof {
                assert(scope_views(scopes@) =~= s.scopes.push(
                    ScopeView {
                        name: cstr_at_spec(d, p2 as int),
                        scope_type: scope_type_of_code(st),
                        parent_idx: parent,
                    },
                ));
            }
        } else if code == 0xFF {
            unknown = 0;
            if stack.len() > 0 {
                let _ = stack.pop();
            }
            pos = p1;
        } else if code <= 29 {
            if p1 >= len {
                proof {
                    lemma_run_stop(d, s, HierState { pos: p1 as int, unknown: 0, ..s });
                }
                return true;
            }
            unknown = 0;
            let p2: usize = p1 + 1;
            let (name, c) = cstr_at(data, p2);
            proof {
                lemma_cstr_len_bound(d, p2 as int);
            }
            let p3: usize = p2 + c;
            if p3 >= len {
                proof {
                    lemma_run_stop(d, s, HierState { pos: p3 as int, unknown: 0, ..s });
                }
                return true;
            }
            let nb: &[u8] = name.as_str().as_bytes();
            let printable: usize = count_printable(nb);
            let lim1: usize = if nb.len() >= 1 { nb.len() - 1 } else { 0 };
            let rest3: &[u8] = vstd::slice::slice_subrange(data, p3, len);
            assert(rest3@ =~= d.skip(p3 as int));
            proof {
                lemma_decode_varint_len(rest3@);
            }
            if printable < lim1 {
                match decode_varint(rest3) {
                    None => {
                        return true;
                    },
                    Some((_w, c3)) => {
                        let p4: usize = p3 + c3;
                        if p4 >= len {
                            return true;
                        }
                        let rest4: &[u8] = vstd::slice::slice_subrange(data, p4, len);
                        assert(rest4@ =~= d.skip(p4 as int));
                        proof {
                            lemma_decode_varint_len(rest4@);
                        }
                        match decode_varint(rest4) {
                            None => {
                                return true;
                            },
                            Some((_a, c4)) => {
                                pos = p4 + c4;
                            },
                        }
                    },
                }
            } else {
                match decode_varint(rest3) {
                    None => {
                        return true;
                    },
                    Some((width, c3)) => {
                        let p4: usize = p3 + c3;
                        if p4 >= len {
                            return true;
                        }
                        let rest4: &[u8] = vstd::slice::slice_subrange(data, p4, len);
                        assert(rest4@ =~= d.skip(p4 as int));
                        proof {
                            lemma_decode_varint_len(rest4@);
                        }
                        match decode_varint(rest4) {
                            None => {
                                return true;
                            },
                            Some((alias, c4)) => {
                                if var_name_ok_exec(nb, alias) {
                                    let h: u32 = signals.len() as u32;
                                    signals.push(
                                        SignalDecl {
                                            handle: h,
                                            name,
                                            width: width as u32,
                                            var_type: VarType::from_u8(code),
                                        },
                                    );
                                    proof {
                                        assert(sig_views(signals@) =~= s.sigs.push(
                                            SignalView {
                                                handle: s.sigs.len() as u32,
                                                name: cstr_at_spec(d, p2 as int),
                                                width: width as u32,
                                                var_type: var_type_of_code(code),
                                            },
                                        ));
                                    }
                                }
                                pos = p4 + c4;
                            },
                        }
                    },
                }
            }
        } else {
            unknown = unknown + 1;
            pos = p1;
        }
    }
}

// ---------------------------------------------------------------------------
// Geometry entries
// ---------------------------------------------------------------------------

/// The signal entries of a little-endian geometry block from `pos` on:
/// handle (u32), name length (varint), name, type, direction, width (u32);
/// parsing stops at the first entry that does not fit or whose name is
/// longer than 1024 bytes.
pub open spec fn geom_entries_parse(d: Seq<u8>, pos: int, sigs: Seq<SignalView>) -> Seq<SignalView>
    decreases d.len() - pos,
{
    if pos < 0 || pos + 6 > d.len() {
        sigs
    } else {
        let handle = u32_from_le(d.subrange(pos, pos + 4));
        let p1 = pos + 4;
        match spec_decode_varint(d.skip(p1)) {
            None => sigs,
            Some((name_len, c)) => {
                let p2 = p1 + c;
                if name_len > 1024 || p2 + name_len + 6 > d.len() {
                    sigs
                } else {
                    let name = lossy_utf8(d.subrange(p2, p2 + name_len));
                    let p3 = p2 + name_len;
                    let sig = SignalView {
                        handle,
                        name,
                        width: u32_from_le(d.subrange(p3 + 2, p3 + 6)),
                        var_type: var_type_of_code(d[p3]),
                    };
                    geom_entries_parse(d, p3 + 6, sigs.push(sig))
                }
            },
        }
    }
}

/// Parse the signal entries of a little-endian geometry block into `signals`.
pub fn parse_geom_entries(data: &[u8], signals: &mut Vec<SignalDecl>)
    ensures
        sig_views(final(signals)@) == geom_entries_parse(data@, 0, sig_views(old(signals)@)),
{
    let ghost d = data@;
    let len: usize = data.len();
    let mut pos: usize = 0;
    while pos <= len && len - pos >= 6
        invariant
            d == data@,
            len == d.len(),
            pos <= len,
            geom_entries_parse(d, 0, sig_views(old(signals)@)) == geom_entries_parse(
                d,
                pos as int,
                sig_views(signals@),
            ),
        decreases len - pos,
    {
        let handle: u32 = read_u32_le(data, pos);
        let p1: usize = pos + 4;
        let rest: &[u8] = vstd::slice::slice_subrange(data, p1, len);
        assert(rest@ =~= d.skip(p1 as int));
        proof {
            lemma_decode_varint_len(rest@);
        }
        match decode_varint(rest) {
            None => {
                return ;
            },
            Some((name_len, c)) => {
                let p2: usize = p1 + c;
                if name_len > 1024 || (name_len as usize) + 6 > len - p2 {
                    return ;
                }
                let nl: usize = name_len as usize;
                let name = string_from_utf8_lossy(vstd::slice::slice_subrange(data, p2, p2 + nl));
                let p3: usize = p2 + nl;
                let var_type: u8 = data[p3];
                let width: u32 = read_u32_le(data, p3 + 2);
                let ghost before = sig_views(signals@);
                signals.push(SignalDecl { handle, name, width, var_type: VarType::from_u8(var_type) });
                proof {
                    assert(sig_views(signals@) =~= before.push(
                        SignalView {
                            handle,
                            name: lossy_utf8(d.subrange(p2 as int, p2 + nl)),
                            width,
                            var_type: var_type_of_code(var_type),
                        },
                    ));
                }
                pos = p3 + 6;
            },
        }
    }
}

// ---------------------------------------------------------------------------
// Reading back written geometry entries
// ---------------------------------------------------------------------------

/// A signal as the geometry parser gives it back: the same handle, width
/// and type, and its name's bytes read as text.
pub open spec fn geom_read_back(s: SignalView) -> SignalView {
    SignalView {
        handle: s.handle,
        name: lossy_utf8(str_bytes(s.name)),
        width: s.width,
        var_type: s.var_type,
    }
}

proof fn lemma_geom_entries_front(sigs: Seq<SignalView>)
    requires
        sigs.len() > 0,
    ensures
        geom_entries(sigs) == geom_entry(sigs[0]) + geom_entries(sigs.drop_first()),
    decreases sigs.len(),
{
    if sigs.len() == 1 {
        assert(sigs.drop_last() =~= Seq::<SignalView>::empty());
        assert(sigs.drop_first() =~= Seq::<SignalView>::empty());
        assert(geom_entries(Seq::<SignalView>::empty()) =~= Seq::<u8>::empty());
        assert(geom_entries(sigs) =~= geom_entry(sigs[0]) + geom_entries(sigs.drop_first()));
    } else {
        lemma_geom_entries_front(sigs.drop_last());
        assert(sigs.drop_last().drop_first() =~= sigs.drop_first().drop_last());
        assert(sigs.drop_last()[0] == sigs[0]);
        assert(sigs.drop_first().last() == sigs.last());
        assert(geom_entries(sigs) =~= geom_entry(sigs[0]) + geom_entries(sigs.drop_first()));
    }
}

proof fn lemma_skip_shift(d: Seq<u8>, i: int, j: int)
    requires
        0 <= i,
        0 <= j,
        i + j <= d.len(),
    ensures
        d.skip(i).skip(j) == d.skip(i + j),
{
    assert(d.skip(i).skip(j) =~= d.skip(i + j));
}

proof fn lemma_split_at(a: Seq<u8>, b: Seq<u8>)
    ensures
        (a + b).take(a.len() as int) == a,
        (a + b).skip(a.len() as int) == b,
{
    assert((a + b).take(a.len() as int) =~= a);
    assert((a + b).skip(a.len() as int) =~= b);
}

/// Reading one written entry at `pos`: the parser takes its signal back and
/// goes on right after it.
proof fn lemma_geom_read_entry(d: Seq<u8>, pos: int, s0: SignalView, more: Seq<u8>, acc: Seq<SignalView>)
    requires
        0 <= pos <= d.len(),
        d.skip(pos) == geom_entry(s0) + more,
        str_bytes(s0.name).len() <= 1024,
    ensures
        pos + geom_entry(s0).len() <= d.len(),
        d.skip(pos + geom_entry(s0).len()) == more,
        geom_entries_parse(d, pos, acc) == geom_entries_parse(
            d,
            pos + geom_entry(s0).len(),
            acc.push(geom_read_back(s0)),
        ),
{
    let name = str_bytes(s0.name);
    let nl = name.len() as u64;
    let e = spec_encode_varint(nl);
    lemma_encode_varint_len(nl);
    let r4 = le32(s0.width) + more;
    let r3 = seq![var_type_code(s0.var_type), 0u8] + r4;
    let r2 = name + r3;
    let r1 = e + r2;
    assert(geom_entry(s0) + more =~= le32(s0.handle) + r1);
    let c = e.len() as int;
    let p1 = pos + 4;
    let p2 = p1 + c;
    let p3 = p2 + name.len();
    assert(d.skip(pos).len() == d.len() - pos);
    // handle
    lemma_split_at(le32(s0.handle), r1);
    assert(d.subrange(pos, pos + 4) =~= d.skip(pos).take(4));
    lemma_le32_roundtrip(s0.handle);
    lemma_skip_shift(d, pos, 4);
    // name length
    lemma_decode_varint_prefix(nl, r2);
    lemma_split_at(e, r2);
    lemma_skip_shift(d, p1, c);
    // name
    lemma_split_at(name, r3);
    assert(d.subrange(p2, p2 + name.len()) =~= d.skip(p2).take(name.len() as int));
    lemma_skip_shift(d, p2, name.len() as int);
    // type
    assert(d[p3] == d.skip(p3)[0]);
    lemma_split_at(seq![var_type_code(s0.var_type), 0u8], r4);
    lemma_skip_shift(d, p3, 2);
    lemma_var_type_code_roundtrip(s0.var_type);
    // width
    lemma_split_at(le32(s0.width), more);
    assert(d.subrange(p3 + 2, p3 + 6) =~= d.skip(p3 + 2).take(4));
    lemma_le32_roundtrip(s0.width);
    lemma_skip_shift(d, p3 + 2, 4);
    assert(p3 + 6 == pos + geom_entry(s0).len());
}

proof fn lemma_geom_parse_from(d: Seq<u8>, pos: int, sigs: Seq<SignalView>, acc: Seq<SignalView>)
    requires
        0 <= pos <= d.len(),
        d.skip(pos) == geom_entries(sigs),
        forall|i: int| 0 <= i < sigs.len() ==> str_bytes(#[trigger] sigs[i].name).len() <= 1024,
    ensures
        geom_entries_parse(d, pos, acc) == acc + sigs.map_values(|s: SignalView| geom_read_back(s)),
    decreases sigs.len(),
{
    let f = |s: SignalView| geom_read_back(s);
    if sigs.len() == 0 {
        assert(d.skip(pos).len() == 0);
        assert(acc + sigs.map_values(f) =~= acc);
    } else {
        let s0 = sigs[0];
        let rest = sigs.drop_first();
        lemma_geom_entries_front(sigs);
        assert(str_bytes(sigs[0].name).len() <= 1024);
        lemma_geom_read_entry(d, pos, s0, geom_entries(rest), acc);
        assert forall|i: int| 0 <= i < rest.len() implies str_bytes(#[trigger] rest[i].name).len() <= 1024 by {
            assert(rest[i] == sigs[i + 1]);
        }
        let acc1 = acc.push(geom_read_back(s0));
        lemma_geom_parse_from(d, pos + geom_entry(s0).len(), rest, acc1);
        assert(acc1 + rest.map_values(f) =~= acc + sigs.map_values(f));
    }
}

/// Reading back the geometry entries written for `sigs` (names of at most
/// 1024 bytes) gives, after what was read before, one signal per entry in
/// order, each with the handle, width and type it was written with and its
/// name's bytes as text.
pub proof fn lemma_geom_entries_roundtrip(sigs: Seq<SignalView>, before: Seq<SignalView>)
    requires
        forall|i: int| 0 <= i < sigs.len() ==> str_bytes(#[trigger] sigs[i].name).len() <= 1024,
    ensures
        geom_entries_parse(geom_entries(sigs), 0, before).len() == before.len() + sigs.len(),
        forall|i: int| 0 <= i < sigs.len() ==> {
            let r = #[trigger] geom_entries_parse(geom_entries(sigs), 0, before)[before.len() + i];
            &&& r.handle == sigs[i].handle
            &&& r.width == sigs[i].width
            &&& r.var_type == sigs[i].var_type
            &&& r.name == lossy_utf8(str_bytes(sigs[i].name))
        },
        geom_entries_parse(geom_entries(sigs), 0, before).take(before.len() as int) == before,
{
    let d = geom_entries(sigs);
    assert(d.skip(0) =~= d);
    lemma_geom_parse_from(d, 0, sigs, before);
    let r = geom_entries_parse(d, 0, before);
    assert(r.take(before.len() as int) =~= before);
}

} // verus!
