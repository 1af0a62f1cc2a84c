//! Line-level helpers of the VCD waveform back end: timestamp lines, scope
//! and variable declarations, value-change lines, 2-bit-per-bit value
//! packing, and the timestamp table.
use vstd::prelude::*;

use crate::text::{digit_run, digits_value, is_digit, parse_digits_wrapping};
use vstd::utf8::{encode_utf8, valid_utf8};

use crate::text::{lossy_utf8, token_list, trimmed};
use crate::vcd::parser::join_rest;
use crate::vcd::types::{is_float_literal, real_from_bytes, VcdValue, ValueView};

verus! {

// ---------------------------------------------------------------------------
// Identifiers and timestamps
// ---------------------------------------------------------------------------

/// The hash of a signal identifier: its bytes shifted in one after another
/// (only the last eight count).
pub open spec fn id_hash(s: Seq<u8>) -> u64
    decreases s.len(),
{
    if s.len() == 0 {
        0
    } else {
        (id_hash(s.drop_last()) << 8u64) | (s.last() as u64)
    }
}

/// Hash a signal identifier.
pub fn hash_sig_id(bytes: &[u8]) -> (h: u64)
    ensures
        h == id_hash(bytes@),
{
    let mut h: u64 = 0;
    let mut i: usize = 0;
    while i < bytes.len()
        invariant
            i <= bytes@.len(),
            h == id_hash(bytes@.take(i as int)),
        decreases bytes@.len() - i,
    {
        proof {
            assert(bytes@.take(i + 1).drop_last() =~= bytes@.take(i as int));
        }
        h = (h << 8u64) | (bytes[i] as u64);
        i = i + 1;
    }
    assert(bytes@.take(i as int) =~= bytes@);
    h
}

/// A timestamp line: '#' (or any first byte) followed by one or more ASCII
/// digits and nothing else.
pub open spec fn ts_line(line: Seq<u8>) -> bool {
    line.len() > 1 && forall|i: int| 1 <= i < line.len() ==> is_digit(#[trigger] line[i])
}

/// Whether `line` is a timestamp line (a value line such as "#%" is not).
pub fn is_ts_line(line: &[u8]) -> (r: bool)
    ensures
        r == ts_line(line@),
{
    if line.len() <= 1 {
        return false;
    }
    let mut i: usize = 1;
    while i < line.len()
        invariant
            1 <= i <= line@.len(),
            forall|k: int| 1 <= k < i ==> is_digit(#[trigger] line@[k]),
        decreases line@.len() - i,
    {
        if !(0x30 <= line[i] && line[i] <= 0x39) {
            return false;
        }
        i = i + 1;
    }
    true
}

/// The time of a timestamp line: the digits after its first byte, up to
/// the first other byte, modulo 2^64.
pub open spec fn line_timestamp(line: Seq<u8>) -> u64 {
    let r = line.skip(1);
    (digits_value(r.take(digit_run(r) as int)) % 0x1_0000_0000_0000_0000) as u64
}

/// Read the time of a timestamp line.
pub fn parse_timestamp_fast(line: &[u8]) -> (t: u64)
    requires
        line@.len() >= 1,
    ensures
        t == line_timestamp(line@),
{
    let (v, end) = parse_digits_wrapping(line, 1);
    proof {
        let r = line@.skip(1);
        crate::text::lemma_digit_run(r);
        assert(line@.subrange(1, end as int) =~= r.take(digit_run(r) as int));
    }
    v
}

/// The cache size for a file of `file_size` bytes with `signal_count`
/// signals: five entries per signal (for at most 200 000 signals), times 1,
/// 3 or 5 for files up to 1 GB, up to 50 GB, or larger; within 50 000 ..=
/// 5 000 000.
pub open spec fn lru_capacity(file_size: usize, signal_count: usize) -> int {
    let base: int = (if signal_count < 200_000 { signal_count as int } else { 200_000 }) * 5;
    let factor: int = if file_size <= 1_000_000_000 {
        1
    } else if file_size <= 50_000_000_000 {
        3
    } else {
        5
    };
    let c: int = base * factor;
    if c < 50_000 {
        50_000
    } else if c > 5_000_000 {
        5_000_000
    } else {
        c
    }
}

/// The value cache's capacity (see `lru_capacity`).
pub fn adapt_lru_capacity(file_size: usize, signal_count: usize) -> (r: usize)
    ensures
        r == lru_capacity(file_size, signal_count),
{
    let sc: u64 = signal_count as u64;
    let base: u64 = (if sc < 200_000 { sc } else { 200_000 }) * 5;
    let factor: u64 = if file_size as u64 <= 1_000_000_000 {
        1
    } else if file_size as u64 <= 50_000_000_000 {
        3
    } else {
        5
    };
    let c: u64 = base * factor;
    let r: u64 = if c < 50_000 {
        50_000
    } else if c > 5_000_000 {
        5_000_000
    } else {
        c
    };
    r as usize
}

// ---------------------------------------------------------------------------
// Value-change lines
// ---------------------------------------------------------------------------

/// The position of the last space among the first `k` bytes of `line`, or
/// -1 when there is none.
pub open spec fn last_space(line: Seq<u8>, k: int) -> int
    decreases k,
{
    if k <= 0 {
        -1
    } else if line[k - 1] == 0x20 {
        k - 1
    } else {
        last_space(line, k - 1)
    }
}

/// A scalar state byte: 0, 1, x, X, z or Z.
pub open spec fn is_state_byte(b: u8) -> bool {
    b == 0x30 || b == 0x31 || b == 0x78 || b == 0x58 || b == 0x7A || b == 0x5A
}

/// The first position from `j` on that does not hold a state byte, or the
/// length.
pub open spec fn state_run_end(line: Seq<u8>, j: int) -> int
    decreases line.len() - j,
{
    if j >= line.len() || j < 0 {
        line.len() as int
    } else if !is_state_byte(line[j]) {
        j
    } else {
        state_run_end(line, j + 1)
    }
}

/// A value-change line split into its value and its identifier: at the
/// last space; without one, after a scalar's single state byte, or after a
/// 'b' and its run of state bytes.
pub open spec fn vc_parts(line: Seq<u8>) -> Option<(Seq<u8>, Seq<u8>)> {
    let sp = last_space(line, line.len() as int);
    if line.len() < 2 {
        None
    } else if sp >= 0 {
        Some((line.take(sp), line.skip(sp + 1)))
    } else if is_state_byte(line[0]) {
        Some((line.take(1), line.skip(1)))
    } else if line[0] == 0x62 && line.len() >= 3 {
        let split = state_run_end(line, 1);
        if 1 < split < line.len() {
            Some((line.take(split), line.skip(split)))
        } else {
            None
        }
    } else {
        None
    }
}

/// A value-change line read as the hash of its identifier and its value:
/// 'b' starts a vector, 'r' a real (its text must be a float literal), any
/// other first byte is a scalar. An empty identifier gives nothing.
pub open spec fn value_change_of(line: Seq<u8>) -> Option<(u64, ValueView)> {
    match vc_parts(line) {
        None => None,
        Some((v, id)) => if id.len() == 0 {
            None
        } else if v[0] == 0x62 {
            Some((id_hash(id), ValueView::Vector(v.skip(1))))
        } else if v[0] == 0x72 {
            if is_float_literal(v.skip(1)) {
                Some((id_hash(id), ValueView::Real(lossy_utf8(v.skip(1)))))
            } else {
                None
            }
        } else {
            Some((id_hash(id), ValueView::Bit(v[0])))
        },
    }
}

fn is_state(b: u8) -> (r: bool)
    ensures
        r == is_state_byte(b),
{
    b == 0x30 || b == 0x31 || b == 0x78 || b == 0x58 || b == 0x7A || b == 0x5A
}

/// Read a value-change line ("0!", "b1010 !", "r3.14 !", "b1010!"); see
/// `value_change_of`. A line whose only space is its first byte, with an
/// identifier after it, has no value and is not accepted.
pub fn parse_value_change_fast(line: &[u8]) -> (r: Option<(u64, VcdValue)>)
    requires
        line@.len() < 2 || last_space(line@, line@.len() as int) != 0,
    ensures
        match r {
            None => value_change_of(line@) is None,
            Some((h, v)) => value_change_of(line@) == Some((h, v@)),
        },
{
    let len = line.len();
    if len < 2 {
        return None;
    }
    let mut k: usize = len;
    let mut sp: usize = len;
    while k > 0 && sp == len
        invariant
            k <= len,
            sp <= len,
            len == line@.len(),
            sp == len ==> last_space(line@, len as int) == last_space(line@, k as int),
            sp < len ==> sp == last_space(line@, len as int),
        decreases k as int + (if sp == len { 1int } else { 0int }),
    {
        if line[k - 1] == 0x20 {
            sp = k - 1;
        } else {
            k = k - 1;
        }
    }
    let ghost lsp = last_space(line@, len as int);
    assert(sp == len ==> lsp == -1);
    let value_part: &[u8];
    let id: &[u8];
    if sp < len {
        value_part = vstd::slice::slice_subrange(line, 0, sp);
        id = vstd::slice::slice_subrange(line, sp + 1, len);
    } else {
        let first = line[0];
        if is_state(first) {
            value_part = vstd::slice::slice_subrange(line, 0, 1);
            id = vstd::slice::slice_subrange(line, 1, len);
        } else if first == 0x62 && len >= 3 {
            let mut j: usize = 1;
            while j < len && is_state(line[j])
                invariant
                    1 <= j <= len,
                    len == line@.len(),
                    state_run_end(line@, j as int) == state_run_end(line@, 1),
                decreases len - j,
            {
                j = j + 1;
            }
            assert(state_run_end(line@, j as int) == j);
            if j > 1 && j < len {
                value_part = vstd::slice::slice_subrange(line, 0, j);
                id = vstd::slice::slice_subrange(line, j, len);
            } else {
                assert(vc_parts(line@) is None);
                return None;
            }
        } else {
            assert(vc_parts(line@) is None);
            return None;
        }
    }
    assert(vc_parts(line@) == Some((value_part@, id@)));
    if id.len() == 0 {
        return None;
    }
    let h = hash_sig_id(id);
    let vfirst = value_part[0];
    if vfirst == 0x62 {
        let rest = vstd::slice::slice_subrange(value_part, 1, value_part.len());
        assert(rest@ =~= value_part@.skip(1));
        Some((h, VcdValue::Vector(vstd::slice::slice_to_vec(rest))))
    } else if vfirst == 0x72 {
        let rest = vstd::slice::slice_subrange(value_part, 1, value_part.len());
        assert(rest@ =~= value_part@.skip(1));
        match real_from_bytes(rest) {
            Some(v) => Some((h, v)),
            None => None,
        }
    } else {
        Some((h, VcdValue::Bit(vfirst)))
    }
}

// ---------------------------------------------------------------------------
// Declarations
// ---------------------------------------------------------------------------

/// A field separator of a declaration line: space or tab.
pub open spec fn is_sep(b: u8) -> bool {
    b == 0x20 || b == 0x09
}

/// A field starts at `i`: a non-separator that opens the line or follows a
/// separator.
pub open spec fn field_start_at(s: Seq<u8>, i: int) -> bool {
    0 <= i < s.len() && !is_sep(s[i]) && (i == 0 || is_sep(s[i - 1]))
}

/// The starts of the fields that begin before position `n`, in order.
pub open spec fn starts_before(s: Seq<u8>, n: int) -> Seq<int>
    decreases n,
{
    if n <= 0 {
        Seq::empty()
    } else if field_start_at(s, n - 1) {
        starts_before(s, n - 1).push(n - 1)
    } else {
        starts_before(s, n - 1)
    }
}

/// The number of fields of `s` that a separator follows.
pub open spec fn closed_fields(s: Seq<u8>) -> int {
    let n: int = starts_before(s, s.len() as int).len() as int;
    if n > 0 && !is_sep(s.last()) {
        n - 1
    } else {
        n
    }
}

/// The first position at or after `i` holding `b`, or the length.
pub open spec fn first_of(s: Seq<u8>, b: u8, i: int) -> int
    decreases s.len() - i,
{
    if i >= s.len() {
        s.len() as int
    } else if i >= 0 && s[i] == b {
        i
    } else {
        first_of(s, b, i + 1)
    }
}

/// The bytes of "event".
pub open spec fn event_word() -> Seq<u8> {
    seq![0x65u8, 0x76, 0x65, 0x6e, 0x74]
}

/// A `$var` line read by its fields (split at spaces and tabs, at least
/// five of them followed by a separator): the identifier's hash, the name
/// (from the fifth field up to the first '$', which must be UTF-8, trimmed),
/// the width (the leading digits of the third field, wrapping, not zero),
/// the identifier (the fourth field up to the next space) and whether the
/// type (second field, trimmed) is "event".
pub open spec fn var_decl_fast(s: Seq<u8>) -> Option<(u64, Seq<u8>, usize, Seq<u8>, bool)> {
    let st = starts_before(s, s.len() as int);
    if closed_fields(s) < 5 {
        None
    } else {
        let ty = s.subrange(st[1], st[2]);
        let is_event = valid_utf8(ty) && trimmed(ty) == event_word();
        let w = s.skip(st[2]);
        let width = ((digits_value(w.take(digit_run(w) as int)) % 0x1_0000_0000_0000_0000) as u64) as usize;
        let id = s.subrange(st[3], first_of(s, 0x20, st[3]));
        let nm = s.subrange(st[4], first_of(s, 0x24, st[4]));
        if width == 0 || !valid_utf8(nm) {
            None
        } else {
            Some((id_hash(id), trimmed(nm), width, id, is_event))
        }
    }
}

proof fn lemma_starts_before(s: Seq<u8>, n: int)
    requires
        0 <= n <= s.len(),
    ensures
        forall|k: int| 0 <= k < starts_before(s, n).len() ==> 0 <= #[trigger] starts_before(s, n)[k] < n,
        forall|a: int, b: int|
            0 <= a < b < starts_before(s, n).len() ==> starts_before(s, n)[a] < starts_before(s, n)[b],
        starts_before(s, n).len() <= n,
    decreases n,
{
    if n > 0 {
        lemma_starts_before(s, n - 1);
    }
}

proof fn lemma_first_of(s: Seq<u8>, b: u8, i: int, j: int)
    requires
        0 <= i <= j <= s.len(),
        j < s.len() ==> s[j] == b,
        forall|k: int| i <= k < j ==> s[k] != b,
    ensures
        first_of(s, b, i) == j,
    decreases j - i,
{
    if i < j {
        lemma_first_of(s, b, i + 1, j);
    }
}

fn find_or_end(s: &[u8], b: u8, from: usize) -> (r: usize)
    requires
        from <= s@.len(),
    ensures
        r as int == first_of(s@, b, from as int),
        from <= r <= s@.len(),
{
    let r = match crate::text::find_byte(s, b, from) {
        Some(i) => i,
        None => s.len(),
    };
    proof {
        lemma_first_of(s@, b, from as int, r as int);
    }
    r
}

/// Read a `$var` line: identifier hash, name, width, identifier bytes and
/// whether it declares an event (see `var_decl_fast`).
pub fn parse_var_decl_fast2(line: &[u8]) -> (r: Option<(u64, String, usize, Vec<u8>, bool)>)
    ensures
        match r {
            None => var_decl_fast(line@) is None,
            Some((h, name, w, id, ev)) => var_decl_fast(line@) matches Some((h2, nm, w2, id2, ev2))
                && h == h2 && name@ == lossy_utf8(nm) && (valid_utf8(nm) ==> encode_utf8(name@) == nm)
                && w == w2 && id@ == id2 && ev == ev2,
        },
{
    let n: usize = line.len();
    let mut starts: Vec<usize> = Vec::new();
    let mut i: usize = 0;
    while i < n
        invariant
            i <= n,
            n == line@.len(),
            starts@.len() == starts_before(line@, i as int).len(),
            forall|k: int| 0 <= k < starts@.len() ==> #[trigger] starts@[k] as int == starts_before(line@, i as int)[k],
        decreases n - i,
    {
        let c = line[i];
        let sep_here = c == 0x20 || c == 0x09;
        if !sep_here && (i == 0 || line[i - 1] == 0x20 || line[i - 1] == 0x09) {
            starts.push(i);
        }
        i = i + 1;
    }
    proof {
        lemma_starts_before(line@, n as int);
    }
    let ghost st = starts_before(line@, n as int);
    let ns = starts.len();
    let closed = if ns > 0 && !(line[n - 1] == 0x20 || line[n - 1] == 0x09) {
        ns - 1
    } else {
        ns
    };
    if closed < 5 {
        return None;
    }
    let p1 = starts[1];
    let p2 = starts[2];
    let p3 = starts[3];
    let p4 = starts[4];
    assert(p1 < p2 < p3 < p4 < n) by {
        assert(st[1] < st[2] && st[2] < st[3] && st[3] < st[4]);
    }
    let ty: &[u8] = vstd::slice::slice_subrange(line, p1, p2);
    let is_event = match crate::text::str_from_utf8(ty) {
        Some(_) => {
            let t = crate::text::trim_slice(ty);
            t.len() == 5 && t[0] == 0x65 && t[1] == 0x76 && t[2] == 0x65 && t[3] == 0x6e && t[4] == 0x74
        },
        None => false,
    };
    proof {
        if is_event {
            assert(trimmed(ty@) =~= event_word());
        } else if valid_utf8(ty@) {
            if trimmed(ty@) == event_word() {
                assert(trimmed(ty@)[0] == 0x65);
            }
        }
    }
    let (wv, _wend) = crate::text::parse_digits_wrapping(line, p2);
    proof {
        let w = line@.skip(p2 as int);
        crate::text::lemma_digit_run(w);
        assert(line@.subrange(p2 as int, _wend as int) =~= w.take(digit_run(w) as int));
    }
    let width: usize = wv as usize;
    if width == 0 {
        return None;
    }
    let id_end = find_or_end(line, 0x20, p3);
    let id: &[u8] = vstd::slice::slice_subrange(line, p3, id_end);
    let sig_hash = hash_sig_id(id);
    let id_bytes: Vec<u8> = vstd::slice::slice_to_vec(id);
    let name_end = find_or_end(line, 0x24, p4);
    let nm: &[u8] = vstd::slice::slice_subrange(line, p4, name_end);
    match crate::text::str_from_utf8(nm) {
        None => None,
        Some(_) => {
            let t = crate::text::trim_slice(nm);
            let name = crate::text::string_from_bytes(t);
            Some((sig_hash, name, width, id_bytes, is_event))
        },
    }
}

/// Read a `$var` line: identifier hash, name and width (see
/// `var_decl_fast`).
pub fn parse_var_decl_fast(line: &[u8]) -> (r: Option<(u64, String, usize)>)
    ensures
        match r {
            None => var_decl_fast(line@) is None,
            Some((h, name, w)) => var_decl_fast(line@) matches Some((h2, nm, w2, _i, _e))
                && h == h2 && name@ == lossy_utf8(nm) && w == w2,
        },
{
    match parse_var_decl_fast2(line) {
        Some((h, name, w, _id, _ev)) => Some((h, name, w)),
        None => None,
    }
}

/// The name of a `$scope` line: its whitespace-separated words from the
/// third on joined by single spaces, with every trailing "$end" removed,
/// then trimmed.
pub open spec fn scope_name_bytes(line: Seq<u8>) -> Seq<u8> {
    trimmed(strip_end_words(join_rest(line, 2)))
}

/// The bytes of "$end".
pub open spec fn end_word() -> Seq<u8> {
    seq![0x24u8, 0x65, 0x6e, 0x64]
}

/// `s` with "$end" removed from its end as often as it occurs there.
pub open spec fn strip_end_words(s: Seq<u8>) -> Seq<u8>
    decreases s.len(),
{
    if s.len() >= 4 && s.skip(s.len() - 4) == end_word() {
        strip_end_words(s.take(s.len() - 4))
    } else {
        s
    }
}

/// A scope line's name: `Some` when the line is UTF-8, has at least three
/// words and the name (see `scope_name_bytes`) is not empty.
pub open spec fn scope_name_of(line: Seq<u8>) -> Option<Seq<u8>> {
    if !valid_utf8(line) || token_list(line, 0).len() < 3 || scope_name_bytes(line).len() == 0 {
        None
    } else {
        Some(scope_name_bytes(line))
    }
}

fn strip_end_words_exec(s: &[u8]) -> (r: &[u8])
    ensures
        r@ == strip_end_words(s@),
{
    let mut k: usize = s.len();
    assert(s@.take(k as int) =~= s@);
    while k >= 4 && s[k - 4] == 0x24 && s[k - 3] == 0x65 && s[k - 2] == 0x6e && s[k - 1] == 0x64
        invariant
            k <= s@.len(),
            strip_end_words(s@) == strip_end_words(s@.take(k as int)),
        decreases k,
    {
        proof {
            let t = s@.take(k as int);
            assert(t.skip(t.len() - 4) =~= end_word());
            assert(t.take(t.len() - 4) =~= s@.take(k - 4));
        }
        k = k - 4;
    }
    proof {
        let t = s@.take(k as int);
        if t.len() >= 4 && t.skip(t.len() - 4) == end_word() {
            assert(t.skip(t.len() - 4)[0] == s@[k - 4]);
            assert(t.skip(t.len() - 4)[1] == s@[k - 3]);
            assert(t.skip(t.len() - 4)[2] == s@[k - 2]);
            assert(t.skip(t.len() - 4)[3] == s@[k - 1]);
        }
    }
    vstd::slice::slice_subrange(s, 0, k)
}

/// Read the name of a `$scope` line ("$scope module name $end" gives
/// "name"); see `scope_name_of`.
pub fn parse_scope_name(line: &[u8]) -> (r: Option<String>)
    ensures
        match r {
            None => scope_name_of(line@) is None,
            Some(name) => scope_name_of(line@) matches Some(nb) && name@ == lossy_utf8(nb)
                && (valid_utf8(nb) ==> encode_utf8(name@) == nb),
        },
{
    if crate::text::str_from_utf8(line).is_none() {
        return None;
    }
    let tl = crate::text::tokens(line);
    if tl.len() < 3 {
        return None;
    }
    let joined = crate::vcd::parser::join_rest_exec(line, &tl, 2);
    let stripped = strip_end_words_exec(joined.as_slice());
    let t = crate::text::trim_slice(stripped);
    if t.len() == 0 {
        return None;
    }
    Some(crate::text::string_from_bytes(t))
}

// ---------------------------------------------------------------------------
// Two bits per value bit
// ---------------------------------------------------------------------------

/// The 2-bit code of a state byte: 0, 1, x/X → 2, z/Z → 3.
pub open spec fn state_code(b: u8) -> Option<nat> {
    if b == 0x30 {
        Some(0)
    } else if b == 0x31 {
        Some(1)
    } else if b == 0x78 || b == 0x58 {
        Some(2)
    } else if b == 0x7A || b == 0x5A {
        Some(3)
    } else {
        None
    }
}

/// Every byte of `s` is a state byte.
pub open spec fn all_states(s: Seq<u8>) -> bool {
    forall|i: int| 0 <= i < s.len() ==> (#[trigger] state_code(s[i])) is Some
}

/// The codes of `s`, most significant first, as a base-4 number.
pub open spec fn state_word(s: Seq<u8>) -> nat
    decreases s.len(),
{
    if s.len() == 0 {
        0
    } else {
        state_word(s.drop_last()) * 4 + state_code(s.last()).unwrap()
    }
}

/// 4 to the power `k`.
pub open spec fn pow4(k: nat) -> nat
    decreases k,
{
    if k == 0 {
        1
    } else {
        4 * pow4((k - 1) as nat)
    }
}

/// The bytes a value packs from: a scalar's one byte, or a vector's bytes
/// when it has exactly `width` of them.
pub open spec fn packed_bytes(v: ValueView, width: nat) -> Option<Seq<u8>> {
    match v {
        ValueView::Bit(b) => Some(seq![b]),
        ValueView::Vector(s) => if s.len() == width {
            Some(s)
        } else {
            None
        },
        ValueView::Real(_) => None,
    }
}

/// A value packed two bits per bit, its first byte in the highest pair of a
/// `width`-bit word: `None` for a real, a vector of another width, or a
/// byte that is no state.
pub open spec fn col_states(v: ValueView, width: nat) -> Option<nat> {
    match packed_bytes(v, width) {
        Some(b) => if all_states(b) {
            Some(state_word(b) * pow4((width - b.len()) as nat))
        } else {
            None
        },
        None => None,
    }
}

/// The widths at which packing a value does not shift past 128 bits: a
/// scalar at 1 ..= 64 bits, a vector of that width at most 64.
pub open spec fn packable(v: ValueView, width: nat) -> bool {
    match v {
        ValueView::Bit(_) => 1 <= width <= 64,
        ValueView::Vector(s) => s.len() == width ==> width <= 64,
        ValueView::Real(_) => true,
    }
}

proof fn lemma_state_word_bound(s: Seq<u8>)
    requires
        all_states(s),
    ensures
        state_word(s) < pow4(s.len()),
    decreases s.len(),
{
    if s.len() > 0 {
        assert(state_code(s[s.len() - 1]) is Some);
        assert(all_states(s.drop_last())) by {
            assert forall|i: int| 0 <= i < s.drop_last().len() implies (#[trigger] state_code(
                s.drop_last()[i],
            )) is Some by {
                assert(s.drop_last()[i] == s[i]);
            }
        }
        lemma_state_word_bound(s.drop_last());
    }
}

proof fn lemma_pow4_mono(a: nat, b: nat)
    requires
        a <= b,
    ensures
        pow4(a) <= pow4(b),
        pow4(a) >= 1,
    decreases b,
{
    if b > a {
        lemma_pow4_mono(a, (b - 1) as nat);
    } else if a > 0 {
        lemma_pow4_mono((a - 1) as nat, (a - 1) as nat);
    }
}

proof fn lemma_pow4_add(a: nat, b: nat)
    ensures
        pow4(a + b) == pow4(a) * pow4(b),
    decreases a,
{
    if a > 0 {
        let a1 = (a - 1) as nat;
        lemma_pow4_add(a1, b);
        assert(pow4(a + b) == 4 * pow4(a1 + b));
        assert(pow4(a) == 4 * pow4(a1));
        vstd::arithmetic::mul::lemma_mul_is_associative(4, pow4(a1) as int, pow4(b) as int);
    } else {
        assert(pow4(0) == 1);
    }
}

proof fn lemma_pow4_64()
    ensures
        pow4(64) == 0x1_0000_0000_0000_0000_0000_0000_0000_0000,
{
    reveal_with_fuel(pow4, 65);
}

fn code_of(c: u8) -> (r: Option<u128>)
    ensures
        match r {
            Some(x) => state_code(c) == Some(x as nat),
            None => state_code(c) is None,
        },
{
    if c == 0x30 {
        Some(0)
    } else if c == 0x31 {
        Some(1)
    } else if c == 0x78 || c == 0x58 {
        Some(2)
    } else if c == 0x7A || c == 0x5A {
        Some(3)
    } else {
        None
    }
}

/// Pack a value two bits per bit into a `width`-bit word (see `col_states`).
pub fn col_states_from_vcd(v: &VcdValue, width: usize) -> (r: Option<u128>)
    requires
        packable(v@, width as nat),
    ensures
        match r {
            Some(x) => col_states(v@, width as nat) == Some(x as nat),
            None => col_states(v@, width as nat) is None,
        },
{
    let bytes: Vec<u8> = match v {
        VcdValue::Bit(b) => {
            let mut one: Vec<u8> = Vec::new();
            one.push(*b);
            assert(one@ =~= seq![*b]);
            one
        },
        VcdValue::Vector(vec) => {
            if vec.len() == width {
                vstd::slice::slice_to_vec(vec.as_slice())
            } else {
                return None;
            }
        },
        VcdValue::Real(_) => {
            return None;
        },
    };
    let ghost b = bytes@;
    assert(packed_bytes(v@, width as nat) == Some(b));
    assert(1 <= b.len() <= width <= 64 || b.len() == width == 0);
    let mut st: u128 = 0;
    let mut p: usize = 0;
    while p < bytes.len()
        invariant
            p <= b.len() <= 64,
            bytes@ == b,
            packed_bytes(v@, width as nat) == Some(b),
            all_states(b.take(p as int)),
            st as nat == state_word(b.take(p as int)),
        decreases b.len() - p,
    {
        let c = bytes[p];
        let code = match code_of(c) {
            Some(x) => x,
            None => {
                assert(!all_states(b));
                return None;
            },
        };
        proof {
            lemma_state_word_bound(b.take(p as int));
            lemma_pow4_mono(p as nat, 63);
            lemma_pow4_add(63, 0);
            reveal_with_fuel(pow4, 2);
            lemma_pow4_64();
            assert(pow4(64) == 4 * pow4(63));
            assert(st < 0x4000_0000_0000_0000_0000_0000_0000_0000);
            assert(b.take(p + 1).drop_last() =~= b.take(p as int));
            assert(b.take(p + 1).last() == c);
            assert(all_states(b.take(p + 1))) by {
                assert forall|i: int| 0 <= i < p + 1 implies (#[trigger] state_code(b.take(p + 1)[i])) is Some by {
                    if i < p {
                        assert(b.take(p + 1)[i] == b.take(p as int)[i]);
                    }
                }
            }
        }
        assert((st << 2u128) | code == st * 4 + code) by (bit_vector)
            requires
                st < 0x4000_0000_0000_0000_0000_0000_0000_0000u128,
                code < 4;
        st = (st << 2u128) | code;
        p = p + 1;
    }
    assert(b.take(p as int) =~= b);
    let ghost word = st as nat;
    let mut k: usize = bytes.len();
    proof {
        lemma_state_word_bound(b);
        assert(pow4(0) == 1);
        assert(word * pow4(0) == word);
        assert(k == b.len());
    }
    while k < width
        invariant
            b.len() <= k <= width <= 64,
            word == state_word(b),
            word < pow4(b.len()),
            st as nat == word * pow4((k - b.len()) as nat),
        decreases width - k,
    {
        proof {
            lemma_pow4_mono(0, (k - b.len()) as nat);
            lemma_pow4_add(b.len(), (k - b.len()) as nat);
            vstd::arithmetic::mul::lemma_mul_strict_inequality(word as int, pow4(b.len()) as int, pow4((k - b.len()) as nat) as int);
            lemma_pow4_mono(k as nat, 63);
            lemma_pow4_64();
            reveal_with_fuel(pow4, 2);
            assert(pow4(64) == 4 * pow4(63));
            assert(st < 0x4000_0000_0000_0000_0000_0000_0000_0000);
            assert(pow4((k + 1 - b.len()) as nat) == 4 * pow4((k - b.len()) as nat));
            vstd::arithmetic::mul::lemma_mul_is_associative(word as int, pow4((k - b.len()) as nat) as int, 4);
        }
        assert(st << 2u128 == st * 4) by (bit_vector)
            requires
                st < 0x4000_0000_0000_0000_0000_0000_0000_0000u128;
        st = st << 2u128;
        k = k + 1;
    }
    Some(st)
}

/// `x` divided by 4, `k` times.
pub open spec fn shr4(x: nat, k: nat) -> nat
    decreases k,
{
    if k == 0 {
        x
    } else {
        shr4(x / 4, (k - 1) as nat)
    }
}

/// The byte of a 2-bit code: '0', '1', 'x', 'z'.
pub open spec fn state_byte(c: nat) -> u8 {
    if c == 0 {
        0x30
    } else if c == 1 {
        0x31
    } else if c == 2 {
        0x78
    } else {
        0x7A
    }
}

/// The `width` state bytes that a packed word holds, most significant pair
/// first.
pub open spec fn unpacked(st: nat, width: nat) -> Seq<u8> {
    Seq::new(width, |p: int| state_byte(shr4(st, (width - 1 - p) as nat) % 4))
}

/// A packed word as a value: a scalar at width 1, a vector otherwise.
pub open spec fn states_value(st: nat, width: nat) -> ValueView {
    if width == 1 {
        ValueView::Bit(unpacked(st, width)[0])
    } else {
        ValueView::Vector(unpacked(st, width))
    }
}

proof fn lemma_shr4_step(x: nat, k: nat)
    ensures
        shr4(x, k + 1) == shr4(x, k) / 4,
    decreases k,
{
    if k > 0 {
        lemma_shr4_step(x / 4, (k - 1) as nat);
        assert(shr4(x, k + 1) == shr4(x / 4, k));
        assert(shr4(x, k) == shr4(x / 4, (k - 1) as nat));
        assert(shr4(x / 4, ((k - 1) + 1) as nat) == shr4(x / 4, k));
    } else {
        assert(shr4(x, 1) == shr4(x / 4, 0));
        assert(shr4(x / 4, 0) == x / 4);
        assert(shr4(x, 0) == x);
    }
}

fn byte_of_code(c: u128) -> (r: u8)
    requires
        c < 4,
    ensures
        r == state_byte(c as nat),
{
    if c == 0 {
        0x30
    } else if c == 1 {
        0x31
    } else if c == 2 {
        0x78
    } else {
        0x7A
    }
}

/// Unpack a `width`-bit word into a value (see `states_value`).
pub fn vcd_from_states(st: u128, width: usize) -> (r: VcdValue)
    requires
        width <= 64,
    ensures
        r@ == states_value(st as nat, width as nat),
{
    let mut out: Vec<u8> = vec![0x30u8; width];
    let mut x: u128 = st;
    let mut j: usize = 0;
    while j < width
        invariant
            j <= width,
            out@.len() == width,
            x as nat == shr4(st as nat, j as nat),
            forall|p: int|
                width - j <= p < width ==> out@[p] == #[trigger] unpacked(st as nat, width as nat)[p],
        decreases width - j,
    {
        let code = x & 3u128;
        assert(x & 3u128 == x % 4) by (bit_vector);
        assert(x >> 2u128 == x / 4) by (bit_vector);
        let p = width - 1 - j;
        out.set(p, byte_of_code(code));
        proof {
            lemma_shr4_step(st as nat, j as nat);
            assert((width - 1 - p) as nat == j as nat);
        }
        x = x >> 2u128;
        j = j + 1;
    }
    assert(out@ =~= unpacked(st as nat, width as nat));
    if width == 1 {
        VcdValue::Bit(out[0])
    } else {
        VcdValue::Vector(out)
    }
}

/// A value that packs and unpacks unchanged at `width`: a lower-case state
/// bit at width 1, or a vector of 2 ..= 64 lower-case state bytes at its
/// own width.
pub open spec fn canonical_states(v: ValueView, width: nat) -> bool {
    let lower = |b: u8| b == 0x30 || b == 0x31 || b == 0x78 || b == 0x7A;
    match v {
        ValueView::Bit(b) => width == 1 && lower(b),
        ValueView::Vector(s) => s.len() == width && 2 <= width <= 64 && forall|i: int|
            0 <= i < s.len() ==> lower(#[trigger] s[i]),
        ValueView::Real(_) => false,
    }
}

proof fn lemma_digit_of_word(s: Seq<u8>, p: int)
    requires
        all_states(s),
        0 <= p < s.len(),
    ensures
        shr4(state_word(s), (s.len() - 1 - p) as nat) % 4 == state_code(s[p]).unwrap(),
    decreases s.len(),
{
    let d = s.drop_last();
    assert(state_code(s[s.len() - 1]) is Some);
    let c = state_code(s.last()).unwrap();
    assert(c < 4);
    let w = state_word(s);
    assert(w == state_word(d) * 4 + c);
    vstd::arithmetic::div_mod::lemma_fundamental_div_mod_converse(w as int, 4, state_word(d) as int, c as int);
    if p == s.len() - 1 {
        assert(shr4(w, 0) == w);
    } else {
        assert(all_states(d)) by {
            assert forall|i: int| 0 <= i < d.len() implies (#[trigger] state_code(d[i])) is Some by {
                assert(d[i] == s[i]);
            }
        }
        lemma_digit_of_word(d, p);
        assert(d[p] == s[p]);
        assert(shr4(w, (s.len() - 1 - p) as nat) == shr4(w / 4, (d.len() - 1 - p) as nat));
    }
}

/// Packing a canonical value at its width and unpacking the word gives the
/// value back.
pub proof fn lemma_col_states_roundtrip(v: ValueView, width: nat)
    requires
        canonical_states(v, width),
    ensures
        col_states(v, width) matches Some(st) && states_value(st, width) == v,
{
    let b = packed_bytes(v, width).unwrap();
    assert(b.len() == width);
    assert(all_states(b)) by {
        assert forall|i: int| 0 <= i < b.len() implies (#[trigger] state_code(b[i])) is Some by {}
    }
    let st = state_word(b);
    assert(pow4(0) == 1);
    assert((width - b.len()) as nat == 0);
    assert(st * pow4(0) == st);
    assert(col_states(v, width) == Some(st));
    assert forall|p: int| 0 <= p < width implies #[trigger] unpacked(st, width)[p] == b[p] by {
        lemma_digit_of_word(b, p);
    }
    assert(unpacked(st, width) =~= b);
}

// ---------------------------------------------------------------------------
// Lines of a mapped file
// ---------------------------------------------------------------------------

/// The end of the line that starts at `pos`: the next '\n', or the end.
fn line_end_at(data: &[u8], pos: usize) -> (r: usize)
    requires
        pos <= data@.len(),
    ensures
        r as int == first_of(data@, 0x0A, pos as int),
        pos <= r <= data@.len(),
{
    let rest: &[u8] = vstd::slice::slice_subrange(data, pos, data.len());
    let r = match crate::vcd::reader::memchr_first(0x0A, rest) {
        Some(n) => pos + n,
        None => data.len(),
    };
    proof {
        assert forall|k: int| pos <= k < r implies data@[k] != 0x0A by {
            assert(data@[k] == rest@[k - pos]);
        }
        if r < data@.len() {
            assert(data@[r as int] == rest@[r - pos]);
        }
        lemma_first_of(data@, 0x0A, pos as int, r as int);
    }
    r
}

/// Whether the line of `data` that starts at `pos` is a timestamp line.
pub fn is_ts_line_at(data: &[u8], pos: usize) -> (r: bool)
    requires
        pos <= data@.len(),
    ensures
        r == ts_line(data@.subrange(pos as int, first_of(data@, 0x0A, pos as int))),
{
    let e = line_end_at(data, pos);
    is_ts_line(vstd::slice::slice_subrange(data, pos, e))
}

/// The value that the lines of `block` from `p` on last give the
/// identifier with hash `h` (a later line wins over an earlier one).
pub open spec fn last_value_in(block: Seq<u8>, p: int, h: u64) -> Option<ValueView>
    decreases block.len() - p,
    via last_value_in_decreases
{
    if p >= block.len() || p < 0 {
        None
    } else {
        let e = first_of(block, 0x0A, p);
        let line = block.subrange(p, e);
        let here = if line.len() == 0 {
            None
        } else {
            match value_change_of(line) {
                Some((hh, v)) => if hh == h {
                    Some(v)
                } else {
                    None
                },
                None => None,
            }
        };
        let rest = if e < block.len() {
            last_value_in(block, e + 1, h)
        } else {
            None
        };
        if rest is Some {
            rest
        } else {
            here
        }
    }
}

/// Every line of `block` from `p` on is one `parse_value_change_fast` takes.
pub open spec fn lines_parsable(block: Seq<u8>, p: int) -> bool
    decreases block.len() - p,
    via lines_parsable_decreases
{
    if p >= block.len() || p < 0 {
        true
    } else {
        let e = first_of(block, 0x0A, p);
        let line = block.subrange(p, e);
        (line.len() < 2 || last_space(line, line.len() as int) != 0) && (e >= block.len()
            || lines_parsable(block, e + 1))
    }
}

#[via_fn]
proof fn last_value_in_decreases(block: Seq<u8>, p: int, h: u64) {
    if 0 <= p < block.len() {
        lemma_first_of_bound(block, 0x0A, p);
    }
}

#[via_fn]
proof fn lines_parsable_decreases(block: Seq<u8>, p: int) {
    if 0 <= p < block.len() {
        lemma_first_of_bound(block, 0x0A, p);
    }
}

/// The value a timestamp block gives `id`: over the lines after its first
/// (the timestamp line), the last value change of that identifier; nothing
/// when the block has no newline.
pub open spec fn block_value(block: Seq<u8>, id: Seq<u8>) -> Option<ValueView> {
    let nl = first_of(block, 0x0A, 0);
    if nl >= block.len() {
        None
    } else {
        last_value_in(block, nl + 1, id_hash(id))
    }
}

pub proof fn lemma_first_of_bound(s: Seq<u8>, b: u8, i: int)
    requires
        0 <= i,
    ensures
        i <= s.len() ==> i <= first_of(s, b, i) <= s.len(),
        first_of(s, b, i) < s.len() ==> s[first_of(s, b, i)] == b,
    decreases s.len() - i,
{
    if i < s.len() && s[i] != b {
        lemma_first_of_bound(s, b, i + 1);
    }
}

/// The value a timestamp block gives `target_id` (see `block_value`).
pub fn find_signal_in_block(block: &[u8], target_id: &[u8], id_len: usize) -> (r: Option<VcdValue>)
    requires
        first_of(block@, 0x0A, 0) < block@.len() ==> lines_parsable(
            block@,
            first_of(block@, 0x0A, 0) + 1,
        ),
    ensures
        match r {
            Some(v) => block_value(block@, target_id@) == Some(v@),
            None => block_value(block@, target_id@) is None,
        },
{
    let target_hash = hash_sig_id(target_id);
    let nl = match crate::vcd::reader::memchr_first(0x0A, block) {
        Some(n) => n,
        None => {
            proof {
                lemma_first_of(block@, 0x0A, 0, block@.len() as int);
            }
            return None;
        },
    };
    proof {
        lemma_first_of(block@, 0x0A, 0, nl as int);
    }
    let n = block.len();
    let mut lp: usize = nl + 1;
    let mut last: Option<VcdValue> = None;
    let ghost goal = last_value_in(block@, lp as int, target_hash);
    while lp < n
        invariant
            n == block@.len(),
            nl + 1 <= lp <= n + 1,
            target_hash == id_hash(target_id@),
            lines_parsable(block@, lp as int),
            goal == (if last_value_in(block@, lp as int, target_hash) is Some {
                last_value_in(block@, lp as int, target_hash)
            } else {
                match last {
                    Some(v) => Some(v@),
                    None => None,
                }
            }),
        decreases n + 1 - lp,
    {
        let e = line_end_at(block, lp);
        let line: &[u8] = vstd::slice::slice_subrange(block, lp, e);
        proof {
            assert(line@ == block@.subrange(lp as int, e as int));
            assert(lines_parsable(block@, lp as int));
        }
        if line.len() > 0 {
            match parse_value_change_fast(line) {
                Some((sig_hash, val)) => {
                    if sig_hash == target_hash {
                        last = Some(val);
                    }
                },
                None => {},
            }
        }
        let ghost old_lp = lp as int;
        lp = if e < n {
            e + 1
        } else {
            n
        };
        proof {
            let lv = last_value_in(block@, old_lp, target_hash);
            let rest = last_value_in(block@, lp as int, target_hash);
            assert(lv == (if rest is Some { rest } else {
                if line@.len() == 0 { None } else {
                    match value_change_of(line@) {
                        Some((hh, v)) => if hh == target_hash { Some(v) } else { None },
                        None => None,
                    }
                }
            }));
        }
    }
    last
}

// ---------------------------------------------------------------------------
// Values
// ---------------------------------------------------------------------------

/// A value's single bit: a scalar's, or a one-bit vector's.
pub open spec fn bit_of(v: ValueView) -> Option<u8> {
    match v {
        ValueView::Bit(b) => Some(b),
        ValueView::Vector(s) => if s.len() == 1 { Some(s[0]) } else { None },
        ValueView::Real(_) => None,
    }
}

/// The single bit of a value, if it has one.
pub fn val_to_bit(val: &VcdValue) -> (r: Option<u8>)
    ensures
        r == bit_of(val@),
{
    match val {
        VcdValue::Bit(b) => Some(*b),
        VcdValue::Vector(v) => {
            if v.len() == 1 {
                Some(v[0])
            } else {
                None
            }
        },
        VcdValue::Real(_) => None,
    }
}

/// Every bit of `s` is '0' or '1'.
pub open spec fn all_defined(s: Seq<u8>) -> bool {
    forall|i: int| 0 <= i < s.len() ==> (#[trigger] s[i] == 0x30 || s[i] == 0x31)
}

/// Every bit of `s` is '0'.
pub open spec fn all_zero(s: Seq<u8>) -> bool {
    forall|i: int| 0 <= i < s.len() ==> #[trigger] s[i] == 0x30
}

/// Whether a value is a defined zero: `Some(true)` for all-'0', `Some(false)`
/// for defined (0/1 only) and not all '0', `None` with an x/z bit or for a
/// real.
pub open spec fn zero_of(v: ValueView) -> Option<bool> {
    match v {
        ValueView::Bit(b) => if b == 0x30 {
            Some(true)
        } else if b == 0x31 {
            Some(false)
        } else {
            None
        },
        ValueView::Vector(s) => if all_defined(s) {
            Some(all_zero(s))
        } else {
            None
        },
        ValueView::Real(_) => None,
    }
}

/// Whether a value is a defined zero (see `zero_of`).
pub fn vcd_is_zero(val: &VcdValue) -> (r: Option<bool>)
    ensures
        r == zero_of(val@),
{
    match val {
        VcdValue::Bit(b) => {
            assert(val@ == ValueView::Bit(*b));
            if *b == 0x30 {
                Some(true)
            } else if *b == 0x31 {
                Some(false)
            } else {
                None
            }
        },
        VcdValue::Vector(v) => {
            let mut all_zero: bool = true;
            let mut i: usize = 0;
            while i < v.len()
                invariant
                    i <= v@.len(),
                    val@ == ValueView::Vector(v@),
                    forall|k: int| 0 <= k < i ==> (v@[k] == 0x30 || v@[k] == 0x31),
                    all_zero == (forall|k: int| 0 <= k < i ==> v@[k] == 0x30),
                decreases v@.len() - i,
            {
                let c = v[i];
                if !(c == 0x30 || c == 0x31) {
                    assert(!(v@[i as int] == 0x30 || v@[i as int] == 0x31));
                    return None;
                }
                if c != 0x30 {
                    all_zero = false;
                }
                i = i + 1;
            }
            Some(all_zero)
        },
        VcdValue::Real(_) => None,
    }
}

/// A value with a vector of one repeated state shown as that one bit.
pub open spec fn normalized(v: ValueView) -> ValueView {
    match v {
        ValueView::Vector(s) => if s.len() > 0 && forall|i: int| 0 <= i < s.len() ==> #[trigger] s[i] == s[0] {
            ValueView::Bit(s[0])
        } else {
            v
        },
        _ => v,
    }
}

/// The normalized form of a value, as a value.
fn normalize(v: &VcdValue) -> (r: VcdValue)
    ensures
        r@ == normalized(v@),
{
    match v {
        VcdValue::Vector(s) => {
            if s.len() > 0 {
                let first = s[0];
                let mut i: usize = 0;
                let mut same: bool = true;
                while i < s.len()
                    invariant
                        i <= s@.len(),
                        s@.len() > 0,
                        first == s@[0],
                        same == (forall|k: int| 0 <= k < i ==> s@[k] == first),
                    decreases s@.len() - i,
                {
                    if s[i] != first {
                        same = false;
                    }
                    i = i + 1;
                }
                if same {
                    return VcdValue::Bit(first);
                }
            }
            VcdValue::Vector(vstd::slice::slice_to_vec(s.as_slice()))
        },
        VcdValue::Bit(b) => VcdValue::Bit(*b),
        VcdValue::Real(t) => VcdValue::Real(t.clone()),
    }
}

/// Two values are the same state: equal once a uniform vector is seen as
/// its one bit (so the initial 'x' equals an all-x vector). Reals compare as
/// their text.
pub open spec fn same_state(a: ValueView, b: ValueView) -> bool {
    normalized(a) == normalized(b)
}

/// Whether two values are the same state (see `same_state`).
pub fn vcd_semantic_eq(a: &VcdValue, b: &VcdValue) -> (r: bool)
    ensures
        r == same_state(a@, b@),
{
    let na = normalize(a);
    let nb = normalize(b);
    match (&na, &nb) {
        (VcdValue::Bit(x), VcdValue::Bit(y)) => *x == *y,
        (VcdValue::Vector(x), VcdValue::Vector(y)) => {
            let r = crate::text::bytes_eq(x.as_slice(), y.as_slice());
            proof {
                if r {
                    assert(x@ =~= y@);
                }
            }
            r
        },
        (VcdValue::Real(x), VcdValue::Real(y)) => {
            let r = crate::text::str_eq(x.as_str(), y.as_str());
            r
        },
        _ => false,
    }
}

// ---------------------------------------------------------------------------
// Timestamp table
// ---------------------------------------------------------------------------

/// The timestamps of a waveform: evenly spaced ones by their start, step
/// and count, others as a list.
pub enum TsStore {
    Uniform { start: u64, step: u64, count: u64 },
    Dense(Vec<u64>),
}

impl View for TsStore {
    type V = Seq<u64>;

    open spec fn view(&self) -> Seq<u64> {
        match self {
            TsStore::Uniform { start, step, count } => Seq::new(
                *count as nat,
                |i: int| (*start + i * *step) as u64,
            ),
            TsStore::Dense(v) => v@,
        }
    }
}

impl TsStore {
    /// An evenly spaced table has a positive step, its last time fits and
    /// its length is a `usize`; a list is ascending.
    pub open spec fn wf(&self) -> bool {
        match self {
            TsStore::Uniform { start, step, count } => *step > 0 && *count <= usize::MAX && (*count
                == 0 || *start + (*count - 1) * *step <= u64::MAX),
            TsStore::Dense(v) => crate::trace::fsdb::is_ascending(v@),
        }
    }

    /// Number of timestamps.
    pub fn len(&self) -> (r: usize)
        requires
            self.wf(),
        ensures
            r == self@.len(),
    {
        match self {
            TsStore::Uniform { count, .. } => *count as usize,
            TsStore::Dense(v) => v.len(),
        }
    }

    /// Timestamp `i`.
    pub fn get(&self, i: usize) -> (r: u64)
        requires
            self.wf(),
            i < self@.len(),
        ensures
            r == self@[i as int],
    {
        match self {
            TsStore::Uniform { start, step, count } => {
                proof {
                    vstd::arithmetic::mul::lemma_mul_inequality(i as int, (*count - 1) as int, *step as int);
                }
                *start + (i as u64) * *step
            },
            TsStore::Dense(v) => v[i],
        }
    }

    /// Find `t`: `Ok` with a position holding it, or `Err` with the position
    /// where it would go (all times before are smaller, all from it larger).
    pub fn search(&self, t: u64) -> (r: Result<usize, usize>)
        requires
            self.wf(),
        ensures
            match r {
                Ok(i) => i < self@.len() && self@[i as int] == t,
                Err(i) => i <= self@.len() && (forall|j: int| 0 <= j < i ==> self@[j] < t) && (
                forall|j: int| i <= j < self@.len() ==> self@[j] > t),
            },
    {
        match self {
            TsStore::Uniform { start, step, count } => {
                let ghost v = self@;
                if t < *start {
                    proof {
                        assert forall|j: int| 0 <= j < v.len() implies v[j] > t by {
                            vstd::arithmetic::mul::lemma_mul_nonnegative(j, *step as int);
                            vstd::arithmetic::mul::lemma_mul_inequality(j, (*count - 1) as int, *step as int);
                            assert(v[j] == *start + j * *step);
                        }
                    }
                    return Err(0);
                }
                let n = *count;
                let span: u64 = (t - *start) / *step;
                proof {
                    vstd::arithmetic::div_mod::lemma_fundamental_div_mod((t - *start) as int, *step as int);
                    vstd::arithmetic::div_mod::lemma_mod_pos_bound((t - *start) as int, *step as int);
                }
                if span >= n {
                    proof {
                        assert forall|j: int| 0 <= j < v.len() implies v[j] < t by {
                            let st = *step as int;
                            let sp = span as int;
                            let nn = n as int;
                            assert(0 <= j * st <= st * sp - st && j * st <= (nn - 1) * st)
                                by (nonlinear_arith)
                                requires 0 <= j < nn, nn <= sp, st > 0;
                            assert(v[j] == *start + j * *step);
                        }
                    }
                    return Err(n as usize);
                }
                proof {
                    vstd::arithmetic::mul::lemma_mul_inequality(span as int, (n - 1) as int, *step as int);
                }
                let at: u64 = *start + span * *step;
                if at == t {
                    return Ok(span as usize);
                }
                proof {
                    assert forall|j: int| 0 <= j <= span implies v[j] < t by {
                        vstd::arithmetic::mul::lemma_mul_inequality(j, span as int, *step as int);
                        vstd::arithmetic::mul::lemma_mul_is_commutative(*step as int, span as int);
                    }
                    assert forall|j: int| span < j < v.len() implies v[j] > t by {
                        let st = *step as int;
                        let sp = span as int;
                        let nn = n as int;
                        assert(j * st >= st * sp + st && j * st <= (nn - 1) * st)
                            by (nonlinear_arith)
                            requires sp < j < nn, st > 0;
                        assert(v[j] == *start + j * *step);
                    }
                }
                Err(span as usize + 1)
            },
            TsStore::Dense(v) => {
                let mut lo: usize = 0;
                let mut hi: usize = v.len();
                while lo < hi
                    invariant
                        lo <= hi <= v@.len(),
                        self@ == v@,
                        crate::trace::fsdb::is_ascending(v@),
                        forall|j: int| 0 <= j < lo ==> v@[j] < t,
                        forall|j: int| hi <= j < v@.len() ==> v@[j] > t,
                    decreases hi - lo,
                {
                    let mid = lo + (hi - lo) / 2;
                    let x = v[mid];
                    if x == t {
                        return Ok(mid);
                    } else if x < t {
                        proof {
                            assert forall|j: int| 0 <= j < mid + 1 implies v@[j] < t by {
                                assert(v@[j] <= v@[mid as int]);
                            }
                        }
                        lo = mid + 1;
                    } else {
                        proof {
                            assert forall|j: int| mid <= j < v@.len() implies v@[j] > t by {
                                assert(v@[mid as int] <= v@[j]);
                            }
                        }
                        hi = mid;
                    }
                }
                Err(lo)
            },
        }
    }
}

/// Store a waveform's ascending timestamps: evenly spaced ones (at least
/// two, with a positive step) by start, step and count, others as given.
pub fn build_ts_store(ts: Vec<u64>) -> (r: TsStore)
    requires
        crate::trace::fsdb::is_ascending(ts@),
    ensures
        r.wf(),
        r@ == ts@,
{
    let n = ts.len();
    if n >= 2 {
        let start = ts[0];
        let step = ts[1] - ts[0];
        let mut uniform: bool = step > 0;
        let mut i: usize = 2;
        while i < n && uniform
            invariant
                2 <= i <= n,
                n == ts@.len(),
                start == ts@[0],
                step == ts@[1] - ts@[0],
                crate::trace::fsdb::is_ascending(ts@),
                uniform ==> step > 0,
                uniform ==> forall|k: int| 0 <= k < i ==> ts@[k] == start + k * step,
            decreases n - i,
        {
            assert(ts@[i - 1] <= ts@[i as int]);
            if ts[i] - ts[i - 1] != step {
                uniform = false;
                i = i + 1;
            } else {
                proof {
                    assert(ts@[i - 1] == start + (i - 1) * step);
                    vstd::arithmetic::mul::lemma_mul_is_distributive_add_other_way(step as int, (i - 1) as int, 1);
                    assert(ts@[i as int] == start + i * step);
                }
                i = i + 1;
            }
        }
        if uniform {
            let r = TsStore::Uniform { start, step, count: n as u64 };
            proof {
                assert(ts@[n - 1] == start + (n - 1) * step);
                assert forall|k: int| 0 <= k < n implies #[trigger] r@[k] == ts@[k] by {
                    assert(ts@[k] == start + k * step);
                }
                assert(r@ =~= ts@);
            }
            return r;
        }
    }
    TsStore::Dense(ts)
}

} // verus!
