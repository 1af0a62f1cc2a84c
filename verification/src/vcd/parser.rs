//! Streaming VCD parser: reads a file's lines and turns them into events.
//!
//! The header section gives scopes, variables, the timescale and the date;
//! after `$enddefinitions` the dump section gives timestamps (`#t`), scalar
//! changes (`0!`) and vector or real changes (`b1010 s1`, `r1.5 s2`).
use vstd::prelude::*;
use vstd::string::StringExecFns;
use vstd::string::StringSliceAdditionalSpecFns;
use vstd::utf8::{decode_utf8, encode_utf8, valid_utf8};

use crate::text::{
    digit_run, digits_value, find_first, find_last, first_occ, is_digit, last_occ, lossy_utf8,
    occurs_at, parse_digits_wrapping, parse_uint_std, seq_contains_sub, seq_ends_with,
    seq_starts_with, starts_with, ends_with, contains_sub, std_uint, string_from_utf8_lossy,
    token, token_list, tokens, trim_fn, trim_slice, trim_span, trimmed, bytes_eq,
};
use crate::vcd::reader::{
    lemma_line_end, line_end, next_line_number, strip_eol, LineReader, LineReaderView, MmapReader,
    MmapReaderView,
};
use crate::vcd::types::{
    real_from_bytes, vector_from_bytes, is_float_literal, is_vector_byte, ErrorKind, ErrorView,
    EventView, KindView, ParserState, ValueView, VcdError, VcdEvent, VcdValue, result_view,
};

verus! {

// ---------------------------------------------------------------------------
// Keywords
// ---------------------------------------------------------------------------

pub open spec fn kw_scope() -> Seq<u8> { seq![0x24u8, 0x73, 0x63, 0x6f, 0x70, 0x65] }
pub open spec fn kw_upscope() -> Seq<u8> { seq![0x24u8, 0x75, 0x70, 0x73, 0x63, 0x6f, 0x70, 0x65] }
pub open spec fn kw_var() -> Seq<u8> { seq![0x24u8, 0x76, 0x61, 0x72] }
pub open spec fn kw_end() -> Seq<u8> { seq![0x24u8, 0x65, 0x6e, 0x64] }
pub open spec fn kw_timescale() -> Seq<u8> {
    seq![0x24u8, 0x74, 0x69, 0x6d, 0x65, 0x73, 0x63, 0x61, 0x6c, 0x65]
}
pub open spec fn kw_date() -> Seq<u8> { seq![0x24u8, 0x64, 0x61, 0x74, 0x65] }
pub open spec fn kw_version() -> Seq<u8> { seq![0x24u8, 0x76, 0x65, 0x72, 0x73, 0x69, 0x6f, 0x6e] }
pub open spec fn kw_enddefinitions() -> Seq<u8> {
    seq![0x24u8, 0x65, 0x6e, 0x64, 0x64, 0x65, 0x66, 0x69, 0x6e, 0x69, 0x74, 0x69, 0x6f, 0x6e, 0x73]
}
pub open spec fn kw_comment() -> Seq<u8> { seq![0x24u8, 0x63, 0x6f, 0x6d, 0x6d, 0x65, 0x6e, 0x74] }
pub open spec fn kw_dumpvars() -> Seq<u8> {
    seq![0x24u8, 0x64, 0x75, 0x6d, 0x70, 0x76, 0x61, 0x72, 0x73]
}
pub open spec fn kw_dumpoff() -> Seq<u8> { seq![0x24u8, 0x64, 0x75, 0x6d, 0x70, 0x6f, 0x66, 0x66] }
pub open spec fn kw_dumpon() -> Seq<u8> { seq![0x24u8, 0x64, 0x75, 0x6d, 0x70, 0x6f, 0x6e] }

// ---------------------------------------------------------------------------
// Signal numbers and timescales
// ---------------------------------------------------------------------------

/// Index of the first ASCII digit of `s`, or its length.
pub open spec fn first_digit(s: Seq<u8>) -> int
    decreases s.len(),
{
    if s.len() == 0 || is_digit(s[0]) {
        0
    } else {
        1 + first_digit(s.drop_first())
    }
}

/// The signal number of an identifier such as "s12": its first run of
/// ASCII digits, modulo 2^32 (as an optimized build computes it), or 0 when
/// it has no digit.
pub open spec fn signal_number(id: Seq<u8>) -> u32 {
    let k = first_digit(id);
    if k >= id.len() {
        0
    } else {
        let r = id.skip(k);
        (digits_value(r.take(digit_run(r) as int)) % 0x1_0000_0000) as u32
    }
}

proof fn lemma_first_digit(s: Seq<u8>)
    ensures
        0 <= first_digit(s) <= s.len(),
        forall|j: int| 0 <= j < first_digit(s) ==> !is_digit(#[trigger] s[j]),
        first_digit(s) < s.len() ==> is_digit(s[first_digit(s)]),
    decreases s.len(),
{
    if s.len() > 0 && !is_digit(s[0]) {
        lemma_first_digit(s.drop_first());
        assert forall|j: int| 0 <= j < first_digit(s) implies !is_digit(#[trigger] s[j]) by {
            if j > 0 {
                assert(s[j] == s.drop_first()[j - 1]);
            }
        }
    }
}

/// The signal number of an identifier (its first run of digits).
pub fn parse_signal_number_fast(id: &[u8]) -> (r: u32)
    ensures
        r == signal_number(id@),
{
    let mut start: usize = 0;
    proof {
        lemma_first_digit(id@);
    }
    while start < id.len() && !(0x30 <= id[start] && id[start] <= 0x39)
        invariant
            start <= id@.len(),
            forall|j: int| 0 <= j < start ==> !is_digit(#[trigger] id@[j]),
            first_digit(id@) >= start,
        decreases id@.len() - start,
    {
        proof {
            lemma_first_digit_skip(id@, start as int);
        }
        start = start + 1;
    }
    proof {
        lemma_first_digit_at(id@, start as int);
    }
    if start >= id.len() {
        return 0;
    }
    let (v, end) = parse_digits_wrapping(id, start);
    proof {
        let r = id@.skip(start as int);
        crate::text::lemma_digit_run(r);
        assert(id@.subrange(start as int, end as int) =~= r.take(digit_run(r) as int));
        vstd::arithmetic::div_mod::lemma_mod_mod(
            digits_value(r.take(digit_run(r) as int)) as int,
            0x1_0000_0000,
            0x1_0000_0000,
        );
        assert((v as nat) % 0x1_0000_0000 == digits_value(r.take(digit_run(r) as int))
            % 0x1_0000_0000) by {
            vstd::arithmetic::div_mod::lemma_mod_mod(
                digits_value(r.take(digit_run(r) as int)) as int,
                0x1_0000_0000,
                0x1_0000_0000,
            );
        }
    }
    assert(v as u32 == (v as nat % 0x1_0000_0000) as u32) by (bit_vector);
    v as u32
}

proof fn lemma_first_digit_skip(s: Seq<u8>, k: int)
    requires
        0 <= k < s.len(),
        !is_digit(s[k]),
        forall|j: int| 0 <= j < k ==> !is_digit(#[trigger] s[j]),
    ensures
        first_digit(s) >= k + 1,
    decreases k,
{
    lemma_first_digit(s);
    if first_digit(s) < k + 1 {
        let f = first_digit(s);
        if f < s.len() {
            assert(is_digit(s[f]));
        }
    }
}

proof fn lemma_first_digit_at(s: Seq<u8>, k: int)
    requires
        0 <= k <= s.len(),
        first_digit(s) >= k,
        k < s.len() ==> is_digit(s[k]),
    ensures
        first_digit(s) == k,
{
    lemma_first_digit(s);
    if first_digit(s) > k && k < s.len() {
        assert(!is_digit(s[k]));
    }
}

/// Lower-cases ASCII letters and the Greek capital mu (so that "Μs" reads
/// as "μs"), byte by byte.
pub open spec fn ts_lower(s: Seq<u8>) -> Seq<u8> {
    Seq::new(
        s.len(),
        |i: int|
            if 0x41 <= s[i] <= 0x5A {
                (s[i] + 32) as u8
            } else if s[i] == 0x9C && i > 0 && s[i - 1] == 0xCE {
                0xBCu8
            } else {
                s[i]
            },
    )
}

/// The exponent of the time unit named in a lower-cased timescale.
#[verifier::opaque]
pub open spec fn unit_offset(l: Seq<u8>) -> Option<i8> {
    if seq_contains_sub(l, seq![0x66u8, 0x73]) {
        Some(-15i8)
    } else if seq_contains_sub(l, seq![0x70u8, 0x73]) {
        Some(-12i8)
    } else if seq_contains_sub(l, seq![0x6eu8, 0x73]) {
        Some(-9i8)
    } else if seq_contains_sub(l, seq![0x75u8, 0x73]) || seq_contains_sub(
        l,
        seq![0xCEu8, 0xBC, 0x73],
    ) {
        Some(-6i8)
    } else if seq_contains_sub(l, seq![0x6du8, 0x73]) {
        Some(-3i8)
    } else if seq_contains_sub(l, seq![0x73u8]) {
        Some(0i8)
    } else {
        None
    }
}

/// `log10(v)` rounded to the nearest integer, for `1 <= v < 10^6`.
pub open spec fn round_log10(v: nat) -> i8 {
    if v >= 316228 { 6 }
    else if v >= 31623 { 5 }
    else if v >= 3163 { 4 }
    else if v >= 317 { 3 }
    else if v >= 32 { 2 }
    else if v >= 4 { 1 }
    else { 0 }
}

/// The exponent a timescale multiplier adds: rounded `log10` of a decimal
/// integer multiplier below 10^6 (the value -128 for a zero multiplier,
/// whose logarithm saturates); any other multiplier counts as 1.
pub open spec fn multiplier_exp(tok: Seq<u8>) -> i8 {
    match std_uint(tok, 999999) {
        Some(v) => if v == 0 { -128i8 } else { round_log10(v) },
        None => 0,
    }
}

/// `x` wrapped into the `i8` range.
pub open spec fn wrap_i8(x: int) -> i8 {
    if x < -128 { (x + 256) as i8 } else if x > 127 { (x - 256) as i8 } else { x as i8 }
}

/// The exponent of ten, in seconds, of a timescale such as "10 ns": the
/// unit's exponent plus the multiplier's (the multiplier being the first
/// word); a timescale without a unit is a plain multiplier.
#[verifier::opaque]
pub open spec fn timescale_exp(ts: Seq<u8>) -> i8 {
    let l = ts_lower(ts);
    match unit_offset(l) {
        Some(off) => {
            let tl = token_list(l, 0);
            let tok = if tl.len() > 0 { l.subrange(tl[0].0, tl[0].1) } else { seq![0x31u8] };
            wrap_i8(multiplier_exp(tok) + off)
        },
        None => multiplier_exp(ts),
    }
}

// ---------------------------------------------------------------------------
// Timescales of the usual units
// ---------------------------------------------------------------------------

proof fn lemma_ts_lower_plain(s: Seq<u8>)
    requires
        forall|i: int| 0 <= i < s.len() ==> !(0x41 <= #[trigger] s[i] <= 0x5A) && s[i] != 0x9C,
    ensures
        ts_lower(s) == s,
{
    assert(ts_lower(s) =~= s);
}

proof fn lemma_sub_absent(h: Seq<u8>, n: Seq<u8>)
    requires
        n.len() > 0,
        h.len() <= 2,
        h.len() > 0 ==> h[0] != n[0],
        h.len() > 1 ==> h[1] != n[0],
    ensures
        !crate::text::seq_contains_sub(h, n),
{
    if crate::text::seq_contains_sub(h, n) {
        let i = choose|i: int| crate::text::occurs_at(h, n, i);
        assert(h.subrange(i, i + n.len())[0] == h[i]);
    }
}

proof fn lemma_sub_present(h: Seq<u8>, n: Seq<u8>, i: int)
    requires
        crate::text::occurs_at(h, n, i),
    ensures
        crate::text::seq_contains_sub(h, n),
{
}

proof fn lemma_word_end_at(s: Seq<u8>, i: int, j: int)
    requires
        0 <= i <= j < s.len(),
        forall|k: int| i <= k < j ==> !crate::text::uws(s, k),
        crate::text::uws(s, j),
    ensures
        crate::text::word_end(s, i) == j,
    decreases j - i,
{
    if i < j {
        lemma_word_end_at(s, i + 1, j);
    }
}

/// "1", "10" or "100" and the exponent of ten it stands for.
pub open spec fn decade_multiplier(m: Seq<u8>, k: int) -> bool {
    ||| (m == seq!['1' as u8] && k == 0)
    ||| (m == seq!['1' as u8, '0' as u8] && k == 1)
    ||| (m == seq!['1' as u8, '0' as u8, '0' as u8] && k == 2)
}

proof fn lemma_multiplier_decade(m: Seq<u8>, k: int)
    requires
        decade_multiplier(m, k),
    ensures
        multiplier_exp(m) == k,
{
    assert(crate::text::strip_plus(m) == m);
    reveal_with_fuel(crate::text::digits_value, 4);
    if m.len() == 1 {
        assert(m.drop_last() =~= Seq::<u8>::empty());
    } else if m.len() == 2 {
        assert(m.drop_last() =~= seq!['1' as u8]);
        assert(m.drop_last().drop_last() =~= Seq::<u8>::empty());
    } else {
        assert(m.drop_last() =~= seq!['1' as u8, '0' as u8]);
        assert(m.drop_last().drop_last() =~= seq!['1' as u8]);
        assert(m.drop_last().drop_last().drop_last() =~= Seq::<u8>::empty());
    }
}

/// A decade multiplier, a space and a lower-case unit: the first word is the
/// multiplier, so the exponent is the multiplier's plus the unit's.
proof fn lemma_ts_with_unit(m: Seq<u8>, k: int, u: Seq<u8>, off: i8)
    requires
        decade_multiplier(m, k),
        1 <= u.len() <= 2,
        0x61 <= u[0] <= 0x7A,
        u.len() == 2 ==> 0x61 <= u[1] <= 0x7A,
        unit_offset(m + seq![0x20u8] + u) == Some(off),
        -15 <= off <= 0,
    ensures
        timescale_exp(m + seq![0x20u8] + u) == k + off,
{
    reveal(timescale_exp);
    let ts = m + seq![0x20u8] + u;
    assert forall|i: int| 0 <= i < u.len() implies 0x61 <= #[trigger] u[i] <= 0x7A by {
        if i == 1 {
            assert(u.len() == 2);
        }
    }
    assert forall|i: int| 0 <= i < ts.len() implies !(0x41 <= #[trigger] ts[i] <= 0x5A) && ts[i]
        != 0x9C by {
        if i >= m.len() + 1 {
            assert(ts[i] == u[i - m.len() - 1]);
        }
    }
    lemma_ts_lower_plain(ts);
    let n = m.len() as int;
    assert forall|i: int| 0 <= i < n implies !crate::text::uws(ts, i) by {
        assert(ts[i] == m[i]);
        if i >= 1 {
            assert(ts[i - 1] == m[i - 1]);
        }
        if i >= 2 {
            assert(ts[i - 2] == m[i - 2]);
        }
        if i + 1 < ts.len() {
            assert(ts[i + 1] != 0x85 || ts[i] != 0xC2);
        }
    }
    assert(ts[n] == 0x20);
    assert(crate::text::uws(ts, n));
    lemma_word_end_at(ts, 0, n);
    assert(!crate::text::uws(ts, 0));
    assert(crate::text::skip_ws(ts, 0) == 0);
    let tl = crate::text::token_list(ts, 0);
    assert(tl.len() > 0 && tl[0] == (0int, n));
    assert(ts.subrange(0, n) =~= m);
    lemma_multiplier_decade(m, k);
}

/// A pattern that starts with a byte other than a digit or a space occurs
/// after a multiplier and a space exactly when it occurs in what follows.
proof fn lemma_sub_after_multiplier(m: Seq<u8>, k: int, u: Seq<u8>, pat: Seq<u8>)
    requires
        decade_multiplier(m, k),
        pat.len() > 0,
        pat[0] != 0x30u8 && pat[0] != 0x31u8 && pat[0] != 0x20u8,
    ensures
        crate::text::seq_contains_sub(m + seq![0x20u8] + u, pat) == crate::text::seq_contains_sub(
            u,
            pat,
        ),
{
    let t = m + seq![0x20u8] + u;
    let n = m.len() as int;
    if crate::text::seq_contains_sub(t, pat) {
        let i = choose|i: int| crate::text::occurs_at(t, pat, i);
        assert(t.subrange(i, i + pat.len())[0] == t[i]);
        if i < n {
            assert(t[i] == m[i]);
        }
        assert(i >= n + 1);
        assert(u.subrange(i - n - 1, i - n - 1 + pat.len()) =~= t.subrange(i, i + pat.len()));
        assert(crate::text::occurs_at(u, pat, i - n - 1));
    }
    if crate::text::seq_contains_sub(u, pat) {
        let j = choose|j: int| crate::text::occurs_at(u, pat, j);
        assert(t.subrange(j + n + 1, j + n + 1 + pat.len()) =~= u.subrange(j, j + pat.len()));
        assert(crate::text::occurs_at(t, pat, j + n + 1));
    }
}

/// The unit read from a multiplier, a space and a unit word is the unit
/// word's.
proof fn lemma_unit_after_multiplier(m: Seq<u8>, k: int, u: Seq<u8>)
    requires
        decade_multiplier(m, k),
    ensures
        unit_offset(m + seq![0x20u8] + u) == unit_offset(u),
{
    reveal(unit_offset);
    lemma_sub_after_multiplier(m, k, u, seq![0x66u8, 0x73u8]);
    lemma_sub_after_multiplier(m, k, u, seq![0x70u8, 0x73u8]);
    lemma_sub_after_multiplier(m, k, u, seq![0x6eu8, 0x73u8]);
    lemma_sub_after_multiplier(m, k, u, seq![0x75u8, 0x73u8]);
    lemma_sub_after_multiplier(m, k, u, seq![0xceu8, 0xbcu8, 0x73u8]);
    lemma_sub_after_multiplier(m, k, u, seq![0x6du8, 0x73u8]);
    lemma_sub_after_multiplier(m, k, u, seq![0x73u8]);
}

proof fn lemma_timescale_fs(m: Seq<u8>, k: int)
    requires
        decade_multiplier(m, k),
    ensures
        timescale_exp(m + seq![0x20u8] + seq![0x66u8, 0x73u8]) == k + -15,
{
    let u = seq![0x66u8, 0x73u8];
    assert(crate::text::seq_contains_sub(u, seq![0x66u8, 0x73u8])) by {
        assert(u.subrange(0, 2) =~= seq![0x66u8, 0x73u8]);
        lemma_sub_present(u, seq![0x66u8, 0x73u8], 0);
    }
    assert(unit_offset(u) == Some(-15i8)) by {
        reveal(unit_offset);
    }
    lemma_unit_after_multiplier(m, k, u);
    lemma_ts_with_unit(m, k, u, -15i8);
}

proof fn lemma_timescale_ps(m: Seq<u8>, k: int)
    requires
        decade_multiplier(m, k),
    ensures
        timescale_exp(m + seq![0x20u8] + seq![0x70u8, 0x73u8]) == k + -12,
{
    let u = seq![0x70u8, 0x73u8];
    assert(!crate::text::seq_contains_sub(u, seq![0x66u8, 0x73u8])) by {
        lemma_sub_absent(u, seq![0x66u8, 0x73u8]);
    }
    assert(crate::text::seq_contains_sub(u, seq![0x70u8, 0x73u8])) by {
        assert(u.subrange(0, 2) =~= seq![0x70u8, 0x73u8]);
        lemma_sub_present(u, seq![0x70u8, 0x73u8], 0);
    }
    assert(unit_offset(u) == Some(-12i8)) by {
        reveal(unit_offset);
    }
    lemma_unit_after_multiplier(m, k, u);
    lemma_ts_with_unit(m, k, u, -12i8);
}

proof fn lemma_timescale_ns(m: Seq<u8>, k: int)
    requires
        decade_multiplier(m, k),
    ensures
        timescale_exp(m + seq![0x20u8] + seq![0x6eu8, 0x73u8]) == k + -9,
{
    let u = seq![0x6eu8, 0x73u8];
    assert(!crate::text::seq_contains_sub(u, seq![0x66u8, 0x73u8])) by {
        lemma_sub_absent(u, seq![0x66u8, 0x73u8]);
    }
    assert(!crate::text::seq_contains_sub(u, seq![0x70u8, 0x73u8])) by {
        lemma_sub_absent(u, seq![0x70u8, 0x73u8]);
    }
    assert(crate::text::seq_contains_sub(u, seq![0x6eu8, 0x73u8])) by {
        assert(u.subrange(0, 2) =~= seq![0x6eu8, 0x73u8]);
        lemma_sub_present(u, seq![0x6eu8, 0x73u8], 0);
    }
    assert(unit_offset(u) == Some(-9i8)) by {
        reveal(unit_offset);
    }
    lemma_unit_after_multiplier(m, k, u);
    lemma_ts_with_unit(m, k, u, -9i8);
}

proof fn lemma_timescale_us(m: Seq<u8>, k: int)
    requires
        decade_multiplier(m, k),
    ensures
        timescale_exp(m + seq![0x20u8] + seq![0x75u8, 0x73u8]) == k + -6,
{
    let u = seq![0x75u8, 0x73u8];
    assert(!crate::text::seq_contains_sub(u, seq![0x66u8, 0x73u8])) by {
        lemma_sub_absent(u, seq![0x66u8, 0x73u8]);
    }
    assert(!crate::text::seq_contains_sub(u, seq![0x70u8, 0x73u8])) by {
        lemma_sub_absent(u, seq![0x70u8, 0x73u8]);
    }
    assert(!crate::text::seq_contains_sub(u, seq![0x6eu8, 0x73u8])) by {
        lemma_sub_absent(u, seq![0x6eu8, 0x73u8]);
    }
    assert(crate::text::seq_contains_sub(u, seq![0x75u8, 0x73u8])) by {
        assert(u.subrange(0, 2) =~= seq![0x75u8, 0x73u8]);
        lemma_sub_present(u, seq![0x75u8, 0x73u8], 0);
    }
    assert(unit_offset(u) == Some(-6i8)) by {
        reveal(unit_offset);
    }
    lemma_unit_after_multiplier(m, k, u);
    lemma_ts_with_unit(m, k, u, -6i8);
}

proof fn lemma_timescale_ms(m: Seq<u8>, k: int)
    requires
        decade_multiplier(m, k),
    ensures
        timescale_exp(m + seq![0x20u8] + seq![0x6du8, 0x73u8]) == k + -3,
{
    let u = seq![0x6du8, 0x73u8];
    assert(!crate::text::seq_contains_sub(u, seq![0x66u8, 0x73u8])) by {
        lemma_sub_absent(u, seq![0x66u8, 0x73u8]);
    }
    assert(!crate::text::seq_contains_sub(u, seq![0x70u8, 0x73u8])) by {
        lemma_sub_absent(u, seq![0x70u8, 0x73u8]);
    }
    assert(!crate::text::seq_contains_sub(u, seq![0x6eu8, 0x73u8])) by {
        lemma_sub_absent(u, seq![0x6eu8, 0x73u8]);
    }
    assert(!crate::text::seq_contains_sub(u, seq![0x75u8, 0x73u8])) by {
        lemma_sub_absent(u, seq![0x75u8, 0x73u8]);
    }
    assert(!crate::text::seq_contains_sub(u, seq![0xceu8, 0xbcu8, 0x73u8])) by {
        lemma_sub_absent(u, seq![0xceu8, 0xbcu8, 0x73u8]);
    }
    assert(crate::text::seq_contains_sub(u, seq![0x6du8, 0x73u8])) by {
        assert(u.subrange(0, 2) =~= seq![0x6du8, 0x73u8]);
        lemma_sub_present(u, seq![0x6du8, 0x73u8], 0);
    }
    assert(unit_offset(u) == Some(-3i8)) by {
        reveal(unit_offset);
    }
    lemma_unit_after_multiplier(m, k, u);
    lemma_ts_with_unit(m, k, u, -3i8);
}

proof fn lemma_timescale_s(m: Seq<u8>, k: int)
    requires
        decade_multiplier(m, k),
    ensures
        timescale_exp(m + seq![0x20u8] + seq![0x73u8]) == k + 0,
{
    let u = seq![0x73u8];
    assert(!crate::text::seq_contains_sub(u, seq![0x66u8, 0x73u8])) by {
        lemma_sub_absent(u, seq![0x66u8, 0x73u8]);
    }
    assert(!crate::text::seq_contains_sub(u, seq![0x70u8, 0x73u8])) by {
        lemma_sub_absent(u, seq![0x70u8, 0x73u8]);
    }
    assert(!crate::text::seq_contains_sub(u, seq![0x6eu8, 0x73u8])) by {
        lemma_sub_absent(u, seq![0x6eu8, 0x73u8]);
    }
    assert(!crate::text::seq_contains_sub(u, seq![0x75u8, 0x73u8])) by {
        lemma_sub_absent(u, seq![0x75u8, 0x73u8]);
    }
    assert(!crate::text::seq_contains_sub(u, seq![0xceu8, 0xbcu8, 0x73u8])) by {
        lemma_sub_absent(u, seq![0xceu8, 0xbcu8, 0x73u8]);
    }
    assert(!crate::text::seq_contains_sub(u, seq![0x6du8, 0x73u8])) by {
        lemma_sub_absent(u, seq![0x6du8, 0x73u8]);
    }
    assert(crate::text::seq_contains_sub(u, seq![0x73u8])) by {
        assert(u.subrange(0, 1) =~= seq![0x73u8]);
        lemma_sub_present(u, seq![0x73u8], 0);
    }
    assert(unit_offset(u) == Some(0i8)) by {
        reveal(unit_offset);
    }
    lemma_unit_after_multiplier(m, k, u);
    lemma_ts_with_unit(m, k, u, 0i8);
}

/// A timescale of 1, 10 or 100 (`decade_multiplier`) of one of the units
/// fs, ps, ns, us, ms and s is that many decades above the unit's exponent:
/// -15, -12, -9, -6, -3 and 0.
pub proof fn lemma_timescale_units(m: Seq<u8>, k: int)
    requires
        decade_multiplier(m, k),
    ensures
        timescale_exp(m + seq![' ' as u8, 'f' as u8, 's' as u8]) == k + -15,
        timescale_exp(m + seq![' ' as u8, 'p' as u8, 's' as u8]) == k + -12,
        timescale_exp(m + seq![' ' as u8, 'n' as u8, 's' as u8]) == k + -9,
        timescale_exp(m + seq![' ' as u8, 'u' as u8, 's' as u8]) == k + -6,
        timescale_exp(m + seq![' ' as u8, 'm' as u8, 's' as u8]) == k + -3,
        timescale_exp(m + seq![' ' as u8, 's' as u8]) == k + 0,
{
    lemma_timescale_fs(m, k);
    assert(m + seq![0x20u8] + seq![0x66u8, 0x73u8] =~= m + seq![' ' as u8, 'f' as u8, 's' as u8]);
    lemma_timescale_ps(m, k);
    assert(m + seq![0x20u8] + seq![0x70u8, 0x73u8] =~= m + seq![' ' as u8, 'p' as u8, 's' as u8]);
    lemma_timescale_ns(m, k);
    assert(m + seq![0x20u8] + seq![0x6eu8, 0x73u8] =~= m + seq![' ' as u8, 'n' as u8, 's' as u8]);
    lemma_timescale_us(m, k);
    assert(m + seq![0x20u8] + seq![0x75u8, 0x73u8] =~= m + seq![' ' as u8, 'u' as u8, 's' as u8]);
    lemma_timescale_ms(m, k);
    assert(m + seq![0x20u8] + seq![0x6du8, 0x73u8] =~= m + seq![' ' as u8, 'm' as u8, 's' as u8]);
    lemma_timescale_s(m, k);
    assert(m + seq![0x20u8] + seq![0x73u8] =~= m + seq![' ' as u8, 's' as u8]);
}

fn lower_ts(s: &[u8]) -> (r: Vec<u8>)
    ensures
        r@ == ts_lower(s@),
{
    let mut out: Vec<u8> = Vec::new();
    let mut i: usize = 0;
    while i < s.len()
        invariant
            i <= s@.len(),
            out@ =~= ts_lower(s@).take(i as int),
        decreases s@.len() - i,
    {
        let b = s[i];
        let c: u8 = if 0x41 <= b && b <= 0x5A {
            b + 32
        } else if b == 0x9C && i > 0 && s[i - 1] == 0xCE {
            0xBC
        } else {
            b
        };
        out.push(c);
        i = i + 1;
    }
    out
}

fn multiplier_exp_exec(tok: &[u8]) -> (r: i8)
    ensures
        r == multiplier_exp(tok@),
{
    match parse_uint_std(tok, 999999) {
        Some(v) => {
            if v == 0 {
                -128
            } else if v >= 316228 {
                6
            } else if v >= 31623 {
                5
            } else if v >= 3163 {
                4
            } else if v >= 317 {
                3
            } else if v >= 32 {
                2
            } else if v >= 4 {
                1
            } else {
                0
            }
        },
        None => 0,
    }
}

/// Parse a timescale such as "1 ns" or "10ps" into an exponent of ten in
/// seconds. Units fs, ps, ns, us (or μs), ms and s are recognised; the
/// multiplier is a decimal integer (one that is not counts as 1).
pub fn parse_timescale_exp(ts: &str) -> (r: i8)
    ensures
        r == timescale_exp(ts.spec_bytes()),
{
    timescale_exp_of(ts.as_bytes())
}

/// `parse_timescale_exp` on the bytes of a timescale.
fn timescale_exp_of(s: &[u8]) -> (r: i8)
    ensures
        r == timescale_exp(s@),
{
    reveal(timescale_exp);
    reveal(unit_offset);
    let l = lower_ts(s);
    let fs: [u8; 2] = [0x66, 0x73];
    let ps: [u8; 2] = [0x70, 0x73];
    let ns: [u8; 2] = [0x6e, 0x73];
    let us: [u8; 2] = [0x75, 0x73];
    let mu_s: [u8; 3] = [0xCE, 0xBC, 0x73];
    let ms: [u8; 2] = [0x6d, 0x73];
    let s_only: [u8; 1] = [0x73];
    assert(fs@ =~= seq![0x66u8, 0x73]);
    assert(ps@ =~= seq![0x70u8, 0x73]);
    assert(ns@ =~= seq![0x6eu8, 0x73]);
    assert(us@ =~= seq![0x75u8, 0x73]);
    assert(mu_s@ =~= seq![0xCEu8, 0xBC, 0x73]);
    assert(ms@ =~= seq![0x6du8, 0x73]);
    assert(s_only@ =~= seq![0x73u8]);
    let off: i8;
    if contains_sub(l.as_slice(), &fs) {
        off = -15;
    } else if contains_sub(l.as_slice(), &ps) {
        off = -12;
    } else if contains_sub(l.as_slice(), &ns) {
        off = -9;
    } else if contains_sub(l.as_slice(), &us) || contains_sub(l.as_slice(), &mu_s) {
        off = -6;
    } else if contains_sub(l.as_slice(), &ms) {
        off = -3;
    } else if contains_sub(l.as_slice(), &s_only) {
        off = 0;
    } else {
        return multiplier_exp_exec(s);
    }
    let tl = tokens(l.as_slice());
    let m: i8 = if tl.len() > 0 {
        let (a, b) = tl[0];
        multiplier_exp_exec(vstd::slice::slice_subrange(l.as_slice(), a, b))
    } else {
        let one: [u8; 1] = [0x31];
        assert(one@ =~= seq![0x31u8]);
        multiplier_exp_exec(&one)
    };
    let x: i16 = (m as i16) + (off as i16);
    if x < -128 {
        (x + 256) as i8
    } else {
        x as i8
    }
}

// ---------------------------------------------------------------------------
// Lines
// ---------------------------------------------------------------------------

/// The text of a token or slice, as the parser makes a `String` of it.
pub open spec fn text_of(b: Seq<u8>) -> Seq<char> {
    lossy_utf8(b)
}

/// The tokens of `t` from token `k` (at least the second) on, joined by
/// single spaces.
pub open spec fn join_rest(t: Seq<u8>, k: int) -> Seq<u8>
    decreases token_list(t, 0).len() - k,
{
    let n = token_list(t, 0).len();
    if k < 1 || k >= n {
        Seq::empty()
    } else if k == n - 1 {
        token(t, k)
    } else {
        token(t, k) + seq![0x20u8] + join_rest(t, k + 1)
    }
}

/// Where the name of a variable declaration starts: after the first
/// occurrence of its identifier.
#[verifier::opaque]
pub open spec fn vd_name_start(line: Seq<u8>, id: Seq<u8>) -> int {
    let id_pos = match first_occ(line, id) {
        Some(p) => p,
        None => 0,
    };
    id_pos + id.len()
}

/// Where the name of a variable declaration ends: at the last "$end", or at
/// the end of the line.
#[verifier::opaque]
pub open spec fn vd_name_end(line: Seq<u8>) -> int {
    match last_occ(line, kw_end()) {
        Some(p) => p,
        None => line.len() as int,
    }
}

/// The width of a variable declaration: its third word as a `u32`, or 1.
pub open spec fn vd_width(line: Seq<u8>) -> u32 {
    match std_uint(token(line, 2), u32::MAX as nat) {
        Some(w) => w as u32,
        None => 1,
    }
}

/// The name of a variable declaration: the text between its identifier and
/// its last "$end", trimmed (the identifier when that is empty and
/// `id_as_default_name`).
pub open spec fn vd_name(line: Seq<u8>, id_as_default_name: bool) -> Seq<char> {
    let name = trimmed(line.subrange(vd_name_start(line, token(line, 3)), vd_name_end(line)));
    if id_as_default_name && name.len() == 0 {
        text_of(token(line, 3))
    } else {
        text_of(name)
    }
}

/// How a variable declaration line `line` (already stripped of a trailing
/// "$end") is read; `None` when its name would have to be sliced backwards.
/// `id_as_default_name`: an empty name takes the identifier (as the
/// memory-mapped parser does).
#[verifier::opaque]
pub open spec fn var_decl_spec(line: Seq<u8>, ln: usize, id_as_default_name: bool) -> Option<
    Result<EventView, ErrorView>,
> {
    if token_list(line, 0).len() < 5 {
        Some(
            Err(
                ErrorView {
                    line: ln,
                    column: 0,
                    kind: KindView::UnexpectedChar {
                        found: ' ',
                        expected: "$var kind width id name"@,
                    },
                    help: Some("Variable declaration should be: $var <type> <width> <id> <name>"@),
                },
            ),
        )
    } else if vd_name_end(line) < vd_name_start(line, token(line, 3)) {
        None
    } else {
        Some(
            Ok(
                EventView::VarDecl {
                    id: text_of(token(line, 3)),
                    name: vd_name(line, id_as_default_name),
                    width: vd_width(line),
                    var_type: text_of(token(line, 1)),
                },
            ),
        )
    }
}

/// The line of a `$var` declaration without its trailing "$end".
pub open spec fn var_line(t: Seq<u8>) -> Seq<u8> {
    if seq_ends_with(t, kw_end()) {
        trimmed(t.subrange(0, t.len() - 4))
    } else {
        t
    }
}

/// What a header line does: the parser state after it, the scope list
/// after it, the identifier it declares (if any), and its event.
pub struct HeaderStep {
    pub state: ParserState,
    pub scopes: Seq<Seq<char>>,
    pub new_id: Option<Seq<char>>,
    pub out: Option<Result<EventView, ErrorView>>,
}

/// A trimmed, non-empty header line `t`; `None` when its variable
/// declaration cannot be read (see `var_decl_spec`).
#[verifier::opaque]
pub open spec fn header_line(
    t: Seq<u8>,
    ln: usize,
    scopes: Seq<Seq<char>>,
    id_as_default_name: bool,
) -> Option<HeaderStep> {
    let tl = token_list(t, 0);
    if seq_starts_with(t, kw_scope()) {
        if tl.len() >= 3 {
            Some(
                HeaderStep {
                    state: ParserState::Header,
                    scopes: scopes.push(text_of(token(t, 2))),
                    new_id: None,
                    out: Some(
                        Ok(
                            EventView::ScopeStart {
                                name: text_of(token(t, 2)),
                                kind: text_of(token(t, 1)),
                            },
                        ),
                    ),
                },
            )
        } else {
            Some(HeaderStep { state: ParserState::Header, scopes, new_id: None, out: None })
        }
    } else if seq_starts_with(t, kw_upscope()) {
        Some(
            HeaderStep {
                state: ParserState::Header,
                scopes: if scopes.len() > 0 { scopes.drop_last() } else { scopes },
                new_id: None,
                out: Some(Ok(EventView::ScopeEnd)),
            },
        )
    } else if seq_starts_with(t, kw_var()) {
        let line = var_line(t);
        match var_decl_spec(line, ln, id_as_default_name) {
            None => None,
            Some(r) => Some(
                HeaderStep {
                    state: ParserState::Header,
                    scopes,
                    new_id: match r {
                        Ok(_) => Some(text_of(token(line, 3))),
                        Err(_) => None,
                    },
                    out: Some(r),
                },
            ),
        }
    } else if seq_starts_with(t, kw_timescale()) {
        if tl.len() >= 2 {
            Some(
                HeaderStep {
                    state: ParserState::Header,
                    scopes,
                    new_id: None,
                    out: Some(Ok(EventView::Timescale(timescale_exp(join_rest(t, 1))))),
                },
            )
        } else {
            Some(HeaderStep { state: ParserState::SkipToEnd, scopes, new_id: None, out: None })
        }
    } else if seq_starts_with(t, kw_date()) {
        let date = trimmed(t.skip(5));
        if date.len() > 0 && !seq_contains_sub(date, kw_end()) {
            Some(
                HeaderStep {
                    state: ParserState::Header,
                    scopes,
                    new_id: None,
                    out: Some(Ok(EventView::Date(text_of(date)))),
                },
            )
        } else {
            Some(HeaderStep { state: ParserState::SkipToEnd, scopes, new_id: None, out: None })
        }
    } else if seq_starts_with(t, kw_version()) {
        Some(HeaderStep { state: ParserState::SkipToEnd, scopes, new_id: None, out: None })
    } else if seq_starts_with(t, kw_enddefinitions()) {
        Some(
            HeaderStep {
                state: ParserState::Dump,
                scopes,
                new_id: None,
                out: Some(Ok(EventView::DumpVars)),
            },
        )
    } else if seq_starts_with(t, kw_comment()) {
        Some(HeaderStep { state: ParserState::SkipToEnd, scopes, new_id: None, out: None })
    } else {
        Some(HeaderStep { state: ParserState::Header, scopes, new_id: None, out: None })
    }
}

/// What a trimmed, non-empty dump line `t` gives: the new last timestamp (if
/// it is a timestamp) and its event.
#[verifier::opaque]
pub open spec fn dump_line(t: Seq<u8>, ln: usize) -> (Option<u64>, Option<Result<EventView, ErrorView>>) {
    let c = t[0];
    if c == 0x23 {
        let ts: u64 = match std_uint(t.skip(1), u64::MAX as nat) {
            Some(v) => v as u64,
            None => 0,
        };
        (Some(ts), Some(Ok(EventView::Timestamp(ts))))
    } else if c == 0x24 {
        if seq_starts_with(t, kw_dumpvars()) {
            (None, Some(Ok(EventView::DumpVars)))
        } else if seq_starts_with(t, kw_dumpoff()) {
            (None, Some(Ok(EventView::DumpOff)))
        } else if seq_starts_with(t, kw_dumpon()) {
            (None, Some(Ok(EventView::DumpOn)))
        } else {
            (None, None)
        }
    } else if c == 0x62 || c == 0x72 {
        let tl = token_list(t, 0);
        if tl.len() < 2 {
            (
                None,
                Some(
                    Err(
                        ErrorView {
                            line: ln,
                            column: 0,
                            kind: KindView::UnexpectedChar {
                                found: ' ',
                                expected: "vector value and signal id"@,
                            },
                            help: None,
                        },
                    ),
                ),
            )
        } else {
            let vs = token(t, 0).skip(1);
            let id = signal_number(token(t, 1));
            let value: Option<ValueView> = if c == 0x72 {
                if is_float_literal(vs) { Some(ValueView::Real(lossy_utf8(vs))) } else { None }
            } else {
                if vs.len() > 0 && forall|j: int| 0 <= j < vs.len() ==> is_vector_byte(#[trigger] vs[j]) {
                    Some(ValueView::Vector(vs))
                } else {
                    None
                }
            };
            match value {
                Some(v) => (None, Some(Ok(EventView::ValueChange { id, value: v }))),
                None => (
                    None,
                    Some(
                        Err(
                            ErrorView {
                                line: ln,
                                column: 0,
                                kind: KindView::InvalidTimestamp { value: text_of(vs) },
                                help: Some(
                                    if c == 0x72 {
                                        "Invalid real value format"@
                                    } else {
                                        "Invalid vector value format"@
                                    },
                                ),
                            },
                        ),
                    ),
                ),
            }
        }
    } else if c == 0x30 || c == 0x31 || c == 0x78 || c == 0x7A || c == 0x58 || c == 0x5A {
        (
            None,
            Some(
                Ok(
                    EventView::ValueChange {
                        id: signal_number(t.skip(1)),
                        value: ValueView::Bit(c),
                    },
                ),
            ),
        )
    } else {
        (None, None)
    }
}


// ---------------------------------------------------------------------------
// One line at a time
// ---------------------------------------------------------------------------

/// The views of a list of strings.
pub open spec fn texts(v: Seq<String>) -> Seq<Seq<char>> {
    v.map_values(|s: String| s@)
}

/// The parser's own state: the section it is in, the open scopes, the
/// declared identifiers and the last timestamp.
#[verifier::ext_equal]
pub struct CoreView {
    pub state: ParserState,
    pub scopes: Seq<Seq<char>>,
    pub signal_ids: Seq<Seq<char>>,
    pub last_timestamp: u64,
}

/// What a trimmed, non-empty line does to the parser's state, and the event
/// it gives; `None` when a variable declaration cannot be read.
pub open spec fn line_step(c: CoreView, t: Seq<u8>, ln: usize, id_as_default_name: bool) -> Option<
    (CoreView, Option<Result<EventView, ErrorView>>),
> {
    match c.state {
        ParserState::Header => match header_line(t, ln, c.scopes, id_as_default_name) {
            None => None,
            Some(h) => Some(
                (
                    CoreView {
                        state: h.state,
                        scopes: h.scopes,
                        signal_ids: match h.new_id {
                            Some(i) => c.signal_ids.push(i),
                            None => c.signal_ids,
                        },
                        last_timestamp: c.last_timestamp,
                    },
                    h.out,
                ),
            ),
        },
        ParserState::Dump => {
            let d = dump_line(t, ln);
            Some(
                (
                    CoreView {
                        last_timestamp: match d.0 {
                            Some(v) => v,
                            None => c.last_timestamp,
                        },
                        ..c
                    },
                    d.1,
                ),
            )
        },
        ParserState::SkipToEnd => Some(
            (
                CoreView {
                    state: if t == kw_end() {
                        ParserState::Header
                    } else {
                        ParserState::SkipToEnd
                    },
                    ..c
                },
                None,
            ),
        ),
    }
}

/// The view of an optional parser result.
pub open spec fn opt_result_view(r: Option<Result<VcdEvent, VcdError>>) -> Option<
    Result<EventView, ErrorView>,
> {
    match r {
        Some(x) => Some(result_view(x)),
        None => None,
    }
}

/// The parser's state besides its reader.
pub struct ParserCore {
    state: ParserState,
    scopes: Vec<String>,
    signal_ids: Vec<String>,
    last_timestamp: u64,
}

impl View for ParserCore {
    type V = CoreView;

    closed spec fn view(&self) -> CoreView {
        CoreView {
            state: self.state,
            scopes: texts(self.scopes@),
            signal_ids: texts(self.signal_ids@),
            last_timestamp: self.last_timestamp,
        }
    }
}

/// A string of the bytes' text.
fn text_string(b: &[u8]) -> (s: String)
    ensures
        s@ == text_of(b@),
{
    string_from_utf8_lossy(b)
}

/// The bytes of token `k` of `t`.
fn token_at<'a>(t: &'a [u8], tl: &Vec<(usize, usize)>, k: usize) -> (r: &'a [u8])
    requires
        k < tl@.len(),
        tl@.len() == token_list(t@, 0).len(),
        forall|j: int|
            0 <= j < tl@.len() ==> (#[trigger] tl@[j]).0 as int == token_list(t@, 0)[j].0
                && tl@[j].1 as int == token_list(t@, 0)[j].1 && tl@[j].0 < tl@[j].1 <= t@.len(),
    ensures
        r@ == token(t@, k as int),
        0 < r@.len() <= t@.len(),
{
    let (a, b) = tl[k];
    vstd::slice::slice_subrange(t, a, b)
}

/// The tokens of `t` from token `from` (at least the second) on, joined by
/// single spaces.
pub(crate) fn join_rest_exec(t: &[u8], tl: &Vec<(usize, usize)>, from: usize) -> (r: Vec<u8>)
    requires
        1 <= from,
        tl@.len() == token_list(t@, 0).len(),
        forall|j: int|
            0 <= j < tl@.len() ==> (#[trigger] tl@[j]).0 as int == token_list(t@, 0)[j].0
                && tl@[j].1 as int == token_list(t@, 0)[j].1 && tl@[j].0 < tl@[j].1 <= t@.len(),
    ensures
        r@ == join_rest(t@, from as int),
{
    let n: usize = tl.len();
    let mut acc: Vec<u8> = Vec::new();
    if n <= from {
        return acc;
    }
    let mut k: usize = n;
    while k > from
        invariant
            1 <= from <= k <= n,
            n == tl@.len(),
            tl@.len() == token_list(t@, 0).len(),
            forall|j: int|
                0 <= j < tl@.len() ==> (#[trigger] tl@[j]).0 as int == token_list(t@, 0)[j].0
                    && tl@[j].1 as int == token_list(t@, 0)[j].1 && tl@[j].0 < tl@[j].1
                    <= t@.len(),
            acc@ == join_rest(t@, k as int),
        decreases k,
    {
        let w = token_at(t, tl, k - 1);
        let mut next: Vec<u8> = vstd::slice::slice_to_vec(w);
        if k < n {
            next.push(0x20);
            crate::bytes::append_bytes(&mut next, acc.as_slice());
        }
        acc = next;
        k = k - 1;
    }
    acc
}

/// Where the name of a variable declaration starts.
fn var_decl_name_start(line: &[u8], id: &[u8]) -> (r: usize)
    requires
        id@.len() <= line@.len(),
    ensures
        r as int == vd_name_start(line@, id@),
{
    let line_len: usize = line.len();
    let found = find_first(line, id);
    let id_pos: usize = match found {
        Some(p) => p,
        None => 0,
    };
    assert(id_pos + id@.len() <= line@.len()) by {
        if let Some(p) = found {
            assert(occurs_at(line@, id@, p as int));
        }
    }
    let name_start: usize = id_pos + id.len();
    assert(name_start as int == vd_name_start(line@, id@)) by {
        reveal(vd_name_start);
    }
    name_start
}

/// Where the name of a variable declaration ends.
fn var_decl_name_end(line: &[u8]) -> (r: usize)
    ensures
        r as int == vd_name_end(line@),
        r <= line@.len(),
{
    let end_kw: [u8; 4] = [0x24, 0x65, 0x6e, 0x64];
    assert(end_kw@ =~= kw_end());
    let name_end: usize = match find_last(line, &end_kw) {
        Some(p) => p,
        None => line.len(),
    };
    assert(name_end as int == vd_name_end(line@)) by {
        reveal(vd_name_end);
    }
    name_end
}

/// The name of a variable declaration (see `vd_name`).
fn var_decl_name(line: &[u8], id: &[u8], id_as_default_name: bool) -> (s: String)
    requires
        id@ == token(line@, 3),
        id@.len() <= line@.len(),
        vd_name_start(line@, token(line@, 3)) <= vd_name_end(line@),
    ensures
        s@ == vd_name(line@, id_as_default_name),
{
    let name_start = var_decl_name_start(line, id);
    let name_end = var_decl_name_end(line);
    let raw_name = vstd::slice::slice_subrange(line, name_start, name_end);
    let name_bytes = trim_slice(raw_name);
    let id_text = text_string(id);
    if id_as_default_name && name_bytes.len() == 0 {
        id_text
    } else {
        text_string(name_bytes)
    }
}

impl ParserCore {
    /// The state at the start of a file.
    pub fn new() -> (c: ParserCore)
        ensures
            c@ == (CoreView {
                state: ParserState::Header,
                scopes: Seq::empty(),
                signal_ids: Seq::empty(),
                last_timestamp: 0,
            }),
    {
        let c = ParserCore {
            state: ParserState::Header,
            scopes: Vec::new(),
            signal_ids: Vec::new(),
            last_timestamp: 0,
        };
        assert(c@.scopes =~= Seq::<Seq<char>>::empty());
        assert(c@.signal_ids =~= Seq::<Seq<char>>::empty());
        c
    }

    /// Read a variable declaration line (without its trailing "$end").
    fn var_decl_impl(&mut self, ln: usize, line: &[u8], id_as_default_name: bool) -> (r: Result<
        VcdEvent,
        VcdError,
    >)
        requires
            var_decl_spec(line@, ln, id_as_default_name) is Some,
        ensures
            var_decl_spec(line@, ln, id_as_default_name) == Some(result_view(r)),
            final(self)@ == (CoreView {
                signal_ids: match r {
                    Ok(_) => old(self)@.signal_ids.push(text_of(token(line@, 3))),
                    Err(_) => old(self)@.signal_ids,
                },
                ..old(self)@
            }),
    {
        let tl = tokens(line);
        if tl.len() < 5 {
            proof {
                reveal(var_decl_spec);
            }
            return Err(
                VcdError {
                    line: ln,
                    column: 0,
                    kind: ErrorKind::UnexpectedChar {
                        found: ' ',
                        expected: "$var kind width id name",
                    },
                    help: Some(
                        String::from_str(
                            "Variable declaration should be: $var <type> <width> <id> <name>",
                        ),
                    ),
                },
            );
        }
        let ev = self.var_decl_fields(ln, line, &tl, id_as_default_name);
        Ok(ev)
    }

    /// The event of a variable declaration line with at least five words.
    fn var_decl_fields(
        &mut self,
        ln: usize,
        line: &[u8],
        tl: &Vec<(usize, usize)>,
        id_as_default_name: bool,
    ) -> (r: VcdEvent)
        requires
            var_decl_spec(line@, ln, id_as_default_name) is Some,
            tl@.len() >= 5,
            tl@.len() == token_list(line@, 0).len(),
            forall|j: int|
                0 <= j < tl@.len() ==> (#[trigger] tl@[j]).0 as int == token_list(line@, 0)[j].0
                    && tl@[j].1 as int == token_list(line@, 0)[j].1 && tl@[j].0 < tl@[j].1
                    <= line@.len(),
        ensures
            var_decl_spec(line@, ln, id_as_default_name) == Some(
                Ok::<EventView, ErrorView>(r@),
            ),
            final(self)@ == (CoreView {
                signal_ids: old(self)@.signal_ids.push(text_of(token(line@, 3))),
                ..old(self)@
            }),
    {
        let var_type = token_at(line, tl, 1);
        let width_tok = token_at(line, tl, 2);
        let id = token_at(line, tl, 3);
        assert(vd_name_start(line@, token(line@, 3)) <= vd_name_end(line@)) by {
            reveal(var_decl_spec);
        }
        let name_text = var_decl_name(line, id, id_as_default_name);
        let width: u32 = match parse_uint_std(width_tok, 0xFFFF_FFFF) {
            Some(w) => w as u32,
            None => 1,
        };
        let id_text = text_string(id);
        let type_text = text_string(var_type);
        let r = VcdEvent::VarDecl { id: id_text.clone(), name: name_text, width, var_type: type_text };
        assert(var_decl_spec(line@, ln, id_as_default_name) == Some(
            Ok::<EventView, ErrorView>(r@),
        )) by {
            reveal(var_decl_spec);
        }
        let ghost old_ids = self.signal_ids@;
        self.signal_ids.push(id_text);
        proof {
            assert(texts(self.signal_ids@) =~= texts(old_ids).push(text_of(token(line@, 3))));
        }
        r
    }

    /// The line of a `$var` declaration without its trailing "$end".
    fn var_line_exec(t: &[u8]) -> (r: &[u8])
        ensures
            r@ == var_line(t@),
    {
        let end_kw: [u8; 4] = [0x24, 0x65, 0x6e, 0x64];
        assert(end_kw@ =~= kw_end());
        if ends_with(t, &end_kw) {
            trim_slice(vstd::slice::slice_subrange(t, 0, t.len() - 4))
        } else {
            t
        }
    }

    /// Handle a trimmed, non-empty line of the header section.
    fn header_line_impl(&mut self, ln: usize, t: &[u8], id_as_default_name: bool) -> (r: Option<
        Result<VcdEvent, VcdError>,
    >)
        requires
            old(self)@.state == ParserState::Header,
            header_line(t@, ln, old(self)@.scopes, id_as_default_name) is Some,
        ensures
            line_step(old(self)@, t@, ln, id_as_default_name) == Some(
                (final(self)@, opt_result_view(r)),
            ),
    {
        reveal(header_line);
        let tl = tokens(t);
        let kw_s: [u8; 6] = [0x24, 0x73, 0x63, 0x6f, 0x70, 0x65];
        let kw_u: [u8; 8] = [0x24, 0x75, 0x70, 0x73, 0x63, 0x6f, 0x70, 0x65];
        let kw_v: [u8; 4] = [0x24, 0x76, 0x61, 0x72];
        let kw_t: [u8; 10] = [0x24, 0x74, 0x69, 0x6d, 0x65, 0x73, 0x63, 0x61, 0x6c, 0x65];
        let kw_d: [u8; 5] = [0x24, 0x64, 0x61, 0x74, 0x65];
        let kw_ver: [u8; 8] = [0x24, 0x76, 0x65, 0x72, 0x73, 0x69, 0x6f, 0x6e];
        let kw_ed: [u8; 15] = [
            0x24, 0x65, 0x6e, 0x64, 0x64, 0x65, 0x66, 0x69, 0x6e, 0x69, 0x74, 0x69, 0x6f, 0x6e, 0x73,
        ];
        let kw_c: [u8; 8] = [0x24, 0x63, 0x6f, 0x6d, 0x6d, 0x65, 0x6e, 0x74];
        let kw_e: [u8; 4] = [0x24, 0x65, 0x6e, 0x64];
        assert(kw_s@ =~= kw_scope());
        assert(kw_u@ =~= kw_upscope());
        assert(kw_v@ =~= kw_var());
        assert(kw_t@ =~= kw_timescale());
        assert(kw_d@ =~= kw_date());
        assert(kw_ver@ =~= kw_version());
        assert(kw_ed@ =~= kw_enddefinitions());
        assert(kw_c@ =~= kw_comment());
        assert(kw_e@ =~= kw_end());
        let ghost c = self@;
        if starts_with(t, &kw_s) {
            if tl.len() >= 3 {
                let kind = token_at(t, &tl, 1);
                let name = token_at(t, &tl, 2);
                let name_text = text_string(name);
                let ghost old_scopes = self.scopes@;
                self.scopes.push(name_text.clone());
                proof {
                    assert(texts(self.scopes@) =~= texts(old_scopes).push(name_text@));
                }
                let ev = VcdEvent::ScopeStart { name: name_text, kind: text_string(kind) };
                return Some(Ok(ev));
            }
            return None;
        } else if starts_with(t, &kw_u) {
            let ghost old_scopes = self.scopes@;
            let _ = self.scopes.pop();
            proof {
                if old_scopes.len() > 0 {
                    assert(texts(self.scopes@) =~= texts(old_scopes).drop_last());
                }
            }
            return Some(Ok(VcdEvent::ScopeEnd));
        } else if starts_with(t, &kw_v) {
            let line = Self::var_line_exec(t);
            let r = self.var_decl_impl(ln, line, id_as_default_name);
            return Some(r);
        } else if starts_with(t, &kw_t) {
            if tl.len() >= 2 {
                let joined = join_rest_exec(t, &tl, 1);
                let e = timescale_exp_of(joined.as_slice());
                return Some(Ok(VcdEvent::Timescale(e)));
            }
            self.state = ParserState::SkipToEnd;
            return None;
        } else if starts_with(t, &kw_d) {
            let rest = vstd::slice::slice_subrange(t, 5, t.len());
            assert(rest@ =~= t@.skip(5));
            let date = trim_slice(rest);
            if date.len() > 0 && !contains_sub(date, &kw_e) {
                return Some(Ok(VcdEvent::Date(text_string(date))));
            }
            self.state = ParserState::SkipToEnd;
            return None;
        } else if starts_with(t, &kw_ver) {
            self.state = ParserState::SkipToEnd;
            return None;
        } else if starts_with(t, &kw_ed) {
            self.state = ParserState::Dump;
            return Some(Ok(VcdEvent::DumpVars));
        } else if starts_with(t, &kw_c) {
            self.state = ParserState::SkipToEnd;
            return None;
        }
        None
    }

    /// A vector or real value change line (`b1010 s1`, `r1.5 s2`).
    fn vector_change_impl(ln: usize, t: &[u8], prefix: u8) -> (r: Result<VcdEvent, VcdError>)
        requires
            t@.len() > 0,
            t@[0] == prefix,
            prefix == 0x62 || prefix == 0x72,
        ensures
            dump_line(t@, ln).1 == Some(result_view(r)),
            dump_line(t@, ln).0 is None,
    {
        reveal(dump_line);
        let tl = tokens(t);
        if tl.len() < 2 {
            return Err(
                VcdError {
                    line: ln,
                    column: 0,
                    kind: ErrorKind::UnexpectedChar {
                        found: ' ',
                        expected: "vector value and signal id",
                    },
                    help: None,
                },
            );
        }
        let p0 = token_at(t, &tl, 0);
        let vs = vstd::slice::slice_subrange(p0, 1, p0.len());
        assert(vs@ =~= token(t@, 0).skip(1));
        let id = parse_signal_number_fast(token_at(t, &tl, 1));
        let value = if prefix == 0x72 {
            real_from_bytes(vs)
        } else {
            vector_from_bytes(vs)
        };
        match value {
            Some(v) => Ok(VcdEvent::ValueChange { id, value: v }),
            None => Err(
                VcdError {
                    line: ln,
                    column: 0,
                    kind: ErrorKind::InvalidTimestamp { value: text_string(vs) },
                    help: Some(
                        if prefix == 0x72 {
                            String::from_str("Invalid real value format")
                        } else {
                            String::from_str("Invalid vector value format")
                        },
                    ),
                },
            ),
        }
    }

    /// Handle a trimmed, non-empty line of the dump section.
    fn dump_line_impl(&mut self, ln: usize, t: &[u8], id_as_default_name: bool) -> (r: Option<
        Result<VcdEvent, VcdError>,
    >)
        requires
            old(self)@.state == ParserState::Dump,
            t@.len() > 0,
        ensures
            line_step(old(self)@, t@, ln, id_as_default_name) == Some(
                (final(self)@, opt_result_view(r)),
            ),
    {
        let c = t[0];
        if c == 0x23 {
            reveal(dump_line);
            let rest = vstd::slice::slice_subrange(t, 1, t.len());
            assert(rest@ =~= t@.skip(1));
            let ts: u64 = match parse_uint_std(rest, 0xFFFF_FFFF_FFFF_FFFF) {
                Some(v) => v,
                None => 0,
            };
            self.last_timestamp = ts;
            return Some(Ok(VcdEvent::Timestamp(ts)));
        } else if c == 0x24 {
            reveal(dump_line);
            let kw_dv: [u8; 9] = [0x24, 0x64, 0x75, 0x6d, 0x70, 0x76, 0x61, 0x72, 0x73];
            let kw_doff: [u8; 8] = [0x24, 0x64, 0x75, 0x6d, 0x70, 0x6f, 0x66, 0x66];
            let kw_don: [u8; 7] = [0x24, 0x64, 0x75, 0x6d, 0x70, 0x6f, 0x6e];
            assert(kw_dv@ =~= kw_dumpvars());
            assert(kw_doff@ =~= kw_dumpoff());
            assert(kw_don@ =~= kw_dumpon());
            if starts_with(t, &kw_dv) {
                return Some(Ok(VcdEvent::DumpVars));
            } else if starts_with(t, &kw_doff) {
                return Some(Ok(VcdEvent::DumpOff));
            } else if starts_with(t, &kw_don) {
                return Some(Ok(VcdEvent::DumpOn));
            }
            return None;
        } else if c == 0x62 || c == 0x72 {
            let r = Self::vector_change_impl(ln, t, c);
            return Some(r);
        } else if c == 0x30 || c == 0x31 || c == 0x78 || c == 0x7A || c == 0x58 || c == 0x5A {
            reveal(dump_line);
            let rest = vstd::slice::slice_subrange(t, 1, t.len());
            assert(rest@ =~= t@.skip(1));
            let id = parse_signal_number_fast(rest);
            return Some(Ok(VcdEvent::ValueChange { id, value: VcdValue::Bit(c) }));
        }
        reveal(dump_line);
        None
    }

    /// Handle a trimmed, non-empty line in the current section.
    pub fn step(&mut self, ln: usize, t: &[u8], id_as_default_name: bool) -> (r: Option<
        Result<VcdEvent, VcdError>,
    >)
        requires
            t@.len() > 0,
            line_step(old(self)@, t@, ln, id_as_default_name) is Some,
        ensures
            line_step(old(self)@, t@, ln, id_as_default_name) == Some(
                (final(self)@, opt_result_view(r)),
            ),
    {
        match self.state {
            ParserState::Header => self.header_line_impl(ln, t, id_as_default_name),
            ParserState::Dump => self.dump_line_impl(ln, t, id_as_default_name),
            ParserState::SkipToEnd => {
                let kw_e: [u8; 4] = [0x24, 0x65, 0x6e, 0x64];
                assert(kw_e@ =~= kw_end());
                if bytes_eq(t, &kw_e) {
                    self.state = ParserState::Header;
                }
                None
            },
        }
    }
}


// ---------------------------------------------------------------------------
// The parsers
// ---------------------------------------------------------------------------

/// The error a line that is not valid UTF-8 gives.
pub open spec fn invalid_utf8_error(ln: int) -> ErrorView {
    ErrorView {
        line: ln as usize,
        column: 0,
        kind: KindView::IoError("stream did not contain valid UTF-8"@),
        help: None,
    }
}

/// The next event of a file read line by line from `r` in state `c`: the
/// reader and state after it, and the event (`None` at the end of the
/// file). Blank lines and lines that give no event are passed over; a line
/// that is not valid UTF-8 gives an error. `None` when a variable
/// declaration on the way cannot be read.
pub open spec fn stream_next(r: LineReaderView, c: CoreView) -> Option<
    (LineReaderView, CoreView, Option<Result<EventView, ErrorView>>),
>
    decreases r.data.len() - r.pos,
{
    let ln = next_line_number(r.line);
    if r.pos < 0 || r.pos >= r.data.len() {
        Some((LineReaderView { line: ln, ..r }, c, None))
    } else {
        let e = line_end(r.data, r.pos);
        let r2 = LineReaderView { data: r.data, pos: e, line: ln };
        let b = r.data.subrange(r.pos, e);
        if !valid_utf8(b) {
            Some((r2, c, Some(Err(invalid_utf8_error(ln)))))
        } else {
            let t = trimmed(strip_eol(b));
            if t.len() == 0 {
                proof {
                    lemma_line_end(r.data, r.pos);
                }
                stream_next(r2, c)
            } else {
                match line_step(c, t, ln as usize, false) {
                    None => None,
                    Some(st) => match st.1 {
                        Some(o) => Some((r2, st.0, Some(o))),
                        None => {
                            proof {
                                lemma_line_end(r.data, r.pos);
                            }
                            stream_next(r2, st.0)
                        },
                    },
                }
            }
        }
    }
}

/// Streaming VCD parser over a file's contents.
pub struct VcdParser {
    reader: LineReader,
    core: ParserCore,
}

/// A parser's state: its reader and its own state.
pub struct VcdParserView {
    pub reader: LineReaderView,
    pub core: CoreView,
}

impl View for VcdParser {
    type V = VcdParserView;

    closed spec fn view(&self) -> VcdParserView {
        VcdParserView { reader: self.reader@, core: self.core@ }
    }
}

/// The state of a parser at the start of a file.
pub open spec fn start_core() -> CoreView {
    CoreView {
        state: ParserState::Header,
        scopes: Seq::empty(),
        signal_ids: Seq::empty(),
        last_timestamp: 0,
    }
}

impl VcdParser {
    /// A parser at the start of a file's contents.
    pub fn new(data: Vec<u8>) -> (p: VcdParser)
        ensures
            p@.reader.data == data@,
            p@.reader.pos == 0,
            p@.reader.line == 0,
            p@.core == start_core(),
    {
        VcdParser { reader: LineReader::new(data), core: ParserCore::new() }
    }

    /// Number of lines read so far.
    pub fn line_number(&self) -> (r: usize)
        ensures
            r == self@.reader.line,
    {
        self.reader.line_number()
    }

    /// Parse the next event; `None` at the end of the file.
    pub fn next_event(&mut self) -> (r: Option<Result<VcdEvent, VcdError>>)
        requires
            stream_next(old(self)@.reader, old(self)@.core) is Some,
        ensures
            stream_next(old(self)@.reader, old(self)@.core) == Some(
                (final(self)@.reader, final(self)@.core, opt_result_view(r)),
            ),
    {
        let ghost goal = stream_next(self@.reader, self@.core);
        loop
            invariant
                goal is Some,
                goal == stream_next(old(self)@.reader, old(self)@.core),
                stream_next(self@.reader, self@.core) == goal,
            decreases self@.reader.data.len() - self@.reader.pos,
        {
            let ghost before = self@.reader;
            let got = self.reader.read_line();
            let ln = self.reader.line_number();
            match got {
                Ok(None) => {
                    return None;
                },
                Err(_) => {
                    return Some(
                        Err(
                            VcdError {
                                line: ln,
                                column: 0,
                                kind: ErrorKind::IoError(
                                    String::from_str("stream did not contain valid UTF-8"),
                                ),
                                help: None,
                            },
                        ),
                    );
                },
                Ok(Some(line)) => {
                    proof {
                        lemma_line_end(before.data, before.pos);
                    }
                    let bytes: &[u8] = line.as_str().as_bytes();
                    let t = trim_slice(bytes);
                    if t.len() > 0 {
                        let out = self.core.step(ln, t, false);
                        if out.is_some() {
                            return out;
                        }
                    }
                },
            }
        }
    }

    /// The next event, as an iterator gives it.
    pub fn next(&mut self) -> (r: Option<Result<VcdEvent, VcdError>>)
        requires
            stream_next(old(self)@.reader, old(self)@.core) is Some,
        ensures
            stream_next(old(self)@.reader, old(self)@.core) == Some(
                (final(self)@.reader, final(self)@.core, opt_result_view(r)),
            ),
    {
        self.next_event()
    }
}

/// The next event of a file read from `r` by the whole-file reader in state
/// `c` (see `stream_next`); here a line's invalid UTF-8 is replaced, an
/// empty name takes its identifier, and the end of the file leaves the line
/// counter as it is.
pub open spec fn mmap_next(r: MmapReaderView, c: CoreView) -> Option<
    (MmapReaderView, CoreView, Option<Result<EventView, ErrorView>>),
>
    decreases r.data.len() - r.pos,
{
    if r.pos < 0 || r.pos >= r.data.len() {
        Some((r, c, None))
    } else {
        let ln = next_line_number(r.line);
        let e = line_end(r.data, r.pos);
        let r2 = MmapReaderView { data: r.data, pos: e, line: ln };
        let t = trimmed(encode_utf8(lossy_utf8(strip_eol(r.data.subrange(r.pos, e)))));
        if t.len() == 0 {
            proof {
                lemma_line_end(r.data, r.pos);
            }
            mmap_next(r2, c)
        } else {
            match line_step(c, t, ln as usize, true) {
                None => None,
                Some(st) => match st.1 {
                    Some(o) => Some((r2, st.0, Some(o))),
                    None => {
                        proof {
                            lemma_line_end(r.data, r.pos);
                        }
                        mmap_next(r2, st.0)
                    },
                },
            }
        }
    }
}

/// VCD parser over a whole-file reader.
pub struct MmapVcdParser {
    reader: MmapReader,
    core: ParserCore,
}

/// A whole-file parser's state: its reader and its own state.
pub struct MmapVcdParserView {
    pub reader: MmapReaderView,
    pub core: CoreView,
}

impl View for MmapVcdParser {
    type V = MmapVcdParserView;

    closed spec fn view(&self) -> MmapVcdParserView {
        MmapVcdParserView { reader: self.reader@, core: self.core@ }
    }
}

impl MmapVcdParser {
    /// A parser reading from `reader`.
    pub fn new(reader: MmapReader) -> (p: MmapVcdParser)
        ensures
            p@.reader == reader@,
            p@.core == start_core(),
    {
        MmapVcdParser { reader, core: ParserCore::new() }
    }

    /// Number of lines read so far.
    pub fn line_number(&self) -> (r: usize)
        ensures
            r == self@.reader.line,
    {
        self.reader.line_number()
    }

    /// Parse the next event; `None` at the end of the file.
    pub fn next_event(&mut self) -> (r: Option<Result<VcdEvent, VcdError>>)
        requires
            mmap_next(old(self)@.reader, old(self)@.core) is Some,
        ensures
            mmap_next(old(self)@.reader, old(self)@.core) == Some(
                (final(self)@.reader, final(self)@.core, opt_result_view(r)),
            ),
    {
        let ghost goal = mmap_next(self@.reader, self@.core);
        loop
            invariant
                goal is Some,
                goal == mmap_next(old(self)@.reader, old(self)@.core),
                mmap_next(self@.reader, self@.core) == goal,
            decreases self@.reader.data.len() - self@.reader.pos,
        {
            let ghost before = self@.reader;
            let got = self.reader.read_line();
            let ln = self.reader.line_number();
            match got {
                None => {
                    return None;
                },
                Some(line) => {
                    proof {
                        lemma_line_end(before.data, before.pos);
                    }
                    let bytes: &[u8] = line.as_str().as_bytes();
                    let t = trim_slice(bytes);
                    if t.len() > 0 {
                        let out = self.core.step(ln, t, true);
                        if out.is_some() {
                            return out;
                        }
                    }
                },
            }
        }
    }

    /// The next event, as an iterator gives it.
    pub fn next(&mut self) -> (r: Option<Result<VcdEvent, VcdError>>)
        requires
            mmap_next(old(self)@.reader, old(self)@.core) is Some,
        ensures
            mmap_next(old(self)@.reader, old(self)@.core) == Some(
                (final(self)@.reader, final(self)@.core, opt_result_view(r)),
            ),
    {
        self.next_event()
    }
}

/// In the header, a `$scope` line with a kind and a name opens the scope
/// and a following `$upscope` line closes it again: the open scopes are
/// those before.
pub proof fn lemma_scope_then_upscope(
    c: CoreView,
    t1: Seq<u8>,
    t2: Seq<u8>,
    ln1: usize,
    ln2: usize,
    id_as_default_name: bool,
)
    requires
        c.state == ParserState::Header,
        seq_starts_with(t1, kw_scope()),
        token_list(t1, 0).len() >= 3,
        seq_starts_with(t2, kw_upscope()),
    ensures
        line_step(c, t1, ln1, id_as_default_name) is Some,
        line_step(c, t1, ln1, id_as_default_name).unwrap().0.state == ParserState::Header,
        line_step(line_step(c, t1, ln1, id_as_default_name).unwrap().0, t2, ln2, id_as_default_name) is Some,
        line_step(line_step(c, t1, ln1, id_as_default_name).unwrap().0, t2, ln2, id_as_default_name).unwrap().0.scopes == c.scopes,
{
    reveal(header_line);
    let s1 = line_step(c, t1, ln1, id_as_default_name).unwrap();
    assert(s1.0.scopes == c.scopes.push(text_of(token(t1, 2))));
    assert(!seq_starts_with(t2, kw_scope())) by {
        assert(t2[1] != kw_scope()[1]);
    }
    assert(s1.0.scopes.drop_last() =~= c.scopes);
}

} // verus!
