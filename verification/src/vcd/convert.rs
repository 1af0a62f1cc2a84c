//! Helpers of the VCD to FST conversion: sizes for progress messages,
//! timescale lines, value-change and timestamp lines.
use vstd::prelude::*;

use vstd::utf8::valid_utf8;

use crate::fst::types::{decimal, digit_char, digit_str, push_decimal};
use crate::text::{std_uint, token, token_list};
use crate::trace::container::ascii_lower;
use crate::trace::vcd::{last_space, line_timestamp};

verus! {

// ---------------------------------------------------------------------------
// Sizes
// ---------------------------------------------------------------------------

/// 2 to the power `e`.
pub open spec fn p2(e: nat) -> nat
    decreases e,
{
    if e == 0 {
        1
    } else {
        2 * p2((e - 1) as nat)
    }
}

/// The number of bits of `n` (0 for 0).
pub open spec fn bit_len(n: nat) -> nat
    decreases n,
{
    if n == 0 {
        0
    } else {
        1 + bit_len(n / 2)
    }
}

/// `n / d` rounded to the nearest integer, ties to the even one.
pub open spec fn rne_div(n: nat, d: nat) -> nat {
    let q = n / d;
    let r = n % d;
    if 2 * r > d || (2 * r == d && q % 2 == 1) {
        q + 1
    } else {
        q
    }
}

/// The value of `n as f64`: `n` itself up to 53 bits, else rounded to 53
/// significant bits (ties to even).
pub open spec fn as_double(n: u64) -> nat {
    let b = bit_len(n as nat);
    if b <= 53 {
        n as nat
    } else {
        let s = (b - 53) as nat;
        rne_div(n as nat, p2(s)) * p2(s)
    }
}

/// How many times a size is divided by 1024 before it is printed: while it
/// is at least 1024, at most four times.
pub open spec fn size_unit(v: nat) -> nat {
    if v >= p2(40) {
        4
    } else if v >= p2(30) {
        3
    } else if v >= p2(20) {
        2
    } else if v >= p2(10) {
        1
    } else {
        0
    }
}

/// "B", "KB", "MB", "GB", "TB".
pub open spec fn unit_name(u: nat) -> Seq<char> {
    if u == 0 {
        seq!['B']
    } else if u == 1 {
        seq!['K', 'B']
    } else if u == 2 {
        seq!['M', 'B']
    } else if u == 3 {
        seq!['G', 'B']
    } else {
        seq!['T', 'B']
    }
}

/// A byte count as text: its value as a double, divided by 1024 while at
/// least 1024 (up to TB), with one decimal rounded half to even, a space
/// and the unit.
pub open spec fn size_text(bytes: u64) -> Seq<char> {
    let v = as_double(bytes);
    let u = size_unit(v);
    let q = rne_div(10 * v, p2(10 * u));
    decimal(q / 10) + seq!['.', digit_char(q % 10), ' '] + unit_name(u)
}

proof fn lemma_bit_len(n: nat)
    ensures
        n < p2(bit_len(n)),
        n > 0 ==> p2((bit_len(n) - 1) as nat) <= n,
    decreases n,
{
    if n > 0 {
        lemma_bit_len(n / 2);
    }
}

proof fn lemma_p2_mono(a: nat, b: nat)
    requires
        a <= b,
    ensures
        p2(a) <= p2(b),
        p2(a) >= 1,
    decreases b,
{
    if a < b {
        lemma_p2_mono(a, (b - 1) as nat);
    } else if a > 0 {
        lemma_p2_mono((a - 1) as nat, (a - 1) as nat);
    }
}

proof fn lemma_p2_add(a: nat, b: nat)
    ensures
        p2(a + b) == p2(a) * p2(b),
    decreases a,
{
    if a > 0 {
        let a1 = (a - 1) as nat;
        lemma_p2_add(a1, b);
        assert(p2(a + b) == 2 * p2(a1 + b));
        assert(p2(a) == 2 * p2(a1));
        vstd::arithmetic::mul::lemma_mul_is_associative(2, p2(a1) as int, p2(b) as int);
        assert(p2(a) * p2(b) == (2 * p2(a1)) * p2(b));
        assert(p2(a + b) == p2(a) * p2(b));
    } else {
        assert(p2(0) == 1);
        assert(a + b == b);
        assert(p2(a) * p2(b) == p2(b));
    }
}

proof fn lemma_p2_values()
    ensures
        p2(10) == 0x400,
        p2(20) == 0x10_0000,
        p2(30) == 0x4000_0000,
        p2(40) == 0x100_0000_0000,
        p2(53) == 0x20_0000_0000_0000,
        p2(64) == 0x1_0000_0000_0000_0000,
{
    reveal_with_fuel(p2, 65);
}

fn p2_u128(e: u32) -> (r: u128)
    requires
        e <= 64,
    ensures
        r as nat == p2(e as nat),
{
    let mut r: u128 = 1;
    let mut i: u32 = 0;
    while i < e
        invariant
            i <= e <= 64,
            r as nat == p2(i as nat),
        decreases e - i,
    {
        proof {
            lemma_p2_mono(i as nat, 63);
            lemma_p2_add(63, 1);
            lemma_p2_values();
        }
        r = r * 2;
        i = i + 1;
    }
    r
}

fn rne_div_u128(n: u128, d: u128) -> (r: u128)
    requires
        d > 0,
        n < 0x1_0000_0000_0000_0000_0000_0000_0000_0000 - 1,
    ensures
        r as nat == rne_div(n as nat, d as nat),
{
    let q = n / d;
    let rem = n % d;
    proof {
        vstd::arithmetic::div_mod::lemma_div_is_ordered_by_denominator(n as int, 1, d as int);
    }
    if rem > d - rem || (rem == d - rem && q % 2 == 1) {
        q + 1
    } else {
        q
    }
}

proof fn lemma_bit_len_le(n: nat, k: nat)
    requires
        n < p2(k),
    ensures
        bit_len(n) <= k,
    decreases k,
{
    if n > 0 {
        if k == 0 {
            assert(p2(0) == 1);
        } else {
            assert(n / 2 < p2((k - 1) as nat));
            lemma_bit_len_le(n / 2, (k - 1) as nat);
        }
    }
}

fn unit_str(u: u32) -> (s: &'static str)
    requires
        u <= 4,
    ensures
        s@ == unit_name(u as nat),
{
    proof {
        reveal_strlit("B");
        reveal_strlit("KB");
        reveal_strlit("MB");
        reveal_strlit("GB");
        reveal_strlit("TB");
    }
    if u == 0 {
        "B"
    } else if u == 1 {
        "KB"
    } else if u == 2 {
        "MB"
    } else if u == 3 {
        "GB"
    } else {
        "TB"
    }
}

/// A byte count as text ("1.5 KB"; see `size_text`).
#[verifier::rlimit(40)]
#[verifier::spinoff_prover]
pub fn format_size(bytes: u64) -> (s: String)
    ensures
        s@ == size_text(bytes),
{
    proof {
        lemma_p2_values();
        lemma_bit_len(bytes as nat);
        lemma_bit_len_le(bytes as nat, 64);
    }
    let mut t: u64 = bytes;
    let mut b: u32 = 0;
    while t > 0
        invariant
            bit_len(bytes as nat) == b + bit_len(t as nat),
            bit_len(bytes as nat) <= 64,
        decreases t,
    {
        t = t / 2;
        b = b + 1;
    }
    assert(b as nat == bit_len(bytes as nat));
    let v: u128 = if b <= 53 {
        bytes as u128
    } else {
        let sh: u32 = b - 53;
        let d = p2_u128(sh);
        proof {
            lemma_p2_add(53, sh as nat);
            lemma_p2_mono(sh as nat, 11);
            reveal_with_fuel(p2, 12);
            assert((bytes as nat) < p2(53) * p2(sh as nat));
            vstd::arithmetic::div_mod::lemma_div_by_multiple_is_strongly_ordered(
                bytes as int, (p2(53) * p2(sh as nat)) as int, p2(53) as int, p2(sh as nat) as int);
        }
        let m = rne_div_u128(bytes as u128, d);
        proof {
            assert((bytes as nat) / (d as nat) < p2(53)) by (nonlinear_arith)
                requires (bytes as nat) < p2(53) * (d as nat), d > 0;
            assert(m <= 0x20_0000_0000_0000);
            assert(d <= 0x800);
            assert(m * d <= 0x20_0000_0000_0000 * 0x800) by (nonlinear_arith)
                requires m <= 0x20_0000_0000_0000, d <= 0x800;
        }
        m * d
    };
    assert(v as nat == as_double(bytes));
    assert(v <= 0x1_0000_0000_0000_0000) by {
        if b > 53 {
            assert(0x20_0000_0000_0000 * 0x800 == 0x1_0000_0000_0000_0000);
        }
    }
    let u: u32 = if v >= 0x100_0000_0000 {
        4
    } else if v >= 0x4000_0000 {
        3
    } else if v >= 0x10_0000 {
        2
    } else if v >= 0x400 {
        1
    } else {
        0
    };
    assert(u as nat == size_unit(v as nat));
    let d2 = p2_u128(10 * u);
    let q = rne_div_u128(10 * v, d2);
    proof {
        lemma_p2_mono(0, (10 * u) as nat);
        if u == 0 {
            assert(p2(0) == 1);
            assert(q == 10 * v);
        } else {
            lemma_p2_mono(10, (10 * u) as nat);
            let tv: int = 10 * v as int;
            assert(q <= tv / (d2 as int) + 1);
            assert(tv / (d2 as int) <= tv / 0x400) by {
                vstd::arithmetic::div_mod::lemma_div_is_ordered_by_denominator(tv, 0x400, d2 as int);
            }
        }
    }
    let ip: u64 = (q / 10) as u64;
    let fd: u64 = (q % 10) as u64;
    let mut s = String::new();
    push_decimal(&mut s, ip);
    s.append(".");
    s.append(digit_str(fd));
    s.append(" ");
    s.append(unit_str(u));
    proof {
        reveal_strlit(".");
        reveal_strlit(" ");
        assert(s@ =~= size_text(bytes));
    }
    s
}

// ---------------------------------------------------------------------------
// Timescale lines
// ---------------------------------------------------------------------------

/// 10 to the power `e`.
pub open spec fn p10(e: nat) -> nat
    decreases e,
{
    if e == 0 {
        1
    } else {
        10 * p10((e - 1) as nat)
    }
}

/// `log10(n)` rounded to the nearest integer, for 1 <= n < 2^32: the
/// `k` with `10^(2k-1) <= n^2 < 10^(2k+1)`.
pub open spec fn round_log10(n: nat) -> int {
    if n * n < p10(1) {
        0
    } else if n * n < p10(3) {
        1
    } else if n * n < p10(5) {
        2
    } else if n * n < p10(7) {
        3
    } else if n * n < p10(9) {
        4
    } else if n * n < p10(11) {
        5
    } else if n * n < p10(13) {
        6
    } else if n * n < p10(15) {
        7
    } else if n * n < p10(17) {
        8
    } else if n * n < p10(19) {
        9
    } else {
        10
    }
}

/// The exponent of a time unit ("s", "ms", "us", "ns", "ps", "fs", in any
/// ASCII case).
pub open spec fn unit_exp(u: Seq<u8>) -> Option<int> {
    let l = u.map_values(|b: u8| ascii_lower(b));
    if l == seq![0x73u8] {
        Some(0)
    } else if l == seq![0x6du8, 0x73] {
        Some(-3)
    } else if l == seq![0x75u8, 0x73] {
        Some(-6)
    } else if l == seq![0x6eu8, 0x73] {
        Some(-9)
    } else if l == seq![0x70u8, 0x73] {
        Some(-12)
    } else if l == seq![0x66u8, 0x73] {
        Some(-15)
    } else {
        None
    }
}

/// A `$timescale` line's exponent: the line is UTF-8 with at least three
/// words, the second a `u32` number and the third a unit; the unit's
/// exponent plus the number's rounded `log10` (-128 for 0, as the float
/// conversion saturates).
pub open spec fn timescale_of(line: Seq<u8>) -> Option<int> {
    if !valid_utf8(line) || token_list(line, 0).len() < 3 {
        None
    } else {
        match std_uint(token(line, 1), u32::MAX as nat) {
            None => None,
            Some(num) => match unit_exp(token(line, 2)) {
                None => None,
                Some(e) => Some(e + (if num == 0 { -128 } else { round_log10(num) })),
            },
        }
    }
}

fn unit_exp_exec(u: &[u8]) -> (r: Option<i8>)
    ensures
        match r {
            Some(e) => unit_exp(u@) == Some(e as int),
            None => unit_exp(u@) is None,
        },
{
    let ghost l = u@.map_values(|b: u8| ascii_lower(b));
    if u.len() == 1 {
        let a = crate::trace::container::lower_byte(u[0]);
        assert(l =~= seq![a]);
        if a == 0x73 {
            return Some(0);
        }
        assert(l[0] != seq![0x73u8][0]);
        return None;
    }
    if u.len() != 2 {
        assert(l.len() != 1 && l.len() != 2);
        return None;
    }
    let a = crate::trace::container::lower_byte(u[0]);
    let b = crate::trace::container::lower_byte(u[1]);
    assert(l =~= seq![a, b]);
    if b != 0x73 {
        assert(l[1] != 0x73);
        return None;
    }
    if a == 0x6d {
        Some(-3)
    } else if a == 0x75 {
        Some(-6)
    } else if a == 0x6e {
        Some(-9)
    } else if a == 0x70 {
        Some(-12)
    } else if a == 0x66 {
        Some(-15)
    } else {
        assert(l[0] == a);
        None
    }
}

proof fn lemma_p10_values()
    ensures
        p10(1) == 10,
        p10(3) == 1000,
        p10(5) == 100000,
        p10(7) == 10000000,
        p10(9) == 1000000000,
        p10(11) == 100000000000,
        p10(13) == 10000000000000,
        p10(15) == 1000000000000000,
        p10(17) == 100000000000000000,
        p10(19) == 10000000000000000000,
{
    reveal_with_fuel(p10, 20);
}

fn round_log10_exec(n: u32) -> (r: i8)
    ensures
        r as int == round_log10(n as nat),
{
    proof {
        lemma_p10_values();
    }
    assert((n as u64) * (n as u64) <= 0xFFFF_FFFE_0000_0001u64) by (nonlinear_arith)
        requires n <= 0xFFFF_FFFFu32;
    let sq: u64 = (n as u64) * (n as u64);
    if sq < 10 {
        0
    } else if sq < 1000 {
        1
    } else if sq < 100000 {
        2
    } else if sq < 10000000 {
        3
    } else if sq < 1000000000 {
        4
    } else if sq < 100000000000 {
        5
    } else if sq < 10000000000000 {
        6
    } else if sq < 1000000000000000 {
        7
    } else if sq < 100000000000000000 {
        8
    } else if sq < 10000000000000000000 {
        9
    } else {
        10
    }
}

/// A `$timescale` line's exponent (see `timescale_of`), wide enough for
/// every line.
pub fn timescale_exp_wide(line: &[u8]) -> (r: Option<i16>)
    ensures
        match r {
            Some(e) => timescale_of(line@) == Some(e as int),
            None => timescale_of(line@) is None,
        },
{
    if crate::text::str_from_utf8(line).is_none() {
        return None;
    }
    let tl = crate::text::tokens(line);
    if tl.len() < 3 {
        return None;
    }
    let (a1, b1) = tl[1];
    let (a2, b2) = tl[2];
    let w1: &[u8] = vstd::slice::slice_subrange(line, a1, b1);
    let w2: &[u8] = vstd::slice::slice_subrange(line, a2, b2);
    assert(w1@ == token(line@, 1));
    assert(w2@ == token(line@, 2));
    let num = match crate::text::parse_uint_std(w1, 0xFFFF_FFFF) {
        Some(v) => v,
        None => {
            return None;
        },
    };
    let e = match unit_exp_exec(w2) {
        Some(e) => e,
        None => {
            return None;
        },
    };
    let k: i16 = if num == 0 {
        -128
    } else {
        round_log10_exec(num as u32) as i16
    };
    Some(e as i16 + k)
}

/// Read a `$timescale` line's exponent (see `timescale_of`); a zero number
/// with a unit other than seconds would not fit an `i8`.
pub fn parse_timescale(line: &[u8]) -> (r: Option<i8>)
    requires
        timescale_of(line@) matches Some(v) ==> v >= -128,
    ensures
        match r {
            Some(e) => timescale_of(line@) == Some(e as int),
            None => timescale_of(line@) is None,
        },
{
    match timescale_exp_wide(line) {
        Some(v) => Some(v as i8),
        None => None,
    }
}

// ---------------------------------------------------------------------------
// Value-change and timestamp lines
// ---------------------------------------------------------------------------

/// A value-change line as (identifier, value) bytes: split at its last
/// space; without one, the first byte is the value and the rest the
/// identifier. A vector ('b') keeps its bits as '1' or '0' (anything but
/// '1' reads as '0') and needs at least one; a real ('r') keeps its text;
/// a scalar needs a non-empty identifier.
pub open spec fn value_change_parts(line: Seq<u8>) -> Option<(Seq<u8>, Seq<u8>)> {
    let sp = last_space(line, line.len() as int);
    if line.len() < 2 {
        None
    } else if sp < 0 {
        Some((line.skip(1), seq![line[0]]))
    } else if line[0] == 0x62 {
        let bits = line.subrange(1, sp);
        if bits.len() == 0 {
            None
        } else {
            Some((line.skip(sp + 1), bits.map_values(|b: u8| if b == 0x31 { 0x31u8 } else { 0x30u8 })))
        }
    } else if line[0] == 0x72 {
        Some((line.skip(sp + 1), line.subrange(1, sp)))
    } else if sp + 1 >= line.len() {
        None
    } else {
        Some((line.skip(sp + 1), seq![line[0]]))
    }
}

proof fn lemma_last_space(line: Seq<u8>, k: int)
    requires
        0 <= k <= line.len(),
    ensures
        -1 <= last_space(line, k) < k,
        last_space(line, k) >= 0 ==> line[last_space(line, k)] == 0x20,
    decreases k,
{
    if k > 0 && line[k - 1] != 0x20 {
        lemma_last_space(line, k - 1);
    }
}

/// Read a value-change line as (identifier, value) bytes (see
/// `value_change_parts`).
pub fn parse_value_change(line: &[u8]) -> (r: Option<(Vec<u8>, Vec<u8>)>)
    ensures
        match r {
            Some((id, v)) => value_change_parts(line@) == Some((id@, v@)),
            None => value_change_parts(line@) is None,
        },
{
    let len = line.len();
    if len < 2 {
        return None;
    }
    let mut k: usize = len;
    let mut sp: usize = len;
    while k > 0 && sp == len
        invariant
            k <= len,
            sp <= len,
            len == line@.len(),
            sp == len ==> last_space(line@, len as int) == last_space(line@, k as int),
            sp < len ==> sp == last_space(line@, len as int),
        decreases k as int + (if sp == len { 1int } else { 0int }),
    {
        if line[k - 1] == 0x20 {
            sp = k - 1;
        } else {
            k = k - 1;
        }
    }
    if sp == len {
        let id: Vec<u8> = vstd::slice::slice_to_vec(vstd::slice::slice_subrange(line, 1, len));
        let mut v: Vec<u8> = Vec::new();
        v.push(line[0]);
        assert(v@ =~= seq![line@[0]]);
        assert(id@ =~= line@.skip(1));
        return Some((id, v));
    }
    proof {
        lemma_last_space(line@, len as int);
    }
    let first = line[0];
    if first == 0x62 {
        assert(sp >= 1);
        if sp == 1 {
            return None;
        }
        let id: Vec<u8> = vstd::slice::slice_to_vec(vstd::slice::slice_subrange(line, sp + 1, len));
        let mut v: Vec<u8> = Vec::new();
        let mut i: usize = 1;
        while i < sp
            invariant
                1 <= i <= sp,
                sp < len,
                len == line@.len(),
                v@ == line@.subrange(1, i as int).map_values(|b: u8| if b == 0x31 { 0x31u8 } else { 0x30u8 }),
            decreases sp - i,
        {
            let c: u8 = if line[i] == 0x31 {
                0x31
            } else {
                0x30
            };
            v.push(c);
            proof {
                assert(line@.subrange(1, i + 1) =~= line@.subrange(1, i as int).push(line@[i as int]));
            }
            i = i + 1;
            assert(v@ =~= line@.subrange(1, i as int).map_values(|b: u8| if b == 0x31 { 0x31u8 } else { 0x30u8 }));
        }
        assert(id@ =~= line@.skip(sp + 1));
        return Some((id, v));
    }
    if first == 0x72 {
        let id: Vec<u8> = vstd::slice::slice_to_vec(vstd::slice::slice_subrange(line, sp + 1, len));
        let v: Vec<u8> = vstd::slice::slice_to_vec(vstd::slice::slice_subrange(line, 1, sp));
        assert(id@ =~= line@.skip(sp + 1));
        return Some((id, v));
    }
    if sp + 1 >= len {
        return None;
    }
    let id: Vec<u8> = vstd::slice::slice_to_vec(vstd::slice::slice_subrange(line, sp + 1, len));
    let mut v: Vec<u8> = Vec::new();
    v.push(first);
    assert(v@ =~= seq![line@[0]]);
    assert(id@ =~= line@.skip(sp + 1));
    Some((id, v))
}

/// Read a timestamp line's time (see `line_timestamp`).
pub fn parse_timestamp(line: &[u8]) -> (t: u64)
    requires
        line@.len() >= 1,
    ensures
        t == line_timestamp(line@),
{
    crate::trace::vcd::parse_timestamp_fast(line)
}

} // verus!
