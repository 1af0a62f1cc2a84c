//! Variable-length integer encodings used by the FST format.
//!
//! * FST varint (LEB128): each byte carries 7 data bits, low group first; the
//!   most significant bit of a byte is set when more bytes follow.
//! * Zigzag signed varint: `n` is mapped to `(n << 1) ^ (n >> 63)` and then
//!   written as an FST varint.
//! * FST signed varint (DYNALIAS2 index table): the raw 64-bit pattern is written
//!   big-endian in 7-bit groups, most significant group first, every byte but the
//!   last carrying the continuation bit.
use vstd::prelude::*;

verus! {

// ---------------------------------------------------------------------------
// Specifications
// ---------------------------------------------------------------------------

/// The FST varint encoding of `n`: low 7-bit group first, continuation bit on
/// every byte but the last.
pub open spec fn spec_encode_varint(n: u64) -> Seq<u8>
    decreases n,
{
    if n <= 0x7F {
        seq![n as u8]
    } else {
        proof {
            lemma_shr7_decreases(n);
        }
        seq![((n & 0x7F) as u8) | 0x80u8] + spec_encode_varint(n >> 7)
    }
}

/// The value that a sequence of varint bytes stands for: the 7-bit payloads,
/// the first byte's payload the least significant, truncated to 64 bits.
pub open spec fn varint_bytes_value(s: Seq<u8>) -> u64
    decreases s.len(),
{
    if s.len() == 0 {
        0
    } else {
        ((s[0] & 0x7F) as u64) | (varint_bytes_value(s.drop_first()) << 7u64)
    }
}

/// Index of the first byte without the continuation bit.
pub open spec fn varint_end(s: Seq<u8>) -> Option<nat>
    decreases s.len(),
{
    if s.len() == 0 {
        None
    } else if s[0] < 0x80 {
        Some(0)
    } else {
        match varint_end(s.drop_first()) {
            Some(i) => Some(i + 1),
            None => None,
        }
    }
}

/// What `decode_varint` returns: the value of the bytes up to and including the
/// first byte without continuation bit, and how many bytes that is. Encodings
/// that are unterminated, or longer than ten bytes, are refused.
pub open spec fn spec_decode_varint(buf: Seq<u8>) -> Option<(u64, nat)> {
    match varint_end(buf) {
        Some(i) => if i < 10 {
            Some((varint_bytes_value(buf.take(i as int + 1)), i + 1))
        } else {
            None
        },
        None => None,
    }
}

/// Zigzag mapping of a signed integer onto an unsigned one: the value
/// shifted left, its bits flipped when it is negative (0, -1, 1, -2, ...
/// map to 0, 1, 2, 3, ...).
pub open spec fn zigzag(n: i64) -> u64 {
    ((n as u64) << 1u64) ^ ((n >> 63u64) as u64)
}

/// Inverse of [`zigzag`].
pub open spec fn unzigzag(u: u64) -> i64 {
    if u & 1 == 0 {
        (u >> 1u64) as i64
    } else {
        (-((u >> 1u64) as i64) - 1) as i64
    }
}

/// The 7-bit groups of `v`, least significant first, down to the highest
/// non-zero group.
pub open spec fn groups7(v: u64) -> Seq<u8>
    decreases v,
{
    if v == 0 {
        Seq::empty()
    } else {
        proof {
            lemma_shr7_decreases(v);
        }
        seq![(v & 0x7F) as u8] + groups7(v >> 7)
    }
}

/// Big-endian, continuation-flagged bytes of a non-empty list of 7-bit groups
/// given least significant first.
pub open spec fn be_groups_bytes(g: Seq<u8>) -> Seq<u8>
    decreases g.len(),
{
    if g.len() == 0 {
        Seq::empty()
    } else if g.len() == 1 {
        seq![g[0]]
    } else {
        seq![g.last() | 0x80u8] + be_groups_bytes(g.drop_last())
    }
}

/// The FST signed varint of `v` (its 64-bit pattern, big-endian 7-bit groups).
pub open spec fn spec_encode_fst_svarint(v: i64) -> Seq<u8> {
    if v == 0 {
        seq![0u8]
    } else {
        be_groups_bytes(groups7(v as u64))
    }
}

/// Value of big-endian 7-bit groups (first byte most significant), truncated to 64 bits.
pub open spec fn be_groups_value(s: Seq<u8>) -> u64
    decreases s.len(),
{
    if s.len() == 0 {
        0
    } else {
        (be_groups_value(s.drop_last()) << 7u64) | ((s.last() & 0x7F) as u64)
    }
}

/// What `decode_fst_svarint` returns: the bytes up to the first one without the
/// continuation bit, read as big-endian 7-bit groups, as a 64-bit pattern.
pub open spec fn spec_decode_fst_svarint(buf: Seq<u8>) -> Option<(i64, nat)> {
    match varint_end(buf) {
        Some(i) => Some((be_groups_value(buf.take(i as int + 1)) as i64, i + 1)),
        None => None,
    }
}

// ---------------------------------------------------------------------------
// Lemmas
// ---------------------------------------------------------------------------

pub proof fn lemma_shr7_decreases(n: u64)
    ensures
        n > 0 ==> (n >> 7u64) < n,
        n > 0x7F ==> (n >> 7u64) > 0,
{
    assert(n > 0 ==> (n >> 7u64) < n) by (bit_vector);
    assert(n > 0x7F ==> (n >> 7u64) > 0) by (bit_vector);
}

proof fn lemma_value_push(s: Seq<u8>, b: u8)
    requires
        s.len() <= 9,
    ensures
        varint_bytes_value(s.push(b)) == varint_bytes_value(s) | (((b & 0x7F) as u64) << (
        7 * s.len()) as u64),
    decreases s.len(),
{
    let c: u64 = (b & 0x7F) as u64;
    let sp = s.push(b);
    assert(sp[0] == if s.len() == 0 { b } else { s[0] });
    if s.len() == 0 {
        assert(sp.drop_first() =~= Seq::<u8>::empty());
        assert(varint_bytes_value(Seq::<u8>::empty()) == 0);
        assert(varint_bytes_value(sp) == c | (0u64 << 7u64));
        assert(c | (0u64 << 7u64) == 0u64 | (c << 0u64)) by (bit_vector);
    } else {
        let rest = s.drop_first();
        lemma_value_push(rest, b);
        assert(sp.drop_first() =~= rest.push(b));
        let a: u64 = (s[0] & 0x7F) as u64;
        let v: u64 = varint_bytes_value(rest);
        let k: u64 = (7 * rest.len()) as u64;
        let k7: u64 = (7 * s.len()) as u64;
        assert(varint_bytes_value(rest.push(b)) == v | (c << k));
        assert(varint_bytes_value(sp) == a | (varint_bytes_value(rest.push(b)) << 7u64));
        assert(varint_bytes_value(s) == a | (v << 7u64));
        assert((a | ((v | (c << k)) << 7u64)) == ((a | (v << 7u64)) | (c << k7))) by (bit_vector)
            requires
                k <= 56,
                k7 == k + 7,
        ;
    }
}

proof fn lemma_value_take(s: Seq<u8>, k: int)
    requires
        0 <= k < s.len(),
        k <= 9,
    ensures
        varint_bytes_value(s.take(k + 1)) == varint_bytes_value(s.take(k)) | (((s[k] & 0x7F) as u64)
            << (7 * k) as u64),
{
    assert(s.take(k + 1) =~= s.take(k).push(s[k]));
    lemma_value_push(s.take(k), s[k]);
}

proof fn lemma_end_take(s: Seq<u8>, k: int)
    requires
        0 <= k < s.len(),
        forall|j: int| 0 <= j < k ==> s[j] >= 0x80,
    ensures
        s[k] < 0x80 ==> varint_end(s) == Some(k as nat),
        s[k] >= 0x80 ==> (varint_end(s) is Some ==> varint_end(s)->0 > k),
        s[k] >= 0x80 ==> (varint_end(s) is None <==> varint_end(s.skip(k + 1)) is None),
    decreases k,
{
    if k > 0 {
        let r = s.drop_first();
        assert forall|j: int| 0 <= j < k - 1 implies r[j] >= 0x80 by {
            assert(r[j] == s[j + 1]);
        }
        lemma_end_take(r, k - 1);
        assert(r.skip(k) =~= s.skip(k + 1));
    } else {
        assert(s.skip(1) =~= s.drop_first());
    }
}

/// A varint of the encoding of `n` decodes to `n` and uses exactly all its bytes.
pub proof fn lemma_encode_varint_props(n: u64)
    ensures
        varint_bytes_value(spec_encode_varint(n)) == n,
        varint_end(spec_encode_varint(n)) == Some((spec_encode_varint(n).len() - 1) as nat),
        1 <= spec_encode_varint(n).len(),
    decreases n,
{
    let e = spec_encode_varint(n);
    if n <= 0x7F {
        assert(e =~= seq![n as u8]);
        assert(e.drop_first() =~= Seq::<u8>::empty());
        assert(n <= 0x7F ==> (((n as u8) & 0x7F) as u64) | (0u64 << 7u64) == n) by (bit_vector);
        assert(n <= 0x7F ==> (n as u8) < 0x80) by (bit_vector);
        assert(varint_bytes_value(e) == (((n as u8) & 0x7F) as u64) | (varint_bytes_value(
            Seq::<u8>::empty(),
        ) << 7u64));
    } else {
        lemma_shr7_decreases(n);
        let m: u64 = n >> 7u64;
        lemma_encode_varint_props(m);
        let b: u8 = ((n & 0x7F) as u8) | 0x80u8;
        assert(e =~= seq![b] + spec_encode_varint(m));
        assert(e.drop_first() =~= spec_encode_varint(m));
        assert(((b & 0x7F) as u64) | ((n >> 7u64) << 7u64) == n) by (bit_vector)
            requires
                b == ((n & 0x7F) as u8) | 0x80u8,
        ;
        assert(b >= 0x80) by (bit_vector)
            requires
                b == ((n & 0x7F) as u8) | 0x80u8,
        ;
        assert(e[0] == b);
        assert(varint_bytes_value(e) == ((b & 0x7F) as u64) | (varint_bytes_value(
            spec_encode_varint(m),
        ) << 7u64));
    }
}

/// Every varint encoding is at most ten bytes long.
pub proof fn lemma_encode_varint_len(n: u64)
    ensures
        spec_encode_varint(n).len() <= 10,
{
    reveal_with_fuel(spec_encode_varint, 11);
    assert(n >> 7u64 >> 7u64 >> 7u64 >> 7u64 >> 7u64 >> 7u64 >> 7u64 >> 7u64 >> 7u64 <= 0x7F)
        by (bit_vector);
}

/// Decoding the FST varint encoding of any `n` gives back `n`, consuming every byte.
pub proof fn lemma_varint_roundtrip(n: u64)
    ensures
        spec_decode_varint(spec_encode_varint(n)) == Some((n, spec_encode_varint(n).len())),
{
    lemma_encode_varint_props(n);
    lemma_encode_varint_len(n);
    let e = spec_encode_varint(n);
    assert(e.take(e.len() as int) =~= e);
}

/// Unzigzag undoes zigzag for every signed 64-bit value.
pub proof fn lemma_zigzag_roundtrip(n: i64)
    ensures
        unzigzag(zigzag(n)) == n,
{
    let z: u64 = zigzag(n);
    if n >= 0 {
        assert(z & 1 == 0 && (z >> 1u64) as i64 == n) by (bit_vector)
            requires
                n >= 0,
                z == ((n as u64) << 1u64) ^ ((n >> 63u64) as u64),
        ;
    } else {
        assert(z & 1 == 1 && (z >> 1u64) as int == -(n as int) - 1) by (bit_vector)
            requires
                n < 0,
                z == ((n as u64) << 1u64) ^ ((n >> 63u64) as u64),
        ;
    }
}

proof fn lemma_groups7_props(v: u64)
    ensures
        forall|i: int| 0 <= i < groups7(v).len() ==> #[trigger] groups7(v)[i] < 0x80,
        v != 0 ==> groups7(v).len() >= 1,
        v != 0 ==> groups7(v).last() != 0,
        groups7(v).len() <= 10,
        be_groups_value_le(groups7(v)) == v,
    decreases v,
{
    if v != 0 {
        lemma_shr7_decreases(v);
        let m: u64 = v >> 7u64;
        lemma_groups7_props(m);
        let g = groups7(v);
        assert(g =~= seq![(v & 0x7F) as u8] + groups7(m));
        assert(((v & 0x7F) as u8) < 0x80) by (bit_vector);
        assert forall|i: int| 0 <= i < g.len() implies #[trigger] g[i] < 0x80 by {
            if i > 0 {
                assert(g[i] == groups7(m)[i - 1]);
            }
        }
        if m == 0 {
            assert(groups7(m) =~= Seq::<u8>::empty());
            assert(v < 0x80 ==> (v & 0x7F) as u8 != 0) by (bit_vector)
                requires
                    v != 0,
            ;
            assert((v >> 7u64) == 0 ==> v < 0x80) by (bit_vector);
        } else {
            assert(g.last() == groups7(m).last());
        }
        assert(g.drop_first() =~= groups7(m));
        assert(((((v & 0x7F) as u8) & 0x7F) as u64) | ((v >> 7u64) << 7u64) == v) by (bit_vector);
        if groups7(m).len() == 10 {
            lemma_groups7_len_bound(v);
        }
    }
}

proof fn lemma_groups7_len_bound(v: u64)
    ensures
        groups7(v).len() <= 10,
{
    reveal_with_fuel(groups7, 11);
    assert(v >> 7u64 >> 7u64 >> 7u64 >> 7u64 >> 7u64 >> 7u64 >> 7u64 >> 7u64 >> 7u64 >> 7u64 == 0)
        by (bit_vector);
}

/// Value of 7-bit groups given least significant first (the same reading as
/// [`varint_bytes_value`] without the continuation bits).
pub open spec fn be_groups_value_le(g: Seq<u8>) -> u64 {
    varint_bytes_value(g)
}

proof fn lemma_be_bytes_shape(g: Seq<u8>)
    requires
        g.len() >= 1,
        forall|i: int| 0 <= i < g.len() ==> #[trigger] g[i] < 0x80,
    ensures
        be_groups_bytes(g).len() == g.len(),
        forall|i: int| 0 <= i < g.len() - 1 ==> #[trigger] be_groups_bytes(g)[i] >= 0x80,
        be_groups_bytes(g)[g.len() - 1] == g[0],
        be_groups_bytes(g)[g.len() - 1] < 0x80,
        forall|i: int|
            0 <= i < g.len() ==> (#[trigger] be_groups_bytes(g)[i] & 0x7F) == g[g.len() - 1 - i],
    decreases g.len(),
{
    let b = be_groups_bytes(g);
    if g.len() == 1 {
        assert(b =~= seq![g[0]]);
        let x: u8 = g[0];
        assert(x < 0x80 ==> x & 0x7F == x) by (bit_vector);
    } else {
        let h = g.drop_last();
        lemma_be_bytes_shape(h);
        let x: u8 = g.last();
        assert(b =~= seq![x | 0x80u8] + be_groups_bytes(h));
        assert((x | 0x80u8) >= 0x80) by (bit_vector);
        assert(x < 0x80 ==> (x | 0x80u8) & 0x7F == x) by (bit_vector);
        assert forall|i: int| 0 <= i < g.len() - 1 implies #[trigger] b[i] >= 0x80 by {
            if i > 0 {
                assert(b[i] == be_groups_bytes(h)[i - 1]);
            }
        }
        assert forall|i: int| 0 <= i < g.len() implies (#[trigger] b[i] & 0x7F) == g[g.len() - 1
            - i] by {
            if i > 0 {
                assert(b[i] == be_groups_bytes(h)[i - 1]);
                assert(h[h.len() - 1 - (i - 1)] == g[g.len() - 1 - i]);
            }
        }
        assert(b[g.len() - 1] == be_groups_bytes(h)[h.len() - 1]);
    }
}

/// Reading big-endian groups from bytes whose payloads are the reversed groups
/// equals reading the groups least significant first.
proof fn lemma_be_value_reverse(b: Seq<u8>, g: Seq<u8>)
    requires
        b.len() == g.len(),
        forall|i: int| 0 <= i < g.len() ==> (#[trigger] b[i] & 0x7F) == g[g.len() - 1 - i],
        forall|i: int| 0 <= i < g.len() ==> #[trigger] g[i] < 0x80,
    ensures
        be_groups_value(b) == varint_bytes_value(g),
    decreases g.len(),
{
    if g.len() > 0 {
        let b2 = b.drop_last();
        let g2 = g.drop_first();
        assert forall|i: int| 0 <= i < g2.len() implies (#[trigger] b2[i] & 0x7F) == g2[g2.len() - 1
            - i] by {
            assert(b2[i] == b[i]);
            assert(g2[g2.len() - 1 - i] == g[g.len() - 1 - i]);
        }
        assert forall|i: int| 0 <= i < g2.len() implies #[trigger] g2[i] < 0x80 by {
            assert(g2[i] == g[i + 1]);
        }
        lemma_be_value_reverse(b2, g2);
        assert((b.last() & 0x7F) == g[0]);
        let x: u8 = g[0];
        assert(x < 0x80 ==> x & 0x7F == x) by (bit_vector);
        let p: u64 = varint_bytes_value(g2);
        let xx: u64 = (x & 0x7F) as u64;
        assert((p << 7u64) | xx == xx | (p << 7u64)) by (bit_vector);
    }
}

proof fn lemma_be_value_extend_first(s: Seq<u8>, k: int)
    requires
        0 <= k < s.len(),
    ensures
        s.take(k + 1).drop_last() =~= s.take(k),
        s.take(k + 1).last() == s[k],
{
}

/// Decoding the FST signed varint encoding of any `v` gives back `v`,
/// consuming every byte.
pub proof fn lemma_fst_svarint_roundtrip(v: i64)
    ensures
        spec_decode_fst_svarint(spec_encode_fst_svarint(v)) == Some(
            (v, spec_encode_fst_svarint(v).len()),
        ),
        spec_encode_fst_svarint(v).len() <= 10,
{
    let e = spec_encode_fst_svarint(v);
    if v == 0 {
        assert(e =~= seq![0u8]);
        assert(varint_end(e) == Some(0nat));
        assert(e.take(1) =~= e);
        assert(e.drop_last() =~= Seq::<u8>::empty());
        assert(be_groups_value(Seq::<u8>::empty()) == 0);
        assert(e.last() == 0);
        assert((0u64 << 7u64) | ((0u8 & 0x7F) as u64) == 0u64) by (bit_vector);
        assert(be_groups_value(e) == (be_groups_value(e.drop_last()) << 7u64) | ((e.last() & 0x7F) as u64));
        assert(be_groups_value(e) == 0);
        assert((0u64 as i64) == 0);
    } else {
        let u: u64 = v as u64;
        assert(u != 0) by (bit_vector)
            requires
                u == v as u64,
                v != 0,
        ;
        lemma_groups7_props(u);
        let g = groups7(u);
        assert(e == be_groups_bytes(g));
        lemma_be_bytes_shape(g);
        let n: int = g.len() as int;
        assert forall|j: int| 0 <= j < n - 1 implies e[j] >= 0x80 by {
            assert(be_groups_bytes(g)[j] >= 0x80);
        }
        lemma_end_take(e, n - 1);
        assert(varint_end(e) == Some((n - 1) as nat));
        assert(e.take(n) =~= e);
        lemma_be_value_reverse(e, g);
        assert(be_groups_value(e) == u);
        assert((u as i64) == v) by (bit_vector)
            requires
                u == v as u64,
        ;
    }
}

// ---------------------------------------------------------------------------
// Executable functions
// ---------------------------------------------------------------------------

/// Encode a u64 into FST varint format.
pub fn encode_varint(n: u64) -> (out: Vec<u8>)
    ensures
        out@ == spec_encode_varint(n),
        1 <= out@.len() <= 10,
{
    proof {
        lemma_encode_varint_len(n);
    }
    if n == 0 {
        let mut v: Vec<u8> = Vec::new();
        v.push(0u8);
        assert(v@ =~= spec_encode_varint(0));
        return v;
    }
    let mut buf: Vec<u8> = Vec::with_capacity(9);
    let mut m: u64 = n;
    while m > 0x7F
        invariant
            buf@ + spec_encode_varint(m) == spec_encode_varint(n),
        decreases m,
    {
        proof {
            lemma_shr7_decreases(m);
        }
        let b: u8 = ((m & 0x7F) as u8) | 0x80;
        let ghost old_buf = buf@;
        buf.push(b);
        assert(spec_encode_varint(m) == seq![b] + spec_encode_varint(m >> 7));
        assert(buf@ + spec_encode_varint(m >> 7) =~= old_buf + spec_encode_varint(m));
        m = m >> 7;
    }
    let ghost old_buf = buf@;
    buf.push(m as u8);
    assert(buf@ =~= old_buf + spec_encode_varint(m));
    buf
}

/// Encode a u64 into FST varint format in the provided buffer; returns the
/// encoded length (1 to 10 bytes).
pub fn encode_varint_buf(n: u64, buf: &mut [u8; 10]) -> (len: usize)
    ensures
        len == spec_encode_varint(n).len(),
        final(buf)@.take(len as int) == spec_encode_varint(n),
        forall|j: int| len <= j < 10 ==> final(buf)@[j] == old(buf)@[j],
{
    proof {
        lemma_encode_varint_len(n);
    }
    if n == 0 {
        buf[0] = 0;
        assert(buf@.take(1) =~= spec_encode_varint(0));
        return 1;
    }
    let mut pos: usize = 0;
    let mut m: u64 = n;
    while m > 0x7F
        invariant
            buf@.len() == 10,
            old(buf)@.len() == 10,
            buf@.take(pos as int) + spec_encode_varint(m) == spec_encode_varint(n),
            forall|j: int| pos <= j < 10 ==> buf@[j] == old(buf)@[j],
            pos + spec_encode_varint(m).len() <= 10,
        decreases m,
    {
        proof {
            lemma_shr7_decreases(m);
        }
        let b: u8 = ((m & 0x7F) as u8) | 0x80;
        let ghost old_take = buf@.take(pos as int);
        let ghost prev = buf@;
        assert(spec_encode_varint(m) == seq![b] + spec_encode_varint(m >> 7));
        buf[pos] = b;
        assert(buf@ =~= prev.update(pos as int, b));
        assert(buf@.take(pos as int + 1) =~= old_take.push(b));
        assert(buf@.take(pos as int + 1) + spec_encode_varint(m >> 7) =~= old_take
            + spec_encode_varint(m));
        pos = pos + 1;
        m = m >> 7;
    }
    let ghost old_take = buf@.take(pos as int);
    let ghost prev = buf@;
    buf[pos] = m as u8;
    assert(buf@ =~= prev.update(pos as int, m as u8));
    assert(buf@.take(pos as int + 1) =~= old_take + spec_encode_varint(m));
    pos + 1
}

/// Encode the delta `curr - prev` (saturating at zero) into the provided buffer.
pub fn encode_time_delta_buf(prev: u64, curr: u64, buf: &mut [u8; 10]) -> (len: usize)
    ensures
        len == spec_encode_varint(if curr >= prev { (curr - prev) as u64 } else { 0 }).len(),
        final(buf)@.take(len as int) == spec_encode_varint(
            if curr >= prev { (curr - prev) as u64 } else { 0 },
        ),
        forall|j: int| len <= j < 10 ==> final(buf)@[j] == old(buf)@[j],
{
    let delta: u64 = curr.saturating_sub(prev);
    encode_varint_buf(delta, buf)
}

/// Decode an FST varint from the front of `buf`; returns the value and the
/// number of bytes consumed.
pub fn decode_varint(buf: &[u8]) -> (res: Option<(u64, usize)>)
    ensures
        match res {
            Some((v, k)) => spec_decode_varint(buf@) == Some((v, k as nat)),
            None => spec_decode_varint(buf@) is None,
        },
{
    if buf.len() == 0 {
        return None;
    }
    let mut result: u64 = 0;
    let mut shift: u64 = 0;
    let mut pos: usize = 0;
    loop
        invariant
            pos <= 9,
            shift == 7 * pos,
            result == varint_bytes_value(buf@.take(pos as int)),
            forall|j: int| 0 <= j < pos ==> buf@[j] >= 0x80,
        decreases buf@.len() - pos,
    {
        if pos >= buf.len() {
            proof {
                lemma_end_none_prefix(buf@, pos as int);
            }
            return None;
        }
        let b: u8 = buf[pos];
        proof {
            lemma_value_take(buf@, pos as int);
            lemma_end_take(buf@, pos as int);
        }
        result = result | (((b & 0x7F) as u64) << shift);
        pos = pos + 1;
        if b & 0x80 == 0 {
            assert(b & 0x80 == 0 ==> b < 0x80) by (bit_vector);
            return Some((result, pos));
        }
        assert(b & 0x80 != 0 ==> b >= 0x80) by (bit_vector);
        shift = shift + 7;
        if shift > 63 {
            return None;
        }
    }
}

proof fn lemma_end_none_prefix(s: Seq<u8>, k: int)
    requires
        0 <= k,
        k >= s.len(),
        forall|j: int| 0 <= j < k && j < s.len() ==> s[j] >= 0x80,
    ensures
        varint_end(s) is None,
    decreases s.len(),
{
    if s.len() > 0 {
        let r = s.drop_first();
        assert forall|j: int| 0 <= j < k - 1 && j < r.len() implies r[j] >= 0x80 by {
            assert(r[j] == s[j + 1]);
        }
        lemma_end_none_prefix(r, k - 1);
    }
}

/// Encode the delta `curr - prev` (saturating at zero) as an FST varint.
pub fn encode_time_delta(prev: u64, curr: u64) -> (out: Vec<u8>)
    ensures
        out@ == spec_encode_varint(if curr >= prev { (curr - prev) as u64 } else { 0 }),
{
    let delta: u64 = curr.saturating_sub(prev);
    encode_varint(delta)
}

/// Encode the delta `curr - prev` (saturating at zero) into the provided buffer.
pub fn encode_time_delta_to_buf(prev: u64, curr: u64, buf: &mut [u8; 10]) -> (len: usize)
    ensures
        len == spec_encode_varint(if curr >= prev { (curr - prev) as u64 } else { 0 }).len(),
        final(buf)@.take(len as int) == spec_encode_varint(
            if curr >= prev { (curr - prev) as u64 } else { 0 },
        ),
        forall|j: int| len <= j < 10 ==> final(buf)@[j] == old(buf)@[j],
{
    let delta: u64 = curr.saturating_sub(prev);
    encode_varint_buf(delta, buf)
}

/// Encode a signed integer with zigzag mapping followed by an FST varint.
pub fn encode_signed_varint(n: i64) -> (out: Vec<u8>)
    ensures
        out@ == spec_encode_varint(zigzag(n)),
{
    let u: u64 = ((n as u64) << 1) ^ ((n >> 63) as u64);
    encode_varint(u)
}

/// Decode a zigzag signed varint.
pub fn decode_signed_varint(buf: &[u8]) -> (res: Option<(i64, usize)>)
    ensures
        match res {
            Some((v, k)) => spec_decode_varint(buf@) matches Some((u, k2)) && v == unzigzag(u) && k
                == k2,
            None => spec_decode_varint(buf@) is None,
        },
{
    let (unsigned, consumed) = match decode_varint(buf) {
        Some(p) => p,
        None => return None,
    };
    let half: u64 = unsigned >> 1;
    assert(half <= 0x7fff_ffff_ffff_ffffu64) by (bit_vector)
        requires
            half == unsigned >> 1u64,
    ;
    let n: i64 = if (unsigned & 1) == 0 {
        half as i64
    } else {
        -(half as i64) - 1
    };
    Some((n, consumed))
}

/// Encode an FST signed varint (big-endian 7-bit groups of the 64-bit pattern).
pub fn encode_fst_svarint(v: i64) -> (out: Vec<u8>)
    ensures
        out@ == spec_encode_fst_svarint(v),
        1 <= out@.len() <= 10,
{
    proof {
        lemma_fst_svarint_roundtrip(v);
    }
    let val: u64 = v as u64;
    if val == 0 {
        let mut z: Vec<u8> = Vec::new();
        z.push(0u8);
        assert(v == 0) by (bit_vector)
            requires
                val == v as u64,
                val == 0,
        ;
        assert(z@ =~= spec_encode_fst_svarint(v));
        return z;
    }
    assert(v != 0) by (bit_vector)
        requires
            val == v as u64,
            val != 0,
    ;
    let mut groups: Vec<u8> = Vec::new();
    let mut tmp: u64 = val;
    while tmp > 0
        invariant
            groups@ + groups7(tmp) == groups7(val),
        decreases tmp,
    {
        proof {
            lemma_shr7_decreases(tmp);
        }
        let ghost old_g = groups@;
        groups.push((tmp & 0x7F) as u8);
        assert(groups@ + groups7(tmp >> 7) =~= old_g + groups7(tmp));
        tmp = tmp >> 7;
    }
    assert(groups7(0) =~= Seq::<u8>::empty());
    assert(groups@ =~= groups7(val));
    proof {
        lemma_groups7_props(val);
    }
    let n: usize = groups.len();
    assert(groups@.take(n as int) =~= groups@);
    let mut buf: Vec<u8> = Vec::with_capacity(n);
    let mut i: usize = n;
    while i > 0
        invariant
            0 <= i <= n,
            n == groups@.len(),
            n >= 1,
            buf@ + be_groups_bytes(groups@.take(i as int)) == be_groups_bytes(groups@),
        decreases i,
    {
        let ghost old_b = buf@;
        let ghost t = groups@.take(i as int);
        if i > 1 {
            assert(be_groups_bytes(t) == seq![t.last() | 0x80u8] + be_groups_bytes(t.drop_last()));
            buf.push(groups[i - 1] | 0x80);
        } else {
            assert(be_groups_bytes(t) == seq![t[0]]);
            buf.push(groups[i - 1]);
            assert(groups@.take(0) =~= Seq::<u8>::empty());
        }
        assert(t.drop_last() =~= groups@.take(i - 1));
        assert(buf@ + be_groups_bytes(groups@.take(i - 1)) =~= old_b + be_groups_bytes(t));
        i = i - 1;
    }
    assert(groups@.take(0) =~= Seq::<u8>::empty());
    assert(buf@ =~= be_groups_bytes(groups@));
    buf
}

/// Decode an FST signed varint (not zigzag: the 64-bit pattern, sign-extended
/// by its top bits) from the front of `buf`.
pub fn decode_fst_svarint(buf: &[u8]) -> (res: Option<(i64, usize)>)
    requires
        varint_end(buf@) is Some ==> varint_end(buf@)->0 < 10,
    ensures
        match res {
            Some((v, k)) => spec_decode_fst_svarint(buf@) == Some((v, k as nat)),
            None => spec_decode_fst_svarint(buf@) is None,
        },
{
    if buf.len() == 0 {
        return None;
    }
    let mut pos: usize = 0;
    while pos < buf.len() && buf[pos] & 0x80 != 0
        invariant
            pos <= buf@.len(),
            forall|j: int| 0 <= j < pos ==> buf@[j] >= 0x80,
        decreases buf@.len() - pos,
    {
        let b: u8 = buf[pos];
        assert(b & 0x80 != 0 ==> b >= 0x80) by (bit_vector);
        pos = pos + 1;
    }
    if pos >= buf.len() {
        proof {
            lemma_end_none_prefix(buf@, pos as int);
        }
        return None;
    }
    let last: u8 = buf[pos];
    assert(last & 0x80 == 0 ==> last < 0x80) by (bit_vector);
    proof {
        lemma_end_take(buf@, pos as int);
    }
    let consumed: usize = pos + 1;
    let ghost term = buf@.take(consumed as int);
    // accumulate from the last (least significant) group backwards
    let mut result: u64 = 0;
    let mut k: usize = 0;
    while k < consumed
        invariant
            consumed == pos + 1,
            consumed <= 10,
            pos < buf@.len(),
            term == buf@.take(consumed as int),
            k <= consumed,
            result == be_groups_value(term.skip(consumed - k)),
        decreases consumed - k,
    {
        let b: u8 = buf[consumed - 1 - k];
        let shift: u64 = 7 * (k as u64);
        proof {
            let s = term.skip(consumed - k - 1);
            lemma_be_front(s, k as int);
            assert(s.drop_first() =~= term.skip(consumed - k));
            assert(s[0] == b);
        }
        result = result | (((b & 0x7F) as u64) << shift);
        k = k + 1;
    }
    assert(term.skip(0) =~= term);
    Some((result as i64, consumed))
}

/// Prepending a most-significant group `b` to `k` groups of value `rest`.
pub open spec fn be_groups_value_front(b: u8, rest: u64, k: int) -> u64 {
    rest | (((b & 0x7F) as u64) << (k * 7) as u64)
}

proof fn lemma_be_front(s: Seq<u8>, k: int)
    requires
        s.len() == k + 1,
        0 <= k <= 9,
    ensures
        be_groups_value(s) == be_groups_value_front(s[0], be_groups_value(s.drop_first()), k),
    decreases k,
{
    let b: u8 = s[0];
    let c: u64 = (b & 0x7F) as u64;
    if k == 0 {
        assert(s.drop_last() =~= Seq::<u8>::empty());
        assert(s.drop_first() =~= Seq::<u8>::empty());
        assert((0u64 << 7u64) | c == 0u64 | (c << 0u64)) by (bit_vector);
    } else {
        let m = s.drop_last();
        lemma_be_front(m, k - 1);
        assert(m.drop_first() =~= s.drop_first().drop_last());
        assert(s.drop_first().last() == s.last());
        let r: u64 = be_groups_value(m.drop_first());
        let l: u64 = (s.last() & 0x7F) as u64;
        let kk: u64 = ((k - 1) * 7) as u64;
        let k7: u64 = (k * 7) as u64;
        assert(((r | (c << kk)) << 7u64) | l == ((r << 7u64) | l) | (c << k7)) by (bit_vector)
            requires
                kk <= 56,
                k7 == kk + 7,
        ;
    }
}

/// Decode an FST varint and keep its low 32 bits.
pub fn decode_fst_varint32(buf: &[u8]) -> (res: Option<(u32, usize)>)
    ensures
        match res {
            Some((v, k)) => spec_decode_varint(buf@) matches Some((u, k2)) && v == u as u32 && k
                == k2,
            None => spec_decode_varint(buf@) is None,
        },
{
    let (val, consumed) = match decode_varint(buf) {
        Some(p) => p,
        None => return None,
    };
    Some((val as u32, consumed))
}

/// Read an FST signed varint from a byte stream at `*pos`: bytes are taken one
/// at a time until one without the continuation bit (at most ten); the stream
/// position advances past every byte taken.
pub fn decode_fst_svarint_from_reader(data: &[u8], pos: &mut usize) -> (res: Result<i64, String>)
    requires
        *old(pos) <= data@.len(),
    ensures
        *final(pos) <= data@.len(),
        ({
            let rest = data@.skip(*old(pos) as int);
            match varint_end(rest) {
                Some(i) => if i < 10 {
                    res == Ok::<i64, String>(spec_decode_fst_svarint(rest).unwrap().0) && *final(pos)
                        == *old(pos) + i + 1
                } else {
                    res matches Err(e) && e@ == "Signed varint too long"@ && *final(pos) == *old(pos) + 10
                },
                None => if rest.len() >= 10 {
                    res matches Err(e) && e@ == "Signed varint too long"@ && *final(pos) == *old(pos) + 10
                } else {
                    res matches Err(e) && e@ == "Read error: failed to fill whole buffer"@ && *final(pos)
                        == data@.len()
                },
            }
        }),
{
    let ghost start = *pos as int;
    let ghost rest = data@.skip(start);
    let mut buf: Vec<u8> = Vec::new();
    loop
        invariant
            0 <= start <= *pos <= data@.len(),
            start == *old(pos) as int,
            rest == data@.skip(start),
            rest.len() == data@.len() - start,
            buf@.len() == *pos - start,
            buf@ == rest.take(*pos - start),
            buf@.len() <= 10,
            forall|j: int| 0 <= j < buf@.len() ==> buf@[j] >= 0x80,
        decreases 10 - buf@.len(),
    {
        if buf.len() >= 10 {
            proof {
                assert forall|j: int| 0 <= j < 10 implies rest[j] >= 0x80 by {
                    assert(rest.take(10)[j] == rest[j]);
                }
                lemma_end_beyond(rest, 10);
            }
            return Err("Signed varint too long".to_owned());
        }
        if *pos >= data.len() {
            proof {
                assert(buf@ =~= rest);
                lemma_end_none_prefix(rest, rest.len() as int);
            }
            return Err("Read error: failed to fill whole buffer".to_owned());
        }
        let b: u8 = data[*pos];
        let ghost old_buf = buf@;
        let ghost k = old_buf.len() as int;
        assert(k == *pos - start);
        assert(0 <= k < data@.len() - start);
        assert(rest[k] == data@[start + k]);
        assert(rest[k] == b);
        buf.push(b);
        *pos = *pos + 1;
        assert(rest.take(k + 1) =~= old_buf.push(b));
        if b & 0x80 == 0 {
            assert(b & 0x80 == 0 ==> b < 0x80) by (bit_vector);
            proof {
                assert forall|j: int| 0 <= j < k implies rest[j] >= 0x80 by {
                    assert(rest.take(k)[j] == rest[j]);
                }
                lemma_end_take(rest, k);
                lemma_end_take(buf@, k);
                assert(buf@.take(k + 1) =~= buf@);
                assert(rest.take(k + 1) =~= buf@);
            }
            match decode_fst_svarint(buf.as_slice()) {
                Some((v, _)) => {
                    return Ok(v);
                },
                None => {
                    return Err("Failed to decode signed varint".to_string());
                },
            }
        }
        assert(b & 0x80 != 0 ==> b >= 0x80) by (bit_vector);
    }
}

proof fn lemma_end_beyond(s: Seq<u8>, k: int)
    requires
        0 <= k <= s.len(),
        forall|j: int| 0 <= j < k ==> s[j] >= 0x80,
    ensures
        varint_end(s) is Some ==> varint_end(s)->0 >= k,
    decreases k,
{
    if k > 0 {
        let r = s.drop_first();
        assert forall|j: int| 0 <= j < k - 1 implies r[j] >= 0x80 by {
            assert(r[j] == s[j + 1]);
        }
        lemma_end_beyond(r, k - 1);
    }
}

/// A varint found at the front of a buffer ends inside it.
pub proof fn lemma_varint_end_bound(s: Seq<u8>)
    ensures
        varint_end(s) matches Some(i) ==> i < s.len(),
    decreases s.len(),
{
    if s.len() > 0 && s[0] >= 0x80 {
        lemma_varint_end_bound(s.drop_first());
    }
}

/// A decoded varint takes between 1 and 10 bytes of the buffer.
pub proof fn lemma_decode_varint_len(s: Seq<u8>)
    ensures
        spec_decode_varint(s) matches Some((v, k)) ==> 1 <= k <= s.len() && k <= 10,
{
    lemma_varint_end_bound(s);
}

} // verus!
