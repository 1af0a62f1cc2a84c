//! FSDB back-end caches: the global timeline and the name tree, as byte
//! blobs (the per-signal column cache is in `column`), and the helpers for
//! building the timeline in parallel.
//!
//! Timeline layout (little-endian): magic "WALFTL01"; the wave's
//! fingerprint (8 bytes, written by the caller); a flag byte and 8 bytes for
//! the earliest change time; the number of time points (8 bytes); then each
//! time point as a varint delta from the previous one (the first absolute).
use vstd::prelude::*;
use vstd::string::StringSliceAdditionalSpecFns;

use crate::bytes::{append_bytes, le64, le64_bytes, lemma_le64_roundtrip, read_u64_le, u64_from_le};
use crate::fst::varint::{
    decode_varint, encode_varint, lemma_encode_varint_props, lemma_encode_varint_len,
    spec_decode_varint, spec_encode_varint, varint_bytes_value, varint_end,
};

verus! {

// ---------------------------------------------------------------------------
// Varints
// ---------------------------------------------------------------------------

/// Append the varint of `v`.
pub(crate) fn put_varint(out: &mut Vec<u8>, v: u64)
    ensures
        final(out)@ == old(out)@ + spec_encode_varint(v),
{
    let e = encode_varint(v);
    append_bytes(out, e.as_slice());
}

/// Read a varint at `*pos`, moving `*pos` past it.
pub(crate) fn get_varint(buf: &[u8], pos: &mut usize) -> (r: Option<u64>)
    requires
        *old(pos) <= buf@.len(),
    ensures
        match spec_decode_varint(buf@.skip(*old(pos) as int)) {
            Some((v, k)) => r == Some(v) && *final(pos) == *old(pos) + k && *final(pos) <= buf@.len(),
            None => r is None,
        },
{
    let rest = vstd::slice::slice_subrange(buf, *pos, buf.len());
    assert(rest@ =~= buf@.skip(*pos as int));
    match decode_varint(rest) {
        Some((v, k)) => {
            proof {
                crate::fst::varint::lemma_decode_varint_len(rest@);
            }
            *pos = *pos + k;
            Some(v)
        },
        None => None,
    }
}

/// A varint followed by anything decodes to its value, using its bytes.
pub proof fn lemma_decode_varint_prefix(x: u64, rest: Seq<u8>)
    ensures
        spec_decode_varint(spec_encode_varint(x) + rest) == Some(
            (x, spec_encode_varint(x).len()),
        ),
{
    let e = spec_encode_varint(x);
    lemma_encode_varint_props(x);
    lemma_encode_varint_len(x);
    lemma_end_prefix(e, rest);
    assert((e + rest).take(e.len() as int) =~= e);
    assert(e.take(e.len() as int) =~= e);
}

proof fn lemma_end_prefix(e: Seq<u8>, rest: Seq<u8>)
    requires
        varint_end(e) is Some,
    ensures
        varint_end(e + rest) == varint_end(e),
    decreases e.len(),
{
    if e[0] >= 0x80 {
        assert((e + rest).drop_first() =~= e.drop_first() + rest);
        lemma_end_prefix(e.drop_first(), rest);
    }
}

// ---------------------------------------------------------------------------
// Timeline
// ---------------------------------------------------------------------------

/// "WALFTL01".
pub open spec fn tl_magic() -> Seq<u8> {
    seq![0x57u8, 0x41, 0x4c, 0x46, 0x54, 0x4c, 0x30, 0x31]
}

/// `times` sorted ascending (equal neighbours allowed).
pub open spec fn is_ascending(times: Seq<u64>) -> bool {
    forall|i: int, j: int| 0 <= i <= j < times.len() ==> times[i] <= times[j]
}

/// The varint deltas of `times`, the first taken from `prev`.
pub open spec fn deltas_from(times: Seq<u64>, prev: u64) -> Seq<u8>
    decreases times.len(),
{
    if times.len() == 0 {
        Seq::empty()
    } else {
        spec_encode_varint((times[0] - prev) as u64) + deltas_from(times.drop_first(), times[0])
    }
}

/// The earliest-change field: a flag byte, then the time (or 0).
pub open spec fn first_change_bytes(fc: Option<u64>) -> Seq<u8> {
    match fc {
        Some(t) => seq![1u8] + le64(t),
        None => seq![0u8] + le64(0),
    }
}

/// The timeline blob of `times`, with a zero fingerprint.
pub open spec fn timeline_bytes(times: Seq<u64>, fc: Option<u64>) -> Seq<u8> {
    tl_magic() + Seq::new(8, |i: int| 0u8) + first_change_bytes(fc) + le64(times.len() as u64)
        + deltas_from(times, 0)
}

/// The time points of `n` varint deltas read from `pos`, accumulated onto
/// `prev`; `None` when a varint is malformed or a sum overflows.
pub open spec fn decode_deltas(buf: Seq<u8>, pos: nat, n: nat, prev: u64) -> Option<Seq<u64>>
    decreases n,
{
    if n == 0 {
        Some(Seq::empty())
    } else {
        match spec_decode_varint(buf.skip(pos as int)) {
            None => None,
            Some((d, k)) => if prev + d > u64::MAX {
                None
            } else {
                match decode_deltas(buf, pos + k, (n - 1) as nat, (prev + d) as u64) {
                    Some(rest) => Some(seq![(prev + d) as u64] + rest),
                    None => None,
                }
            },
        }
    }
}

/// What decoding a timeline blob gives for the expected fingerprint `fp`:
/// the time points and the earliest change; `None` for a blob that is short,
/// has another magic or fingerprint, claims more points than it has bytes,
/// or is malformed.
pub open spec fn timeline_decode(buf: Seq<u8>, fp: u64) -> Option<(Seq<u64>, Option<u64>)> {
    if buf.len() < 33 || buf.take(8) != tl_magic() {
        None
    } else if u64_from_le(buf.subrange(8, 16)) != fp {
        None
    } else {
        let n = (u64_from_le(buf.subrange(25, 33)) as usize) as nat;
        if n > buf.len() - 33 {
            None
        } else {
            match decode_deltas(buf, 33, n, 0) {
                Some(ts) => Some(
                    (
                        ts,
                        if buf[16] != 0 {
                            Some(u64_from_le(buf.subrange(17, 25)))
                        } else {
                            None
                        },
                    ),
                ),
                None => None,
            }
        }
    }
}

proof fn lemma_deltas_push(s: Seq<u64>, x: u64, p: u64)
    ensures
        deltas_from(s.push(x), p) == deltas_from(s, p) + spec_encode_varint(
            (x - (if s.len() == 0 {
                p
            } else {
                s.last()
            })) as u64,
        ),
    decreases s.len(),
{
    if s.len() == 0 {
        assert(s.push(x).drop_first() =~= Seq::<u64>::empty());
        assert(deltas_from(Seq::<u64>::empty(), x) =~= Seq::<u8>::empty());
        assert(deltas_from(s.push(x), p) =~= spec_encode_varint((x - p) as u64));
    } else {
        assert(s.push(x).drop_first() =~= s.drop_first().push(x));
        lemma_deltas_push(s.drop_first(), x, s[0]);
        if s.len() == 1 {
            assert(s.drop_first() =~= Seq::<u64>::empty());
        }
        assert(deltas_from(s.push(x), p) =~= deltas_from(s, p) + spec_encode_varint(
            (x - s.last()) as u64,
        ));
    }
}

/// Encode a timeline (ascending time points) and its earliest change, with
/// room for the fingerprint.
pub fn encode_timeline(times: &[u64], first_change: Option<u64>) -> (out: Vec<u8>)
    requires
        is_ascending(times@),
    ensures
        out@ == timeline_bytes(times@, first_change),
{
    let mut out: Vec<u8> = Vec::new();
    let magic: [u8; 8] = [0x57, 0x41, 0x4c, 0x46, 0x54, 0x4c, 0x30, 0x31];
    append_bytes(&mut out, &magic);
    let zeros: [u8; 8] = [0; 8];
    append_bytes(&mut out, &zeros);
    match first_change {
        Some(t) => {
            out.push(1);
            append_bytes(&mut out, &le64_bytes(t));
        },
        None => {
            out.push(0);
            append_bytes(&mut out, &le64_bytes(0));
        },
    }
    append_bytes(&mut out, &le64_bytes(times.len() as u64));
    let ghost head = out@;
    proof {
        assert(magic@ =~= tl_magic());
        assert(zeros@ =~= Seq::new(8, |i: int| 0u8));
        assert(head =~= tl_magic() + Seq::new(8, |i: int| 0u8) + first_change_bytes(first_change)
            + le64(times@.len() as u64));
        assert(times@.take(0) =~= Seq::<u64>::empty());
    }
    let mut prev: u64 = 0;
    let mut i: usize = 0;
    while i < times.len()
        invariant
            i <= times@.len(),
            is_ascending(times@),
            out@ == head + deltas_from(times@.take(i as int), 0),
            prev == (if i == 0 {
                0u64
            } else {
                times@[i - 1]
            }),
        decreases times@.len() - i,
    {
        let t = times[i];
        proof {
            lemma_deltas_push(times@.take(i as int), t, 0);
            assert(times@.take(i + 1) =~= times@.take(i as int).push(t));
            if i > 0 {
                assert(times@[i - 1] <= times@[i as int]);
            }
        }
        put_varint(&mut out, t - prev);
        prev = t;
        i = i + 1;
    }
    assert(times@.take(i as int) =~= times@);
    out
}

/// Decode a timeline blob (see `timeline_decode`).
pub fn decode_timeline(buf: &[u8], expect_fp: u64) -> (r: Option<(Vec<u64>, Option<u64>)>)
    ensures
        match r {
            Some((v, fc)) => timeline_decode(buf@, expect_fp) == Some((v@, fc)),
            None => timeline_decode(buf@, expect_fp) is None,
        },
{
    if buf.len() < 33 {
        return None;
    }
    let magic: [u8; 8] = [0x57, 0x41, 0x4c, 0x46, 0x54, 0x4c, 0x30, 0x31];
    assert(magic@ =~= tl_magic());
    let head = vstd::slice::slice_subrange(buf, 0, 8);
    assert(head@ =~= buf@.take(8));
    if !crate::text::bytes_eq(head, &magic) {
        return None;
    }
    let fp = read_u64_le(buf, 8);
    if fp != expect_fp {
        return None;
    }
    let has_first: bool = buf[16] != 0;
    let first_val = read_u64_le(buf, 17);
    let n = read_u64_le(buf, 25) as usize;
    let mut pos: usize = 33;
    if n > buf.len() - pos {
        return None;
    }
    let mut times: Vec<u64> = Vec::with_capacity(n);
    let mut prev: u64 = 0;
    let mut i: usize = 0;
    while i < n
        invariant
            i <= n,
            33 <= pos <= buf@.len(),
            n as nat == (u64_from_le(buf@.subrange(25, 33)) as usize) as nat,
            decode_deltas(buf@, 33, n as nat, 0) == (match decode_deltas(
                buf@,
                pos as nat,
                (n - i) as nat,
                prev,
            ) {
                Some(rest) => Some(times@ + rest),
                None => None::<Seq<u64>>,
            }),
        decreases n - i,
    {
        let d = match get_varint(buf, &mut pos) {
            Some(d) => d,
            None => {
                return None;
            },
        };
        let next = match prev.checked_add(d) {
            Some(v) => v,
            None => {
                return None;
            },
        };
        proof {
            assert(times@.push(next) + Seq::<u64>::empty() =~= times@.push(next));
            assert forall|rest: Seq<u64>| times@ + (seq![next] + rest) == times@.push(next) + rest by {
                assert(times@ + (seq![next] + rest) =~= times@.push(next) + rest);
            }
        }
        times.push(next);
        prev = next;
        i = i + 1;
    }
    proof {
        assert(times@ + Seq::<u64>::empty() =~= times@);
    }
    Some((times, if has_first { Some(first_val) } else { None }))
}


/// `b` with its fingerprint field (bytes 8..16) set to `fp`, as the cache
/// writer stores it.
pub open spec fn with_fingerprint(b: Seq<u8>, fp: u64) -> Seq<u8> {
    b.take(8) + le64(fp) + b.skip(16)
}

proof fn lemma_deltas_len(s: Seq<u64>, p: u64)
    ensures
        deltas_from(s, p).len() >= s.len(),
    decreases s.len(),
{
    if s.len() > 0 {
        lemma_encode_varint_props((s[0] - p) as u64);
        lemma_deltas_len(s.drop_first(), s[0]);
    }
}

proof fn lemma_decode_deltas(buf: Seq<u8>, pos: int, s: Seq<u64>, p: u64)
    requires
        0 <= pos,
        is_ascending(s),
        s.len() > 0 ==> s[0] >= p,
        pos + deltas_from(s, p).len() <= buf.len(),
        buf.subrange(pos, pos + deltas_from(s, p).len()) == deltas_from(s, p),
    ensures
        decode_deltas(buf, pos as nat, s.len(), p) == Some(s),
    decreases s.len(),
{
    if s.len() > 0 {
        let x = (s[0] - p) as u64;
        let e = spec_encode_varint(x);
        let k = e.len() as int;
        let rest = s.drop_first();
        let dr = deltas_from(rest, s[0]);
        assert(deltas_from(s, p) == e + dr);
        assert(buf.subrange(pos, pos + k) =~= e) by {
            assert forall|j: int| 0 <= j < k implies buf.subrange(pos, pos + k)[j] == e[j] by {
                assert(buf.subrange(pos, pos + deltas_from(s, p).len())[j] == (e + dr)[j]);
            }
        }
        assert(buf.skip(pos) =~= e + buf.skip(pos + k));
        lemma_decode_varint_prefix(x, buf.skip(pos + k));
        assert(buf.subrange(pos + k, pos + k + dr.len()) =~= dr) by {
            assert forall|j: int| 0 <= j < dr.len() implies buf.subrange(pos + k, pos + k + dr.len())[j]
                == dr[j] by {
                assert(buf.subrange(pos, pos + deltas_from(s, p).len())[k + j] == (e + dr)[k
                    + j]);
            }
        }
        assert(is_ascending(rest));
        if rest.len() > 0 {
            assert(s[0] <= s[1]);
        }
        lemma_decode_deltas(buf, pos + k, rest, s[0]);
        assert(seq![s[0]] + rest =~= s);
    }
}

/// Reading a timeline back: the blob that `encode_timeline` makes, with the
/// fingerprint `fp` stored in it, decodes for `fp` to the same time points
/// and earliest change.
pub proof fn lemma_timeline_roundtrip(times: Seq<u64>, fc: Option<u64>, fp: u64)
    requires
        is_ascending(times),
        times.len() <= usize::MAX,
    ensures
        timeline_decode(with_fingerprint(timeline_bytes(times, fc), fp), fp) == Some((times, fc)),
{
    let b = timeline_bytes(times, fc);
    let w = with_fingerprint(b, fp);
    let d = deltas_from(times, 0);
    let fcb = first_change_bytes(fc);
    let n64 = times.len() as u64;
    assert(b.len() == 33 + d.len());
    assert(w.take(8) =~= tl_magic());
    assert(w.subrange(8, 16) =~= le64(fp));
    lemma_le64_roundtrip(fp);
    assert(w.subrange(25, 33) =~= le64(n64));
    lemma_le64_roundtrip(n64);
    assert(w[16] == fcb[0]);
    match fc {
        Some(t) => {
            assert(w.subrange(17, 25) =~= le64(t));
            lemma_le64_roundtrip(t);
        },
        None => {},
    }
    lemma_deltas_len(times, 0);
    assert(w.subrange(33, 33 + d.len() as int) =~= d);
    lemma_decode_deltas(w, 33, times, 0);
}


// ---------------------------------------------------------------------------
// Name tree
// ---------------------------------------------------------------------------
//
// Layout: magic "WALFNM01"; the fingerprint (8 bytes, written by the
// caller); the number of names (varint); per name its byte length (varint),
// its bytes and its width (varint); the number of scopes (varint); per scope
// its byte length (varint) and its bytes.

/// "WALFNM01".
pub open spec fn tree_magic() -> Seq<u8> {
    seq![0x57u8, 0x41, 0x4c, 0x46, 0x4e, 0x4d, 0x30, 0x31]
}

/// The cached name tree: full names, their widths, and the scopes.
pub struct TreeSnapshot {
    pub names: Vec<String>,
    pub widths: Vec<usize>,
    pub scopes: Vec<String>,
}

/// The views of a list of strings.
pub open spec fn str_views(v: Seq<String>) -> Seq<Seq<char>> {
    v.map_values(|s: String| s@)
}

/// A string as a length-prefixed record.
pub open spec fn str_rec(s: Seq<char>) -> Seq<u8> {
    spec_encode_varint(vstd::utf8::encode_utf8(s).len() as u64) + vstd::utf8::encode_utf8(s)
}

/// The name records: each name's record and its width; as many as both lists
/// have.
pub open spec fn names_bytes(names: Seq<Seq<char>>, widths: Seq<usize>) -> Seq<u8>
    decreases names.len(),
{
    if names.len() == 0 || widths.len() == 0 {
        Seq::empty()
    } else {
        str_rec(names[0]) + spec_encode_varint(widths[0] as u64) + names_bytes(
            names.drop_first(),
            widths.drop_first(),
        )
    }
}

/// The scope records.
pub open spec fn scopes_bytes(scopes: Seq<Seq<char>>) -> Seq<u8>
    decreases scopes.len(),
{
    if scopes.len() == 0 {
        Seq::empty()
    } else {
        str_rec(scopes[0]) + scopes_bytes(scopes.drop_first())
    }
}

/// The name-tree blob, with a zero fingerprint.
pub open spec fn tree_bytes(names: Seq<Seq<char>>, widths: Seq<usize>, scopes: Seq<Seq<char>>) -> Seq<
    u8,
> {
    tree_magic() + Seq::new(8, |i: int| 0u8) + spec_encode_varint(names.len() as u64) + names_bytes(
        names,
        widths,
    ) + spec_encode_varint(scopes.len() as u64) + scopes_bytes(scopes)
}

/// A length-prefixed string read at `pos`: the text and where it ends;
/// `None` when the length is malformed, runs past the end, or the bytes
/// are not UTF-8.
pub open spec fn dec_str(buf: Seq<u8>, pos: int) -> Option<(Seq<char>, int)> {
    match spec_decode_varint(buf.skip(pos)) {
        None => None,
        Some((l, k)) => {
            let start = pos + k;
            let end = start + (l as usize);
            if end > usize::MAX || end > buf.len() {
                None
            } else if !vstd::utf8::valid_utf8(buf.subrange(start, end)) {
                None
            } else {
                Some((vstd::utf8::decode_utf8(buf.subrange(start, end)), end))
            }
        },
    }
}

/// `n` name records read from `pos`: names, widths and where they end.
pub open spec fn dec_names(buf: Seq<u8>, pos: int, n: nat) -> Option<
    (Seq<Seq<char>>, Seq<usize>, int),
>
    decreases n,
{
    if n == 0 {
        Some((Seq::empty(), Seq::empty(), pos))
    } else {
        match dec_str(buf, pos) {
            None => None,
            Some((s, p1)) => match spec_decode_varint(buf.skip(p1)) {
                None => None,
                Some((w, k)) => match dec_names(buf, p1 + k, (n - 1) as nat) {
                    None => None,
                    Some((ns, ws, pe)) => Some((seq![s] + ns, seq![w as usize] + ws, pe)),
                },
            },
        }
    }
}

/// `n` scope records read from `pos`: the scopes and where they end.
pub open spec fn dec_scopes(buf: Seq<u8>, pos: int, n: nat) -> Option<(Seq<Seq<char>>, int)>
    decreases n,
{
    if n == 0 {
        Some((Seq::empty(), pos))
    } else {
        match dec_str(buf, pos) {
            None => None,
            Some((s, p1)) => match dec_scopes(buf, p1, (n - 1) as nat) {
                None => None,
                Some((ss, pe)) => Some((seq![s] + ss, pe)),
            },
        }
    }
}

/// What decoding a name-tree blob gives for the expected fingerprint `fp`:
/// names, widths and scopes; `None` for a blob that is short, has another
/// magic or fingerprint, claims more records than it has bytes, or is
/// malformed.
pub open spec fn tree_decode(buf: Seq<u8>, fp: u64) -> Option<
    (Seq<Seq<char>>, Seq<usize>, Seq<Seq<char>>),
> {
    if buf.len() < 24 || buf.take(8) != tree_magic() {
        None
    } else if u64_from_le(buf.subrange(8, 16)) != fp {
        None
    } else {
        match spec_decode_varint(buf.skip(16)) {
            None => None,
            Some((n64, k)) => {
                let n = (n64 as usize) as nat;
                if n > buf.len() {
                    None
                } else {
                    match dec_names(buf, 16 + k as int, n) {
                        None => None,
                        Some((names, widths, p)) => match spec_decode_varint(buf.skip(p)) {
                            None => None,
                            Some((ns64, k2)) => {
                                let ns = (ns64 as usize) as nat;
                                if ns > buf.len() {
                                    None
                                } else {
                                    match dec_scopes(buf, p + k2, ns) {
                                        None => None,
                                        Some((scopes, _)) => Some((names, widths, scopes)),
                                    }
                                }
                            },
                        },
                    }
                }
            },
        }
    }
}

proof fn lemma_names_bytes_push(names: Seq<Seq<char>>, widths: Seq<usize>, n: Seq<char>, w: usize)
    requires
        names.len() == widths.len(),
    ensures
        names_bytes(names.push(n), widths.push(w)) == names_bytes(names, widths) + str_rec(n)
            + spec_encode_varint(w as u64),
    decreases names.len(),
{
    if names.len() == 0 {
        assert(names.push(n).drop_first() =~= Seq::<Seq<char>>::empty());
        assert(widths.push(w).drop_first() =~= Seq::<usize>::empty());
        assert(names_bytes(Seq::<Seq<char>>::empty(), Seq::<usize>::empty()) =~= Seq::<u8>::empty());
        assert(names_bytes(names.push(n), widths.push(w)) =~= str_rec(n) + spec_encode_varint(
            w as u64,
        ));
        assert(names_bytes(names, widths) =~= Seq::<u8>::empty());
    } else {
        assert(names.push(n).drop_first() =~= names.drop_first().push(n));
        assert(widths.push(w).drop_first() =~= widths.drop_first().push(w));
        lemma_names_bytes_push(names.drop_first(), widths.drop_first(), n, w);
        assert(names_bytes(names.push(n), widths.push(w)) =~= names_bytes(names, widths) + str_rec(
            n,
        ) + spec_encode_varint(w as u64));
    }
}

proof fn lemma_scopes_bytes_push(scopes: Seq<Seq<char>>, sc: Seq<char>)
    ensures
        scopes_bytes(scopes.push(sc)) == scopes_bytes(scopes) + str_rec(sc),
    decreases scopes.len(),
{
    if scopes.len() == 0 {
        assert(scopes.push(sc).drop_first() =~= Seq::<Seq<char>>::empty());
        assert(scopes_bytes(Seq::<Seq<char>>::empty()) =~= Seq::<u8>::empty());
        assert(scopes_bytes(scopes.push(sc)) =~= str_rec(sc));
    } else {
        assert(scopes.push(sc).drop_first() =~= scopes.drop_first().push(sc));
        lemma_scopes_bytes_push(scopes.drop_first(), sc);
        assert(scopes_bytes(scopes.push(sc)) =~= scopes_bytes(scopes) + str_rec(sc));
    }
}

proof fn lemma_names_bytes_min(names: Seq<Seq<char>>, widths: Seq<usize>, m: int)
    requires
        0 <= m <= names.len(),
        m <= widths.len(),
        m == names.len() || m == widths.len(),
    ensures
        names_bytes(names.take(m), widths.take(m)) == names_bytes(names, widths),
    decreases m,
{
    if m == 0 {
        assert(names_bytes(names.take(0), widths.take(0)) =~= Seq::<u8>::empty());
    } else {
        assert(names.take(m).drop_first() =~= names.drop_first().take(m - 1));
        assert(widths.take(m).drop_first() =~= widths.drop_first().take(m - 1));
        lemma_names_bytes_min(names.drop_first(), widths.drop_first(), m - 1);
    }
}

/// Append a string as a length-prefixed record.
fn put_str(out: &mut Vec<u8>, s: &String)
    ensures
        final(out)@ == old(out)@ + str_rec(s@),
{
    let b: &[u8] = s.as_str().as_bytes();
    put_varint(out, b.len() as u64);
    append_bytes(out, b);
    assert(final(out)@ =~= old(out)@ + str_rec(s@));
}

/// Encode a name tree (names paired with widths, as far as both go), with
/// room for the fingerprint.
pub fn encode_tree(t: &TreeSnapshot) -> (out: Vec<u8>)
    ensures
        out@ == tree_bytes(str_views(t.names@), t.widths@, str_views(t.scopes@)),
{
    let mut out: Vec<u8> = Vec::new();
    let magic: [u8; 8] = [0x57, 0x41, 0x4c, 0x46, 0x4e, 0x4d, 0x30, 0x31];
    append_bytes(&mut out, &magic);
    let zeros: [u8; 8] = [0; 8];
    append_bytes(&mut out, &zeros);
    put_varint(&mut out, t.names.len() as u64);
    let ghost head = out@;
    proof {
        assert(magic@ =~= tree_magic());
        assert(zeros@ =~= Seq::new(8, |i: int| 0u8));
        assert(str_views(t.names@).take(0) =~= Seq::<Seq<char>>::empty());
        assert(t.widths@.take(0) =~= Seq::<usize>::empty());
        assert(out@ =~= head + names_bytes(str_views(t.names@).take(0), t.widths@.take(0)));
    }
    let n = if t.names.len() < t.widths.len() { t.names.len() } else { t.widths.len() };
    let mut i: usize = 0;
    while i < n
        invariant
            n <= t.names@.len(),
            n <= t.widths@.len(),
            n == t.names@.len() || n == t.widths@.len(),
            i <= n,
            out@ == head + names_bytes(str_views(t.names@).take(i as int), t.widths@.take(i as int)),
        decreases n - i,
    {
        proof {
            lemma_names_bytes_push(
                str_views(t.names@).take(i as int),
                t.widths@.take(i as int),
                t.names@[i as int]@,
                t.widths@[i as int],
            );
            assert(str_views(t.names@).take(i + 1) =~= str_views(t.names@).take(i as int).push(
                t.names@[i as int]@,
            ));
            assert(t.widths@.take(i + 1) =~= t.widths@.take(i as int).push(t.widths@[i as int]));
        }
        put_str(&mut out, &t.names[i]);
        put_varint(&mut out, t.widths[i] as u64);
        i = i + 1;
    }
    proof {
        lemma_names_bytes_min(str_views(t.names@), t.widths@, n as int);
    }
    put_varint(&mut out, t.scopes.len() as u64);
    let ghost mid = out@;
    proof {
        assert(str_views(t.scopes@).take(0) =~= Seq::<Seq<char>>::empty());
        assert(out@ =~= mid + scopes_bytes(str_views(t.scopes@).take(0)));
    }
    let m = t.scopes.len();
    let mut j: usize = 0;
    while j < m
        invariant
            m == t.scopes@.len(),
            j <= m,
            out@ == mid + scopes_bytes(str_views(t.scopes@).take(j as int)),
        decreases m - j,
    {
        proof {
            lemma_scopes_bytes_push(str_views(t.scopes@).take(j as int), t.scopes@[j as int]@);
            assert(str_views(t.scopes@).take(j + 1) =~= str_views(t.scopes@).take(j as int).push(
                t.scopes@[j as int]@,
            ));
        }
        put_str(&mut out, &t.scopes[j]);
        j = j + 1;
    }
    proof {
        assert(str_views(t.scopes@).take(m as int) =~= str_views(t.scopes@));
    }
    out
}

/// Read a length-prefixed string at `*pos` (see `dec_str`).
fn read_str(buf: &[u8], pos: &mut usize) -> (r: Option<String>)
    requires
        *old(pos) <= buf@.len(),
    ensures
        match dec_str(buf@, *old(pos) as int) {
            Some((s, e)) => (r matches Some(x) && x@ == s) && *final(pos) == e,
            None => r is None,
        },
        *final(pos) <= buf@.len(),
{
    let start0: usize = *pos;
    let l = match get_varint(buf, pos) {
        Some(l) => l as usize,
        None => {
            *pos = start0;
            return None;
        },
    };
    let end = match pos.checked_add(l) {
        Some(e) => e,
        None => {
            *pos = start0;
            return None;
        },
    };
    if end > buf.len() {
        *pos = start0;
        return None;
    }
    match crate::text::str_from_utf8(vstd::slice::slice_subrange(buf, *pos, end)) {
        Some(s) => {
            *pos = end;
            Some(s.to_string())
        },
        None => {
            *pos = start0;
            None
        },
    }
}

/// Decode a name-tree blob (see `tree_decode`).
pub fn decode_tree(buf: &[u8], expect_fp: u64) -> (r: Option<TreeSnapshot>)
    ensures
        match r {
            Some(t) => tree_decode(buf@, expect_fp) == Some(
                (str_views(t.names@), t.widths@, str_views(t.scopes@)),
            ),
            None => tree_decode(buf@, expect_fp) is None,
        },
{
    if buf.len() < 24 {
        return None;
    }
    let magic: [u8; 8] = [0x57, 0x41, 0x4c, 0x46, 0x4e, 0x4d, 0x30, 0x31];
    assert(magic@ =~= tree_magic());
    let head = vstd::slice::slice_subrange(buf, 0, 8);
    assert(head@ =~= buf@.take(8));
    if !crate::text::bytes_eq(head, &magic) {
        return None;
    }
    if read_u64_le(buf, 8) != expect_fp {
        return None;
    }
    let mut pos: usize = 16;
    let n_raw = match get_varint(buf, &mut pos) {
        Some(v) => v,
        None => {
            return None;
        },
    };
    let n = n_raw as usize;
    if n > buf.len() {
        return None;
    }
    let ghost p0 = pos as int;
    let mut names: Vec<String> = Vec::new();
    let mut widths: Vec<usize> = Vec::new();
    let mut i: usize = 0;
    proof {
        assert(str_views(names@) =~= Seq::<Seq<char>>::empty());
        assert(Seq::<Seq<char>>::empty() + Seq::<Seq<char>>::empty() =~= Seq::<Seq<char>>::empty());
    }
    while i < n
        invariant
            i <= n,
            pos <= buf@.len(),
            buf@.len() >= 24,
            buf@.take(8) == tree_magic(),
            u64_from_le(buf@.subrange(8, 16)) == expect_fp,
            p0 >= 16,
            spec_decode_varint(buf@.skip(16)) == Some((n_raw, (p0 - 16) as nat)),
            n == n_raw as usize,
            n <= buf@.len(),
            dec_names(buf@, p0, n as nat) == (match dec_names(buf@, pos as int, (n - i) as nat) {
                Some((ns, ws, pe)) => Some((str_views(names@) + ns, widths@ + ws, pe)),
                None => None::<(Seq<Seq<char>>, Seq<usize>, int)>,
            }),
        decreases n - i,
    {
        let ghost cur = pos as int;
        let name = match read_str(buf, &mut pos) {
            Some(s) => s,
            None => {
                proof {
                    assert(dec_names(buf@, cur, (n - i) as nat) is None);
                    assert(dec_names(buf@, p0, n as nat) is None);
                }
                return None;
            },
        };
        let ghost after_name = pos as int;
        let w = match get_varint(buf, &mut pos) {
            Some(w) => w as usize,
            None => {
                proof {
                    assert(dec_names(buf@, cur, (n - i) as nat) is None);
                    assert(dec_names(buf@, p0, n as nat) is None);
                }
                return None;
            },
        };
        let ghost old_names = names@;
        let ghost old_widths = widths@;
        names.push(name);
        widths.push(w);
        proof {
            assert(str_views(names@) =~= str_views(old_names).push(names@.last()@));
            assert forall|ns: Seq<Seq<char>>, ws: Seq<usize>|
                str_views(old_names) + (seq![names@.last()@] + ns) == str_views(names@) + ns
                    && old_widths + (seq![w] + ws) == widths@ + ws by {
                assert(str_views(old_names) + (seq![names@.last()@] + ns) =~= str_views(names@)
                    + ns);
                assert(old_widths + (seq![w] + ws) =~= widths@ + ws);
            }
        }
        i = i + 1;
    }
    proof {
        assert(str_views(names@) + Seq::<Seq<char>>::empty() =~= str_views(names@));
        assert(widths@ + Seq::<usize>::empty() =~= widths@);
    }
    let ghost pn = pos as int;
    let ns_raw = match get_varint(buf, &mut pos) {
        Some(v) => v,
        None => {
            return None;
        },
    };
    let ns = ns_raw as usize;
    if ns > buf.len() {
        return None;
    }
    let ghost q0 = pos as int;
    let mut scopes: Vec<String> = Vec::new();
    let mut j: usize = 0;
    proof {
        assert(str_views(scopes@) =~= Seq::<Seq<char>>::empty());
    }
    while j < ns
        invariant
            j <= ns,
            pos <= buf@.len(),
            buf@.len() >= 24,
            buf@.take(8) == tree_magic(),
            u64_from_le(buf@.subrange(8, 16)) == expect_fp,
            p0 >= 16,
            spec_decode_varint(buf@.skip(16)) == Some((n_raw, (p0 - 16) as nat)),
            n == n_raw as usize,
            n <= buf@.len(),
            dec_names(buf@, p0, n as nat) == Some((str_views(names@), widths@, pn)),
            q0 >= pn,
            spec_decode_varint(buf@.skip(pn)) == Some((ns_raw, (q0 - pn) as nat)),
            ns == ns_raw as usize,
            ns <= buf@.len(),
            dec_scopes(buf@, q0, ns as nat) == (match dec_scopes(buf@, pos as int, (ns - j) as nat) {
                Some((ss, pe)) => Some((str_views(scopes@) + ss, pe)),
                None => None::<(Seq<Seq<char>>, int)>,
            }),
        decreases ns - j,
    {
        let ghost cur = pos as int;
        let sc = match read_str(buf, &mut pos) {
            Some(s) => s,
            None => {
                proof {
                    assert(dec_scopes(buf@, cur, (ns - j) as nat) is None);
                    assert(dec_scopes(buf@, q0, ns as nat) is None);
                }
                return None;
            },
        };
        let ghost old_scopes = scopes@;
        scopes.push(sc);
        proof {
            assert forall|ss: Seq<Seq<char>>|
                str_views(old_scopes) + (seq![scopes@.last()@] + ss) == str_views(scopes@)
                    + ss by {
                assert(str_views(old_scopes) + (seq![scopes@.last()@] + ss) =~= str_views(scopes@)
                    + ss);
            }
        }
        j = j + 1;
    }
    proof {
        assert(str_views(scopes@) + Seq::<Seq<char>>::empty() =~= str_views(scopes@));
    }
    Some(TreeSnapshot { names, widths, scopes })
}

proof fn lemma_subrange_split(buf: Seq<u8>, pos: int, a: Seq<u8>, b: Seq<u8>)
    requires
        0 <= pos,
        pos + a.len() + b.len() <= buf.len(),
        buf.subrange(pos, pos + a.len() + b.len()) == a + b,
    ensures
        buf.subrange(pos, pos + a.len()) == a,
        buf.subrange(pos + a.len(), pos + a.len() + b.len()) == b,
{
    assert(buf.subrange(pos, pos + a.len()) =~= a) by {
        assert forall|j: int| 0 <= j < a.len() implies buf.subrange(pos, pos + a.len())[j] == a[j] by {
            assert(buf.subrange(pos, pos + a.len() + b.len())[j] == (a + b)[j]);
        }
    }
    assert(buf.subrange(pos + a.len(), pos + a.len() + b.len()) =~= b) by {
        assert forall|j: int| 0 <= j < b.len() implies buf.subrange(
            pos + a.len(),
            pos + a.len() + b.len(),
        )[j] == b[j] by {
            let k: int = a.len() + j;
            assert(buf.subrange(pos, pos + a.len() + b.len())[k] == (a + b)[k]);
            assert(buf.subrange(pos, pos + a.len() + b.len())[k] == buf[pos + k]);
            assert((a + b)[k] == b[j]);
            assert(buf.subrange(pos + a.len(), pos + a.len() + b.len())[j] == buf[pos + k]);
        }
    }
}

proof fn lemma_varint_at(buf: Seq<u8>, pos: int, x: u64)
    requires
        0 <= pos,
        pos + spec_encode_varint(x).len() <= buf.len(),
        buf.subrange(pos, pos + spec_encode_varint(x).len()) == spec_encode_varint(x),
    ensures
        spec_decode_varint(buf.skip(pos)) == Some((x, spec_encode_varint(x).len())),
{
    let e = spec_encode_varint(x);
    assert(buf.skip(pos) =~= e + buf.skip(pos + e.len()));
    lemma_decode_varint_prefix(x, buf.skip(pos + e.len()));
}

proof fn lemma_dec_str(buf: Seq<u8>, pos: int, s: Seq<char>)
    requires
        0 <= pos,
        pos + str_rec(s).len() <= buf.len(),
        buf.len() <= usize::MAX,
        buf.subrange(pos, pos + str_rec(s).len()) == str_rec(s),
    ensures
        dec_str(buf, pos) == Some((s, pos + str_rec(s).len())),
{
    let b = vstd::utf8::encode_utf8(s);
    let l = b.len() as u64;
    let e = spec_encode_varint(l);
    lemma_subrange_split(buf, pos, e, b);
    lemma_varint_at(buf, pos, l);
    vstd::utf8::encode_utf8_valid_utf8(s);
    vstd::utf8::encode_utf8_decode_utf8(s);
}

proof fn lemma_str_rec_len(s: Seq<char>)
    ensures
        str_rec(s).len() >= 1,
{
    lemma_encode_varint_props(vstd::utf8::encode_utf8(s).len() as u64);
}

proof fn lemma_names_bytes_len(names: Seq<Seq<char>>, widths: Seq<usize>)
    requires
        names.len() == widths.len(),
    ensures
        names_bytes(names, widths).len() >= names.len(),
    decreases names.len(),
{
    if names.len() > 0 {
        lemma_str_rec_len(names[0]);
        lemma_names_bytes_len(names.drop_first(), widths.drop_first());
    }
}

proof fn lemma_scopes_bytes_len(scopes: Seq<Seq<char>>)
    ensures
        scopes_bytes(scopes).len() >= scopes.len(),
    decreases scopes.len(),
{
    if scopes.len() > 0 {
        lemma_str_rec_len(scopes[0]);
        lemma_scopes_bytes_len(scopes.drop_first());
    }
}

proof fn lemma_dec_names(buf: Seq<u8>, pos: int, names: Seq<Seq<char>>, widths: Seq<usize>)
    requires
        0 <= pos,
        names.len() == widths.len(),
        pos + names_bytes(names, widths).len() <= buf.len(),
        buf.len() <= usize::MAX,
        buf.subrange(pos, pos + names_bytes(names, widths).len()) == names_bytes(names, widths),
    ensures
        dec_names(buf, pos, names.len()) == Some(
            (names, widths, pos + names_bytes(names, widths).len()),
        ),
    decreases names.len(),
{
    if names.len() > 0 {
        let r = str_rec(names[0]);
        let we = spec_encode_varint(widths[0] as u64);
        let tail = names_bytes(names.drop_first(), widths.drop_first());
        assert(names_bytes(names, widths) =~= r + we + tail);
        lemma_subrange_split(buf, pos, r + we, tail);
        lemma_subrange_split(buf, pos, r, we);
        lemma_dec_str(buf, pos, names[0]);
        lemma_varint_at(buf, pos + r.len(), widths[0] as u64);
        lemma_dec_names(buf, pos + r.len() + we.len(), names.drop_first(), widths.drop_first());
        assert(seq![names[0]] + names.drop_first() =~= names);
        assert(seq![widths[0]] + widths.drop_first() =~= widths);
    }
}

proof fn lemma_dec_scopes(buf: Seq<u8>, pos: int, scopes: Seq<Seq<char>>)
    requires
        0 <= pos,
        pos + scopes_bytes(scopes).len() <= buf.len(),
        buf.len() <= usize::MAX,
        buf.subrange(pos, pos + scopes_bytes(scopes).len()) == scopes_bytes(scopes),
    ensures
        dec_scopes(buf, pos, scopes.len()) == Some((scopes, pos + scopes_bytes(scopes).len())),
    decreases scopes.len(),
{
    if scopes.len() > 0 {
        let r = str_rec(scopes[0]);
        let tail = scopes_bytes(scopes.drop_first());
        assert(scopes_bytes(scopes) =~= r + tail);
        lemma_subrange_split(buf, pos, r, tail);
        lemma_dec_str(buf, pos, scopes[0]);
        lemma_dec_scopes(buf, pos + r.len(), scopes.drop_first());
        assert(seq![scopes[0]] + scopes.drop_first() =~= scopes);
    }
}

/// Reading a name tree back: the blob that `encode_tree` makes for names
/// paired one to one with widths, with the fingerprint `fp` stored in it,
/// decodes for `fp` to the same names, widths and scopes. (A blob under 24
/// bytes, such as that of an empty tree, is refused as too short.)
pub proof fn lemma_tree_roundtrip(
    names: Seq<Seq<char>>,
    widths: Seq<usize>,
    scopes: Seq<Seq<char>>,
    fp: u64,
)
    requires
        names.len() == widths.len(),
        24 <= tree_bytes(names, widths, scopes).len() <= usize::MAX,
    ensures
        tree_decode(with_fingerprint(tree_bytes(names, widths, scopes), fp), fp) == Some(
            (names, widths, scopes),
        ),
{
    let b = tree_bytes(names, widths, scopes);
    let w = with_fingerprint(b, fp);
    let en = spec_encode_varint(names.len() as u64);
    let nb = names_bytes(names, widths);
    let es = spec_encode_varint(scopes.len() as u64);
    let sb = scopes_bytes(scopes);
    assert(w.len() == b.len());
    assert(w.take(8) =~= tree_magic());
    assert(w.subrange(8, 16) =~= le64(fp));
    lemma_le64_roundtrip(fp);
    assert(w.subrange(16, w.len() as int) =~= en + nb + es + sb);
    lemma_subrange_split(w, 16, en + nb + es, sb);
    lemma_subrange_split(w, 16, en + nb, es);
    lemma_subrange_split(w, 16, en, nb);
    lemma_varint_at(w, 16, names.len() as u64);
    lemma_names_bytes_len(names, widths);
    lemma_scopes_bytes_len(scopes);
    lemma_dec_names(w, 16 + en.len() as int, names, widths);
    lemma_varint_at(w, 16 + en.len() + nb.len() as int, scopes.len() as u64);
    lemma_dec_scopes(w, 16 + en.len() + nb.len() + es.len() as int, scopes);
}

// ---------------------------------------------------------------------------
// Parallel timeline building
// ---------------------------------------------------------------------------

/// The signal indices a worker at `offset` handles among `n`, every
/// `stride`-th from `offset`; all of them when `stride` is 0.
pub open spec fn rr_slice(n: nat, offset: nat, stride: nat) -> Seq<nat> {
    if stride == 0 {
        Seq::new(n, |k: int| k as nat)
    } else if offset >= n {
        Seq::empty()
    } else {
        Seq::new(((n - offset - 1) as nat / stride + 1) as nat, |k: int| (offset + k * stride) as nat)
    }
}

/// Round-robin slice: the signal indices worker `offset` (of `stride`
/// workers) handles.
pub fn round_robin_slice(n: usize, offset: usize, stride: usize) -> (r: Vec<usize>)
    ensures
        r@.map_values(|x: usize| x as nat) == rr_slice(n as nat, offset as nat, stride as nat),
{
    let mut out: Vec<usize> = Vec::new();
    if stride == 0 {
        let mut k: usize = 0;
        while k < n
            invariant
                k <= n,
                out@.len() == k,
                forall|j: int| 0 <= j < k ==> out@[j] == j,
            decreases n - k,
        {
            out.push(k);
            k = k + 1;
        }
        assert(out@.map_values(|x: usize| x as nat) =~= Seq::new(n as nat, |j: int| j as nat));
        return out;
    }
    if offset >= n {
        assert(out@.map_values(|x: usize| x as nat) =~= Seq::<nat>::empty());
        return out;
    }
    let mut i: usize = offset;
    let ghost mut c: nat = 0;
    loop
        invariant_except_break
            stride > 0,
            offset < n,
            i == offset + c * stride,
            i < n,
            out@.len() == c,
            forall|j: int| 0 <= j < c ==> out@[j] == offset + j * stride,
        ensures
            out@.len() == c,
            forall|j: int| 0 <= j < c ==> out@[j] == offset + j * stride,
            c > 0,
            offset + (c - 1) * stride < n,
            offset + c * stride >= n,
        decreases n - i,
    {
        out.push(i);
        proof {
            assert(offset + (c + 1) * stride == offset + c * stride + stride) by (nonlinear_arith);
            c = c + 1;
        }
        match i.checked_add(stride) {
            Some(v) => {
                if v >= n {
                    break;
                }
                i = v;
            },
            None => {
                break;
            },
        }
    }
    proof {
        assert(out@.map_values(|x: usize| x as nat) =~= Seq::new(c, |k: int| (offset + k * stride) as nat));
        let m = (n - offset - 1) as nat;
        let q = m / (stride as nat);
        assert(q + 1 == c) by (nonlinear_arith)
            requires
                offset + (c - 1) * stride < n,
                offset + c * stride >= n,
                m == n - offset - 1,
                q == m / (stride as nat),
                stride > 0,
                c > 0,
        {
            vstd::arithmetic::div_mod::lemma_fundamental_div_mod(m as int, stride as int);
        }
    }
    out
}

/// The worker slices partition the signals: each index below `n` lies in
/// exactly one worker's slice, that of worker `i % stride`, at position
/// `i / stride`.
pub proof fn lemma_round_robin_partition(n: nat, stride: nat, i: nat)
    requires
        stride > 0,
        i < n,
    ensures
        (i / stride) < rr_slice(n, i % stride, stride).len(),
        rr_slice(n, i % stride, stride)[(i / stride) as int] == i,
        forall|o: nat, k: int|
            o < stride && o != i % stride && 0 <= k < rr_slice(n, o, stride).len() ==> #[trigger] rr_slice(
                n,
                o,
                stride,
            )[k] != i,
{
    let o = i % stride;
    let q = i / stride;
    vstd::arithmetic::div_mod::lemma_fundamental_div_mod(i as int, stride as int);
    assert(i == o + q * stride);
    assert(o < n);
    let m = (n - o - 1) as nat;
    assert(q <= m / stride) by (nonlinear_arith)
        requires
            i == o + q * stride,
            i < n,
            m == n - o - 1,
            stride > 0,
    {
        vstd::arithmetic::div_mod::lemma_div_is_ordered((q * stride) as int, m as int, stride as int);
        vstd::arithmetic::div_mod::lemma_div_multiples_vanish(q as int, stride as int);
    }
    assert forall|o2: nat, k: int|
        o2 < stride && o2 != i % stride && 0 <= k < rr_slice(n, o2, stride).len() implies #[trigger] rr_slice(
            n,
            o2,
            stride,
        )[k] != i by {
        if rr_slice(n, o2, stride)[k] == i {
            assert(o2 + k * stride == i);
            assert(stride * k + o2 == i) by (nonlinear_arith)
                requires
                    o2 + k * stride == i,
            ;
            vstd::arithmetic::div_mod::lemma_mod_multiples_vanish(k, o2 as int, stride as int);
            vstd::arithmetic::div_mod::lemma_small_mod(o2, stride);
        }
    }
}

/// Whether a timeline is worth caching by its number of points.
pub fn times_len_ok(n: usize) -> (r: bool)
    ensures
        r == (n >= 256),
{
    n >= 256
}

/// `s` strictly ascending (sorted, no repeats).
pub open spec fn strictly_ascending(s: Seq<u64>) -> bool {
    forall|i: int, j: int| 0 <= i < j < s.len() ==> s[i] < s[j]
}

/// Append `v` unless it is the last value already.
fn push_new(out: &mut Vec<u64>, v: u64)
    ensures
        old(out)@.len() > 0 && old(out)@.last() == v ==> final(out)@ == old(out)@,
        !(old(out)@.len() > 0 && old(out)@.last() == v) ==> final(out)@ == old(out)@.push(v),
{
    let n = out.len();
    if n > 0 && out[n - 1] == v {
        return;
    }
    out.push(v);
}

/// Merge two strictly ascending time lists into the strictly ascending
/// list of the times in either.
pub fn merge_sorted_unique(a: &[u64], b: &[u64]) -> (r: Vec<u64>)
    requires
        strictly_ascending(a@),
        strictly_ascending(b@),
    ensures
        strictly_ascending(r@),
        r@.to_set() == a@.to_set() + b@.to_set(),
{
    if a.len() == 0 {
        assert(a@.to_set() =~= Set::<u64>::empty());
        assert(b@.to_set() =~= a@.to_set() + b@.to_set());
        return vstd::slice::slice_to_vec(b);
    }
    if b.len() == 0 {
        assert(b@.to_set() =~= Set::<u64>::empty());
        assert(a@.to_set() =~= a@.to_set() + b@.to_set());
        return vstd::slice::slice_to_vec(a);
    }
    let mut out: Vec<u64> = Vec::new();
    let mut i: usize = 0;
    let mut j: usize = 0;
    proof {
        assert(out@.to_set() =~= a@.take(0).to_set() + b@.take(0).to_set());
    }
    while i < a.len() || j < b.len()
        invariant
            i <= a@.len(),
            j <= b@.len(),
            strictly_ascending(a@),
            strictly_ascending(b@),
            strictly_ascending(out@),
            out@.len() > 0 && i < a@.len() ==> out@.last() <= a@[i as int],
            out@.len() > 0 && j < b@.len() ==> out@.last() <= b@[j as int],
            out@.to_set() == a@.take(i as int).to_set() + b@.take(j as int).to_set(),
        decreases a@.len() + b@.len() - i - j,
    {
        let ghost before = out@;
        let take_a: bool = j >= b.len() || (i < a.len() && a[i] <= b[j]);
        let v: u64 = if take_a { a[i] } else { b[j] };
        push_new(&mut out, v);
        proof {
            if take_a {
                assert(a@.take(i + 1) =~= a@.take(i as int).push(v));
            } else {
                assert(b@.take(j + 1) =~= b@.take(j as int).push(v));
            }
            if before.len() > 0 && before.last() == v {
                assert(before.to_set().contains(v));
            } else {
                before.lemma_push_to_set_commute(v);
                assert(out@ == before.push(v));
                assert(out@.to_set() =~= before.to_set().insert(v));
                assert forall|x: int, y: int| 0 <= x < y < out@.len() implies out@[x] < out@[y] by {
                    if y == out@.len() - 1 && x < before.len() {
                        assert(before[x] <= before.last());
                    }
                }
            }
        }
        if take_a {
            proof {
                if i + 1 < a@.len() {
                    assert(a@[i as int] < a@[i + 1]);
                }
                a@.take(i as int).lemma_push_to_set_commute(v);
                assert(a@.take(i + 1).to_set() =~= a@.take(i as int).to_set().insert(v));
            }
            i = i + 1;
        } else {
            proof {
                if j + 1 < b@.len() {
                    assert(b@[j as int] < b@[j + 1]);
                }
                b@.take(j as int).lemma_push_to_set_commute(v);
                assert(b@.take(j + 1).to_set() =~= b@.take(j as int).to_set().insert(v));
            }
            j = j + 1;
        }
        proof {
            assert(out@.to_set() =~= a@.take(i as int).to_set() + b@.take(j as int).to_set());
        }
    }
    proof {
        assert(a@.take(i as int) =~= a@);
        assert(b@.take(j as int) =~= b@);
    }
    out
}

/// The times of all the lists.
pub open spec fn union_all(parts: Seq<Seq<u64>>) -> Set<u64>
    decreases parts.len(),
{
    if parts.len() == 0 {
        Set::empty()
    } else {
        union_all(parts.drop_last()) + parts.last().to_set()
    }
}

/// The views of a list of lists.
pub open spec fn lists_view(parts: Seq<Vec<u64>>) -> Seq<Seq<u64>> {
    parts.map_values(|v: Vec<u64>| v@)
}

/// Merge strictly ascending time lists into the strictly ascending list of
/// all their times, pairing lists off round by round.
pub fn merge_time_sets(parts: Vec<Vec<u64>>) -> (r: Vec<u64>)
    requires
        forall|k: int| 0 <= k < parts@.len() ==> strictly_ascending(#[trigger] parts@[k]@),
    ensures
        strictly_ascending(r@),
        r@.to_set() == union_all(lists_view(parts@)),
{
    if parts.len() == 0 {
        assert(lists_view(parts@) =~= Seq::<Seq<u64>>::empty());
        let e: Vec<u64> = Vec::new();
        assert(e@.to_set() =~= Set::<u64>::empty());
        return e;
    }
    let mut parts = parts;
    let ghost goal = union_all(lists_view(parts@));
    while parts.len() > 1
        invariant
            parts@.len() >= 1,
            forall|k: int| 0 <= k < parts@.len() ==> strictly_ascending(#[trigger] parts@[k]@),
            union_all(lists_view(parts@)) == goal,
        decreases parts@.len(),
    {
        let mut next: Vec<Vec<u64>> = Vec::new();
        let n = parts.len();
        let mut k: usize = 0;
        proof {
            assert(lists_view(next@) =~= Seq::<Seq<u64>>::empty());
            assert(lists_view(parts@).take(0) =~= Seq::<Seq<u64>>::empty());
        }
        while k < n
            invariant
                n == parts@.len(),
                n >= 2,
                k <= n,
                next@.len() == (k + 1) / 2,
                forall|q: int| 0 <= q < parts@.len() ==> strictly_ascending(#[trigger] parts@[q]@),
                forall|q: int| 0 <= q < next@.len() ==> strictly_ascending(#[trigger] next@[q]@),
                union_all(lists_view(next@)) == union_all(lists_view(parts@).take(k as int)),
                k % 2 == 0 || k == n,
            decreases n - k,
        {
            let ghost before = next@;
            let ghost lv = lists_view(parts@);
            if k + 1 < n {
                let m = merge_sorted_unique(parts[k].as_slice(), parts[k + 1].as_slice());
                next.push(m);
                proof {
                    assert(lists_view(next@) =~= lists_view(before).push(m@));
                    assert(lv.take(k + 2).drop_last() =~= lv.take(k + 1));
                    assert(lv.take(k + 1).drop_last() =~= lv.take(k as int));
                    assert(lists_view(next@).drop_last() =~= lists_view(before));
                    assert(lv.take(k + 2).last() == parts@[k + 1]@);
                    assert(lv.take(k + 1).last() == parts@[k as int]@);
                    assert(union_all(lists_view(next@)) == union_all(lists_view(before)) + m@.to_set());
                    assert(union_all(lv.take(k + 1)) == union_all(lv.take(k as int)) + parts@[k as int]@.to_set());
                    assert(union_all(lv.take(k + 2)) == union_all(lv.take(k + 1)) + parts@[k + 1]@.to_set());
                    assert(union_all(lists_view(next@)) =~= union_all(lv.take(k + 2)));
                }
                k = k + 2;
            } else {
                let c = parts[k].clone();
                next.push(c);
                proof {
                    assert(c@ == parts@[k as int]@);
                    assert(lists_view(next@) =~= lists_view(before).push(c@));
                    assert(lv.take(k + 1).drop_last() =~= lv.take(k as int));
                    assert(lists_view(next@).drop_last() =~= lists_view(before));
                    assert(lv.take(k + 1).last() == parts@[k as int]@);
                    assert(union_all(lists_view(next@)) =~= union_all(lv.take(k + 1)));
                }
                k = k + 1;
            }
        }
        proof {
            assert(lists_view(parts@).take(n as int) =~= lists_view(parts@));
        }
        parts = next;
    }
    proof {
        assert(lists_view(parts@).drop_last() =~= Seq::<Seq<u64>>::empty());
        assert(union_all(Seq::<Seq<u64>>::empty()) == Set::<u64>::empty());
        assert(lists_view(parts@).last() == parts@[0]@);
        assert(union_all(lists_view(parts@)) =~= parts@[0]@.to_set());
    }
    let last = parts[0].clone();
    proof {
        assert(last@ == parts@[0]@);
    }
    last
}

/// `s` with ASCII capitals lowered.
pub open spec fn ascii_lower(s: Seq<u8>) -> Seq<u8> {
    Seq::new(s.len(), |i: int| if 0x41 <= s[i] <= 0x5A { (s[i] + 32) as u8 } else { s[i] })
}

fn ascii_lower_exec(s: &[u8]) -> (r: Vec<u8>)
    ensures
        r@ == ascii_lower(s@),
{
    let mut out: Vec<u8> = Vec::new();
    let mut i: usize = 0;
    while i < s.len()
        invariant
            i <= s@.len(),
            out@ =~= ascii_lower(s@).take(i as int),
        decreases s@.len() - i,
    {
        let b = s[i];
        out.push(if 0x41 <= b && b <= 0x5A { b + 32 } else { b });
        i = i + 1;
    }
    out
}

/// `budget` kept within 1..=8.
pub open spec fn clamp_jobs(budget: usize) -> usize {
    if budget < 1 {
        1
    } else if budget > 8 {
        8
    } else {
        budget
    }
}

/// The number of timeline workers: an explicit, non-blank setting wins
/// ("auto", in any case, for the budget kept within 1..=8; otherwise its
/// number, or 1 when it is none); without one, the budget within 1..=8
/// inside a batch system and 1 outside.
pub open spec fn jobs_spec(explicit: Option<Seq<u8>>, budget: usize, in_batch: bool) -> usize {
    let t = match explicit {
        Some(raw) => crate::text::trimmed(raw),
        None => Seq::empty(),
    };
    if explicit is Some && t.len() > 0 {
        let v = ascii_lower(t);
        if v == seq![0x61u8, 0x75, 0x74, 0x6f] {
            clamp_jobs(budget)
        } else {
            match crate::text::std_uint(v, usize::MAX as nat) {
                Some(x) => x as usize,
                None => 1,
            }
        }
    } else if in_batch {
        clamp_jobs(budget)
    } else {
        1
    }
}

/// The bytes of an optional string.
pub open spec fn opt_bytes(s: Option<&str>) -> Option<Seq<u8>> {
    match s {
        Some(x) => Some(x.spec_bytes()),
        None => None,
    }
}

/// How many timeline workers to run (see `jobs_spec`).
pub fn resolve_timeline_jobs(explicit: Option<&str>, budget: usize, in_batch: bool) -> (r: usize)
    ensures
        r == jobs_spec(opt_bytes(explicit), budget, in_batch),
{
    let clamped: usize = if budget < 1 {
        1
    } else if budget > 8 {
        8
    } else {
        budget
    };
    match explicit {
        Some(raw) => {
            let t = crate::text::trim_slice(raw.as_bytes());
            if t.len() > 0 {
                let v = ascii_lower_exec(t);
                let auto: [u8; 4] = [0x61, 0x75, 0x74, 0x6f];
                assert(auto@ =~= seq![0x61u8, 0x75, 0x74, 0x6f]);
                if crate::text::bytes_eq(v.as_slice(), &auto) {
                    return clamped;
                }
                return match crate::text::parse_uint_std(v.as_slice(), usize::MAX as u64) {
                    Some(x) => x as usize,
                    None => 1,
                };
            }
        },
        None => {},
    }
    if in_batch {
        clamped
    } else {
        1
    }
}

/// The worker count for a setting, with the core count as the budget.
pub fn parse_timeline_jobs(raw: &str, cores: usize) -> (r: usize)
    ensures
        r == jobs_spec(Some(raw.spec_bytes()), cores, false),
{
    resolve_timeline_jobs(Some(raw), cores, false)
}


/// What the encoder writes (with its zero fingerprint) decodes under
/// fingerprint 0 to the time points and earliest change, and is refused
/// under any other fingerprint.
pub proof fn lemma_timeline_as_written(times: Seq<u64>, fc: Option<u64>, fp: u64)
    requires
        is_ascending(times),
        times.len() <= usize::MAX,
    ensures
        timeline_decode(timeline_bytes(times, fc), 0) == Some((times, fc)),
        fp != 0 ==> timeline_decode(timeline_bytes(times, fc), fp) is None,
{
    let b = timeline_bytes(times, fc);
    lemma_timeline_roundtrip(times, fc, 0);
    assert(b.subrange(8, 16) =~= Seq::new(8, |i: int| 0u8));
    assert(forall|k: u64| (0u64 >> k) as u8 == 0u8) by (bit_vector);
    assert((0u64 as u8) == 0u8);
    assert(le64(0) =~= Seq::new(8, |i: int| 0u8));
    assert(with_fingerprint(b, 0) =~= b);
    crate::bytes::lemma_le64_roundtrip(0);
    assert(b.take(8) =~= tl_magic());
    assert(b.subrange(8, 16) =~= le64(0));
}

/// The indices a round-robin worker `offset` of `stride` takes: all of them
/// for stride 0, else those congruent to `offset` modulo `stride`.
pub open spec fn rr_pred(offset: nat, stride: nat) -> spec_fn(nat) -> bool {
    |i: nat| stride == 0 || i % stride == offset
}

proof fn lemma_rr_step(n: nat, offset: nat, stride: nat)
    requires
        stride == 0 || offset < stride,
    ensures
        rr_slice(n + 1, offset, stride) == (if (rr_pred(offset, stride))(n) {
            rr_slice(n, offset, stride).push(n)
        } else {
            rr_slice(n, offset, stride)
        }),
{
    if stride == 0 {
        assert(rr_slice(n + 1, offset, stride) =~= rr_slice(n, offset, stride).push(n));
    } else if n < offset {
        assert(n % stride == n) by (nonlinear_arith)
            requires
                n < stride,
        ;
    } else if n == offset {
        assert(n % stride == n) by (nonlinear_arith)
            requires
                n < stride,
        ;
        assert(((n + 1 - offset - 1) as nat / stride + 1) as nat == 1) by (nonlinear_arith)
            requires
                n == offset,
                stride > 0,
        ;
        assert(rr_slice(n + 1, offset, stride) =~= seq![n]);
        assert(rr_slice(n, offset, stride) =~= Seq::<nat>::empty());
    } else {
        let a = (n - offset - 1) as nat;
        let q = a / stride;
        let q1 = (a + 1) / stride;
        if n % stride == offset {
            assert(q1 == q + 1 && q1 * stride == a + 1) by (nonlinear_arith)
                requires
                    n % stride == offset,
                    offset < stride,
                    a == n - offset - 1,
                    q == a / stride,
                    q1 == (a + 1) / stride,
                    stride > 0,
            ;
            assert(rr_slice(n + 1, offset, stride) =~= rr_slice(n, offset, stride).push(n));
        } else {
            assert(q1 == q) by (nonlinear_arith)
                requires
                    n % stride != offset,
                    offset < stride,
                    a == n - offset - 1,
                    q == a / stride,
                    q1 == (a + 1) / stride,
                    stride > 0,
            ;
            assert(rr_slice(n + 1, offset, stride) =~= rr_slice(n, offset, stride));
        }
    }
}

/// The indices `0..n`.
pub open spec fn upto(n: nat) -> Seq<nat> {
    Seq::new(n, |i: int| i as nat)
}

/// A round-robin slice is `0..n` filtered to the worker's indices (see
/// `rr_pred`), in order.
pub proof fn lemma_round_robin_slice_is_filtered_range(n: nat, offset: nat, stride: nat)
    requires
        stride == 0 || offset < stride,
    ensures
        rr_slice(n, offset, stride) == upto(n).filter(rr_pred(offset, stride)),
    decreases n,
{
    let r = upto(n);
    let p = rr_pred(offset, stride);
    if n == 0 {
        assert(rr_slice(0, offset, stride) =~= Seq::<nat>::empty());
    } else {
        let m = (n - 1) as nat;
        lemma_round_robin_slice_is_filtered_range(m, offset, stride);
        lemma_rr_step(m, offset, stride);
        assert(r.drop_last() =~= upto(m));
        assert(r.last() == m);
        reveal(Seq::filter);
        assert(r.filter(p) == (if p(r.last()) {
            r.drop_last().filter(p).push(r.last())
        } else {
            r.drop_last().filter(p)
        }));
    }
}


/// A worker's round-robin slice is exactly the indices below `n` that it
/// owns (`i % stride == offset`), ascending: each is `offset` plus a
/// multiple of `stride`, and every owned index below `n` appears.
pub proof fn lemma_round_robin_is_filter(n: nat, offset: nat, stride: nat)
    requires
        offset < stride,
    ensures
        forall|k: int| 0 <= k < rr_slice(n, offset, stride).len() ==> #[trigger] rr_slice(n, offset, stride)[k] < n
            && rr_slice(n, offset, stride)[k] % stride == offset,
        forall|k: int, j: int| 0 <= k < j < rr_slice(n, offset, stride).len() ==> rr_slice(n, offset, stride)[k]
            < rr_slice(n, offset, stride)[j],
        forall|i: nat| i < n && i % stride == offset ==> #[trigger] rr_slice(n, offset, stride).contains(i),
{
    let r = rr_slice(n, offset, stride);
    if offset < n {
        let m = (n - offset - 1) as nat / stride + 1;
        assert forall|k: int| 0 <= k < r.len() implies #[trigger] r[k] < n && r[k] % stride == offset by {
            assert(r[k] == offset + k * stride);
            assert(k <= (n - offset - 1) as nat / stride);
            assert(k * stride <= (n - offset - 1) as nat) by (nonlinear_arith)
                requires
                    0 <= k <= (n - offset - 1) as nat / stride,
                    stride > 0,
            ;
            assert((offset + k * stride) % (stride as int) == offset) by (nonlinear_arith)
                requires
                    0 <= offset < stride,
                    k >= 0,
            ;
        }
        assert forall|k: int, j: int| 0 <= k < j < r.len() implies r[k] < r[j] by {
            assert(k * stride < j * stride) by (nonlinear_arith)
                requires
                    k < j,
                    stride > 0,
            ;
        }
        assert forall|i: nat| i < n && i % stride == offset implies #[trigger] r.contains(i) by {
            let k = i / stride;
            assert(i == k * stride + offset) by (nonlinear_arith)
                requires
                    i % stride == offset,
                    k == i / stride,
                    stride > 0,
            ;
            assert(k <= (n - offset - 1) as nat / stride) by (nonlinear_arith)
                requires
                    i == k * stride + offset,
                    i < n,
                    stride > 0,
                    k >= 0,
            ;
            assert(r[k as int] == i);
        }
    } else {
        assert forall|i: nat| i < n && i % stride == offset implies #[trigger] r.contains(i) by {
            assert(i % stride <= i) by (nonlinear_arith)
                requires
                    stride > 0,
            ;
        }
    }
}

} // verus!
