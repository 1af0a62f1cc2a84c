//! The VCD index cache: a regenerable file that holds what loading a VCD
//! file computed (header, first values, timestamps, anchors, event
//! changes), keyed by the file's size, modification time and content
//! fingerprint. Reading and writing the file, and computing the key, stay
//! outside; this is the byte format.
use vstd::prelude::*;
use crate::bytes::{append_bytes, le32, le32_bytes, le64, le64_bytes, lemma_le32_roundtrip,
    lemma_le64_roundtrip, read_u32_le, read_u64_le, u32_from_le, u64_from_le};
use vstd::utf8::{decode_utf8, encode_utf8, valid_utf8};
use crate::vcd::types::{ValueView, VcdValue};
use crate::trace::vcd::TsStore;
use crate::text::{str_from_utf8, string_bytes};

verus! {

// ---------------------------------------------------------------------------
// Reading primitives
// ---------------------------------------------------------------------------

/// A byte at `p`, and where reading goes on.
pub open spec fn rd_u8(buf: Seq<u8>, p: int) -> Option<(u8, int)> {
    if 0 <= p < buf.len() { Some((buf[p], p + 1)) } else { None }
}

/// A little-endian `u32` at `p`.
pub open spec fn rd_u32(buf: Seq<u8>, p: int) -> Option<(u32, int)> {
    if 0 <= p && p + 4 <= buf.len() { Some((u32_from_le(buf.subrange(p, p + 4)), p + 4)) } else { None }
}

/// A little-endian `u64` at `p`.
pub open spec fn rd_u64(buf: Seq<u8>, p: int) -> Option<(u64, int)> {
    if 0 <= p && p + 8 <= buf.len() { Some((u64_from_le(buf.subrange(p, p + 8)), p + 8)) } else { None }
}

/// Bytes with a `u32` length before them.
pub open spec fn rd_bytes(buf: Seq<u8>, p: int) -> Option<(Seq<u8>, int)> {
    match rd_u32(buf, p) {
        None => None,
        Some((n, q)) => if q + n <= buf.len() { Some((buf.subrange(q, q + n), q + n)) } else { None },
    }
}

/// UTF-8 text with a `u32` length before it.
pub open spec fn rd_str(buf: Seq<u8>, p: int) -> Option<(Seq<char>, int)> {
    match rd_bytes(buf, p) {
        None => None,
        Some((b, q)) => if valid_utf8(b) { Some((decode_utf8(b), q)) } else { None },
    }
}

/// `n` items read one after the other with `rd`.
pub open spec fn rd_list<T>(buf: Seq<u8>, p: int, n: nat, rd: spec_fn(Seq<u8>, int) -> Option<(T, int)>) -> Option<(Seq<T>, int)>
    decreases n,
{
    if n == 0 {
        Some((Seq::empty(), p))
    } else {
        match rd_list(buf, p, (n - 1) as nat, rd) {
            None => None,
            Some((xs, q)) => match rd(buf, q) {
                None => None,
                Some((x, r)) => Some((xs.push(x), r)),
            },
        }
    }
}

/// A `u32` count, then that many items.
#[verifier::opaque]
pub open spec fn rd_counted<T>(buf: Seq<u8>, p: int, rd: spec_fn(Seq<u8>, int) -> Option<(T, int)>) -> Option<(Seq<T>, int)> {
    match rd_u32(buf, p) {
        None => None,
        Some((n, q)) => rd_list(buf, q, n as nat, rd),
    }
}

// ---------------------------------------------------------------------------
// Writing
// ---------------------------------------------------------------------------

pub open spec fn w_bytes(b: Seq<u8>) -> Seq<u8> {
    le32(b.len() as u32) + b
}

pub open spec fn w_str(s: Seq<char>) -> Seq<u8> {
    w_bytes(encode_utf8(s))
}

/// Items written one after the other.
pub open spec fn w_list<T>(xs: Seq<T>, w: spec_fn(T) -> Seq<u8>) -> Seq<u8>
    decreases xs.len(),
{
    if xs.len() == 0 { Seq::empty() } else { w_list(xs.drop_last(), w) + w(xs.last()) }
}

/// A `u32` count, then the items.
#[verifier::opaque]
pub open spec fn w_counted<T>(xs: Seq<T>, w: spec_fn(T) -> Seq<u8>) -> Seq<u8> {
    le32(xs.len() as u32) + w_list(xs, w)
}

// ---------------------------------------------------------------------------
// Reading back what was written
// ---------------------------------------------------------------------------

/// `buf` holds `w` at `p`.
pub open spec fn holds_at(buf: Seq<u8>, p: int, w: Seq<u8>) -> bool {
    0 <= p && p + w.len() <= buf.len() && buf.subrange(p, p + w.len()) == w
}

/// Holding two parts one after the other is holding each.
pub proof fn lemma_holds_split(buf: Seq<u8>, p: int, a: Seq<u8>, b: Seq<u8>)
    requires
        holds_at(buf, p, a + b),
    ensures
        holds_at(buf, p, a),
        holds_at(buf, p + a.len(), b),
{
    let ab = a + b;
    assert forall|i: int| 0 <= i < a.len() implies buf.subrange(p, p + a.len())[i] == a[i] by {
        assert(buf.subrange(p, p + ab.len())[i] == ab[i]);
    }
    assert(buf.subrange(p, p + a.len()) =~= a);
    assert forall|i: int| 0 <= i < b.len() implies buf.subrange(p + a.len(), p + a.len() + b.len())[i] == b[i] by {
        assert(buf.subrange(p, p + ab.len())[a.len() + i] == ab[a.len() + i]);
    }
    assert(buf.subrange(p + a.len(), p + a.len() + b.len()) =~= b);
}

pub proof fn lemma_rd_u32(buf: Seq<u8>, p: int, x: u32)
    requires
        holds_at(buf, p, le32(x)),
    ensures
        rd_u32(buf, p) == Some((x, p + 4)),
{
    lemma_le32_roundtrip(x);
}

pub proof fn lemma_rd_u64(buf: Seq<u8>, p: int, x: u64)
    requires
        holds_at(buf, p, le64(x)),
    ensures
        rd_u64(buf, p) == Some((x, p + 8)),
{
    lemma_le64_roundtrip(x);
}

pub proof fn lemma_rd_bytes(buf: Seq<u8>, p: int, b: Seq<u8>)
    requires
        holds_at(buf, p, w_bytes(b)),
        b.len() <= u32::MAX,
    ensures
        rd_bytes(buf, p) == Some((b, p + w_bytes(b).len())),
{
    lemma_holds_split(buf, p, le32(b.len() as u32), b);
    lemma_rd_u32(buf, p, b.len() as u32);
}

pub proof fn lemma_rd_str(buf: Seq<u8>, p: int, s: Seq<char>)
    requires
        holds_at(buf, p, w_str(s)),
        encode_utf8(s).len() <= u32::MAX,
    ensures
        rd_str(buf, p) == Some((s, p + w_str(s).len())),
{
    lemma_rd_bytes(buf, p, encode_utf8(s));
    vstd::utf8::encode_utf8_valid_utf8(s);
    vstd::utf8::encode_utf8_decode_utf8(s);
}

/// Reading items back: when each item of `xs` reads back from wherever it
/// is written, the list does.
pub proof fn lemma_rd_list<T>(
    buf: Seq<u8>,
    p: int,
    xs: Seq<T>,
    rd: spec_fn(Seq<u8>, int) -> Option<(T, int)>,
    w: spec_fn(T) -> Seq<u8>,
)
    requires
        holds_at(buf, p, w_list(xs, w)),
        forall|q: int, i: int| 0 <= i < xs.len() && #[trigger] holds_at(buf, q, w(xs[i])) ==> rd(buf, q) == Some(
            (xs[i], q + w(xs[i]).len()),
        ),
    ensures
        rd_list(buf, p, xs.len(), rd) == Some((xs, p + w_list(xs, w).len())),
    decreases xs.len(),
{
    if xs.len() > 0 {
        let front = w_list(xs.drop_last(), w);
        let last = w(xs.last());
        assert(w_list(xs, w) == front + last);
        lemma_holds_split(buf, p, front, last);
        assert forall|q: int, i: int| 0 <= i < xs.drop_last().len() && #[trigger] holds_at(buf, q, w(xs.drop_last()[i]))
            implies rd(buf, q) == Some((xs.drop_last()[i], q + w(xs.drop_last()[i]).len())) by {
            assert(xs.drop_last()[i] == xs[i]);
            assert(holds_at(buf, q, w(xs[i])));
        }
        lemma_rd_list(buf, p, xs.drop_last(), rd, w);
        let q = p + front.len();
        assert(holds_at(buf, q, w(xs[xs.len() - 1])));
        assert(xs.drop_last().push(xs.last()) =~= xs);
    }
}

pub proof fn lemma_rd_counted<T>(
    buf: Seq<u8>,
    p: int,
    xs: Seq<T>,
    rd: spec_fn(Seq<u8>, int) -> Option<(T, int)>,
    w: spec_fn(T) -> Seq<u8>,
)
    requires
        holds_at(buf, p, w_counted(xs, w)),
        xs.len() <= u32::MAX,
        forall|q: int, i: int| 0 <= i < xs.len() && #[trigger] holds_at(buf, q, w(xs[i])) ==> rd(buf, q) == Some(
            (xs[i], q + w(xs[i]).len()),
        ),
    ensures
        rd_counted(buf, p, rd) == Some((xs, p + w_counted(xs, w).len())),
{
    reveal(w_counted);
    reveal(rd_counted);
    lemma_holds_split(buf, p, le32(xs.len() as u32), w_list(xs, w));
    lemma_rd_u32(buf, p, xs.len() as u32);
    lemma_rd_list(buf, p + 4, xs, rd, w);
}


// ---------------------------------------------------------------------------
// The records of the cache
// ---------------------------------------------------------------------------

/// What the cache is valid for: the VCD file's size, modification time
/// (seconds) and content fingerprint.
#[derive(Clone, Copy, PartialEq, Eq, Structural)]
pub struct CacheKey {
    pub size: u64,
    pub mtime: u64,
    pub fingerprint: u64,
}

/// A value: a bit (tag 0), a vector (tag 1, its bytes) or a real (tag 3,
/// its text).
pub open spec fn w_val(v: ValueView) -> Seq<u8> {
    match v {
        ValueView::Bit(b) => seq![0u8, b],
        ValueView::Vector(x) => seq![1u8] + w_bytes(x),
        ValueView::Real(t) => seq![3u8] + w_str(t),
    }
}

pub open spec fn rd_val(buf: Seq<u8>, p: int) -> Option<(ValueView, int)> {
    match rd_u8(buf, p) {
        None => None,
        Some((tag, q)) => if tag == 0 {
            match rd_u8(buf, q) {
                None => None,
                Some((b, r)) => Some((ValueView::Bit(b), r)),
            }
        } else if tag == 1 {
            match rd_bytes(buf, q) {
                None => None,
                Some((x, r)) => Some((ValueView::Vector(x), r)),
            }
        } else if tag == 3 {
            match rd_str(buf, q) {
                None => None,
                Some((t, r)) => Some((ValueView::Real(t), r)),
            }
        } else {
            None
        },
    }
}

/// A signal: its name, identifier bytes, width and initial value, if any.
pub type SigRec = (Seq<char>, Seq<u8>, u32, Option<ValueView>);

pub open spec fn w_sig(r: SigRec) -> Seq<u8> {
    w_str(r.0) + w_bytes(r.1) + le32(r.2) + match r.3 {
        Some(v) => seq![1u8] + w_val(v),
        None => seq![0u8],
    }
}

pub open spec fn rd_sig(buf: Seq<u8>, p: int) -> Option<(SigRec, int)> {
    match rd_str(buf, p) {
        None => None,
        Some((name, p1)) => match rd_bytes(buf, p1) {
            None => None,
            Some((id, p2)) => match rd_u32(buf, p2) {
                None => None,
                Some((w, p3)) => match rd_u8(buf, p3) {
                    None => None,
                    Some((flag, p4)) => if flag == 1 {
                        match rd_val(buf, p4) {
                            None => None,
                            Some((v, p5)) => Some(((name, id, w, Some(v)), p5)),
                        }
                    } else {
                        Some(((name, id, w, None), p4))
                    },
                },
            },
        },
    }
}

pub open spec fn rd_pair(buf: Seq<u8>, p: int) -> Option<((u64, u64), int)> {
    match rd_u64(buf, p) {
        None => None,
        Some((a, q)) => match rd_u64(buf, q) {
            None => None,
            Some((b, r)) => Some(((a, b), r)),
        },
    }
}

pub open spec fn w_pair(x: (u64, u64)) -> Seq<u8> {
    le64(x.0) + le64(x.1)
}

pub open spec fn rd_u64_fn() -> spec_fn(Seq<u8>, int) -> Option<(u64, int)> {
    |b: Seq<u8>, p: int| rd_u64(b, p)
}

pub open spec fn w_u64_fn() -> spec_fn(u64) -> Seq<u8> {
    |x: u64| le64(x)
}

pub open spec fn rd_u32_fn() -> spec_fn(Seq<u8>, int) -> Option<(u32, int)> {
    |b: Seq<u8>, p: int| rd_u32(b, p)
}

pub open spec fn w_u32_fn() -> spec_fn(u32) -> Seq<u8> {
    |x: u32| le32(x)
}

pub open spec fn rd_pair_fn() -> spec_fn(Seq<u8>, int) -> Option<((u64, u64), int)> {
    |b: Seq<u8>, p: int| rd_pair(b, p)
}

pub open spec fn w_pair_fn() -> spec_fn((u64, u64)) -> Seq<u8> {
    |x: (u64, u64)| w_pair(x)
}

pub open spec fn rd_str_fn() -> spec_fn(Seq<u8>, int) -> Option<(Seq<char>, int)> {
    |b: Seq<u8>, p: int| rd_str(b, p)
}

pub open spec fn w_str_fn() -> spec_fn(Seq<char>) -> Seq<u8> {
    |x: Seq<char>| w_str(x)
}

pub open spec fn rd_sig_fn() -> spec_fn(Seq<u8>, int) -> Option<(SigRec, int)> {
    |b: Seq<u8>, p: int| rd_sig(b, p)
}

pub open spec fn w_sig_fn() -> spec_fn(SigRec) -> Seq<u8> {
    |x: SigRec| w_sig(x)
}

/// A signal's anchors: the signal, then its (time, offset) pairs.
pub open spec fn w_anchor(a: (u32, Seq<(u64, u64)>)) -> Seq<u8> {
    le32(a.0) + w_counted(a.1, w_pair_fn())
}

pub open spec fn rd_anchor(buf: Seq<u8>, p: int) -> Option<((u32, Seq<(u64, u64)>), int)> {
    match rd_u32(buf, p) {
        None => None,
        Some((sig, q)) => match rd_counted(buf, q, rd_pair_fn()) {
            None => None,
            Some((xs, r)) => Some(((sig, xs), r)),
        },
    }
}

/// A signal's event change points: the signal, then its indices.
pub open spec fn w_points(a: (u32, Seq<u64>)) -> Seq<u8> {
    le32(a.0) + w_counted(a.1, w_u64_fn())
}

pub open spec fn rd_points(buf: Seq<u8>, p: int) -> Option<((u32, Seq<u64>), int)> {
    match rd_u32(buf, p) {
        None => None,
        Some((sig, q)) => match rd_counted(buf, q, rd_u64_fn()) {
            None => None,
            Some((xs, r)) => Some(((sig, xs), r)),
        },
    }
}

pub open spec fn rd_anchor_fn() -> spec_fn(Seq<u8>, int) -> Option<((u32, Seq<(u64, u64)>), int)> {
    |b: Seq<u8>, p: int| rd_anchor(b, p)
}

pub open spec fn w_anchor_fn() -> spec_fn((u32, Seq<(u64, u64)>)) -> Seq<u8> {
    |x: (u32, Seq<(u64, u64)>)| w_anchor(x)
}

pub open spec fn rd_points_fn() -> spec_fn(Seq<u8>, int) -> Option<((u32, Seq<u64>), int)> {
    |b: Seq<u8>, p: int| rd_points(b, p)
}

pub open spec fn w_points_fn() -> spec_fn((u32, Seq<u64>)) -> Seq<u8> {
    |x: (u32, Seq<u64>)| w_points(x)
}

/// The timestamps: evenly spaced (tag 0: start, step, count), or listed.
pub enum TsView {
    Uniform(u64, u64, u64),
    Dense(Seq<u64>),
}

pub open spec fn w_ts(t: TsView) -> Seq<u8> {
    match t {
        TsView::Uniform(a, b, c) => seq![0u8] + le64(a) + le64(b) + le64(c),
        TsView::Dense(v) => seq![1u8] + w_counted(v, w_u64_fn()),
    }
}

pub open spec fn rd_ts(buf: Seq<u8>, p: int) -> Option<(TsView, int)> {
    match rd_u8(buf, p) {
        None => None,
        Some((tag, q)) => if tag == 0 {
            match rd_u64(buf, q) {
                None => None,
                Some((a, q1)) => match rd_u64(buf, q1) {
                    None => None,
                    Some((b, q2)) => match rd_u64(buf, q2) {
                        None => None,
                        Some((c, q3)) => Some((TsView::Uniform(a, b, c), q3)),
                    },
                },
            }
        } else {
            match rd_counted(buf, q, rd_u64_fn()) {
                None => None,
                Some((v, r)) => Some((TsView::Dense(v), r)),
            }
        },
    }
}

/// The timescale: tag 1 and the exponent, or tag 0.
pub open spec fn w_tscale(t: Option<i8>) -> Seq<u8> {
    match t {
        Some(e) => seq![1u8, e as u8],
        None => seq![0u8],
    }
}

pub open spec fn rd_tscale(buf: Seq<u8>, p: int) -> Option<(Option<i8>, int)> {
    match rd_u8(buf, p) {
        None => None,
        Some((tag, q)) => if tag == 1 {
            match rd_u8(buf, q) {
                None => None,
                Some((e, r)) => Some((Some(e as i8), r)),
            }
        } else {
            Some((None, q))
        },
    }
}

/// What the cache holds besides its key.
#[verifier::ext_equal]
pub struct CacheView {
    pub header_end: u64,
    pub scopes: Seq<Seq<char>>,
    pub timescale: Option<i8>,
    pub signals: Seq<SigRec>,
    pub timestamps: TsView,
    pub offsets: Seq<u64>,
    pub anchors: Seq<(u32, Seq<(u64, u64)>)>,
    pub events: Seq<u32>,
    pub points: Seq<(u32, Seq<u64>)>,
}

/// The cache's magic bytes, "WALVC001".
pub open spec fn vc_magic() -> Seq<u8> {
    seq![0x57u8, 0x41, 0x4c, 0x56, 0x43, 0x30, 0x30, 0x31]
}

/// The head of the cache: magic, format version 1, the key.
pub open spec fn cache_head(key: CacheKey) -> Seq<u8> {
    vc_magic() + le32(1) + le64(key.size) + le64(key.mtime) + le64(key.fingerprint)
}

/// The body of the cache, part by part.
#[verifier::opaque]
pub open spec fn cache_body(c: CacheView) -> Seq<u8> {
    le64(c.header_end) + w_counted(c.scopes, w_str_fn()) + w_tscale(c.timescale) + w_counted(
        c.signals,
        w_sig_fn(),
    ) + w_ts(c.timestamps) + w_counted(c.offsets, w_u64_fn()) + w_counted(c.anchors, w_anchor_fn())
        + w_counted(c.events, w_u32_fn()) + w_counted(c.points, w_points_fn())
}

/// The cache file's bytes.
pub open spec fn vcd_cache_bytes(key: CacheKey, c: CacheView) -> Seq<u8> {
    cache_head(key) + cache_body(c)
}

/// The body read from `p`.
#[verifier::opaque]
pub open spec fn rd_body(buf: Seq<u8>, p: int) -> Option<CacheView> {
    match rd_u64(buf, p) {
        None => None,
        Some((he, p1)) => match rd_counted(buf, p1, rd_str_fn()) {
            None => None,
            Some((scopes, p2)) => match rd_tscale(buf, p2) {
                None => None,
                Some((ts_exp, p3)) => match rd_counted(buf, p3, rd_sig_fn()) {
                    None => None,
                    Some((sigs, p4)) => match rd_ts(buf, p4) {
                        None => None,
                        Some((tsv, p5)) => match rd_counted(buf, p5, rd_u64_fn()) {
                            None => None,
                            Some((offs, p6)) => match rd_counted(buf, p6, rd_anchor_fn()) {
                                None => None,
                                Some((anchors, p7)) => match rd_counted(buf, p7, rd_u32_fn()) {
                                    None => None,
                                    Some((evs, p8)) => match rd_counted(buf, p8, rd_points_fn()) {
                                        None => None,
                                        Some((pts, _p9)) => Some(
                                            CacheView {
                                                header_end: he,
                                                scopes,
                                                timescale: ts_exp,
                                                signals: sigs,
                                                timestamps: tsv,
                                                offsets: offs,
                                                anchors,
                                                events: evs,
                                                points: pts,
                                            },
                                        ),
                                    },
                                },
                            },
                        },
                    },
                },
            },
        },
    }
}

/// What a cache file gives for `key`: its contents when it starts with the
/// magic, format version 1 and the key, and its parts read in full; `None`
/// otherwise (bytes past the parts are not looked at).
pub open spec fn vcd_cache_decode(buf: Seq<u8>, key: CacheKey) -> Option<CacheView> {
    if buf.len() < 36 || buf.subrange(0, 8) != vc_magic() {
        None
    } else if u32_from_le(buf.subrange(8, 12)) != 1 || u64_from_le(buf.subrange(12, 20)) != key.size
        || u64_from_le(buf.subrange(20, 28)) != key.mtime || u64_from_le(buf.subrange(28, 36))
        != key.fingerprint {
        None
    } else {
        rd_body(buf, 36)
    }
}


// ---------------------------------------------------------------------------
// The cache reads back what was written
// ---------------------------------------------------------------------------

/// Every length and count fits the `u32` the format gives it.
pub open spec fn val_fits(v: ValueView) -> bool {
    match v {
        ValueView::Bit(_) => true,
        ValueView::Vector(x) => x.len() <= u32::MAX,
        ValueView::Real(t) => encode_utf8(t).len() <= u32::MAX,
    }
}

pub open spec fn sig_fits(r: SigRec) -> bool {
    &&& encode_utf8(r.0).len() <= u32::MAX
    &&& r.1.len() <= u32::MAX
    &&& r.3 matches Some(v) ==> val_fits(v)
}

pub open spec fn cache_fits(c: CacheView) -> bool {
    &&& c.scopes.len() <= u32::MAX
    &&& forall|i: int| 0 <= i < c.scopes.len() ==> encode_utf8(#[trigger] c.scopes[i]).len() <= u32::MAX
    &&& c.signals.len() <= u32::MAX
    &&& forall|i: int| 0 <= i < c.signals.len() ==> sig_fits(#[trigger] c.signals[i])
    &&& (c.timestamps matches TsView::Dense(v) ==> v.len() <= u32::MAX)
    &&& c.offsets.len() <= u32::MAX
    &&& c.anchors.len() <= u32::MAX
    &&& forall|i: int| 0 <= i < c.anchors.len() ==> (#[trigger] c.anchors[i]).1.len() <= u32::MAX
    &&& c.events.len() <= u32::MAX
    &&& c.points.len() <= u32::MAX
    &&& forall|i: int| 0 <= i < c.points.len() ==> (#[trigger] c.points[i]).1.len() <= u32::MAX
}

proof fn lemma_rd_u8(buf: Seq<u8>, p: int, b: u8)
    requires
        holds_at(buf, p, seq![b]),
    ensures
        rd_u8(buf, p) == Some((b, p + 1)),
{
    assert(buf.subrange(p, p + 1)[0] == buf[p]);
}

proof fn lemma_rd_val(buf: Seq<u8>, p: int, v: ValueView)
    requires
        holds_at(buf, p, w_val(v)),
        val_fits(v),
    ensures
        rd_val(buf, p) == Some((v, p + w_val(v).len())),
{
    match v {
        ValueView::Bit(b) => {
            assert(seq![0u8, b] =~= seq![0u8] + seq![b]);
            lemma_holds_split(buf, p, seq![0u8], seq![b]);
            lemma_rd_u8(buf, p, 0);
            lemma_rd_u8(buf, p + 1, b);
        },
        ValueView::Vector(x) => {
            lemma_holds_split(buf, p, seq![1u8], w_bytes(x));
            lemma_rd_u8(buf, p, 1);
            lemma_rd_bytes(buf, p + 1, x);
        },
        ValueView::Real(t) => {
            lemma_holds_split(buf, p, seq![3u8], w_str(t));
            lemma_rd_u8(buf, p, 3);
            lemma_rd_str(buf, p + 1, t);
        },
    }
}

proof fn lemma_rd_sig(buf: Seq<u8>, p: int, r: SigRec)
    requires
        holds_at(buf, p, w_sig(r)),
        sig_fits(r),
    ensures
        rd_sig(buf, p) == Some((r, p + w_sig(r).len())),
{
    let a = w_str(r.0);
    let b = w_bytes(r.1);
    let c = le32(r.2);
    let d = match r.3 {
        Some(v) => seq![1u8] + w_val(v),
        None => seq![0u8],
    };
    assert(w_sig(r) == a + b + c + d);
    lemma_holds_split(buf, p, a + b + c, d);
    lemma_holds_split(buf, p, a + b, c);
    lemma_holds_split(buf, p, a, b);
    lemma_rd_str(buf, p, r.0);
    lemma_rd_bytes(buf, p + a.len(), r.1);
    lemma_rd_u32(buf, p + a.len() + b.len(), r.2);
    let q = p + a.len() + b.len() + c.len();
    match r.3 {
        Some(v) => {
            lemma_holds_split(buf, q, seq![1u8], w_val(v));
            lemma_rd_u8(buf, q, 1);
            lemma_rd_val(buf, q + 1, v);
        },
        None => {
            lemma_rd_u8(buf, q, 0);
        },
    }
}

proof fn lemma_rd_pair(buf: Seq<u8>, p: int, x: (u64, u64))
    requires
        holds_at(buf, p, w_pair(x)),
    ensures
        rd_pair(buf, p) == Some((x, p + 16)),
{
    lemma_holds_split(buf, p, le64(x.0), le64(x.1));
    lemma_rd_u64(buf, p, x.0);
    lemma_rd_u64(buf, p + 8, x.1);
}

proof fn lemma_u64_items(buf: Seq<u8>, xs: Seq<u64>)
    ensures
        forall|q: int, i: int| 0 <= i < xs.len() && #[trigger] holds_at(buf, q, w_u64_fn()(xs[i])) ==> rd_u64_fn()(
            buf,
            q,
        ) == Some((xs[i], q + w_u64_fn()(xs[i]).len())),
{
    assert forall|q: int, i: int| 0 <= i < xs.len() && #[trigger] holds_at(buf, q, w_u64_fn()(xs[i])) implies rd_u64_fn()(
        buf,
        q,
    ) == Some((xs[i], q + w_u64_fn()(xs[i]).len())) by {
        lemma_rd_u64(buf, q, xs[i]);
    }
}

proof fn lemma_rd_anchor(buf: Seq<u8>, p: int, a: (u32, Seq<(u64, u64)>))
    requires
        holds_at(buf, p, w_anchor(a)),
        a.1.len() <= u32::MAX,
    ensures
        rd_anchor(buf, p) == Some((a, p + w_anchor(a).len())),
{
    lemma_holds_split(buf, p, le32(a.0), w_counted(a.1, w_pair_fn()));
    lemma_rd_u32(buf, p, a.0);
    assert forall|q: int, i: int| 0 <= i < a.1.len() && #[trigger] holds_at(buf, q, w_pair_fn()(a.1[i])) implies rd_pair_fn()(
        buf,
        q,
    ) == Some((a.1[i], q + w_pair_fn()(a.1[i]).len())) by {
        lemma_rd_pair(buf, q, a.1[i]);
    }
    lemma_rd_counted(buf, p + 4, a.1, rd_pair_fn(), w_pair_fn());
}

proof fn lemma_rd_points(buf: Seq<u8>, p: int, a: (u32, Seq<u64>))
    requires
        holds_at(buf, p, w_points(a)),
        a.1.len() <= u32::MAX,
    ensures
        rd_points(buf, p) == Some((a, p + w_points(a).len())),
{
    lemma_holds_split(buf, p, le32(a.0), w_counted(a.1, w_u64_fn()));
    lemma_rd_u32(buf, p, a.0);
    lemma_u64_items(buf, a.1);
    lemma_rd_counted(buf, p + 4, a.1, rd_u64_fn(), w_u64_fn());
}

proof fn lemma_rd_ts(buf: Seq<u8>, p: int, t: TsView)
    requires
        holds_at(buf, p, w_ts(t)),
        t matches TsView::Dense(v) ==> v.len() <= u32::MAX,
    ensures
        rd_ts(buf, p) == Some((t, p + w_ts(t).len())),
{
    match t {
        TsView::Uniform(a, b, c) => {
            lemma_holds_split(buf, p, seq![0u8] + le64(a) + le64(b), le64(c));
            lemma_holds_split(buf, p, seq![0u8] + le64(a), le64(b));
            lemma_holds_split(buf, p, seq![0u8], le64(a));
            lemma_rd_u8(buf, p, 0);
            lemma_rd_u64(buf, p + 1, a);
            lemma_rd_u64(buf, p + 9, b);
            lemma_rd_u64(buf, p + 17, c);
        },
        TsView::Dense(v) => {
            lemma_holds_split(buf, p, seq![1u8], w_counted(v, w_u64_fn()));
            lemma_rd_u8(buf, p, 1);
            lemma_u64_items(buf, v);
            lemma_rd_counted(buf, p + 1, v, rd_u64_fn(), w_u64_fn());
        },
    }
}

proof fn lemma_rd_tscale(buf: Seq<u8>, p: int, t: Option<i8>)
    requires
        holds_at(buf, p, w_tscale(t)),
    ensures
        rd_tscale(buf, p) == Some((t, p + w_tscale(t).len())),
{
    match t {
        Some(e) => {
            assert(seq![1u8, e as u8] =~= seq![1u8] + seq![e as u8]);
            lemma_holds_split(buf, p, seq![1u8], seq![e as u8]);
            lemma_rd_u8(buf, p, 1);
            lemma_rd_u8(buf, p + 1, e as u8);
            assert((e as u8) as i8 == e) by (bit_vector);
        },
        None => {
            lemma_rd_u8(buf, p, 0);
        },
    }
}

proof fn lemma_str_items(buf: Seq<u8>, xs: Seq<Seq<char>>)
    requires
        forall|i: int| 0 <= i < xs.len() ==> encode_utf8(#[trigger] xs[i]).len() <= u32::MAX,
    ensures
        forall|q: int, i: int| 0 <= i < xs.len() && #[trigger] holds_at(buf, q, w_str_fn()(xs[i])) ==> rd_str_fn()(
            buf,
            q,
        ) == Some((xs[i], q + w_str_fn()(xs[i]).len())),
{
    assert forall|q: int, i: int| 0 <= i < xs.len() && #[trigger] holds_at(buf, q, w_str_fn()(xs[i])) implies rd_str_fn()(
        buf,
        q,
    ) == Some((xs[i], q + w_str_fn()(xs[i]).len())) by {
        lemma_rd_str(buf, q, xs[i]);
    }
}

proof fn lemma_sig_items(buf: Seq<u8>, xs: Seq<SigRec>)
    requires
        forall|i: int| 0 <= i < xs.len() ==> sig_fits(#[trigger] xs[i]),
    ensures
        forall|q: int, i: int| 0 <= i < xs.len() && #[trigger] holds_at(buf, q, w_sig_fn()(xs[i])) ==> rd_sig_fn()(
            buf,
            q,
        ) == Some((xs[i], q + w_sig_fn()(xs[i]).len())),
{
    assert forall|q: int, i: int| 0 <= i < xs.len() && #[trigger] holds_at(buf, q, w_sig_fn()(xs[i])) implies rd_sig_fn()(
        buf,
        q,
    ) == Some((xs[i], q + w_sig_fn()(xs[i]).len())) by {
        lemma_rd_sig(buf, q, xs[i]);
    }
}

proof fn lemma_anchor_items(buf: Seq<u8>, xs: Seq<(u32, Seq<(u64, u64)>)>)
    requires
        forall|i: int| 0 <= i < xs.len() ==> (#[trigger] xs[i]).1.len() <= u32::MAX,
    ensures
        forall|q: int, i: int| 0 <= i < xs.len() && #[trigger] holds_at(buf, q, w_anchor_fn()(xs[i])) ==> rd_anchor_fn()(
            buf,
            q,
        ) == Some((xs[i], q + w_anchor_fn()(xs[i]).len())),
{
    assert forall|q: int, i: int| 0 <= i < xs.len() && #[trigger] holds_at(buf, q, w_anchor_fn()(xs[i])) implies rd_anchor_fn()(
        buf,
        q,
    ) == Some((xs[i], q + w_anchor_fn()(xs[i]).len())) by {
        lemma_rd_anchor(buf, q, xs[i]);
    }
}

proof fn lemma_points_items(buf: Seq<u8>, xs: Seq<(u32, Seq<u64>)>)
    requires
        forall|i: int| 0 <= i < xs.len() ==> (#[trigger] xs[i]).1.len() <= u32::MAX,
    ensures
        forall|q: int, i: int| 0 <= i < xs.len() && #[trigger] holds_at(buf, q, w_points_fn()(xs[i])) ==> rd_points_fn()(
            buf,
            q,
        ) == Some((xs[i], q + w_points_fn()(xs[i]).len())),
{
    assert forall|q: int, i: int| 0 <= i < xs.len() && #[trigger] holds_at(buf, q, w_points_fn()(xs[i])) implies rd_points_fn()(
        buf,
        q,
    ) == Some((xs[i], q + w_points_fn()(xs[i]).len())) by {
        lemma_rd_points(buf, q, xs[i]);
    }
}

proof fn lemma_u32_items(buf: Seq<u8>, xs: Seq<u32>)
    ensures
        forall|q: int, i: int| 0 <= i < xs.len() && #[trigger] holds_at(buf, q, w_u32_fn()(xs[i])) ==> rd_u32_fn()(
            buf,
            q,
        ) == Some((xs[i], q + w_u32_fn()(xs[i]).len())),
{
    assert forall|q: int, i: int| 0 <= i < xs.len() && #[trigger] holds_at(buf, q, w_u32_fn()(xs[i])) implies rd_u32_fn()(
        buf,
        q,
    ) == Some((xs[i], q + w_u32_fn()(xs[i]).len())) by {
        lemma_rd_u32(buf, q, xs[i]);
    }
}

/// The first half of the body: header end, scopes, timescale, signals.
proof fn lemma_body_front(buf: Seq<u8>, p0: int, c: CacheView)
    requires
        holds_at(buf, p0, le64(c.header_end) + w_counted(c.scopes, w_str_fn()) + w_tscale(c.timescale)
            + w_counted(c.signals, w_sig_fn())),
        cache_fits(c),
    ensures
        ({
            let x0 = le64(c.header_end);
            let x1 = w_counted(c.scopes, w_str_fn());
            let x2 = w_tscale(c.timescale);
            let x3 = w_counted(c.signals, w_sig_fn());
            &&& rd_u64(buf, p0) == Some((c.header_end, p0 + 8))
            &&& rd_counted(buf, p0 + 8, rd_str_fn()) == Some((c.scopes, p0 + 8 + x1.len()))
            &&& rd_tscale(buf, p0 + 8 + x1.len()) == Some((c.timescale, p0 + 8 + x1.len() + x2.len()))
            &&& rd_counted(buf, p0 + 8 + x1.len() + x2.len(), rd_sig_fn()) == Some(
                (c.signals, p0 + 8 + x1.len() + x2.len() + x3.len()),
            )
        }),
{
    let x0 = le64(c.header_end);
    let x1 = w_counted(c.scopes, w_str_fn());
    let x2 = w_tscale(c.timescale);
    let x3 = w_counted(c.signals, w_sig_fn());
    lemma_holds_split(buf, p0, x0 + x1 + x2, x3);
    lemma_holds_split(buf, p0, x0 + x1, x2);
    lemma_holds_split(buf, p0, x0, x1);
    lemma_rd_u64(buf, p0, c.header_end);
    lemma_str_items(buf, c.scopes);
    lemma_rd_counted(buf, p0 + 8, c.scopes, rd_str_fn(), w_str_fn());
    lemma_rd_tscale(buf, p0 + 8 + x1.len(), c.timescale);
    lemma_sig_items(buf, c.signals);
    lemma_rd_counted(buf, p0 + 8 + x1.len() + x2.len(), c.signals, rd_sig_fn(), w_sig_fn());
}

/// The second half of the body: timestamps, offsets, anchors, events and
/// their change points.
proof fn lemma_body_back(buf: Seq<u8>, p4: int, c: CacheView)
    requires
        holds_at(buf, p4, w_ts(c.timestamps) + w_counted(c.offsets, w_u64_fn()) + w_counted(c.anchors, w_anchor_fn())
            + w_counted(c.events, w_u32_fn()) + w_counted(c.points, w_points_fn())),
        cache_fits(c),
    ensures
        ({
            let x4 = w_ts(c.timestamps);
            let x5 = w_counted(c.offsets, w_u64_fn());
            let x6 = w_counted(c.anchors, w_anchor_fn());
            let x7 = w_counted(c.events, w_u32_fn());
            let x8 = w_counted(c.points, w_points_fn());
            &&& rd_ts(buf, p4) == Some((c.timestamps, p4 + x4.len()))
            &&& rd_counted(buf, p4 + x4.len(), rd_u64_fn()) == Some((c.offsets, p4 + x4.len() + x5.len()))
            &&& rd_counted(buf, p4 + x4.len() + x5.len(), rd_anchor_fn()) == Some(
                (c.anchors, p4 + x4.len() + x5.len() + x6.len()),
            )
            &&& rd_counted(buf, p4 + x4.len() + x5.len() + x6.len(), rd_u32_fn()) == Some(
                (c.events, p4 + x4.len() + x5.len() + x6.len() + x7.len()),
            )
            &&& rd_counted(buf, p4 + x4.len() + x5.len() + x6.len() + x7.len(), rd_points_fn()) == Some(
                (c.points, p4 + x4.len() + x5.len() + x6.len() + x7.len() + x8.len()),
            )
        }),
{
    let x4 = w_ts(c.timestamps);
    let x5 = w_counted(c.offsets, w_u64_fn());
    let x6 = w_counted(c.anchors, w_anchor_fn());
    let x7 = w_counted(c.events, w_u32_fn());
    let x8 = w_counted(c.points, w_points_fn());
    lemma_holds_split(buf, p4, x4 + x5 + x6 + x7, x8);
    lemma_holds_split(buf, p4, x4 + x5 + x6, x7);
    lemma_holds_split(buf, p4, x4 + x5, x6);
    lemma_holds_split(buf, p4, x4, x5);
    lemma_rd_ts(buf, p4, c.timestamps);
    lemma_u64_items(buf, c.offsets);
    lemma_rd_counted(buf, p4 + x4.len(), c.offsets, rd_u64_fn(), w_u64_fn());
    lemma_anchor_items(buf, c.anchors);
    lemma_rd_counted(buf, p4 + x4.len() + x5.len(), c.anchors, rd_anchor_fn(), w_anchor_fn());
    lemma_u32_items(buf, c.events);
    lemma_rd_counted(buf, p4 + x4.len() + x5.len() + x6.len(), c.events, rd_u32_fn(), w_u32_fn());
    lemma_points_items(buf, c.points);
    lemma_rd_counted(buf, p4 + x4.len() + x5.len() + x6.len() + x7.len(), c.points, rd_points_fn(), w_points_fn());
}

proof fn lemma_rd_body(buf: Seq<u8>, p0: int, c: CacheView)
    requires
        holds_at(buf, p0, cache_body(c)),
        cache_fits(c),
    ensures
        rd_body(buf, p0) == Some(c),
{
    let front = le64(c.header_end) + w_counted(c.scopes, w_str_fn()) + w_tscale(c.timescale) + w_counted(
        c.signals,
        w_sig_fn(),
    );
    let back = w_ts(c.timestamps) + w_counted(c.offsets, w_u64_fn()) + w_counted(c.anchors, w_anchor_fn())
        + w_counted(c.events, w_u32_fn()) + w_counted(c.points, w_points_fn());
    assert(cache_body(c) =~= front + back) by {
        reveal(cache_body);
    }
    lemma_holds_split(buf, p0, front, back);
    lemma_body_front(buf, p0, c);
    lemma_body_back(buf, p0 + front.len(), c);
    reveal(rd_body);
    assert(rd_body(buf, p0) =~= Some(c));
}

/// Reading a cache written for `key` under `key` gives back what was
/// written (when every length and count fits the format's `u32`).
pub proof fn lemma_vcd_cache_roundtrip(key: CacheKey, c: CacheView)
    requires
        cache_fits(c),
    ensures
        vcd_cache_decode(vcd_cache_bytes(key, c), key) == Some(c),
{
    let buf = vcd_cache_bytes(key, c);
    lemma_head(key, c);
    let body = cache_body(c);
    lemma_holds_split(buf, 0, cache_head(key), body);
    lemma_rd_body(buf, 36, c);
}

/// The head of a written cache reads as its magic, version and key.
proof fn lemma_head(key: CacheKey, c: CacheView)
    ensures
        ({
            let buf = vcd_cache_bytes(key, c);
            &&& buf.len() >= 36
            &&& buf.subrange(0, 8) == vc_magic()
            &&& u32_from_le(buf.subrange(8, 12)) == 1
            &&& u64_from_le(buf.subrange(12, 20)) == key.size
            &&& u64_from_le(buf.subrange(20, 28)) == key.mtime
            &&& u64_from_le(buf.subrange(28, 36)) == key.fingerprint
            &&& holds_at(buf, 0, cache_head(key) + cache_body(c))
        }),
{
    let buf = vcd_cache_bytes(key, c);
    assert(buf.subrange(0, buf.len() as int) =~= buf);
    let h = cache_head(key);
    lemma_holds_split(buf, 0, h, cache_body(c));
    let a = vc_magic();
    let b = le32(1);
    let c1 = le64(key.size);
    let d = le64(key.mtime);
    let e = le64(key.fingerprint);
    lemma_holds_split(buf, 0, a + b + c1 + d, e);
    lemma_holds_split(buf, 0, a + b + c1, d);
    lemma_holds_split(buf, 0, a + b, c1);
    lemma_holds_split(buf, 0, a, b);
    lemma_rd_u32(buf, 8, 1);
    lemma_rd_u64(buf, 12, key.size);
    lemma_rd_u64(buf, 20, key.mtime);
    lemma_rd_u64(buf, 28, key.fingerprint);
}

/// A cache written for one key is refused under another.
pub proof fn lemma_vcd_cache_stale(key: CacheKey, other: CacheKey, c: CacheView)
    requires
        other != key,
    ensures
        vcd_cache_decode(vcd_cache_bytes(key, c), other) is None,
{
    lemma_head(key, c);
}

proof fn lemma_le64_of_bytes(s: Seq<u8>)
    requires
        s.len() == 8,
    ensures
        le64(u64_from_le(s)) == s,
{
    let (b0, b1, b2, b3, b4, b5, b6, b7) = (s[0], s[1], s[2], s[3], s[4], s[5], s[6], s[7]);
    let v = u64_from_le(s);
    assert(v as u8 == b0 && (v >> 8u64) as u8 == b1 && (v >> 16u64) as u8 == b2 && (v >> 24u64)
        as u8 == b3 && (v >> 32u64) as u8 == b4 && (v >> 40u64) as u8 == b5 && (v >> 48u64) as u8
        == b6 && (v >> 56u64) as u8 == b7) by (bit_vector)
        requires
            v == (b0 as u64) | ((b1 as u64) << 8u64) | ((b2 as u64) << 16u64) | ((b3 as u64)
                << 24u64) | ((b4 as u64) << 32u64) | ((b5 as u64) << 40u64) | ((b6 as u64)
                << 48u64) | ((b7 as u64) << 56u64),
    ;
    assert(le64(v) =~= s);
}

proof fn lemma_le32_of_bytes(s: Seq<u8>)
    requires
        s.len() == 4,
    ensures
        le32(u32_from_le(s)) == s,
{
    let (b0, b1, b2, b3) = (s[0], s[1], s[2], s[3]);
    let v = u32_from_le(s);
    assert(v as u8 == b0 && (v >> 8u32) as u8 == b1 && (v >> 16u32) as u8 == b2 && (v >> 24u32)
        as u8 == b3) by (bit_vector)
        requires
            v == (b0 as u32) | ((b1 as u32) << 8u32) | ((b2 as u32) << 16u32) | ((b3 as u32)
                << 24u32),
    ;
    assert(le32(v) =~= s);
}

/// A cache that reads back under `key` starts with exactly the head written
/// for `key`: its magic, format version 1, and the key's size, time and
/// fingerprint.
pub proof fn lemma_vcd_cache_head(buf: Seq<u8>, key: CacheKey)
    requires
        vcd_cache_decode(buf, key) is Some,
    ensures
        buf.len() >= 36,
        buf.subrange(0, 36) == cache_head(key),
{
    lemma_le32_of_bytes(buf.subrange(8, 12));
    lemma_le64_of_bytes(buf.subrange(12, 20));
    lemma_le64_of_bytes(buf.subrange(20, 28));
    lemma_le64_of_bytes(buf.subrange(28, 36));
    assert(buf.subrange(0, 36) =~= buf.subrange(0, 8) + buf.subrange(8, 12) + buf.subrange(12, 20)
        + buf.subrange(20, 28) + buf.subrange(28, 36));
}


// ---------------------------------------------------------------------------
// Writing and reading, executably
// ---------------------------------------------------------------------------

/// A signal as the cache holds it.
pub struct CachedSignal {
    pub name: String,
    pub id: Vec<u8>,
    pub width: u32,
    pub initial: Option<VcdValue>,
}

/// What the cache holds: where the dump starts, the scopes, the timescale,
/// the signals, the timestamps and their sampled line starts, each
/// signal's anchors, the event signals and their change points.
pub struct VcdCacheSnapshot {
    pub header_end: u64,
    pub scopes: Vec<String>,
    pub timescale: Option<i8>,
    pub signals: Vec<CachedSignal>,
    pub timestamps: TsStore,
    pub offsets: Vec<u64>,
    pub anchors: Vec<(u32, Vec<(u64, u64)>)>,
    pub events: Vec<u32>,
    pub points: Vec<(u32, Vec<u64>)>,
}

pub open spec fn opt_val(o: Option<VcdValue>) -> Option<ValueView> {
    match o {
        Some(v) => Some(v@),
        None => None,
    }
}

pub open spec fn sig_view(s: CachedSignal) -> SigRec {
    (s.name@, s.id@, s.width, opt_val(s.initial))
}

pub open spec fn ts_view(t: TsStore) -> TsView {
    match t {
        TsStore::Uniform { start, step, count } => TsView::Uniform(start, step, count),
        TsStore::Dense(v) => TsView::Dense(v@),
    }
}

pub open spec fn snapshot_view(x: VcdCacheSnapshot) -> CacheView {
    CacheView {
        header_end: x.header_end,
        scopes: x.scopes@.map_values(|s: String| s@),
        timescale: x.timescale,
        signals: x.signals@.map_values(|s: CachedSignal| sig_view(s)),
        timestamps: ts_view(x.timestamps),
        offsets: x.offsets@,
        anchors: x.anchors@.map_values(|a: (u32, Vec<(u64, u64)>)| (a.0, a.1@)),
        events: x.events@,
        points: x.points@.map_values(|a: (u32, Vec<u64>)| (a.0, a.1@)),
    }
}

fn put_u8(out: &mut Vec<u8>, b: u8)
    ensures
        final(out)@ == old(out)@ + seq![b],
{
    out.push(b);
}

fn put_u32(out: &mut Vec<u8>, x: u32)
    ensures
        final(out)@ == old(out)@ + le32(x),
{
    let b = le32_bytes(x);
    append_bytes(out, &b);
}

fn put_u64(out: &mut Vec<u8>, x: u64)
    ensures
        final(out)@ == old(out)@ + le64(x),
{
    let b = le64_bytes(x);
    append_bytes(out, &b);
}

fn put_bytes(out: &mut Vec<u8>, b: &[u8])
    requires
        b@.len() <= u32::MAX,
    ensures
        final(out)@ == old(out)@ + w_bytes(b@),
{
    put_u32(out, b.len() as u32);
    append_bytes(out, b);
    assert(final(out)@ =~= old(out)@ + w_bytes(b@));
}

fn put_str(out: &mut Vec<u8>, s: &String)
    requires
        encode_utf8(s@).len() <= u32::MAX,
    ensures
        final(out)@ == old(out)@ + w_str(s@),
{
    let b = string_bytes(s);
    put_bytes(out, b.as_slice());
}

fn put_val(out: &mut Vec<u8>, v: &VcdValue)
    requires
        val_fits(v@),
    ensures
        final(out)@ == old(out)@ + w_val(v@),
{
    let ghost start = out@;
    match v {
        VcdValue::Bit(b) => {
            put_u8(out, 0);
            put_u8(out, *b);
            assert(out@ =~= start + w_val(v@));
        },
        VcdValue::Vector(x) => {
            put_u8(out, 1);
            put_bytes(out, x.as_slice());
            assert(out@ =~= start + w_val(v@));
        },
        VcdValue::Real(t) => {
            put_u8(out, 3);
            put_str(out, t);
            assert(out@ =~= start + w_val(v@));
        },
    }
}

fn put_sig(out: &mut Vec<u8>, s: &CachedSignal)
    requires
        sig_fits(sig_view(*s)),
    ensures
        final(out)@ == old(out)@ + w_sig(sig_view(*s)),
{
    let ghost start = out@;
    put_str(out, &s.name);
    put_bytes(out, s.id.as_slice());
    put_u32(out, s.width);
    match &s.initial {
        Some(v) => {
            put_u8(out, 1);
            put_val(out, v);
        },
        None => {
            put_u8(out, 0);
        },
    }
    assert(out@ =~= start + w_sig(sig_view(*s)));
}

fn put_pair(out: &mut Vec<u8>, x: (u64, u64))
    ensures
        final(out)@ == old(out)@ + w_pair(x),
{
    let ghost start = out@;
    put_u64(out, x.0);
    put_u64(out, x.1);
    assert(out@ =~= start + w_pair(x));
}

fn get_u8(buf: &[u8], p: usize) -> (r: Option<(u8, usize)>)
    ensures
        match r {
            Some((b, q)) => rd_u8(buf@, p as int) == Some((b, q as int)),
            None => rd_u8(buf@, p as int) is None,
        },
{
    if p < buf.len() { Some((buf[p], p + 1)) } else { None }
}

fn get_u32(buf: &[u8], p: usize) -> (r: Option<(u32, usize)>)
    ensures
        match r {
            Some((x, q)) => rd_u32(buf@, p as int) == Some((x, q as int)),
            None => rd_u32(buf@, p as int) is None,
        },
{
    if p > buf.len() || buf.len() - p < 4 {
        return None;
    }
    Some((read_u32_le(buf, p), p + 4))
}

fn get_u64(buf: &[u8], p: usize) -> (r: Option<(u64, usize)>)
    ensures
        match r {
            Some((x, q)) => rd_u64(buf@, p as int) == Some((x, q as int)),
            None => rd_u64(buf@, p as int) is None,
        },
{
    if p > buf.len() || buf.len() - p < 8 {
        return None;
    }
    Some((read_u64_le(buf, p), p + 8))
}

fn get_bytes(buf: &[u8], p: usize) -> (r: Option<(Vec<u8>, usize)>)
    ensures
        match r {
            Some((x, q)) => rd_bytes(buf@, p as int) == Some((x@, q as int)),
            None => rd_bytes(buf@, p as int) is None,
        },
{
    let (n, q) = match get_u32(buf, p) {
        Some(x) => x,
        None => {
            return None;
        },
    };
    if q > buf.len() || (buf.len() - q) < n as usize {
        return None;
    }
    let e = q + n as usize;
    let v = vstd::slice::slice_to_vec(vstd::slice::slice_subrange(buf, q, e));
    Some((v, e))
}

fn get_str(buf: &[u8], p: usize) -> (r: Option<(String, usize)>)
    ensures
        match r {
            Some((x, q)) => rd_str(buf@, p as int) == Some((x@, q as int)),
            None => rd_str(buf@, p as int) is None,
        },
{
    let (b, q) = match get_bytes(buf, p) {
        Some(x) => x,
        None => {
            return None;
        },
    };
    match str_from_utf8(b.as_slice()) {
        Some(s) => Some((s.to_owned(), q)),
        None => None,
    }
}

fn get_val(buf: &[u8], p: usize) -> (r: Option<(VcdValue, usize)>)
    ensures
        match r {
            Some((x, q)) => rd_val(buf@, p as int) == Some((x@, q as int)),
            None => rd_val(buf@, p as int) is None,
        },
{
    let (tag, q) = match get_u8(buf, p) {
        Some(x) => x,
        None => {
            return None;
        },
    };
    if tag == 0 {
        match get_u8(buf, q) {
            Some((b, r)) => Some((VcdValue::Bit(b), r)),
            None => None,
        }
    } else if tag == 1 {
        match get_bytes(buf, q) {
            Some((x, r)) => Some((VcdValue::Vector(x), r)),
            None => None,
        }
    } else if tag == 3 {
        match get_str(buf, q) {
            Some((t, r)) => Some((VcdValue::Real(t), r)),
            None => None,
        }
    } else {
        None
    }
}

fn get_sig(buf: &[u8], p: usize) -> (r: Option<(CachedSignal, usize)>)
    ensures
        match r {
            Some((x, q)) => rd_sig(buf@, p as int) == Some((sig_view(x), q as int)),
            None => rd_sig(buf@, p as int) is None,
        },
{
    let (name, p1) = match get_str(buf, p) {
        Some(x) => x,
        None => {
            return None;
        },
    };
    let (id, p2) = match get_bytes(buf, p1) {
        Some(x) => x,
        None => {
            return None;
        },
    };
    let (width, p3) = match get_u32(buf, p2) {
        Some(x) => x,
        None => {
            return None;
        },
    };
    let (flag, p4) = match get_u8(buf, p3) {
        Some(x) => x,
        None => {
            return None;
        },
    };
    if flag == 1 {
        match get_val(buf, p4) {
            Some((v, p5)) => Some((CachedSignal { name, id, width, initial: Some(v) }, p5)),
            None => None,
        }
    } else {
        Some((CachedSignal { name, id, width, initial: None }, p4))
    }
}

fn get_pair(buf: &[u8], p: usize) -> (r: Option<((u64, u64), usize)>)
    ensures
        match r {
            Some((x, q)) => rd_pair(buf@, p as int) == Some((x, q as int)),
            None => rd_pair(buf@, p as int) is None,
        },
{
    let (a, q) = match get_u64(buf, p) {
        Some(x) => x,
        None => {
            return None;
        },
    };
    match get_u64(buf, q) {
        Some((b, r)) => Some(((a, b), r)),
        None => None,
    }
}

/// Once an item fails to read, the list does.
proof fn lemma_rd_list_none<T>(buf: Seq<u8>, p: int, k: nat, n: nat, rd: spec_fn(Seq<u8>, int) -> Option<(T, int)>)
    requires
        k <= n,
        rd_list(buf, p, k, rd) is None,
    ensures
        rd_list(buf, p, n, rd) is None,
    decreases n - k,
{
    if k < n {
        lemma_rd_list_none(buf, p, k, (n - 1) as nat, rd);
    }
}

fn put_str_list(out: &mut Vec<u8>, xs: &Vec<String>)
    requires
        xs@.len() <= u32::MAX,
        forall|i: int| 0 <= i < xs@.len() ==> encode_utf8(#[trigger] xs@[i]@).len() <= u32::MAX,
    ensures
        final(out)@ == old(out)@ + w_counted(xs@.map_values(|s: String| s@), w_str_fn()),
{
    reveal(w_counted);
    let ghost start = old(out)@;
    put_u32(out, xs.len() as u32);
    let ghost head = out@;
    assert(xs@.map_values(|s: String| s@).take(0) =~= Seq::empty());
    let mut k: usize = 0;
    while k < xs.len()
        invariant
            k <= xs@.len(),
            forall|i: int| 0 <= i < xs@.len() ==> encode_utf8(#[trigger] xs@[i]@).len() <= u32::MAX,
            out@ == head + w_list(xs@.map_values(|s: String| s@).take(k as int), w_str_fn()),
        decreases xs@.len() - k,
    {
        let x = &xs[k];
        assert(encode_utf8(xs@[k as int]@).len() <= u32::MAX);
        put_str(out, x);
        proof {
            assert(xs@.map_values(|s: String| s@).take(k + 1).drop_last() =~= xs@.map_values(|s: String| s@).take(k as int));
            assert(xs@.map_values(|s: String| s@).take(k + 1).last() == x@);
            assert(out@ =~= head + w_list(xs@.map_values(|s: String| s@).take(k + 1), w_str_fn()));
        }
        k = k + 1;
    }
    assert(xs@.map_values(|s: String| s@).take(k as int) =~= xs@.map_values(|s: String| s@));
    assert(out@ =~= start + w_counted(xs@.map_values(|s: String| s@), w_str_fn()));
}

fn get_str_list(buf: &[u8], p: usize) -> (r: Option<(Vec<String>, usize)>)
    ensures
        match r {
            Some((xs, q)) => rd_counted(buf@, p as int, rd_str_fn()) == Some((xs@.map_values(|s: String| s@), q as int)),
            None => rd_counted(buf@, p as int, rd_str_fn()) is None,
        },
{
    reveal(rd_counted);
    let (n, p0) = match get_u32(buf, p) {
        Some(x) => x,
        None => {
            return None;
        },
    };
    let mut xs: Vec<String> = Vec::new();
    let mut q: usize = p0;
    let mut k: u32 = 0;
    assert(xs@.map_values(|s: String| s@) =~= Seq::empty());
    while k < n
        invariant
            k <= n,
            rd_u32(buf@, p as int) == Some((n, p0 as int)),
            rd_list(buf@, p0 as int, k as nat, rd_str_fn()) == Some((xs@.map_values(|s: String| s@), q as int)),
        decreases n - k,
    {
        match get_str(buf, q) {
            Some((x, q2)) => {
                let ghost before = xs@.map_values(|s: String| s@);
                xs.push(x);
                proof {
                    assert(xs@.map_values(|s: String| s@) =~= before.push(x@));
                }
                q = q2;
            },
            None => {
                proof {
                    assert(rd_list(buf@, p0 as int, (k + 1) as nat, rd_str_fn()) is None);
                    lemma_rd_list_none(buf@, p0 as int, (k + 1) as nat, n as nat, rd_str_fn());
                    reveal(rd_counted);
                }
                return None;
            },
        }
        k = k + 1;
    }
    Some((xs, q))
}

fn put_sig_list(out: &mut Vec<u8>, xs: &Vec<CachedSignal>)
    requires
        xs@.len() <= u32::MAX,
        forall|i: int| 0 <= i < xs@.len() ==> sig_fits(sig_view(#[trigger] xs@[i])),
    ensures
        final(out)@ == old(out)@ + w_counted(xs@.map_values(|s: CachedSignal| sig_view(s)), w_sig_fn()),
{
    reveal(w_counted);
    let ghost start = old(out)@;
    put_u32(out, xs.len() as u32);
    let ghost head = out@;
    assert(xs@.map_values(|s: CachedSignal| sig_view(s)).take(0) =~= Seq::empty());
    let mut k: usize = 0;
    while k < xs.len()
        invariant
            k <= xs@.len(),
            forall|i: int| 0 <= i < xs@.len() ==> sig_fits(sig_view(#[trigger] xs@[i])),
            out@ == head + w_list(xs@.map_values(|s: CachedSignal| sig_view(s)).take(k as int), w_sig_fn()),
        decreases xs@.len() - k,
    {
        let x = &xs[k];
        assert(sig_fits(sig_view(xs@[k as int])));
        put_sig(out, x);
        proof {
            assert(xs@.map_values(|s: CachedSignal| sig_view(s)).take(k + 1).drop_last() =~= xs@.map_values(|s: CachedSignal| sig_view(s)).take(k as int));
            assert(xs@.map_values(|s: CachedSignal| sig_view(s)).take(k + 1).last() == sig_view(*x));
            assert(out@ =~= head + w_list(xs@.map_values(|s: CachedSignal| sig_view(s)).take(k + 1), w_sig_fn()));
        }
        k = k + 1;
    }
    assert(xs@.map_values(|s: CachedSignal| sig_view(s)).take(k as int) =~= xs@.map_values(|s: CachedSignal| sig_view(s)));
    assert(out@ =~= start + w_counted(xs@.map_values(|s: CachedSignal| sig_view(s)), w_sig_fn()));
}

fn get_sig_list(buf: &[u8], p: usize) -> (r: Option<(Vec<CachedSignal>, usize)>)
    ensures
        match r {
            Some((xs, q)) => rd_counted(buf@, p as int, rd_sig_fn()) == Some((xs@.map_values(|s: CachedSignal| sig_view(s)), q as int)),
            None => rd_counted(buf@, p as int, rd_sig_fn()) is None,
        },
{
    reveal(rd_counted);
    let (n, p0) = match get_u32(buf, p) {
        Some(x) => x,
        None => {
            return None;
        },
    };
    let mut xs: Vec<CachedSignal> = Vec::new();
    let mut q: usize = p0;
    let mut k: u32 = 0;
    assert(xs@.map_values(|s: CachedSignal| sig_view(s)) =~= Seq::empty());
    while k < n
        invariant
            k <= n,
            rd_u32(buf@, p as int) == Some((n, p0 as int)),
            rd_list(buf@, p0 as int, k as nat, rd_sig_fn()) == Some((xs@.map_values(|s: CachedSignal| sig_view(s)), q as int)),
        decreases n - k,
    {
        match get_sig(buf, q) {
            Some((x, q2)) => {
                let ghost before = xs@.map_values(|s: CachedSignal| sig_view(s));
                xs.push(x);
                proof {
                    assert(xs@.map_values(|s: CachedSignal| sig_view(s)) =~= before.push(sig_view(x)));
                }
                q = q2;
            },
            None => {
                proof {
                    assert(rd_list(buf@, p0 as int, (k + 1) as nat, rd_sig_fn()) is None);
                    lemma_rd_list_none(buf@, p0 as int, (k + 1) as nat, n as nat, rd_sig_fn());
                    reveal(rd_counted);
                }
                return None;
            },
        }
        k = k + 1;
    }
    Some((xs, q))
}

fn put_u64_list(out: &mut Vec<u8>, xs: &Vec<u64>)
    requires
        xs@.len() <= u32::MAX,
    ensures
        final(out)@ == old(out)@ + w_counted(xs@, w_u64_fn()),
{
    reveal(w_counted);
    let ghost start = old(out)@;
    put_u32(out, xs.len() as u32);
    let ghost head = out@;
    assert(xs@.take(0) =~= Seq::empty());
    let mut k: usize = 0;
    while k < xs.len()
        invariant
            k <= xs@.len(),
            out@ == head + w_list(xs@.take(k as int), w_u64_fn()),
        decreases xs@.len() - k,
    {
        let x = &xs[k];
        put_u64(out, *x);
        proof {
            assert(xs@.take(k + 1).drop_last() =~= xs@.take(k as int));
            assert(xs@.take(k + 1).last() == *x);
            assert(out@ =~= head + w_list(xs@.take(k + 1), w_u64_fn()));
        }
        k = k + 1;
    }
    assert(xs@.take(k as int) =~= xs@);
    assert(out@ =~= start + w_counted(xs@, w_u64_fn()));
}

fn get_u64_list(buf: &[u8], p: usize) -> (r: Option<(Vec<u64>, usize)>)
    ensures
        match r {
            Some((xs, q)) => rd_counted(buf@, p as int, rd_u64_fn()) == Some((xs@, q as int)),
            None => rd_counted(buf@, p as int, rd_u64_fn()) is None,
        },
{
    reveal(rd_counted);
    let (n, p0) = match get_u32(buf, p) {
        Some(x) => x,
        None => {
            return None;
        },
    };
    let mut xs: Vec<u64> = Vec::new();
    let mut q: usize = p0;
    let mut k: u32 = 0;
    assert(xs@ =~= Seq::empty());
    while k < n
        invariant
            k <= n,
            rd_u32(buf@, p as int) == Some((n, p0 as int)),
            rd_list(buf@, p0 as int, k as nat, rd_u64_fn()) == Some((xs@, q as int)),
        decreases n - k,
    {
        match get_u64(buf, q) {
            Some((x, q2)) => {
                let ghost before = xs@;
                xs.push(x);
                proof {
                    assert(xs@ =~= before.push(x));
                }
                q = q2;
            },
            None => {
                proof {
                    assert(rd_list(buf@, p0 as int, (k + 1) as nat, rd_u64_fn()) is None);
                    lemma_rd_list_none(buf@, p0 as int, (k + 1) as nat, n as nat, rd_u64_fn());
                    reveal(rd_counted);
                }
                return None;
            },
        }
        k = k + 1;
    }
    Some((xs, q))
}

fn put_u32_list(out: &mut Vec<u8>, xs: &Vec<u32>)
    requires
        xs@.len() <= u32::MAX,
    ensures
        final(out)@ == old(out)@ + w_counted(xs@, w_u32_fn()),
{
    reveal(w_counted);
    let ghost start = old(out)@;
    put_u32(out, xs.len() as u32);
    let ghost head = out@;
    assert(xs@.take(0) =~= Seq::empty());
    let mut k: usize = 0;
    while k < xs.len()
        invariant
            k <= xs@.len(),
            out@ == head + w_list(xs@.take(k as int), w_u32_fn()),
        decreases xs@.len() - k,
    {
        let x = &xs[k];
        put_u32(out, *x);
        proof {
            assert(xs@.take(k + 1).drop_last() =~= xs@.take(k as int));
            assert(xs@.take(k + 1).last() == *x);
            assert(out@ =~= head + w_list(xs@.take(k + 1), w_u32_fn()));
        }
        k = k + 1;
    }
    assert(xs@.take(k as int) =~= xs@);
    assert(out@ =~= start + w_counted(xs@, w_u32_fn()));
}

fn get_u32_list(buf: &[u8], p: usize) -> (r: Option<(Vec<u32>, usize)>)
    ensures
        match r {
            Some((xs, q)) => rd_counted(buf@, p as int, rd_u32_fn()) == Some((xs@, q as int)),
            None => rd_counted(buf@, p as int, rd_u32_fn()) is None,
        },
{
    reveal(rd_counted);
    let (n, p0) = match get_u32(buf, p) {
        Some(x) => x,
        None => {
            return None;
        },
    };
    let mut xs: Vec<u32> = Vec::new();
    let mut q: usize = p0;
    let mut k: u32 = 0;
    assert(xs@ =~= Seq::empty());
    while k < n
        invariant
            k <= n,
            rd_u32(buf@, p as int) == Some((n, p0 as int)),
            rd_list(buf@, p0 as int, k as nat, rd_u32_fn()) == Some((xs@, q as int)),
        decreases n - k,
    {
        match get_u32(buf, q) {
            Some((x, q2)) => {
                let ghost before = xs@;
                xs.push(x);
                proof {
                    assert(xs@ =~= before.push(x));
                }
                q = q2;
            },
            None => {
                proof {
                    assert(rd_list(buf@, p0 as int, (k + 1) as nat, rd_u32_fn()) is None);
                    lemma_rd_list_none(buf@, p0 as int, (k + 1) as nat, n as nat, rd_u32_fn());
                    reveal(rd_counted);
                }
                return None;
            },
        }
        k = k + 1;
    }
    Some((xs, q))
}

fn put_pair_list(out: &mut Vec<u8>, xs: &Vec<(u64, u64)>)
    requires
        xs@.len() <= u32::MAX,
    ensures
        final(out)@ == old(out)@ + w_counted(xs@, w_pair_fn()),
{
    reveal(w_counted);
    let ghost start = old(out)@;
    put_u32(out, xs.len() as u32);
    let ghost head = out@;
    assert(xs@.take(0) =~= Seq::empty());
    let mut k: usize = 0;
    while k < xs.len()
        invariant
            k <= xs@.len(),
            out@ == head + w_list(xs@.take(k as int), w_pair_fn()),
        decreases xs@.len() - k,
    {
        let x = &xs[k];
        put_pair(out, *x);
        proof {
            assert(xs@.take(k + 1).drop_last() =~= xs@.take(k as int));
            assert(xs@.take(k + 1).last() == *x);
            assert(out@ =~= head + w_list(xs@.take(k + 1), w_pair_fn()));
        }
        k = k + 1;
    }
    assert(xs@.take(k as int) =~= xs@);
    assert(out@ =~= start + w_counted(xs@, w_pair_fn()));
}

fn get_pair_list(buf: &[u8], p: usize) -> (r: Option<(Vec<(u64, u64)>, usize)>)
    ensures
        match r {
            Some((xs, q)) => rd_counted(buf@, p as int, rd_pair_fn()) == Some((xs@, q as int)),
            None => rd_counted(buf@, p as int, rd_pair_fn()) is None,
        },
{
    reveal(rd_counted);
    let (n, p0) = match get_u32(buf, p) {
        Some(x) => x,
        None => {
            return None;
        },
    };
    let mut xs: Vec<(u64, u64)> = Vec::new();
    let mut q: usize = p0;
    let mut k: u32 = 0;
    assert(xs@ =~= Seq::empty());
    while k < n
        invariant
            k <= n,
            rd_u32(buf@, p as int) == Some((n, p0 as int)),
            rd_list(buf@, p0 as int, k as nat, rd_pair_fn()) == Some((xs@, q as int)),
        decreases n - k,
    {
        match get_pair(buf, q) {
            Some((x, q2)) => {
                let ghost before = xs@;
                xs.push(x);
                proof {
                    assert(xs@ =~= before.push(x));
                }
                q = q2;
            },
            None => {
                proof {
                    assert(rd_list(buf@, p0 as int, (k + 1) as nat, rd_pair_fn()) is None);
                    lemma_rd_list_none(buf@, p0 as int, (k + 1) as nat, n as nat, rd_pair_fn());
                    reveal(rd_counted);
                }
                return None;
            },
        }
        k = k + 1;
    }
    Some((xs, q))
}

fn put_anchor_list(out: &mut Vec<u8>, xs: &Vec<(u32, Vec<(u64, u64)>)>)
    requires
        xs@.len() <= u32::MAX,
        forall|i: int| 0 <= i < xs@.len() ==> #[trigger] xs@[i].1@.len() <= u32::MAX,
    ensures
        final(out)@ == old(out)@ + w_counted(xs@.map_values(|a: (u32, Vec<(u64, u64)>)| (a.0, a.1@)), w_anchor_fn()),
{
    reveal(w_counted);
    let ghost start = old(out)@;
    put_u32(out, xs.len() as u32);
    let ghost head = out@;
    assert(xs@.map_values(|a: (u32, Vec<(u64, u64)>)| (a.0, a.1@)).take(0) =~= Seq::empty());
    let mut k: usize = 0;
    while k < xs.len()
        invariant
            k <= xs@.len(),
            forall|i: int| 0 <= i < xs@.len() ==> #[trigger] xs@[i].1@.len() <= u32::MAX,
            out@ == head + w_list(xs@.map_values(|a: (u32, Vec<(u64, u64)>)| (a.0, a.1@)).take(k as int), w_anchor_fn()),
        decreases xs@.len() - k,
    {
        let x = &xs[k];
        assert(xs@[k as int].1@.len() <= u32::MAX);
        put_anchor(out, x);
        proof {
            assert(xs@.map_values(|a: (u32, Vec<(u64, u64)>)| (a.0, a.1@)).take(k + 1).drop_last() =~= xs@.map_values(|a: (u32, Vec<(u64, u64)>)| (a.0, a.1@)).take(k as int));
            assert(xs@.map_values(|a: (u32, Vec<(u64, u64)>)| (a.0, a.1@)).take(k + 1).last() == (x.0, x.1@));
            assert(out@ =~= head + w_list(xs@.map_values(|a: (u32, Vec<(u64, u64)>)| (a.0, a.1@)).take(k + 1), w_anchor_fn()));
        }
        k = k + 1;
    }
    assert(xs@.map_values(|a: (u32, Vec<(u64, u64)>)| (a.0, a.1@)).take(k as int) =~= xs@.map_values(|a: (u32, Vec<(u64, u64)>)| (a.0, a.1@)));
    assert(out@ =~= start + w_counted(xs@.map_values(|a: (u32, Vec<(u64, u64)>)| (a.0, a.1@)), w_anchor_fn()));
}

fn get_anchor_list(buf: &[u8], p: usize) -> (r: Option<(Vec<(u32, Vec<(u64, u64)>)>, usize)>)
    ensures
        match r {
            Some((xs, q)) => rd_counted(buf@, p as int, rd_anchor_fn()) == Some((xs@.map_values(|a: (u32, Vec<(u64, u64)>)| (a.0, a.1@)), q as int)),
            None => rd_counted(buf@, p as int, rd_anchor_fn()) is None,
        },
{
    reveal(rd_counted);
    let (n, p0) = match get_u32(buf, p) {
        Some(x) => x,
        None => {
            return None;
        },
    };
    let mut xs: Vec<(u32, Vec<(u64, u64)>)> = Vec::new();
    let mut q: usize = p0;
    let mut k: u32 = 0;
    assert(xs@.map_values(|a: (u32, Vec<(u64, u64)>)| (a.0, a.1@)) =~= Seq::empty());
    while k < n
        invariant
            k <= n,
            rd_u32(buf@, p as int) == Some((n, p0 as int)),
            rd_list(buf@, p0 as int, k as nat, rd_anchor_fn()) == Some((xs@.map_values(|a: (u32, Vec<(u64, u64)>)| (a.0, a.1@)), q as int)),
        decreases n - k,
    {
        match get_anchor(buf, q) {
            Some((x, q2)) => {
                let ghost before = xs@.map_values(|a: (u32, Vec<(u64, u64)>)| (a.0, a.1@));
                xs.push(x);
                proof {
                    assert(xs@.map_values(|a: (u32, Vec<(u64, u64)>)| (a.0, a.1@)) =~= before.push((x.0, x.1@)));
                }
                q = q2;
            },
            None => {
                proof {
                    assert(rd_list(buf@, p0 as int, (k + 1) as nat, rd_anchor_fn()) is None);
                    lemma_rd_list_none(buf@, p0 as int, (k + 1) as nat, n as nat, rd_anchor_fn());
                    reveal(rd_counted);
                }
                return None;
            },
        }
        k = k + 1;
    }
    Some((xs, q))
}

fn put_points_list(out: &mut Vec<u8>, xs: &Vec<(u32, Vec<u64>)>)
    requires
        xs@.len() <= u32::MAX,
        forall|i: int| 0 <= i < xs@.len() ==> #[trigger] xs@[i].1@.len() <= u32::MAX,
    ensures
        final(out)@ == old(out)@ + w_counted(xs@.map_values(|a: (u32, Vec<u64>)| (a.0, a.1@)), w_points_fn()),
{
    reveal(w_counted);
    let ghost start = old(out)@;
    put_u32(out, xs.len() as u32);
    let ghost head = out@;
    assert(xs@.map_values(|a: (u32, Vec<u64>)| (a.0, a.1@)).take(0) =~= Seq::empty());
    let mut k: usize = 0;
    while k < xs.len()
        invariant
            k <= xs@.len(),
            forall|i: int| 0 <= i < xs@.len() ==> #[trigger] xs@[i].1@.len() <= u32::MAX,
            out@ == head + w_list(xs@.map_values(|a: (u32, Vec<u64>)| (a.0, a.1@)).take(k as int), w_points_fn()),
        decreases xs@.len() - k,
    {
        let x = &xs[k];
        assert(xs@[k as int].1@.len() <= u32::MAX);
        put_points(out, x);
        proof {
            assert(xs@.map_values(|a: (u32, Vec<u64>)| (a.0, a.1@)).take(k + 1).drop_last() =~= xs@.map_values(|a: (u32, Vec<u64>)| (a.0, a.1@)).take(k as int));
            assert(xs@.map_values(|a: (u32, Vec<u64>)| (a.0, a.1@)).take(k + 1).last() == (x.0, x.1@));
            assert(out@ =~= head + w_list(xs@.map_values(|a: (u32, Vec<u64>)| (a.0, a.1@)).take(k + 1), w_points_fn()));
        }
        k = k + 1;
    }
    assert(xs@.map_values(|a: (u32, Vec<u64>)| (a.0, a.1@)).take(k as int) =~= xs@.map_values(|a: (u32, Vec<u64>)| (a.0, a.1@)));
    assert(out@ =~= start + w_counted(xs@.map_values(|a: (u32, Vec<u64>)| (a.0, a.1@)), w_points_fn()));
}

fn get_points_list(buf: &[u8], p: usize) -> (r: Option<(Vec<(u32, Vec<u64>)>, usize)>)
    ensures
        match r {
            Some((xs, q)) => rd_counted(buf@, p as int, rd_points_fn()) == Some((xs@.map_values(|a: (u32, Vec<u64>)| (a.0, a.1@)), q as int)),
            None => rd_counted(buf@, p as int, rd_points_fn()) is None,
        },
{
    reveal(rd_counted);
    let (n, p0) = match get_u32(buf, p) {
        Some(x) => x,
        None => {
            return None;
        },
    };
    let mut xs: Vec<(u32, Vec<u64>)> = Vec::new();
    let mut q: usize = p0;
    let mut k: u32 = 0;
    assert(xs@.map_values(|a: (u32, Vec<u64>)| (a.0, a.1@)) =~= Seq::empty());
    while k < n
        invariant
            k <= n,
            rd_u32(buf@, p as int) == Some((n, p0 as int)),
            rd_list(buf@, p0 as int, k as nat, rd_points_fn()) == Some((xs@.map_values(|a: (u32, Vec<u64>)| (a.0, a.1@)), q as int)),
        decreases n - k,
    {
        match get_points(buf, q) {
            Some((x, q2)) => {
                let ghost before = xs@.map_values(|a: (u32, Vec<u64>)| (a.0, a.1@));
                xs.push(x);
                proof {
                    assert(xs@.map_values(|a: (u32, Vec<u64>)| (a.0, a.1@)) =~= before.push((x.0, x.1@)));
                }
                q = q2;
            },
            None => {
                proof {
                    assert(rd_list(buf@, p0 as int, (k + 1) as nat, rd_points_fn()) is None);
                    lemma_rd_list_none(buf@, p0 as int, (k + 1) as nat, n as nat, rd_points_fn());
                    reveal(rd_counted);
                }
                return None;
            },
        }
        k = k + 1;
    }
    Some((xs, q))
}


fn put_anchor(out: &mut Vec<u8>, a: &(u32, Vec<(u64, u64)>))
    requires
        a.1@.len() <= u32::MAX,
    ensures
        final(out)@ == old(out)@ + w_anchor((a.0, a.1@)),
{
    let ghost start = out@;
    put_u32(out, a.0);
    put_pair_list(out, &a.1);
    assert(out@ =~= start + w_anchor((a.0, a.1@)));
}

fn get_anchor(buf: &[u8], p: usize) -> (r: Option<((u32, Vec<(u64, u64)>), usize)>)
    ensures
        match r {
            Some((x, q)) => rd_anchor(buf@, p as int) == Some(((x.0, x.1@), q as int)),
            None => rd_anchor(buf@, p as int) is None,
        },
{
    let (sig, q) = match get_u32(buf, p) {
        Some(x) => x,
        None => {
            return None;
        },
    };
    match get_pair_list(buf, q) {
        Some((xs, r)) => Some(((sig, xs), r)),
        None => None,
    }
}

fn put_points(out: &mut Vec<u8>, a: &(u32, Vec<u64>))
    requires
        a.1@.len() <= u32::MAX,
    ensures
        final(out)@ == old(out)@ + w_points((a.0, a.1@)),
{
    let ghost start = out@;
    put_u32(out, a.0);
    put_u64_list(out, &a.1);
    assert(out@ =~= start + w_points((a.0, a.1@)));
}

fn get_points(buf: &[u8], p: usize) -> (r: Option<((u32, Vec<u64>), usize)>)
    ensures
        match r {
            Some((x, q)) => rd_points(buf@, p as int) == Some(((x.0, x.1@), q as int)),
            None => rd_points(buf@, p as int) is None,
        },
{
    let (sig, q) = match get_u32(buf, p) {
        Some(x) => x,
        None => {
            return None;
        },
    };
    match get_u64_list(buf, q) {
        Some((xs, r)) => Some(((sig, xs), r)),
        None => None,
    }
}

fn put_ts(out: &mut Vec<u8>, t: &TsStore)
    requires
        t matches TsStore::Dense(v) ==> v@.len() <= u32::MAX,
    ensures
        final(out)@ == old(out)@ + w_ts(ts_view(*t)),
{
    let ghost start = out@;
    match t {
        TsStore::Uniform { start: a, step, count } => {
            put_u8(out, 0);
            put_u64(out, *a);
            put_u64(out, *step);
            put_u64(out, *count);
        },
        TsStore::Dense(v) => {
            put_u8(out, 1);
            put_u64_list(out, v);
        },
    }
    assert(out@ =~= start + w_ts(ts_view(*t)));
}

fn get_ts(buf: &[u8], p: usize) -> (r: Option<(TsStore, usize)>)
    ensures
        match r {
            Some((x, q)) => rd_ts(buf@, p as int) == Some((ts_view(x), q as int)),
            None => rd_ts(buf@, p as int) is None,
        },
{
    let (tag, q) = match get_u8(buf, p) {
        Some(x) => x,
        None => {
            return None;
        },
    };
    if tag == 0 {
        let (a, q1) = match get_u64(buf, q) {
            Some(x) => x,
            None => {
                return None;
            },
        };
        let (b, q2) = match get_u64(buf, q1) {
            Some(x) => x,
            None => {
                return None;
            },
        };
        match get_u64(buf, q2) {
            Some((c, q3)) => Some((TsStore::Uniform { start: a, step: b, count: c }, q3)),
            None => None,
        }
    } else {
        match get_u64_list(buf, q) {
            Some((v, r)) => Some((TsStore::Dense(v), r)),
            None => None,
        }
    }
}

fn get_tscale(buf: &[u8], p: usize) -> (r: Option<(Option<i8>, usize)>)
    ensures
        match r {
            Some((x, q)) => rd_tscale(buf@, p as int) == Some((x, q as int)),
            None => rd_tscale(buf@, p as int) is None,
        },
{
    let (tag, q) = match get_u8(buf, p) {
        Some(x) => x,
        None => {
            return None;
        },
    };
    if tag == 1 {
        match get_u8(buf, q) {
            Some((e, r)) => Some((Some(e as i8), r)),
            None => None,
        }
    } else {
        Some((None, q))
    }
}

/// Every length and count of a snapshot fits the format's `u32`.
pub open spec fn snapshot_fits(x: VcdCacheSnapshot) -> bool {
    cache_fits(snapshot_view(x))
}

/// Write the cache for `key` (see `vcd_cache_bytes`).
pub fn encode_vcd_cache(key: &CacheKey, snap: &VcdCacheSnapshot) -> (out: Vec<u8>)
    requires
        snapshot_fits(*snap),
    ensures
        out@ == vcd_cache_bytes(*key, snapshot_view(*snap)),
{
    let c = Ghost(snapshot_view(*snap));
    let mut out: Vec<u8> = Vec::new();
    let magic: [u8; 8] = [0x57, 0x41, 0x4c, 0x56, 0x43, 0x30, 0x30, 0x31];
    append_bytes(&mut out, &magic);
    put_u32(&mut out, 1);
    put_u64(&mut out, key.size);
    put_u64(&mut out, key.mtime);
    put_u64(&mut out, key.fingerprint);
    assert(magic@ =~= vc_magic());
    assert(out@ =~= cache_head(*key));
    let ghost head = out@;
    put_u64(&mut out, snap.header_end);
    proof {
        assert forall|i: int| 0 <= i < snap.scopes@.len() implies encode_utf8(#[trigger] snap.scopes@[i]@).len() <= u32::MAX by {
            assert(c@.scopes[i] == snap.scopes@[i]@);
        }
    }
    put_str_list(&mut out, &snap.scopes);
    match snap.timescale {
        Some(e) => {
            put_u8(&mut out, 1);
            put_u8(&mut out, e as u8);
        },
        None => {
            put_u8(&mut out, 0);
        },
    }
    proof {
        assert forall|i: int| 0 <= i < snap.signals@.len() implies sig_fits(sig_view(#[trigger] snap.signals@[i])) by {
            assert(c@.signals[i] == sig_view(snap.signals@[i]));
        }
    }
    put_sig_list(&mut out, &snap.signals);
    put_ts(&mut out, &snap.timestamps);
    put_u64_list(&mut out, &snap.offsets);
    proof {
        assert forall|i: int| 0 <= i < snap.anchors@.len() implies (#[trigger] snap.anchors@[i]).1@.len() <= u32::MAX by {
            assert(c@.anchors[i] == (snap.anchors@[i].0, snap.anchors@[i].1@));
        }
    }
    put_anchor_list(&mut out, &snap.anchors);
    put_u32_list(&mut out, &snap.events);
    proof {
        assert forall|i: int| 0 <= i < snap.points@.len() implies (#[trigger] snap.points@[i]).1@.len() <= u32::MAX by {
            assert(c@.points[i] == (snap.points@[i].0, snap.points@[i].1@));
        }
    }
    put_points_list(&mut out, &snap.points);
    proof {
        reveal(cache_body);
        assert(out@ =~= vcd_cache_bytes(*key, c@));
    }
    out
}

/// Read a cache under `key` (see `vcd_cache_decode`): its contents, or
/// `None` when it is not a cache of this format, was written for another
/// key, or does not read in full.
pub fn decode_vcd_cache(buf: &[u8], key: &CacheKey) -> (r: Option<VcdCacheSnapshot>)
    ensures
        match r {
            Some(x) => vcd_cache_decode(buf@, *key) == Some(snapshot_view(x)),
            None => vcd_cache_decode(buf@, *key) is None,
        },
{
    if buf.len() < 36 {
        return None;
    }
    let magic: [u8; 8] = [0x57, 0x41, 0x4c, 0x56, 0x43, 0x30, 0x30, 0x31];
    assert(magic@ =~= vc_magic());
    let mut i: usize = 0;
    while i < 8
        invariant
            i <= 8,
            buf@.len() >= 36,
            magic@ == vc_magic(),
            forall|k: int| 0 <= k < i ==> buf@[k] == magic@[k],
        decreases 8 - i,
    {
        if buf[i] != magic[i] {
            assert(buf@.subrange(0, 8)[i as int] != vc_magic()[i as int]);
            return None;
        }
        i = i + 1;
    }
    assert(buf@.subrange(0, 8) =~= vc_magic());
    if read_u32_le(buf, 8) != 1 || read_u64_le(buf, 12) != key.size || read_u64_le(buf, 20) != key.mtime
        || read_u64_le(buf, 28) != key.fingerprint {
        return None;
    }
    proof {
        reveal(rd_body);
    }
    let (header_end, p1) = match get_u64(buf, 36) {
        Some(x) => x,
        None => {
            return None;
        },
    };
    let (scopes, p2) = match get_str_list(buf, p1) {
        Some(x) => x,
        None => {
            return None;
        },
    };
    let (timescale, p3) = match get_tscale(buf, p2) {
        Some(x) => x,
        None => {
            return None;
        },
    };
    let (signals, p4) = match get_sig_list(buf, p3) {
        Some(x) => x,
        None => {
            return None;
        },
    };
    let (timestamps, p5) = match get_ts(buf, p4) {
        Some(x) => x,
        None => {
            return None;
        },
    };
    let (offsets, p6) = match get_u64_list(buf, p5) {
        Some(x) => x,
        None => {
            return None;
        },
    };
    let (anchors, p7) = match get_anchor_list(buf, p6) {
        Some(x) => x,
        None => {
            return None;
        },
    };
    let (events, p8) = match get_u32_list(buf, p7) {
        Some(x) => x,
        None => {
            return None;
        },
    };
    let (points, _p9) = match get_points_list(buf, p8) {
        Some(x) => x,
        None => {
            return None;
        },
    };
    let snap = VcdCacheSnapshot {
        header_end,
        scopes,
        timescale,
        signals,
        timestamps,
        offsets,
        anchors,
        events,
        points,
    };
    assert(rd_body(buf@, 36) =~= Some(snapshot_view(snap)));
    Some(snap)
}

} // verus!
