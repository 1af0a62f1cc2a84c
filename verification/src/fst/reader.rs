//! FST file reader over the bytes of a file.
//!
//! Supports both little-endian files (written by this library: header,
//! geometry with signal entries, hierarchy, value changes, zlib/gzip wrapper,
//! LZ4 hierarchy) and big-endian files (Icarus Verilog: header, then the
//! geometry and a gzip-compressed hierarchy stored at the end of the file).
use vstd::prelude::*;

use crate::bytes::{read_u64_be, read_u64_le, u64_from_be, u64_from_le};
use crate::fst::compress::{
    gzip_decode_all, gzip_read_to_end, lz4_decompress_prepended, lz4_decompress_size_prepended,
    zlib_decode_all, zlib_read_to_end,
};
use crate::fst::hier::{
    cstr_len, geom_entries_parse, hier_run, hier_start, parse_geom_entries, parse_hier_data,
    scope_views, HierState, ScopeInfo, ScopeView,
};
use crate::fst::types::{sig_views, FstHeader, HeaderView, SignalDecl, SignalView};
use crate::text::{lossy_utf8, string_from_utf8_lossy, str_eq};

verus! {

// ---------------------------------------------------------------------------
// Endianness
// ---------------------------------------------------------------------------

/// Bit patterns of the `f64` values within 0.001 of pi (3.141592653589793).
pub open spec fn near_pi(bits: u64) -> bool {
    0x40091fef0a89cee3 <= bits <= 0x400924079dfe8b4d
}

/// Bit patterns of the `f64` values within 0.001 of e (2.718281828459045).
pub open spec fn near_e(bits: u64) -> bool {
    0x4005bcfe4159f934 <= bits <= 0x4005c116d4ceb59e
}

/// Whether a file whose first bytes are `data` is big-endian: the block
/// length that fits in the file decides; when both or neither fit, the
/// endianness test value (pi for little-endian, e for big-endian) does;
/// otherwise little-endian.
pub open spec fn big_endian_spec(data: Seq<u8>, file_size: u64) -> bool {
    if data.len() < 9 {
        false
    } else {
        let le_len = u64_from_le(data.subrange(1, 9));
        let be_len = u64_from_be(data.subrange(1, 9));
        let le_ok = le_len < file_size;
        let be_ok = be_len < file_size;
        if le_ok && !be_ok {
            false
        } else if be_ok && !le_ok {
            true
        } else if data.len() >= 33 {
            let bits = u64_from_le(data.subrange(25, 33));
            if near_pi(bits) {
                false
            } else if near_e(bits) {
                true
            } else {
                false
            }
        } else {
            false
        }
    }
}

/// Detect FST endianness from the first bytes of a file: true if big-endian.
pub fn detect_endianness(data: &[u8], file_size: u64) -> (r: bool)
    ensures
        r == big_endian_spec(data@, file_size),
{
    if data.len() < 9 {
        return false;
    }
    let le_len: u64 = read_u64_le(data, 1);
    let be_len: u64 = read_u64_be(data, 1);
    let le_ok = le_len < file_size;
    let be_ok = be_len < file_size;
    if le_ok && !be_ok {
        return false;
    }
    if be_ok && !le_ok {
        return true;
    }
    if data.len() >= 33 {
        let bits: u64 = read_u64_le(data, 25);
        if 0x40091fef0a89cee3 <= bits && bits <= 0x400924079dfe8b4d {
            return false;
        }
        if 0x4005bcfe4159f934 <= bits && bits <= 0x4005c116d4ceb59e {
            return true;
        }
    }
    false
}

// ---------------------------------------------------------------------------
// The file model
// ---------------------------------------------------------------------------

/// The contents read from an FST file.
#[derive(Debug, Clone)]
pub struct FstFile {
    pub header: FstHeader,
    pub signals: Vec<SignalDecl>,
    pub scopes: Vec<ScopeInfo>,
}

/// What an FST file model holds.
pub struct FileView {
    pub header: HeaderView,
    pub signals: Seq<SignalView>,
    pub scopes: Seq<ScopeView>,
}

impl View for FstFile {
    type V = FileView;

    open spec fn view(&self) -> FileView {
        FileView {
            header: self.header@,
            signals: sig_views(self.signals@),
            scopes: scope_views(self.scopes@),
        }
    }
}

/// The reader's position and what it has read.
pub struct ReadState {
    pub pos: int,
    pub hdr_read: bool,
    pub file: FileView,
}

/// How a block handler ends.
pub enum BlockOut {
    /// The block was read; go on from the new state.
    Done(ReadState),
    /// The file ended inside the block: reading stops with what was read.
    Eof(FileView),
    /// A wrapped file failed to decompress (other than by ending early).
    Fail,
    /// The data holds a record that cannot be sliced.
    Malformed,
}

/// How reading a whole file ends.
pub enum ReadOutcome {
    Read(FileView),
    Fail,
    Malformed,
}

/// The `u64` at `p` in the file's byte order.
pub open spec fn rd64(d: Seq<u8>, be: bool, p: int) -> u64 {
    if be { u64_from_be(d.subrange(p, p + 8)) } else { u64_from_le(d.subrange(p, p + 8)) }
}

/// A 128-byte string field: its bytes up to the first zero, as lossy UTF-8.
pub open spec fn field128(d: Seq<u8>, p: int) -> Seq<char> {
    let f = d.subrange(p, p + 128);
    lossy_utf8(f.take(cstr_len(f, 0) as int))
}

/// The header fields read from a header block body at `s`, as far as the
/// data goes; the flag tells whether the whole body was there.
#[verifier::opaque]
pub open spec fn header_fields(d: Seq<u8>, be: bool, s: int, h: HeaderView) -> (HeaderView, bool) {
    let n = d.len() as int;
    if s + 8 > n {
        (h, false)
    } else if s + 16 > n {
        (HeaderView { start_time: rd64(d, be, s), ..h }, false)
    } else {
        let h2 = HeaderView { start_time: rd64(d, be, s), end_time: rd64(d, be, s + 8), ..h };
        if s + 40 > n {
            (h2, false)
        } else if s + 48 > n {
            (HeaderView { scope_count: rd64(d, be, s + 32), ..h2 }, false)
        } else if s + 56 > n {
            (HeaderView { scope_count: rd64(d, be, s + 32), var_count: rd64(d, be, s + 40), ..h2 }, false)
        } else {
            let h3 = HeaderView {
                scope_count: rd64(d, be, s + 32),
                var_count: rd64(d, be, s + 40),
                max_handle: rd64(d, be, s + 48),
                ..h2
            };
            if s + 65 > n {
                (h3, false)
            } else {
                let h4 = HeaderView { timescale_exp: d[s + 64] as i8, ..h3 };
                if s + 193 > n {
                    (h4, false)
                } else {
                    let h5 = HeaderView { version: field128(d, s + 65), ..h4 };
                    if s + 321 > n {
                        (h5, false)
                    } else {
                        (HeaderView { date: field128(d, s + 193), ..h5 }, true)
                    }
                }
            }
        }
    }
}

/// The hierarchy parser applied to `h` on top of a file's signals and scopes.
pub open spec fn with_hier(f: FileView, h: Seq<u8>) -> Option<FileView> {
    if h.len() >= usize::MAX {
        None
    } else {
    match hier_run(h, hier_start(f.signals, f.scopes)) {
        Some(t) => Some(FileView { signals: t.sigs, scopes: t.scopes, ..f }),
        None => None,
    }
    }
}

/// A geometry block of `bl` bytes whose body starts at `st.pos`.
#[verifier::opaque]
pub open spec fn geom_block_spec(d: Seq<u8>, be: bool, bl: u64, st: ReadState) -> BlockOut {
    let n = d.len() as int;
    let s = st.pos;
    if bl < 16 {
        BlockOut::Done(st)
    } else if s + 16 > n {
        BlockOut::Eof(st.file)
    } else {
        let unc = rd64(d, be, s + 8);
        let remaining = bl - 16;
        if remaining == 0 {
            BlockOut::Done(ReadState { pos: s + 16, ..st })
        } else {
            // The entry bytes and the position after them, or `None` for the
            // file's end, or a position at which to stop reading the block.
            let geom: Option<(Seq<u8>, bool)> = if unc > 0 && remaining < unc && remaining < 5000 {
                if s + 16 + remaining > n {
                    None
                } else {
                    let c = d.subrange(s + 16, s + 16 + remaining);
                    if c.len() >= 2 && c[0] == 0x78 {
                        match zlib_read_to_end(c) {
                            Ok(v) => Some((v, true)),
                            Err(_) => Some((Seq::empty(), false)),
                        }
                    } else {
                        Some((c, true))
                    }
                }
            } else {
                let p = if remaining >= 8 { s + 24 } else { s + 16 };
                let k = if remaining >= 8 { remaining - 8 } else { 0 };
                if p > n || p + k > n {
                    None
                } else {
                    Some((d.subrange(p, p + k), true))
                }
            };
            match geom {
                None => BlockOut::Eof(st.file),
                Some((g, go_on)) => if !go_on {
                    BlockOut::Done(ReadState { pos: s + 16 + remaining, ..st })
                } else {
                    let f = if be {
                        st.file
                    } else {
                        FileView { signals: geom_entries_parse(g, 0, st.file.signals), ..st.file }
                    };
                    let end = s + bl;
                    if !be {
                        BlockOut::Done(ReadState { pos: end, file: f, ..st })
                    } else if end + 2 <= n && d[end] == 0x1f && d[end + 1] == 0x8b {
                        // The two magic bytes have been consumed by the peek.
                        match gzip_read_to_end(d.subrange(end + 2, n)) {
                            Ok(h) => if h.len() > 0 {
                                match with_hier(f, h) {
                                    Some(f2) => BlockOut::Done(ReadState { pos: n, file: f2, ..st }),
                                    None => BlockOut::Malformed,
                                }
                            } else {
                                BlockOut::Done(ReadState { pos: n, file: f, ..st })
                            },
                            Err(_) => BlockOut::Done(ReadState { pos: n, file: f, ..st }),
                        }
                    } else {
                        BlockOut::Done(ReadState { pos: end, file: f, ..st })
                    }
                },
            }
        }
    }
}

/// A hierarchy block of `bl` bytes at `st.pos`, stored plainly or
/// LZ4-compressed.
#[verifier::opaque]
pub open spec fn hier_block_spec(d: Seq<u8>, bl: u64, st: ReadState, lz4: bool) -> BlockOut {
    let s = st.pos;
    if s + bl > d.len() {
        BlockOut::Eof(st.file)
    } else {
        let body = d.subrange(s, s + bl);
        let h = if lz4 { lz4_decompress_prepended(body) } else { Some(body) };
        match h {
            None => BlockOut::Done(ReadState { pos: s + bl, ..st }),
            Some(hd) => match with_hier(st.file, hd) {
                Some(f) => BlockOut::Done(ReadState { pos: s + bl, file: f, ..st }),
                None => BlockOut::Malformed,
            },
        }
    }
}

/// Signals added for aliases: a big-endian file declaring more variables
/// than its hierarchy named gets copies of the named ones, in turn.
pub open spec fn fill_aliases(f: FileView) -> FileView {
    let vc = f.header.var_count as usize as int;
    let sc = f.signals.len() as int;
    if sc < vc && sc > 0 {
        FileView {
            signals: f.signals + Seq::new(
                (vc - sc) as nat,
                |i: int|
                    SignalView { handle: (sc + i) as u32, ..f.signals[i % sc] },
            ),
            ..f
        }
    } else {
        f
    }
}

/// Position of the first 0x1f at or after `p` that leaves two bytes, or the
/// first position that does not.
pub open spec fn scan_to_gzip(t: Seq<u8>, p: int) -> int
    decreases t.len() - p,
{
    if p < 0 || p + 2 > t.len() || t[p] == 0x1f {
        p
    } else {
        scan_to_gzip(t, p + 1)
    }
}

/// The inline hierarchy some converters put after the geometry: a 0x52
/// marker, eight bytes, then records from the next 0xFE.
pub open spec fn inline_hier(t: Seq<u8>, p: int, f: FileView) -> Option<FileView>
    decreases t.len() - p,
{
    if p < 0 || p + 9 >= t.len() {
        Some(f)
    } else if t[p] == 0x52 && scan_to_fe_spec(t, p + 9) + 1 < t.len() {
        with_hier(f, t.skip(scan_to_fe_spec(t, p + 9)))
    } else {
        inline_hier(t, p + 1, f)
    }
}

/// Position of the first 0xFE at or after `p`, or the end.
pub open spec fn scan_to_fe_spec(t: Seq<u8>, p: int) -> int
    decreases t.len() - p,
{
    if p < 0 || p >= t.len() || t[p] == 0xFE {
        p
    } else {
        scan_to_fe_spec(t, p + 1)
    }
}

/// Whether a byte starts a geometry or hierarchy block.
pub open spec fn tail_block_type(b: u8) -> bool {
    b == 0x03 || b == 0x04 || b == 0x06 || b == 0x07
}

/// The search for geometry and hierarchy blocks in the tail `t`, from `p`.
pub open spec fn tail_scan(t: Seq<u8>, be: bool, p: int, f: FileView) -> Option<FileView>
    decreases t.len() - p,
{
    let n = t.len() as int;
    if p < 0 || p + 9 > n {
        Some(f)
    } else {
        let bt = t[p];
        if !tail_block_type(bt) {
            tail_scan(t, be, p + 1, f)
        } else {
            let bl = rd64(t, be, p + 1) as int;
            if bl < 8 || bl > 200000 || (bl > n - p - 9 && bt != 0x03 && bt != 0x06 && bt != 0x07) {
                tail_scan(t, be, p + 1, f)
            } else if bt == 0x03 {
                if p + 9 + bl > n {
                    None
                } else {
                    let hs = scan_to_gzip(t, p + 9 + bl);
                    if hs + 2 <= n && t[hs] == 0x1f && t[hs + 1] == 0x8b {
                        match gzip_read_to_end(t.skip(hs)) {
                            Ok(h) => if h.len() > 0 { with_hier(f, h) } else { Some(f) },
                            Err(_) => Some(f),
                        }
                    } else {
                        Some(f)
                    }
                }
            } else {
                let body_len = if bl < n - (p + 9) { bl } else { n - (p + 9) };
                let body = t.subrange(p + 9, p + 9 + body_len);
                if bt == 0x04 {
                    match with_hier(f, body) {
                        Some(f2) => tail_scan(t, be, p + 9 + body_len, f2),
                        None => None,
                    }
                } else if body.len() < 8 {
                    Some(f)
                } else {
                    let padded = body.skip(8) + Seq::new(8, |i: int| 0u8);
                    match lz4_decompress_prepended(padded) {
                        Some(h) => match with_hier(f, h) {
                            Some(f2) => tail_scan(t, be, p + 9 + body_len, f2),
                            None => None,
                        },
                        None => tail_scan(t, be, p + 9 + body_len, f),
                    }
                }
            }
        }
    }
}

/// The metadata at the end of a big-endian file, searched from `start`.
#[verifier::opaque]
pub open spec fn icarus_tail(d: Seq<u8>, be: bool, start: int, f: FileView) -> Option<FileView> {
    let n = d.len() as int;
    let tlen = if n >= start { n - start } else { 0 };
    if tlen < 50 || tlen > 200000 {
        Some(f)
    } else {
        let t = d.subrange(start, n);
        match inline_hier(t, 0, f) {
            None => None,
            Some(f1) => match tail_scan(t, be, 0, f1) {
                None => None,
                Some(f2) => Some(fill_aliases(f2)),
            },
        }
    }
}

/// The measure that bounds the reading loop.
pub open spec fn left(d: Seq<u8>, pos: int) -> nat {
    if pos <= d.len() { (d.len() + 1 - pos) as nat } else { 0 }
}

/// A header block whose body starts at `st1.pos`: it ends `bl` bytes on, or
/// at least 321.
#[verifier::opaque]
pub open spec fn header_out(d: Seq<u8>, be: bool, bl: u64, st1: ReadState) -> BlockOut {
    let p = st1.pos;
    let hf = header_fields(d, be, p, st1.file.header);
    if !hf.1 {
        BlockOut::Eof(FileView { header: hf.0, ..st1.file })
    } else {
        BlockOut::Done(
            ReadState {
                pos: p + if bl > 321 { bl as int } else { 321 },
                file: FileView { header: hf.0, ..st1.file },
                ..st1
            },
        )
    }
}

/// What decompressing a wrapper block's body gives: gzip when it starts
/// with the gzip magic bytes, zlib otherwise.
pub open spec fn unwrap_body(c: Seq<u8>) -> Result<Seq<u8>, bool> {
    if c.len() >= 2 && c[0] == 0x1f && c[1] == 0x8b {
        gzip_read_to_end(c)
    } else {
        zlib_read_to_end(c)
    }
}

/// A wrapper block: a gzip or zlib compressed FST file, read whole (its
/// reading ending as `nested`); its header replaces the file's and its
/// signals and scopes are added.
#[verifier::opaque]
pub open spec fn zwrap_out(d: Seq<u8>, bl: u64, st1: ReadState, depth: nat, nested: ReadOutcome) -> BlockOut {
    let n = d.len() as int;
    let p = st1.pos;
    if p + bl > n {
        BlockOut::Eof(st1.file)
    } else if depth == 0 {
        BlockOut::Done(ReadState { pos: p + bl, ..st1 })
    } else {
        match unwrap_body(d.subrange(p, p + bl)) {
            Err(eof) => if eof { BlockOut::Eof(st1.file) } else { BlockOut::Fail },
            Ok(inner) => match nested {
                ReadOutcome::Read(fi) => BlockOut::Done(
                    ReadState {
                        pos: p + bl,
                        file: FileView {
                            header: fi.header,
                            signals: st1.file.signals + fi.signals,
                            scopes: st1.file.scopes + fi.scopes,
                        },
                        ..st1
                    },
                ),
                ReadOutcome::Fail => BlockOut::Fail,
                ReadOutcome::Malformed => BlockOut::Malformed,
            },
        }
    }
}

/// The block of type `bt` and length `bl` whose body starts at `st1.pos`.
#[verifier::opaque]
pub open spec fn block_out(
    d: Seq<u8>,
    be: bool,
    bt: u8,
    bl: u64,
    st1: ReadState,
    depth: nat,
    nested: ReadOutcome,
) -> BlockOut {
    if bt == 0x00 {
        header_out(d, be, bl, st1)
    } else if bt == 0x01 || bt == 0x02 {
        BlockOut::Done(ReadState { pos: st1.pos + bl, ..st1 })
    } else if bt == 0x03 {
        geom_block_spec(d, be, bl, st1)
    } else if bt == 0x04 {
        hier_block_spec(d, bl, st1, false)
    } else if bt == 0x06 || bt == 0x07 {
        hier_block_spec(d, bl, st1, true)
    } else if bt == 0xFE {
        zwrap_out(d, bl, st1, depth, nested)
    } else {
        BlockOut::Done(ReadState { pos: st1.pos + 1, ..st1 })
    }
}

/// Reading blocks from `st` on. `depth` bounds how many wrapped files
/// inside wrapped files are read; a wrapper deeper than that is skipped.
pub open spec fn read_loop(d: Seq<u8>, be: bool, st: ReadState, h0: HeaderView, depth: nat) -> ReadOutcome
    decreases depth, left(d, st.pos),
{
    let n = d.len() as int;
    let s = st.pos;
    if s < 0 || s + 9 > n {
        ReadOutcome::Read(st.file)
    } else {
        let bt = d[s];
        let bl = rd64(d, be, s + 1);
        let p = s + 9;
        if bl >= n {
            read_loop(d, be, ReadState { pos: p, ..st }, h0, depth)
        } else if bt == 0 && st.hdr_read {
            read_loop(d, be, ReadState { pos: p + bl, ..st }, h0, depth)
        } else if st.hdr_read && be {
            let ss = if n > 4000 { n - 4000 } else { 0 };
            match icarus_tail(d, be, ss, st.file) {
                Some(f) => ReadOutcome::Read(f),
                None => ReadOutcome::Malformed,
            }
        } else {
            let nested = if bt == 0xFE && depth > 0 && p + bl <= n {
                match unwrap_body(d.subrange(p, p + bl)) {
                    Ok(inner) => read_loop(
                        inner,
                        big_endian_spec(inner, inner.len() as u64),
                        start_state(h0),
                        h0,
                        (depth - 1) as nat,
                    ),
                    Err(_) => ReadOutcome::Fail,
                }
            } else {
                ReadOutcome::Fail
            };
            match block_out(d, be, bt, bl, ReadState { pos: p, ..st }, depth, nested) {
                BlockOut::Done(st2) => if st2.pos > s {
                    read_loop(
                        d,
                        be,
                        ReadState { hdr_read: st.hdr_read || bt == 0, ..st2 },
                        h0,
                        depth,
                    )
                } else {
                    ReadOutcome::Read(st2.file)
                },
                BlockOut::Eof(f) => ReadOutcome::Read(f),
                BlockOut::Fail => ReadOutcome::Fail,
                BlockOut::Malformed => ReadOutcome::Malformed,
            }
        }
    }
}

/// How reading the file wrapped in a block of type `bt` and length `bl` at
/// `p` ends (unused for other blocks).
pub open spec fn nested_of(d: Seq<u8>, bt: u8, bl: u64, p: int, h0: HeaderView, depth: nat) -> ReadOutcome {
    if bt == 0xFE && depth > 0 && p + bl <= d.len() {
        match unwrap_body(d.subrange(p, p + bl)) {
            Ok(inner) => read_loop(
                inner,
                big_endian_spec(inner, inner.len() as u64),
                start_state(h0),
                h0,
                (depth - 1) as nat,
            ),
            Err(_) => ReadOutcome::Fail,
        }
    } else {
        ReadOutcome::Fail
    }
}

/// One step of the reading loop over an ordinary block.
proof fn lemma_read_loop_block(d: Seq<u8>, be: bool, st: ReadState, h0: HeaderView, depth: nat)
    requires
        0 <= st.pos,
        st.pos + 9 <= d.len(),
        rd64(d, be, st.pos + 1) < d.len(),
        !(d[st.pos] == 0 && st.hdr_read),
        !(st.hdr_read && be),
    ensures
        read_loop(d, be, st, h0, depth) == match block_out(
            d,
            be,
            d[st.pos],
            rd64(d, be, st.pos + 1),
            ReadState { pos: st.pos + 9, ..st },
            depth,
            nested_of(d, d[st.pos], rd64(d, be, st.pos + 1), st.pos + 9, h0, depth),
        ) {
            BlockOut::Done(st2) => if st2.pos > st.pos {
                read_loop(
                    d,
                    be,
                    ReadState { hdr_read: st.hdr_read || d[st.pos] == 0, ..st2 },
                    h0,
                    depth,
                )
            } else {
                ReadOutcome::Read(st2.file)
            },
            BlockOut::Eof(f) => ReadOutcome::Read(f),
            BlockOut::Fail => ReadOutcome::Fail,
            BlockOut::Malformed => ReadOutcome::Malformed,
        },
{
}

/// A reader's state before the first block.
pub open spec fn start_state(h0: HeaderView) -> ReadState {
    ReadState {
        pos: 0,
        hdr_read: false,
        file: FileView { header: h0, signals: Seq::empty(), scopes: Seq::empty() },
    }
}

/// Reading a whole file whose model starts with header `h0`.
pub open spec fn read_fst(d: Seq<u8>, h0: HeaderView, depth: nat) -> ReadOutcome {
    read_loop(d, big_endian_spec(d, d.len() as u64), start_state(h0), h0, depth)
}

/// How many wrapped files inside wrapped files are read.
pub open spec fn max_wrap_depth() -> nat {
    8
}

// ---------------------------------------------------------------------------
// Implementation
// ---------------------------------------------------------------------------

/// Why reading a file failed.
#[derive(Debug, Clone, Copy, PartialEq, Eq, Structural)]
pub enum FstReadError {
    /// A wrapped file could not be decompressed.
    Decompress,
    /// A hierarchy record or a block at the end of a big-endian file runs
    /// past the data in a way that cannot be read.
    Malformed,
}

/// The result of one block handler.
enum StepResult {
    Done(u128),
    Eof,
    Fail,
    Malformed,
}

/// A handler's result agrees with its specification, the file model being
/// `f` after it.
spec fn step_agrees(r: StepResult, out: BlockOut, f: FileView) -> bool {
    match out {
        BlockOut::Done(st2) => r matches StepResult::Done(np) && np == st2.pos && f == st2.file,
        BlockOut::Eof(fe) => r matches StepResult::Eof && f == fe,
        BlockOut::Fail => r matches StepResult::Fail,
        BlockOut::Malformed => r matches StepResult::Malformed,
    }
}

/// The `u64` at `p` in the file's byte order.
fn rd64_at(data: &[u8], be: bool, p: usize) -> (r: u64)
    requires
        p + 8 <= data@.len(),
    ensures
        r == rd64(data@, be, p as int),
{
    if be {
        read_u64_be(data, p)
    } else {
        read_u64_le(data, p)
    }
}

/// A 128-byte string field.
fn read_field128(data: &[u8], p: usize) -> (s: String)
    requires
        p + 128 <= data@.len(),
    ensures
        s@ == field128(data@, p as int),
{
    let _n: usize = data.len();
    let f: &[u8] = vstd::slice::slice_subrange(data, p, p + 128);
    let mut k: usize = 0;
    proof {
        crate::fst::hier::lemma_cstr_len_bound(f@, 0);
    }
    while k < 128 && f[k] != 0
        invariant
            k <= 128,
            f@.len() == 128,
            cstr_len(f@, 0) == k + cstr_len(f@, k as int),
        decreases 128 - k,
    {
        k = k + 1;
    }
    let bytes: &[u8] = vstd::slice::slice_subrange(f, 0, k);
    assert(bytes@ =~= f@.take(cstr_len(f@, 0) as int));
    string_from_utf8_lossy(bytes)
}

/// Read the header fields from a header block body at `p`, as far as the
/// data goes; returns whether the whole body was there.
fn read_header_fields(data: &[u8], be: bool, p: usize, hdr: &mut FstHeader) -> (complete: bool)
    ensures
        (final(hdr)@, complete) == header_fields(data@, be, p as int, old(hdr)@),
{
    reveal(header_fields);
    let n: usize = data.len();
    if p > n || n - p < 8 {
        return false;
    }
    hdr.start_time = rd64_at(data, be, p);
    if n - p < 16 {
        return false;
    }
    hdr.end_time = rd64_at(data, be, p + 8);
    if n - p < 40 {
        return false;
    }
    hdr.scope_count = rd64_at(data, be, p + 32);
    if n - p < 48 {
        return false;
    }
    hdr.var_count = rd64_at(data, be, p + 40);
    if n - p < 56 {
        return false;
    }
    hdr.max_handle = rd64_at(data, be, p + 48);
    if n - p < 65 {
        return false;
    }
    hdr.timescale_exp = data[p + 64] as i8;
    if n - p < 193 {
        return false;
    }
    hdr.version = read_field128(data, p + 65);
    if n - p < 321 {
        return false;
    }
    hdr.date = read_field128(data, p + 193);
    true
}

/// Apply the hierarchy parser to `h` on top of the file's lists.
fn apply_hier(h: &[u8], file: &mut FstFile) -> (ok: bool)
    ensures
        ok == (with_hier(old(file)@, h@) is Some),
        ok ==> final(file)@ == with_hier(old(file)@, h@)->0,
{
    if h.len() == usize::MAX {
        return false;
    }
    let ok = parse_hier_data(h, &mut file.signals, &mut file.scopes);
    ok
}

/// A geometry block of `bl` bytes whose body starts at `p`.
fn read_geom(data: &[u8], be: bool, bl: u64, p: usize, hdr_read: bool, file: &mut FstFile) -> (r: StepResult)
    requires
        p <= data@.len(),
    ensures
        step_agrees(
            r,
            geom_block_spec(
                data@,
                be,
                bl,
                ReadState { pos: p as int, hdr_read, file: old(file)@ },
            ),
            final(file)@,
        ),
{
    reveal(geom_block_spec);
    let n: usize = data.len();
    if bl < 16 {
        return StepResult::Done(p as u128);
    }
    if n - p < 16 {
        return StepResult::Eof;
    }
    let unc: u64 = rd64_at(data, be, p + 8);
    let remaining: u64 = bl - 16;
    if remaining == 0 {
        return StepResult::Done((p + 16) as u128);
    }
    let mut geom: Vec<u8> = Vec::new();
    if unc > 0 && remaining < unc && remaining < 5000 {
        let rem: usize = remaining as usize;
        if n - p - 16 < rem {
            return StepResult::Eof;
        }
        let c: &[u8] = vstd::slice::slice_subrange(data, p + 16, p + 16 + rem);
        if c.len() >= 2 && c[0] == 0x78 {
            match zlib_decode_all(c) {
                Ok(v) => {
                    geom = v;
                },
                Err(_) => {
                    return StepResult::Done((p + 16 + rem) as u128);
                },
            }
        } else {
            geom = vstd::slice::slice_to_vec(c);
        }
    } else {
        if remaining >= 8 && n - p < 24 {
            return StepResult::Eof;
        }
        let q: usize = if remaining >= 8 { p + 24 } else { p + 16 };
        let k: u64 = if remaining >= 8 { remaining - 8 } else { 0 };
        if ((n - q) as u64) < k {
            return StepResult::Eof;
        }
        let ku: usize = k as usize;
        geom = vstd::slice::slice_to_vec(vstd::slice::slice_subrange(data, q, q + ku));
    }
    if !be {
        parse_geom_entries(geom.as_slice(), &mut file.signals);
    }
    let end: u128 = (p as u128) + (bl as u128);
    if !be {
        return StepResult::Done(end);
    }
    if end + 2 <= n as u128 {
        let e: usize = end as usize;
        if data[e] == 0x1f && data[e + 1] == 0x8b {
            let rest: &[u8] = vstd::slice::slice_subrange(data, e + 2, n);
            match gzip_decode_all(rest) {
                Ok(h) => {
                    if h.len() > 0 {
                        if !apply_hier(h.as_slice(), file) {
                            return StepResult::Malformed;
                        }
                    }
                    return StepResult::Done(n as u128);
                },
                Err(_) => {
                    return StepResult::Done(n as u128);
                },
            }
        }
    }
    StepResult::Done(end)
}

/// A hierarchy block of `bl` bytes at `p`, plain or LZ4-compressed.
fn read_hier(data: &[u8], bl: u64, p: usize, lz4: bool, hdr_read: bool, file: &mut FstFile) -> (r: StepResult)
    requires
        p <= data@.len(),
    ensures
        step_agrees(
            r,
            hier_block_spec(
                data@,
                bl,
                ReadState { pos: p as int, hdr_read, file: old(file)@ },
                lz4,
            ),
            final(file)@,
        ),
{
    reveal(hier_block_spec);
    let n: usize = data.len();
    if ((n - p) as u64) < bl {
        return StepResult::Eof;
    }
    let b: usize = bl as usize;
    let body: &[u8] = vstd::slice::slice_subrange(data, p, p + b);
    let end: u128 = (p + b) as u128;
    if lz4 {
        match lz4_decompress_size_prepended(body) {
            None => StepResult::Done(end),
            Some(h) => {
                if apply_hier(h.as_slice(), file) {
                    StepResult::Done(end)
                } else {
                    StepResult::Malformed
                }
            },
        }
    } else {
        if apply_hier(body, file) {
            StepResult::Done(end)
        } else {
            StepResult::Malformed
        }
    }
}


/// The inline hierarchy after a 0x52 marker in the tail `t`.
fn read_inline_hier(t: &[u8], file: &mut FstFile) -> (ok: bool)
    ensures
        ok == (inline_hier(t@, 0, old(file)@) is Some),
        ok ==> final(file)@ == inline_hier(t@, 0, old(file)@)->0,
{
    let n: usize = t.len();
    let mut p: usize = 0;
    while p < n && n - p > 9
        invariant
            n == t@.len(),
            p <= n,
            file@ == old(file)@,
            inline_hier(t@, 0, old(file)@) == inline_hier(t@, p as int, old(file)@),
        decreases n - p,
    {
        if t[p] == 0x52 {
            let mut hp: usize = p + 9;
            proof {
                lemma_scan_to_fe_spec(t@, hp as int);
            }
            while hp < n && t[hp] != 0xFE
                invariant
                    p + 9 <= hp <= n,
                    n == t@.len(),
                    scan_to_fe_spec(t@, (p + 9) as int) == scan_to_fe_spec(t@, hp as int),
                decreases n - hp,
            {
                hp = hp + 1;
            }
            if hp < n && n - hp > 1 {
                let rest: &[u8] = vstd::slice::slice_subrange(t, hp, n);
                assert(rest@ =~= t@.skip(hp as int));
                return apply_hier(rest, file);
            }
        }
        p = p + 1;
    }
    true
}

proof fn lemma_scan_to_fe_spec(t: Seq<u8>, p: int)
    requires
        0 <= p <= t.len(),
    ensures
        p <= scan_to_fe_spec(t, p) <= t.len(),
    decreases t.len() - p,
{
    if p < t.len() && t[p] != 0xFE {
        lemma_scan_to_fe_spec(t, p + 1);
    }
}

proof fn lemma_scan_to_gzip(t: Seq<u8>, p: int)
    requires
        0 <= p,
    ensures
        p <= scan_to_gzip(t, p),
        scan_to_gzip(t, p) + 2 <= t.len() ==> t[scan_to_gzip(t, p)] == 0x1f,
    decreases t.len() - p,
{
    if p + 2 <= t.len() && t[p] != 0x1f {
        lemma_scan_to_gzip(t, p + 1);
    }
}

/// The geometry and hierarchy blocks found in the tail `t`.
fn read_tail_blocks(t: &[u8], be: bool, file: &mut FstFile) -> (ok: bool)
    ensures
        ok == (tail_scan(t@, be, 0, old(file)@) is Some),
        ok ==> final(file)@ == tail_scan(t@, be, 0, old(file)@)->0,
{
    let n: usize = t.len();
    let mut p: usize = 0;
    while p < n && n - p >= 9
        invariant
            n == t@.len(),
            p <= n,
            tail_scan(t@, be, 0, old(file)@) == tail_scan(t@, be, p as int, file@),
        decreases n - p,
    {
        let bt: u8 = t[p];
        if !(bt == 0x03 || bt == 0x04 || bt == 0x06 || bt == 0x07) {
            p = p + 1;
        } else {
            let bl: u64 = rd64_at(t, be, p + 1);
            let avail: usize = n - p - 9;
            if bl < 8 || bl > 200000 || (bl > avail as u64 && bt != 0x03 && bt != 0x06 && bt
                != 0x07) {
                p = p + 1;
            } else if bt == 0x03 {
                let b: usize = bl as usize;
                if b > avail {
                    return false;
                }
                let mut hs: usize = p + 9 + b;
                proof {
                    lemma_scan_to_gzip(t@, hs as int);
                }
                while hs <= n && n - hs >= 2 && t[hs] != 0x1f
                    invariant
                        p + 9 + b <= hs,
                        n == t@.len(),
                        scan_to_gzip(t@, (p + 9 + b) as int) == scan_to_gzip(t@, hs as int),
                    decreases n + 1 - hs,
                {
                    hs = hs + 1;
                }
                proof {
                    lemma_scan_to_gzip(t@, hs as int);
                }
                if hs <= n && n - hs >= 2 && t[hs] == 0x1f && t[hs + 1] == 0x8b {
                    let rest: &[u8] = vstd::slice::slice_subrange(t, hs, n);
                    assert(rest@ =~= t@.skip(hs as int));
                    match gzip_decode_all(rest) {
                        Ok(h) => {
                            if h.len() > 0 {
                                return apply_hier(h.as_slice(), file);
                            }
                            return true;
                        },
                        Err(_) => {
                            return true;
                        },
                    }
                }
                return true;
            } else {
                let body_len: usize = if (bl as usize) < avail { bl as usize } else { avail };
                let body: &[u8] = vstd::slice::slice_subrange(t, p + 9, p + 9 + body_len);
                if bt == 0x04 {
                    if !apply_hier(body, file) {
                        return false;
                    }
                } else {
                    if body.len() < 8 {
                        return true;
                    }
                    let mut padded: Vec<u8> = vstd::slice::slice_to_vec(
                        vstd::slice::slice_subrange(body, 8, body.len()),
                    );
                    let mut z: usize = 0;
                    let ghost base = padded@;
                    while z < 8
                        invariant
                            z <= 8,
                            padded@ == base + Seq::new(z as nat, |i: int| 0u8),
                        decreases 8 - z,
                    {
                        padded.push(0);
                        z = z + 1;
                        assert(padded@ =~= base + Seq::new(z as nat, |i: int| 0u8));
                    }
                    assert(padded@ =~= body@.skip(8) + Seq::new(8, |i: int| 0u8));
                    match lz4_decompress_size_prepended(padded.as_slice()) {
                        Some(h) => {
                            if !apply_hier(h.as_slice(), file) {
                                return false;
                            }
                        },
                        None => {},
                    }
                }
                p = p + 9 + body_len;
            }
        }
    }
    true
}

/// Copies of the named signals for the variables the hierarchy did not name.
fn fill_alias_signals(file: &mut FstFile)
    ensures
        final(file)@ == fill_aliases(old(file)@),
{
    let vc: usize = file.header.var_count as usize;
    let sc: usize = file.signals.len();
    if !(sc < vc && sc > 0) {
        return ;
    }
    let ghost orig = file@.signals;
    let add: usize = vc - sc;
    let mut i: usize = 0;
    while i < add
        invariant
            i <= add,
            add == vc - sc,
            sc > 0,
            sc == orig.len(),
            file.signals@.len() == sc + i,
            file@.header == old(file)@.header,
            file@.scopes == old(file)@.scopes,
            file@.signals == orig + Seq::new(
                i as nat,
                |j: int| SignalView { handle: (sc + j) as u32, ..orig[j % (sc as int)] },
            ),
        decreases add - i,
    {
        let parent: usize = i % sc;
        assert(file@.signals[parent as int] == orig[parent as int]);
        let name: String = file.signals[parent].name.clone();
        let width: u32 = file.signals[parent].width;
        let var_type = file.signals[parent].var_type;
        let handle: u32 = (sc + i) as u32;
        let ghost prev_sigs = file@.signals;
        file.signals.push(SignalDecl { handle, name, width, var_type });
        proof {
            assert(file@.signals =~= prev_sigs.push(
                SignalView { handle: (sc + i) as u32, ..orig[(i as int) % (sc as int)] },
            ));
            assert(file@.signals =~= orig + Seq::new(
                (i + 1) as nat,
                |j: int| SignalView { handle: (sc + j) as u32, ..orig[j % (sc as int)] },
            ));
        }
        i = i + 1;
    }
}

/// The metadata at the end of a big-endian file, searched from `start`.
fn read_icarus_tail(data: &[u8], be: bool, start: usize, file: &mut FstFile) -> (ok: bool)
    ensures
        ok == (icarus_tail(data@, be, start as int, old(file)@) is Some),
        ok ==> final(file)@ == icarus_tail(data@, be, start as int, old(file)@)->0,
{
    reveal(icarus_tail);
    let n: usize = data.len();
    let tlen: usize = if n >= start { n - start } else { 0 };
    if tlen < 50 || tlen > 200000 {
        return true;
    }
    let t: &[u8] = vstd::slice::slice_subrange(data, start, n);
    if !read_inline_hier(t, file) {
        return false;
    }
    if !read_tail_blocks(t, be, file) {
        return false;
    }
    fill_alias_signals(file);
    true
}

/// A copy of a header.
fn copy_header(h: &FstHeader) -> (r: FstHeader)
    ensures
        r@ == h@,
{
    FstHeader {
        start_time: h.start_time,
        end_time: h.end_time,
        timescale_exp: h.timescale_exp,
        version: h.version.clone(),
        date: h.date.clone(),
        scope_count: h.scope_count,
        var_count: h.var_count,
        max_handle: h.max_handle,
    }
}

/// Read a wrapper block of length `bl` whose body starts at `p`.
fn read_zwrapper(
    data: &[u8],
    bl: u64,
    p: usize,
    hdr_read: bool,
    file: &mut FstFile,
    h0: &FstHeader,
    depth: u32,
) -> (r: StepResult)
    requires
        p <= data@.len(),
    ensures
        step_agrees(
            r,
            zwrap_out(
                data@,
                bl,
                ReadState { pos: p as int, hdr_read, file: old(file)@ },
                depth as nat,
                nested_of(data@, 0xFE, bl, p as int, h0@, depth as nat),
            ),
            final(file)@,
        ),
    decreases depth, 0nat,
{
    reveal(zwrap_out);
    let n: usize = data.len();
    if ((n - p) as u64) < bl {
        return StepResult::Eof;
    }
    if depth == 0 {
        return StepResult::Done((p as u128) + (bl as u128));
    }
    let b: usize = bl as usize;
    let c: &[u8] = vstd::slice::slice_subrange(data, p, p + b);
    let dec = if c.len() >= 2 && c[0] == 0x1f && c[1] == 0x8b {
        gzip_decode_all(c)
    } else {
        zlib_decode_all(c)
    };
    match dec {
        Err(eof) => {
            if eof {
                StepResult::Eof
            } else {
                StepResult::Fail
            }
        },
        Ok(inner) => {
            let ibe = detect_endianness(inner.as_slice(), inner.len() as u64);
            let mut inner_file = FstFile {
                header: copy_header(h0),
                signals: Vec::new(),
                scopes: Vec::new(),
            };
            assert(inner_file@.signals =~= Seq::<SignalView>::empty());
            assert(inner_file@.scopes =~= Seq::<ScopeView>::empty());
            let ir = read_blocks(inner.as_slice(), ibe, &mut inner_file, h0, depth - 1);
            match ir {
                Ok(()) => {
                    let ghost before = file@;
                    let ghost inner_v = inner_file@;
                    file.header = inner_file.header;
                    file.signals.append(&mut inner_file.signals);
                    file.scopes.append(&mut inner_file.scopes);
                    assert(file@.signals =~= before.signals + inner_v.signals);
                    assert(file@.scopes =~= before.scopes + inner_v.scopes);
                    StepResult::Done((p as u128) + (bl as u128))
                },
                Err(FstReadError::Decompress) => StepResult::Fail,
                Err(FstReadError::Malformed) => StepResult::Malformed,
            }
        },
    }
}

/// Read a header block whose body starts at `p`.
fn read_header_block(data: &[u8], be: bool, bl: u64, p: usize, hdr_read: bool, file: &mut FstFile) -> (r: StepResult)
    ensures
        step_agrees(
            r,
            header_out(data@, be, bl, ReadState { pos: p as int, hdr_read, file: old(file)@ }),
            final(file)@,
        ),
{
    reveal(header_out);
    let complete = read_header_fields(data, be, p, &mut file.header);
    if !complete {
        StepResult::Eof
    } else {
        let adv: u128 = if bl > 321 { bl as u128 } else { 321 };
        StepResult::Done((p as u128) + adv)
    }
}

/// Read the block of type `bt` and length `bl` whose body starts at `p`.
fn read_block(
    data: &[u8],
    be: bool,
    bt: u8,
    bl: u64,
    p: usize,
    hdr_read: bool,
    file: &mut FstFile,
    h0: &FstHeader,
    depth: u32,
) -> (r: StepResult)
    requires
        p <= data@.len(),
    ensures
        step_agrees(
            r,
            block_out(
                data@,
                be,
                bt,
                bl,
                ReadState { pos: p as int, hdr_read, file: old(file)@ },
                depth as nat,
                nested_of(data@, bt, bl, p as int, h0@, depth as nat),
            ),
            final(file)@,
        ),
    decreases depth, 1nat,
{
    let ghost st1 = ReadState { pos: p as int, hdr_read, file: file@ };
    let ghost nested = nested_of(data@, bt, bl, p as int, h0@, depth as nat);
    let ghost out = block_out(data@, be, bt, bl, st1, depth as nat, nested);
    proof {
        reveal(block_out);
    }
    if bt == 0x00 {
        assert(out == header_out(data@, be, bl, st1));
        read_header_block(data, be, bl, p, hdr_read, file)
    } else if bt == 0x01 || bt == 0x02 {
        assert(out == BlockOut::Done(ReadState { pos: st1.pos + bl, ..st1 }));
        StepResult::Done((p as u128) + (bl as u128))
    } else if bt == 0x03 {
        assert(out == geom_block_spec(data@, be, bl, st1));
        read_geom(data, be, bl, p, hdr_read, file)
    } else if bt == 0x04 {
        assert(out == hier_block_spec(data@, bl, st1, false));
        read_hier(data, bl, p, false, hdr_read, file)
    } else if bt == 0x06 || bt == 0x07 {
        assert(out == hier_block_spec(data@, bl, st1, true));
        read_hier(data, bl, p, true, hdr_read, file)
    } else if bt == 0xFE {
        assert(out == zwrap_out(data@, bl, st1, depth as nat, nested));
        read_zwrapper(data, bl, p, hdr_read, file, h0, depth)
    } else {
        assert(out == BlockOut::Done(ReadState { pos: st1.pos + 1, ..st1 }));
        StepResult::Done((p as u128) + 1)
    }
}

/// Read the blocks of `data` into `file`.
fn read_blocks(data: &[u8], be: bool, file: &mut FstFile, h0: &FstHeader, depth: u32) -> (r: Result<
    (),
    FstReadError,
>)
    ensures
        match read_loop(
            data@,
            be,
            ReadState { pos: 0, hdr_read: false, file: old(file)@ },
            h0@,
            depth as nat,
        ) {
            ReadOutcome::Read(f) => r is Ok && final(file)@ == f,
            ReadOutcome::Fail => r == Err::<(), FstReadError>(FstReadError::Decompress),
            ReadOutcome::Malformed => r == Err::<(), FstReadError>(FstReadError::Malformed),
        },
    decreases depth, 2nat,
{
    let ghost d = data@;
    let ghost st0 = ReadState { pos: 0, hdr_read: false, file: file@ };
    let n: usize = data.len();
    let mut pos: u128 = 0;
    let mut hdr_read: bool = false;
    loop
        invariant
            d == data@,
            n == d.len(),
            st0 == (ReadState { pos: 0, hdr_read: false, file: old(file)@ }),
            read_loop(d, be, st0, h0@, depth as nat) == read_loop(
                d,
                be,
                ReadState { pos: pos as int, hdr_read, file: file@ },
                h0@,
                depth as nat,
            ),
        decreases left(d, pos as int),
    {
        let ghost st = ReadState { pos: pos as int, hdr_read, file: file@ };
        if n < 9 || pos > (n - 9) as u128 {
            return Ok(());
        }
        let s: usize = pos as usize;
        assert(s as int == pos as int);
        let bt: u8 = data[s];
        let bl: u64 = rd64_at(data, be, s + 1);
        let p: usize = s + 9;
        if bl as u128 >= n as u128 {
            pos = p as u128;
        } else if bt == 0 && hdr_read {
            pos = (p as u128) + (bl as u128);
        } else if hdr_read && be {
            let ss: usize = if n > 4000 { n - 4000 } else { 0 };
            if read_icarus_tail(data, be, ss, file) {
                return Ok(());
            } else {
                return Err(FstReadError::Malformed);
            }
        } else {
            let res = read_block(data, be, bt, bl, p, hdr_read, file, h0, depth);
            proof {
                lemma_read_loop_block(d, be, st, h0@, depth as nat);
            }
            match res {
                StepResult::Done(np) => {
                    if np > pos {
                        pos = np;
                        if bt == 0 {
                            hdr_read = true;
                        }
                    } else {
                        return Ok(());
                    }
                },
                StepResult::Eof => {
                    return Ok(());
                },
                StepResult::Fail => {
                    return Err(FstReadError::Decompress);
                },
                StepResult::Malformed => {
                    return Err(FstReadError::Malformed);
                },
            }
        }
    }
}

/// FST file reader.
pub struct FstReader {
    pub file: FstFile,
    big_endian: bool,
    file_size: u64,
}

impl FstReader {
    /// Whether the file is big-endian.
    pub closed spec fn big_endian_flag(&self) -> bool {
        self.big_endian
    }

    /// The size of the file read, in bytes.
    pub closed spec fn size(&self) -> u64 {
        self.file_size
    }

    /// What the reader read.
    pub closed spec fn file_model(&self) -> FileView {
        self.file@
    }

    /// Read an FST file from its bytes, its header model starting as `h0`
    /// (the header fields a file does not give keep `h0`'s values).
    pub fn from_bytes_with_header(data: &[u8], h0: FstHeader) -> (r: Result<FstReader, FstReadError>)
        ensures
            match read_fst(data@, h0@, max_wrap_depth()) {
                ReadOutcome::Read(f) => r matches Ok(rd) && rd.file_model() == f
                    && rd.big_endian_flag() == big_endian_spec(data@, data@.len() as u64)
                    && rd.size() == data@.len(),
                ReadOutcome::Fail => r matches Err(e) && e == FstReadError::Decompress,
                ReadOutcome::Malformed => r matches Err(e) && e == FstReadError::Malformed,
            },
    {
        let file_size: u64 = data.len() as u64;
        let be = detect_endianness(data, file_size);
        let h_copy = copy_header(&h0);
        let mut file = FstFile { header: h0, signals: Vec::new(), scopes: Vec::new() };
        assert(file@.signals =~= Seq::<SignalView>::empty());
        assert(file@.scopes =~= Seq::<ScopeView>::empty());
        match read_blocks(data, be, &mut file, &h_copy, 8) {
            Ok(()) => Ok(FstReader { file, big_endian: be, file_size }),
            Err(e) => Err(e),
        }
    }

    /// Read an FST file from its bytes; header fields the file does not
    /// give keep the values of a new header (dated by the clock).
    pub fn from_bytes(data: &[u8]) -> (r: Result<FstReader, FstReadError>)
        ensures
            exists|h0: FstHeader|
                h0.start_time == 0 && h0.end_time == 0 && h0.timescale_exp == -9 && h0.scope_count
                    == 0 && h0.var_count == 0 && h0.max_handle == 0 && h0.version@
                    == crate::fst::types::default_version() && match read_fst(
                    data@,
                    h0@,
                    max_wrap_depth(),
                ) {
                    ReadOutcome::Read(f) => r matches Ok(rd) && rd.file_model() == f
                        && rd.big_endian_flag() == big_endian_spec(data@, data@.len() as u64)
                    && rd.size() == data@.len(),
                    ReadOutcome::Fail => r matches Err(e) && e == FstReadError::Decompress,
                    ReadOutcome::Malformed => r matches Err(e) && e == FstReadError::Malformed,
                },
    {
        let h0 = FstHeader::default();
        let ghost hv = h0;
        let r = FstReader::from_bytes_with_header(data, h0);
        assert(hv.version@ == crate::fst::types::default_version());
        r
    }

    /// Whether the file is big-endian (Icarus Verilog style).
    pub fn is_big_endian(&self) -> (r: bool)
        ensures
            r == self.big_endian_flag(),
    {
        self.big_endian
    }

    /// The size of the file read, in bytes.
    pub fn file_size(&self) -> (r: u64)
        ensures
            r == self.size(),
    {
        self.file_size
    }
}

impl FstFile {
    /// The names of the signals, in order.
    pub fn signal_names(&self) -> (r: Vec<String>)
        ensures
            r@.len() == self@.signals.len(),
            forall|i: int| 0 <= i < r@.len() ==> #[trigger] r@[i]@ == self@.signals[i].name,
    {
        let mut out: Vec<String> = Vec::new();
        let mut i: usize = 0;
        while i < self.signals.len()
            invariant
                i <= self@.signals.len(),
                out@.len() == i,
                forall|j: int| 0 <= j < i ==> #[trigger] out@[j]@ == self@.signals[j].name,
            decreases self@.signals.len() - i,
        {
            out.push(self.signals[i].name.clone());
            i = i + 1;
        }
        out
    }

    /// The first signal with this name.
    pub fn signal_by_name(&self, name: &str) -> (r: Option<&SignalDecl>)
        ensures
            match r {
                Some(s) => exists|i: int|
                    0 <= i < self@.signals.len() && self.signals@[i] == *s && self@.signals[i].name
                        == name@ && forall|j: int|
                        0 <= j < i ==> #[trigger] self@.signals[j].name != name@,
                None => forall|j: int|
                    0 <= j < self@.signals.len() ==> #[trigger] self@.signals[j].name != name@,
            },
    {
        let mut i: usize = 0;
        while i < self.signals.len()
            invariant
                i <= self@.signals.len(),
                forall|j: int| 0 <= j < i ==> #[trigger] self@.signals[j].name != name@,
            decreases self@.signals.len() - i,
        {
            if str_eq(self.signals[i].name.as_str(), name) {
                return Some(&self.signals[i]);
            }
            i = i + 1;
        }
        None
    }

    /// The first signal with this handle.
    pub fn signal_by_handle(&self, handle: u32) -> (r: Option<&SignalDecl>)
        ensures
            match r {
                Some(s) => exists|i: int|
                    0 <= i < self@.signals.len() && self.signals@[i] == *s && s.handle == handle
                        && forall|j: int|
                        0 <= j < i ==> #[trigger] self@.signals[j].handle != handle,
                None => forall|j: int|
                    0 <= j < self@.signals.len() ==> #[trigger] self@.signals[j].handle != handle,
            },
    {
        let mut i: usize = 0;
        while i < self.signals.len()
            invariant
                i <= self@.signals.len(),
                forall|j: int| 0 <= j < i ==> #[trigger] self@.signals[j].handle != handle,
            decreases self@.signals.len() - i,
        {
            if self.signals[i].handle == handle {
                return Some(&self.signals[i]);
            }
            i = i + 1;
        }
        None
    }
}

} // verus!
