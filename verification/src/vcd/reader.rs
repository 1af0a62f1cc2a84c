//! Reading VCD files: compression detection from the file name, and a line
//! reader over file contents.
use vstd::prelude::*;
use vstd::string::StringSliceAdditionalSpecFns;
use vstd::utf8::{decode_utf8, encode_utf8, valid_utf8};

use crate::text::{lossy_utf8, str_from_utf8, string_from_utf8_lossy};
use crate::vcd::types::ci_word;

verus! {

/// Compression format of a VCD file.
#[derive(Debug, Clone, Copy, PartialEq, Eq, Structural)]
pub enum Compression {
    Plain,
    Gzip,
    Bzip2,
}

/// The compression an extension names: "gz" or "bz2" in any case.
pub open spec fn compression_of_ext(ext: Seq<u8>) -> Option<Compression> {
    if ci_word(ext, seq![0x67u8, 0x7a]) {
        Some(Compression::Gzip)
    } else if ci_word(ext, seq![0x62u8, 0x7a, 0x32]) {
        Some(Compression::Bzip2)
    } else {
        None
    }
}

/// ASCII case-insensitive comparison with a lower-case word (letters and
/// digits).
fn ci_word_bytes(s: &[u8], word: &[u8]) -> (r: bool)
    requires
        forall|i: int|
            0 <= i < word@.len() ==> (0x61 <= #[trigger] word@[i] <= 0x7a || 0x30 <= word@[i]
                <= 0x39),
    ensures
        r == ci_word(s@, word@),
{
    if s.len() != word.len() {
        return false;
    }
    let mut i: usize = 0;
    while i < word.len()
        invariant
            s@.len() == word@.len(),
            i <= word@.len(),
            forall|k: int|
                0 <= k < word@.len() ==> (0x61 <= #[trigger] word@[k] <= 0x7a || 0x30 <= word@[k]
                    <= 0x39),
            forall|k: int| 0 <= k < i ==> crate::vcd::types::ci_eq(s@[k], word@[k]),
        decreases word@.len() - i,
    {
        let b = s[i];
        let w = word[i];
        if !(b == w || (w >= 32 && b == w - 32)) {
            proof {
                assert(!crate::vcd::types::ci_eq(s@[i as int], word@[i as int]));
            }
            return false;
        }
        i = i + 1;
    }
    true
}

impl Compression {
    /// The compression an extension names ("gz", "bz2", any case).
    pub fn from_extension(ext: &str) -> (r: Option<Compression>)
        ensures
            r == compression_of_ext(ext.spec_bytes()),
    {
        let e: &[u8] = ext.as_bytes();
        let gz: [u8; 2] = [0x67, 0x7a];
        let bz2: [u8; 3] = [0x62, 0x7a, 0x32];
        assert(gz@ =~= seq![0x67u8, 0x7a]);
        assert(bz2@ =~= seq![0x62u8, 0x7a, 0x32]);
        if ci_word_bytes(e, &gz) {
            Some(Compression::Gzip)
        } else if ci_word_bytes(e, &bz2) {
            Some(Compression::Bzip2)
        } else {
            None
        }
    }
}

// ---------------------------------------------------------------------------
// File names
// ---------------------------------------------------------------------------

/// `p` with trailing separators and trailing `.` components removed
/// (`Path` normalizes them away).
pub open spec fn strip_path_tail(p: Seq<u8>) -> Seq<u8>
    decreases p.len(),
{
    if p.len() > 1 && p.last() == 0x2F {
        strip_path_tail(p.drop_last())
    } else if p.len() > 2 && p.last() == 0x2E && p[p.len() - 2] == 0x2F {
        strip_path_tail(p.drop_last().drop_last())
    } else {
        p
    }
}

/// Index of the last `b` in `s`, if any.
pub open spec fn last_index_of(s: Seq<u8>, b: u8) -> Option<nat>
    decreases s.len(),
{
    if s.len() == 0 {
        None
    } else if s.last() == b {
        Some((s.len() - 1) as nat)
    } else {
        last_index_of(s.drop_last(), b)
    }
}

/// The last component of a Unix path, when it is a file name (not empty,
/// `.` or `..`).
pub open spec fn path_file_name(p: Seq<u8>) -> Option<Seq<u8>> {
    let t = strip_path_tail(p);
    let name = match last_index_of(t, 0x2F) {
        Some(k) => t.skip(k + 1int),
        None => t,
    };
    if name.len() == 0 || name == seq![0x2Eu8] || name == seq![0x2Eu8, 0x2E] {
        None
    } else {
        Some(name)
    }
}

/// The extension of a path's file name: what follows its last `.`, unless
/// that `.` starts the name.
pub open spec fn path_extension(p: Seq<u8>) -> Option<Seq<u8>> {
    match path_file_name(p) {
        None => None,
        Some(name) => match last_index_of(name, 0x2E) {
            Some(k) => if k == 0 { None } else { Some(name.skip(k + 1int)) },
            None => None,
        },
    }
}

/// The compression a file name shows by its extension.
pub open spec fn compression_of_path(p: Seq<u8>) -> Compression {
    match path_extension(p) {
        Some(ext) => match compression_of_ext(ext) {
            Some(c) => c,
            None => Compression::Plain,
        },
        None => Compression::Plain,
    }
}

fn last_index(s: &[u8], hi: usize, b: u8) -> (r: Option<usize>)
    requires
        hi <= s@.len(),
    ensures
        match r {
            Some(k) => last_index_of(s@.take(hi as int), b) == Some(k as nat) && k < hi,
            None => last_index_of(s@.take(hi as int), b) is None,
        },
{
    let mut j: usize = hi;
    while j > 0
        invariant
            j <= hi <= s@.len(),
            last_index_of(s@.take(hi as int), b) == last_index_of(s@.take(j as int), b),
        decreases j,
    {
        proof {
            let t = s@.take(j as int);
            assert(t.drop_last() =~= s@.take(j - 1));
        }
        if s[j - 1] == b {
            return Some(j - 1);
        }
        j = j - 1;
    }
    None
}

/// Detect the compression of a file from its path's extension.
#[verifier::spinoff_prover]
#[verifier::rlimit(20)]
pub fn detect_compression(path: &str) -> (c: Compression)
    ensures
        c == compression_of_path(path.spec_bytes()),
{
    let p: &[u8] = path.as_bytes();
    // Strip trailing separators and `.` components.
    let mut end: usize = p.len();
    assert(p@.take(end as int) =~= p@);
    while (end > 1 && p[end - 1] == 0x2F) || (end > 2 && p[end - 1] == 0x2E && p[end - 2] == 0x2F)
        invariant
            end <= p@.len(),
            strip_path_tail(p@) == strip_path_tail(p@.take(end as int)),
        decreases end,
    {
        proof {
            let t = p@.take(end as int);
            assert(t.drop_last() =~= p@.take(end - 1));
            if end > 2 {
                assert(t.drop_last().drop_last() =~= p@.take(end - 2));
            }
        }
        if end > 1 && p[end - 1] == 0x2F {
            end = end - 1;
        } else {
            end = end - 2;
        }
    }
    let ghost t = p@.take(end as int);
    assert(strip_path_tail(t) == t);
    let start: usize = match last_index(p, end, 0x2F) {
        Some(k) => k + 1,
        None => 0,
    };
    let name: &[u8] = vstd::slice::slice_subrange(p, start, end);
    assert(name@ =~= (match last_index_of(t, 0x2F) {
        Some(k) => t.skip(k + 1int),
        None => t,
    }));
    let nlen: usize = name.len();
    if nlen == 0 || (nlen == 1 && name[0] == 0x2E) || (nlen == 2 && name[0] == 0x2E && name[1]
        == 0x2E) {
        assert(path_file_name(path.spec_bytes()) is None) by {
            if nlen == 1 {
                assert(name@ =~= seq![0x2Eu8]);
            }
            if nlen == 2 {
                assert(name@ =~= seq![0x2Eu8, 0x2E]);
            }
        }
        return Compression::Plain;
    }
    assert(name@ != seq![0x2Eu8]);
    assert(name@ != seq![0x2Eu8, 0x2E]);
    assert(name@.take(nlen as int) =~= name@);
    match last_index(name, nlen, 0x2E) {
        None => Compression::Plain,
        Some(k) => {
            if k == 0 {
                return Compression::Plain;
            }
            let ext: &[u8] = vstd::slice::slice_subrange(name, k + 1, nlen);
            assert(ext@ =~= name@.skip(k + 1));
            let gz: [u8; 2] = [0x67, 0x7a];
            let bz2: [u8; 3] = [0x62, 0x7a, 0x32];
            assert(gz@ =~= seq![0x67u8, 0x7a]);
            assert(bz2@ =~= seq![0x62u8, 0x7a, 0x32]);
            if ci_word_bytes(ext, &gz) {
                Compression::Gzip
            } else if ci_word_bytes(ext, &bz2) {
                Compression::Bzip2
            } else {
                Compression::Plain
            }
        },
    }
}

/// A file's path, size and compression.
pub struct FileInfo {
    pub path: String,
    pub size: u64,
    pub compression: Compression,
}

impl FileInfo {
    /// The information of the file at `path`, of `size` bytes; its
    /// compression comes from the path.
    pub fn new(path: &str, size: u64) -> (r: FileInfo)
        ensures
            r.path@ == path@,
            r.size == size,
            r.compression == compression_of_path(path.spec_bytes()),
    {
        FileInfo { path: path.to_string(), size, compression: detect_compression(path) }
    }
}

// ---------------------------------------------------------------------------
// Lines
// ---------------------------------------------------------------------------

/// Why a line could not be read.
#[derive(Debug, Clone, Copy, PartialEq, Eq, Structural)]
pub enum LineError {
    /// The line is not valid UTF-8.
    InvalidUtf8,
}

/// End of the line that starts at `pos`: one past its '\n', or the end.
pub open spec fn line_end(d: Seq<u8>, pos: int) -> int
    decreases d.len() - pos,
{
    if pos >= d.len() {
        d.len() as int
    } else if d[pos] == 0x0A {
        pos + 1
    } else {
        line_end(d, pos + 1)
    }
}

/// A line that starts inside the data ends after it starts and within the data.
pub proof fn lemma_line_end(d: Seq<u8>, pos: int)
    requires
        0 <= pos < d.len(),
    ensures
        pos < line_end(d, pos) <= d.len(),
    decreases d.len() - pos,
{
    if d[pos] != 0x0A {
        if pos + 1 < d.len() {
            lemma_line_end(d, pos + 1);
        } else {
            assert(line_end(d, pos + 1) == d.len());
        }
    }
}

/// A line's bytes without its '\n' and then without a '\r' before it.
pub open spec fn strip_eol(b: Seq<u8>) -> Seq<u8> {
    let b1 = if b.len() > 0 && b.last() == 0x0A { b.drop_last() } else { b };
    if b1.len() > 0 && b1.last() == 0x0D { b1.drop_last() } else { b1 }
}

/// Line reader over the contents of a VCD file.
pub struct LineReader {
    data: Vec<u8>,
    pos: usize,
    line: usize,
}

/// A line reader's state: the contents, the read position and the number of
/// reads so far.
pub struct LineReaderView {
    pub data: Seq<u8>,
    pub pos: int,
    pub line: int,
}

impl View for LineReader {
    type V = LineReaderView;

    closed spec fn view(&self) -> LineReaderView {
        LineReaderView { data: self.data@, pos: self.pos as int, line: self.line as int }
    }
}

/// `line + 1` in the `usize` range, wrapping.
pub open spec fn next_line_number(line: int) -> int {
    if line + 1 > usize::MAX { 0 } else { line + 1 }
}

impl LineReader {
    /// A reader at the start of `data`.
    pub fn new(data: Vec<u8>) -> (r: LineReader)
        ensures
            r@.data == data@,
            r@.pos == 0,
            r@.line == 0,
    {
        LineReader { data, pos: 0, line: 0 }
    }

    /// The position is within the data.
    #[verifier::type_invariant]
    closed spec fn wf(&self) -> bool {
        self.pos <= self.data@.len()
    }

    /// Read the next line (without its line ending); `None` at the end. The
    /// line counter counts every call.
    pub fn read_line(&mut self) -> (r: Result<Option<String>, LineError>)
        ensures
            final(self)@.data == old(self)@.data,
            0 <= old(self)@.pos <= old(self)@.data.len(),
            0 <= final(self)@.pos <= final(self)@.data.len(),
            final(self)@.line == next_line_number(old(self)@.line),
            ({
                let d = old(self)@.data;
                let p = old(self)@.pos;
                if p >= d.len() {
                    r == Ok::<Option<String>, LineError>(None) && final(self)@.pos == p
                } else {
                    let e = line_end(d, p);
                    let b = d.subrange(p, e);
                    &&& final(self)@.pos == e
                    &&& valid_utf8(b) ==> (r matches Ok(Some(s)) && s@ == decode_utf8(
                        strip_eol(b),
                    ) && encode_utf8(s@) == strip_eol(b))
                    &&& !valid_utf8(b) ==> r == Err::<Option<String>, LineError>(
                        LineError::InvalidUtf8,
                    )
                }
            }),
    {
        proof {
            use_type_invariant(&*self);
        }
        self.line = self.line.wrapping_add(1);
        let n: usize = self.data.len();
        if self.pos >= n {
            return Ok(None);
        }
        let start: usize = self.pos;
        let mut q: usize = start;
        while q < n && self.data[q] != 0x0A
            invariant
                start <= q <= n,
                n == self.data@.len(),
                line_end(self.data@, start as int) == line_end(self.data@, q as int),
            decreases n - q,
        {
            q = q + 1;
        }
        let e: usize = if q < n { q + 1 } else { q };
        self.pos = e;
        let b: &[u8] = vstd::slice::slice_subrange(self.data.as_slice(), start, e);
        match str_from_utf8(b) {
            None => Err(LineError::InvalidUtf8),
            Some(_) => {
                // Strip the line ending.
                let mut hi: usize = b.len();
                if hi > 0 && b[hi - 1] == 0x0A {
                    hi = hi - 1;
                }
                if hi > 0 && b[hi - 1] == 0x0D {
                    hi = hi - 1;
                }
                let stripped: &[u8] = vstd::slice::slice_subrange(b, 0, hi);
                assert(stripped@ =~= strip_eol(b@));
                proof {
                    if valid_utf8(b@) {
                        if hi < b@.len() {
                            vstd::utf8::is_char_boundary_iff_not_is_continuation_byte(b@, hi as int);
                        } else {
                            vstd::utf8::is_char_boundary_start_end_of_seq(b@);
                        }
                        vstd::utf8::valid_utf8_split(b@, hi as int);
                        assert(b@.subrange(0, hi as int) =~= stripped@);
                        vstd::utf8::decode_utf8_encode_utf8(stripped@);
                    }
                }
                match str_from_utf8(stripped) {
                    Some(s) => Ok(Some(s.to_owned())),
                    None => Err(LineError::InvalidUtf8),
                }
            },
        }
    }

    /// Number of `read_line` calls so far.
    pub fn line_number(&self) -> (r: usize)
        ensures
            r == self@.line,
    {
        self.line
    }

    /// The remaining lines, with the line number before each read.
    pub fn lines(&mut self) -> (r: Lines<'_>)
        ensures
            *r.reader == *old(self),
            *final(self) == *final(r.reader),
    {
        Lines { reader: self }
    }
}

/// The lines of a reader, read one at a time.
pub struct Lines<'a> {
    pub reader: &'a mut LineReader,
}

impl<'a> Lines<'a> {
    /// The next line with the reader's line number before it was read;
    /// `None` at the end.
    pub fn next(&mut self) -> (r: Option<Result<(usize, String), LineError>>)
        ensures
            final(self).reader@.data == old(self).reader@.data,
            final(self).reader@.line == next_line_number(old(self).reader@.line),
            ({
                let d = old(self).reader@.data;
                let p = old(self).reader@.pos;
                if p >= d.len() {
                    r is None && final(self).reader@.pos == p
                } else {
                    let e = line_end(d, p);
                    let b = d.subrange(p, e);
                    &&& final(self).reader@.pos == e
                    &&& valid_utf8(b) ==> (r matches Some(Ok((n, s))) && n == old(self).reader@.line
                        && s@ == decode_utf8(strip_eol(b)))
                    &&& !valid_utf8(b) ==> (r matches Some(Err(e)) && e == LineError::InvalidUtf8)
                }
            }),
    {
        let line_num: usize = self.reader.line_number();
        match self.reader.read_line() {
            Ok(Some(line)) => Some(Ok((line_num, line))),
            Ok(None) => None,
            Err(e) => Some(Err(e)),
        }
    }
}


// ---------------------------------------------------------------------------
// Whole-file reader
// ---------------------------------------------------------------------------

/// Calls `memchr::memchr`, which returns the index of the first occurrence
/// of `needle` in `haystack`, or `None` when there is none (its documented
/// behaviour).
#[verifier::external_body]
pub(crate) fn memchr_first(needle: u8, haystack: &[u8]) -> (r: Option<usize>)
    ensures
        match r {
            Some(i) => i < haystack@.len() && haystack@[i as int] == needle && forall|k: int|
                0 <= k < i ==> haystack@[k] != needle,
            None => forall|k: int| 0 <= k < haystack@.len() ==> haystack@[k] != needle,
        },
{
    memchr::memchr(needle, haystack)
}

/// Why a seek was refused.
#[derive(Debug, Clone, Copy, PartialEq, Eq, Structural)]
pub enum SeekError {
    /// The offset lies beyond the end of the file.
    BeyondEnd,
}

/// Reader over the whole contents of an uncompressed VCD file (as mapped
/// into memory).
pub struct MmapReader {
    data: Vec<u8>,
    pos: usize,
    line: usize,
}

/// A whole-file reader's state: the contents, the read position and the
/// number of lines read.
pub struct MmapReaderView {
    pub data: Seq<u8>,
    pub pos: int,
    pub line: int,
}

impl View for MmapReader {
    type V = MmapReaderView;

    closed spec fn view(&self) -> MmapReaderView {
        MmapReaderView { data: self.data@, pos: self.pos as int, line: self.line as int }
    }
}

/// The bytes of the line from `p` as `read_line_bytes` gives them: without
/// its line ending when it ends in '\n', as it is when it runs to the end.
pub open spec fn raw_line(d: Seq<u8>, p: int) -> Seq<u8> {
    let b = d.subrange(p, line_end(d, p));
    if b.len() > 0 && b.last() == 0x0A { strip_eol(b) } else { b }
}

impl MmapReader {
    /// The position is within the data.
    #[verifier::type_invariant]
    closed spec fn wf(&self) -> bool {
        self.pos <= self.data@.len()
    }

    /// A reader at the start of `data`.
    pub fn from_data(data: Vec<u8>) -> (r: MmapReader)
        ensures
            r@.data == data@,
            r@.pos == 0,
            r@.line == 0,
    {
        MmapReader { data, pos: 0, line: 0 }
    }

    /// Read the next line (without its line ending) as text, with invalid
    /// UTF-8 replaced; `None` at the end, where the line counter stays.
    pub fn read_line(&mut self) -> (r: Option<String>)
        ensures
            final(self)@.data == old(self)@.data,
            0 <= old(self)@.pos <= old(self)@.data.len(),
            0 <= final(self)@.pos <= final(self)@.data.len(),
            ({
                let d = old(self)@.data;
                let p = old(self)@.pos;
                if p >= d.len() {
                    r is None && final(self)@.pos == p && final(self)@.line == old(self)@.line
                } else {
                    let e = line_end(d, p);
                    &&& final(self)@.pos == e
                    &&& final(self)@.line == next_line_number(old(self)@.line)
                    &&& r matches Some(s) && s@ == lossy_utf8(strip_eol(d.subrange(p, e)))
                }
            }),
    {
        proof {
            use_type_invariant(&*self);
        }
        let n: usize = self.data.len();
        if self.pos >= n {
            return None;
        }
        self.line = self.line.wrapping_add(1);
        let start: usize = self.pos;
        let mut q: usize = start;
        while q < n && self.data[q] != 0x0A
            invariant
                start <= q <= n,
                n == self.data@.len(),
                line_end(self.data@, start as int) == line_end(self.data@, q as int),
                forall|k: int| start <= k < q ==> self.data@[k] != 0x0A,
            decreases n - q,
        {
            q = q + 1;
        }
        proof {
            if q >= n {
                assert(line_end(self.data@, q as int) == n);
            }
        }
        let end: usize = q;
        let has_cr: bool = end > start && self.data[end - 1] == 0x0D;
        if q < n {
            self.pos = q + 1;
        } else {
            self.pos = q;
        }
        let line_stop: usize = if has_cr { end - 1 } else { end };
        let line: &[u8] = vstd::slice::slice_subrange(self.data.as_slice(), start, line_stop);
        proof {
            let d = self.data@;
            let b = d.subrange(start as int, self.pos as int);
            assert(line@ =~= strip_eol(b));
        }
        Some(string_from_utf8_lossy(line))
    }

    /// Read the next line's bytes: without its line ending when it ends in
    /// '\n'; a last line without one comes as it is. `None` at the end.
    pub fn read_line_bytes(&mut self) -> (r: Option<&[u8]>)
        ensures
            final(self)@.data == old(self)@.data,
            old(self)@.pos <= old(self)@.data.len(),
            final(self)@.pos <= final(self)@.data.len(),
            ({
                let d = old(self)@.data;
                let p = old(self)@.pos;
                if p >= d.len() {
                    r is None && final(self)@.pos == p && final(self)@.line == old(self)@.line
                } else {
                    &&& final(self)@.pos == line_end(d, p)
                    &&& final(self)@.line == next_line_number(old(self)@.line)
                    &&& r matches Some(s) && s@ == raw_line(d, p)
                }
            }),
    {
        proof {
            use_type_invariant(&*self);
        }
        let n: usize = self.data.len();
        if self.pos >= n {
            return None;
        }
        self.line = self.line.wrapping_add(1);
        let start: usize = self.pos;
        let window_end: usize = if n - start > 16384 { start + 16384 } else { n };
        let window: &[u8] = vstd::slice::slice_subrange(self.data.as_slice(), start, window_end);
        match memchr_first(0x0A, window) {
            Some(nl) => {
                proof {
                    assert forall|k: int| start <= k < start + nl implies self.data@[k] != 0x0A by {
                        assert(window@[k - start] == self.data@[k]);
                    }
                    assert(window@[nl as int] == self.data@[start + nl]);
                    lemma_line_end_at(self.data@, start as int, start + nl);
                }
                self.pos = start + nl + 1;
                let end: usize = start + nl;
                let has_cr: bool = end > start && self.data[end - 1] == 0x0D;
                let line_stop: usize = if has_cr { end - 1 } else { end };
                proof {
                    let b = self.data@.subrange(start as int, self.pos as int);
                    assert(b.last() == 0x0A);
                    assert(self.data@.subrange(start as int, line_stop as int) =~= strip_eol(b));
                }
                Some(vstd::slice::slice_subrange(self.data.as_slice(), start, line_stop))
            },
            None => {
                let mut q: usize = window_end;
                proof {
                    assert forall|k: int| start <= k < window_end implies self.data@[k] != 0x0A by {
                        assert(window@[k - start] == self.data@[k]);
                    }
                    lemma_line_end_skip(self.data@, start as int, window_end as int);
                }
                while q < n && self.data[q] != 0x0A
                    invariant
                        start < window_end <= q <= n,
                        n == self.data@.len(),
                        line_end(self.data@, start as int) == line_end(self.data@, q as int),
                        forall|k: int| start <= k < q ==> self.data@[k] != 0x0A,
                    decreases n - q,
                {
                    q = q + 1;
                }
                if q >= n {
                    self.pos = q;
                    proof {
                        assert(line_end(self.data@, q as int) == n);
                        let b = self.data@.subrange(start as int, n as int);
                        assert(b.last() != 0x0A);
                    }
                    return Some(vstd::slice::slice_subrange(self.data.as_slice(), start, n));
                }
                self.pos = q + 1;
                let end: usize = q;
                let has_cr: bool = end > start && self.data[end - 1] == 0x0D;
                let line_stop: usize = if has_cr { end - 1 } else { end };
                proof {
                    let b = self.data@.subrange(start as int, self.pos as int);
                    assert(b.last() == 0x0A);
                    assert(self.data@.subrange(start as int, line_stop as int) =~= strip_eol(b));
                }
                Some(vstd::slice::slice_subrange(self.data.as_slice(), start, line_stop))
            },
        }
    }

    /// Move the read position to `offset`; refused beyond the end.
    pub fn seek_to(&mut self, offset: u64) -> (r: Result<(), SeekError>)
        ensures
            final(self)@.data == old(self)@.data,
            final(self)@.line == old(self)@.line,
            offset > old(self)@.data.len() ==> r == Err::<(), SeekError>(SeekError::BeyondEnd)
                && final(self)@.pos == old(self)@.pos,
            offset <= old(self)@.data.len() ==> r is Ok && final(self)@.pos == offset,
    {
        if offset > self.data.len() as u64 {
            return Err(SeekError::BeyondEnd);
        }
        self.pos = offset as usize;
        Ok(())
    }

    /// The read position.
    pub fn current_offset(&self) -> (r: u64)
        ensures
            r == self@.pos,
            self@.pos <= self@.data.len(),
    {
        proof {
            use_type_invariant(self);
        }
        self.pos as u64
    }

    /// The whole contents.
    pub fn data(&self) -> (r: &[u8])
        ensures
            r@ == self@.data,
    {
        self.data.as_slice()
    }

    /// The length of the contents.
    pub fn data_len(&self) -> (r: usize)
        ensures
            r == self@.data.len(),
    {
        self.data.len()
    }

    /// Number of lines read so far.
    pub fn line_number(&self) -> (r: usize)
        ensures
            r == self@.line,
    {
        self.line
    }
}

/// Where the first '\n' from `p` is at `q`, the line ends just after it.
proof fn lemma_line_end_at(d: Seq<u8>, p: int, q: int)
    requires
        0 <= p <= q < d.len(),
        d[q] == 0x0A,
        forall|k: int| p <= k < q ==> d[k] != 0x0A,
    ensures
        line_end(d, p) == q + 1,
    decreases q - p,
{
    if p < q {
        lemma_line_end_at(d, p + 1, q);
    }
}

/// Skipping bytes that are not '\n' keeps the line's end.
proof fn lemma_line_end_skip(d: Seq<u8>, p: int, q: int)
    requires
        0 <= p <= q <= d.len(),
        forall|k: int| p <= k < q ==> d[k] != 0x0A,
    ensures
        line_end(d, p) == line_end(d, q),
    decreases q - p,
{
    if p < q {
        lemma_line_end_skip(d, p + 1, q);
    }
}

} // verus!
