//! FST file writer: signals, scopes and value changes in, FST bytes out.
//!
//! The writer keeps the bytes it has produced in memory; a caller that
//! streams to a file takes them with [`FstWriter::take_output`] as it goes.
//! The file starts with a header block written when the writer is created;
//! value-change blocks follow as they fill up, and closing the writer adds
//! the geometry and hierarchy blocks.
use vstd::prelude::*;
use vstd::string::StringExecFns;
use vstd::string::StringSliceAdditionalSpecFns;

use crate::bytes::le64;
use crate::fst::blocks::{
    encode_scope_entry, encode_var_entry, framed_block, geom_body, header_body, scope_entry,
    str_bytes, var_entry, BlockWriter,
};
use crate::fst::compress::{compress_with, compressed_with};
use crate::fst::types::{
    block_type_code, sig_views, BlockType, Compression, FstHeader, HeaderView, ScopeType,
    SignalDecl, SignalView, VarType,
};
use crate::fst::vcdata::{
    block_08, build_block_08, entries_packable, entry_views, packable, width_of, wrap_add64,
    BlockEntry, EntryView,
};
use crate::text::str_eq;

verus! {

/// FST writer options.
#[derive(Debug, Clone, Copy)]
pub struct FstOptions {
    pub compression: Compression,
    /// Block size estimate, in bytes, at which a value-change block is written.
    pub block_size: usize,
}

impl Default for FstOptions {
    fn default() -> (o: FstOptions)
        ensures
            o.compression == Compression::Lz4,
            o.block_size == 64 * 1024 * 1024,
    {
        FstOptions { compression: Compression::Lz4, block_size: 64 * 1024 * 1024 }
    }
}

/// Statistics after closing an FST file.
#[derive(Debug, Clone, Copy)]
pub struct FstStats {
    pub output_bytes: u64,
    pub blocks_written: usize,
    pub signals: usize,
    pub scopes: usize,
    pub timestamps: usize,
    pub value_changes: usize,
}

/// FST file writer.
pub struct FstWriter {
    out: Vec<u8>,
    opts: FstOptions,
    header: FstHeader,
    scopes: Vec<String>,
    signals: Vec<SignalDecl>,
    block_timestamps: Vec<u64>,
    block_entries: Vec<BlockEntry>,
    current_block_time_begin: u64,
    bytes_written: u64,
    blocks_written: usize,
    timestamps_count: usize,
    value_changes_count: usize,
    header_held: bool,
}

/// The state of a writer.
pub struct WriterView {
    /// Bytes produced and not yet taken.
    pub output: Seq<u8>,
    pub options: FstOptions,
    pub header: HeaderView,
    /// Open scopes, outermost first.
    pub scopes: Seq<Seq<char>>,
    pub signals: Seq<SignalView>,
    /// Timestamps of the current block.
    pub timestamps: Seq<u64>,
    /// Value changes of the current block.
    pub entries: Seq<EntryView>,
    /// First timestamp of the current block.
    pub time_begin: u64,
    pub bytes_written: u64,
    pub blocks_written: usize,
    pub timestamps_count: usize,
    pub value_changes_count: usize,
    /// The header block written on creation still starts the output (no
    /// output was taken since), so closing rewrites it.
    pub header_held: bool,
}

impl View for FstWriter {
    type V = WriterView;

    closed spec fn view(&self) -> WriterView {
        WriterView {
            output: self.out@,
            options: self.opts,
            header: self.header@,
            scopes: self.scopes@.map_values(|s: String| s@),
            signals: sig_views(self.signals@),
            timestamps: self.block_timestamps@,
            entries: entry_views(self.block_entries@),
            time_begin: self.current_block_time_begin,
            bytes_written: self.bytes_written,
            blocks_written: self.blocks_written,
            timestamps_count: self.timestamps_count,
            value_changes_count: self.value_changes_count,
            header_held: self.header_held,
        }
    }
}

// ---------------------------------------------------------------------------
// Specification
// ---------------------------------------------------------------------------

/// `a + b` modulo the `usize` range.
pub open spec fn wrap_add_usize(a: usize, b: usize) -> usize {
    if a + b > usize::MAX { (a + b - usize::MAX - 1) as usize } else { (a + b) as usize }
}

/// The scope names joined with '.'.
pub open spec fn join_dot(s: Seq<Seq<char>>) -> Seq<char>
    decreases s.len(),
{
    if s.len() == 0 {
        Seq::empty()
    } else if s.len() == 1 {
        s[0]
    } else {
        join_dot(s.drop_last()) + seq!['.'] + s.last()
    }
}

/// The full name of a variable declared inside `scopes`.
pub open spec fn dotted_name(scopes: Seq<Seq<char>>, name: Seq<char>) -> Seq<char> {
    if scopes.len() == 0 {
        name
    } else {
        join_dot(scopes) + seq!['.'] + name
    }
}

/// The handle of the last signal with this name.
pub open spec fn handle_of(sigs: Seq<SignalView>, name: Seq<char>) -> Option<u32>
    decreases sigs.len(),
{
    if sigs.len() == 0 {
        None
    } else if sigs.last().name == name {
        Some(sigs.last().handle)
    } else {
        handle_of(sigs.drop_last(), name)
    }
}

/// A variable declared with no scope open keeps its name; each scope
/// pushed puts its name and a '.' in front of what is declared inside it:
/// declaring `x` inside scopes `s`, then `t`, names it as declaring `t`
/// inside `s` and appending '.' and `x`.
pub proof fn lemma_dotted_name_push(scopes: Seq<Seq<char>>, t: Seq<char>, x: Seq<char>)
    ensures
        dotted_name(Seq::empty(), x) == x,
        dotted_name(scopes.push(t), x) == dotted_name(scopes, t) + seq!['.'] + x,
{
    assert(scopes.push(t).drop_last() =~= scopes);
    if scopes.len() == 0 {
        assert(scopes.push(t)[0] == t);
    }
}

/// Inside scopes `a` and then `b`, the variable `x` is named `a.b.x`; inside
/// `a` alone, `a.x`.
pub proof fn lemma_dotted_name_two(a: Seq<char>, b: Seq<char>, x: Seq<char>)
    ensures
        dotted_name(seq![a], x) == a + seq!['.'] + x,
        dotted_name(seq![a, b], x) == a + seq!['.'] + b + seq!['.'] + x,
{
    lemma_dotted_name_push(Seq::empty(), a, x);
    lemma_dotted_name_push(seq![a], b, x);
    lemma_dotted_name_push(Seq::empty(), a, b);
    assert(Seq::<Seq<char>>::empty().push(a) =~= seq![a]);
    assert(seq![a].push(b) =~= seq![a, b]);
}

/// The variable declared last is found by its full name.
pub proof fn lemma_declared_is_found(sigs: Seq<SignalView>, s: SignalView)
    ensures
        handle_of(sigs.push(s), s.name) == Some(s.handle),
{
    assert(sigs.push(s).last() == s);
}

/// The writer after its current block was written out.
pub open spec fn after_flush(v: WriterView) -> WriterView {
    if v.entries.len() == 0 && v.timestamps.len() == 0 {
        v
    } else {
        let block = block_08(v.signals, v.timestamps, v.entries, v.time_begin, v.header.end_time);
        if block.len() == 0 {
            WriterView { timestamps: Seq::empty(), entries: Seq::empty(), ..v }
        } else {
            WriterView {
                output: v.output + block,
                bytes_written: wrap_add64(v.bytes_written, block.len() as u64),
                blocks_written: wrap_add_usize(v.blocks_written, 1),
                timestamps: Seq::empty(),
                entries: Seq::empty(),
                ..v
            }
        }
    }
}

/// The current block can be written: its values are packable when it has
/// timestamps (without any, it is dropped unpacked).
pub open spec fn flushable(v: WriterView) -> bool {
    v.signals.len() < usize::MAX && (v.timestamps.len() > 0 ==> entries_packable(v.signals, v.entries))
}

/// The scope entries of the hierarchy block.
pub open spec fn hier_scopes(scopes: Seq<Seq<char>>) -> Seq<u8>
    decreases scopes.len(),
{
    if scopes.len() == 0 {
        Seq::empty()
    } else {
        hier_scopes(scopes.drop_last()) + scope_entry(
            str_bytes(scopes.last()),
            ScopeType::VcdModule,
        )
    }
}

/// The variable entries of the hierarchy block.
pub open spec fn hier_vars(sigs: Seq<SignalView>) -> Seq<u8>
    decreases sigs.len(),
{
    if sigs.len() == 0 {
        Seq::empty()
    } else {
        let s = sigs.last();
        hier_vars(sigs.drop_last()) + var_entry(s.handle, str_bytes(s.name), s.var_type, s.width)
    }
}

/// The uncompressed hierarchy: a scope entry per open scope, an upscope
/// (0x03) for each, then a variable entry per signal.
pub open spec fn hier_data(scopes: Seq<Seq<char>>, sigs: Seq<SignalView>) -> Seq<u8> {
    hier_scopes(scopes) + Seq::new(scopes.len(), |i: int| 0x03u8) + hier_vars(sigs)
}

/// The geometry block written on close.
pub open spec fn geom_block(sigs: Seq<SignalView>) -> Seq<u8> {
    framed_block(seq![block_type_code(BlockType::Geom)] + geom_body(sigs, sigs.len() as u64))
}

/// The hierarchy block written on close.
pub open spec fn hier_block(v: WriterView) -> Seq<u8> {
    framed_block(
        seq![block_type_code(BlockType::HierLz4)] + compressed_with(
            v.options.compression,
            hier_data(v.scopes, v.signals),
        ),
    )
}

/// The header block written when a writer is created, and written again
/// over it on close.
pub open spec fn header_block(h: HeaderView) -> Seq<u8> {
    framed_block(seq![block_type_code(BlockType::Hdr)] + header_body(h, 0, 0, 0, 0))
}

/// The output with its first header block rewritten for header `h`, if
/// the output still starts with the one written on creation.
pub open spec fn with_final_header(v: WriterView) -> Seq<u8> {
    let hb = header_block(v.header);
    if v.header_held && v.output.len() >= hb.len() {
        hb + v.output.skip(hb.len() as int)
    } else {
        v.output
    }
}

// ---------------------------------------------------------------------------
// Implementation
// ---------------------------------------------------------------------------

impl FstWriter {
    /// A writer whose output starts with a header block for a new header.
    pub fn new(opts: FstOptions) -> (w: FstWriter)
        ensures
            w@.options == opts,
            w@.header.start_time == 0,
            w@.header.end_time == 0,
            w@.header.timescale_exp == -9,
            w@.output == header_block(w@.header),
            w@.bytes_written == w@.output.len(),
            w@.blocks_written == 1,
            w@.scopes.len() == 0,
            w@.signals.len() == 0,
            w@.timestamps.len() == 0,
            w@.entries.len() == 0,
            w@.time_begin == 0,
            w@.timestamps_count == 0,
            w@.value_changes_count == 0,
            w@.header_held,
    {
        let header = FstHeader::default();
        let mut block = BlockWriter::new(BlockType::Hdr);
        block.write_header(&header, 0, 0, 0, 0);
        let block_bytes = block.finalize();
        let n: u64 = block_bytes.len() as u64;
        let w = FstWriter {
            out: block_bytes,
            opts,
            header,
            scopes: Vec::new(),
            signals: Vec::new(),
            block_timestamps: Vec::new(),
            block_entries: Vec::new(),
            current_block_time_begin: 0,
            bytes_written: n,
            blocks_written: 1,
            timestamps_count: 0,
            value_changes_count: 0,
            header_held: true,
        };
        assert(w@.scopes =~= Seq::<Seq<char>>::empty());
        assert(w@.signals =~= Seq::<SignalView>::empty());
        assert(w@.entries =~= Seq::<EntryView>::empty());
        w
    }

    /// The bytes produced so far and not yet taken; the writer keeps
    /// everything else.
    pub fn take_output(&mut self) -> (bytes: Vec<u8>)
        ensures
            bytes@ == old(self)@.output,
            final(self)@ == (WriterView { output: Seq::empty(), header_held: false, ..old(self)@ }),
    {
        let mut bytes: Vec<u8> = Vec::new();
        std::mem::swap(&mut bytes, &mut self.out);
        self.header_held = false;
        assert(self@.output =~= Seq::<u8>::empty());
        bytes
    }

    /// The full name of a new variable in the current scope.
    fn scoped_name(&self, name: &str) -> (r: String)
        ensures
            r@ == dotted_name(self@.scopes, name@),
    {
        if self.scopes.len() == 0 {
            return name.to_owned();
        }
        let mut full: String = self.scopes[0].clone();
        let mut i: usize = 1;
        while i < self.scopes.len()
            invariant
                1 <= i <= self@.scopes.len(),
                full@ == join_dot(self@.scopes.take(i as int)),
            decreases self@.scopes.len() - i,
        {
            proof {
                let t = self@.scopes.take(i + 1);
                assert(t.drop_last() =~= self@.scopes.take(i as int));
            }
            full.append(".");
            full.append(self.scopes[i].as_str());
            proof {
                reveal_strlit(".");
            }
            i = i + 1;
        }
        assert(self@.scopes.take(self@.scopes.len() as int) =~= self@.scopes);
        full.append(".");
        full.append(name);
        proof {
            reveal_strlit(".");
        }
        full
    }

    /// Declare a variable in the current scope; its handle is one more than
    /// the number of variables before it.
    pub fn create_var(&mut self, name: &str, width: u32, vartype: VarType) -> (handle: u32)
        requires
            old(self)@.signals.len() + 1 < usize::MAX,
        ensures
            handle == (old(self)@.signals.len() + 1) as u32,
            final(self)@ == (WriterView {
                signals: old(self)@.signals.push(
                    SignalView {
                        handle,
                        name: dotted_name(old(self)@.scopes, name@),
                        width,
                        var_type: vartype,
                    },
                ),
                ..old(self)@
            }),
    {
        let handle: u32 = (self.signals.len() + 1) as u32;
        let full_name = self.scoped_name(name);
        self.signals.push(SignalDecl { handle, name: full_name, width, var_type: vartype });
        assert(self@.signals =~= old(self)@.signals.push(
            SignalView {
                handle,
                name: dotted_name(old(self)@.scopes, name@),
                width,
                var_type: vartype,
            },
        ));
        handle
    }

    /// The handle of the last variable declared with this full name.
    pub fn get_handle(&self, name: &str) -> (r: Option<u32>)
        ensures
            r == handle_of(self@.signals, name@),
    {
        let mut i: usize = self.signals.len();
        assert(self@.signals.take(i as int) =~= self@.signals);
        while i > 0
            invariant
                i <= self@.signals.len(),
                handle_of(self@.signals, name@) == handle_of(self@.signals.take(i as int), name@),
            decreases i,
        {
            let sig = &self.signals[i - 1];
            proof {
                let t = self@.signals.take(i as int);
                assert(t.drop_last() =~= self@.signals.take(i - 1));
                assert(t.last() == sig@);
            }
            if str_eq(sig.name.as_str(), name) {
                return Some(sig.handle);
            }
            i = i - 1;
        }
        None
    }

    /// Open a scope.
    pub fn push_scope(&mut self, name: &str, _st: ScopeType)
        ensures
            final(self)@ == (WriterView { scopes: old(self)@.scopes.push(name@), ..old(self)@ }),
    {
        self.scopes.push(name.to_owned());
        assert(self@.scopes =~= old(self)@.scopes.push(name@));
    }

    /// Close the innermost scope, if any.
    pub fn pop_scope(&mut self)
        ensures
            final(self)@ == (WriterView {
                scopes: if old(self)@.scopes.len() == 0 {
                    old(self)@.scopes
                } else {
                    old(self)@.scopes.drop_last()
                },
                ..old(self)@
            }),
    {
        let _ = self.scopes.pop();
        assert(self@.scopes =~= (if old(self)@.scopes.len() == 0 {
            old(self)@.scopes
        } else {
            old(self)@.scopes.drop_last()
        }));
    }

    /// Set the timescale exponent (10^n seconds).
    pub fn set_timescale(&mut self, exp: i8)
        ensures
            final(self)@ == (WriterView {
                header: HeaderView { timescale_exp: exp, ..old(self)@.header },
                ..old(self)@
            }),
    {
        self.header.timescale_exp = exp;
    }

    /// Set the date string.
    pub fn set_date(&mut self, date: &str)
        ensures
            final(self)@ == (WriterView {
                header: HeaderView { date: date@, ..old(self)@.header },
                ..old(self)@
            }),
    {
        self.header.date = date.to_owned();
    }

    /// Set the version string.
    pub fn set_version(&mut self, version: &str)
        ensures
            final(self)@ == (WriterView {
                header: HeaderView { version: version@, ..old(self)@.header },
                ..old(self)@
            }),
    {
        self.header.version = version.to_owned();
    }

    /// Move to a new time: it opens the block if the block has no timestamp
    /// yet, is recorded unless it repeats the block's last timestamp, and
    /// becomes the end time.
    pub fn emit_time_change(&mut self, timestamp: u64)
        ensures
            final(self)@ == (WriterView {
                time_begin: if old(self)@.timestamps.len() == 0 {
                    timestamp
                } else {
                    old(self)@.time_begin
                },
                timestamps: if old(self)@.timestamps.len() > 0 && old(self)@.timestamps.last()
                    == timestamp {
                    old(self)@.timestamps
                } else {
                    old(self)@.timestamps.push(timestamp)
                },
                header: HeaderView { end_time: timestamp, ..old(self)@.header },
                timestamps_count: wrap_add_usize(old(self)@.timestamps_count, 1),
                ..old(self)@
            }),
    {
        let n: usize = self.block_timestamps.len();
        if n == 0 {
            self.current_block_time_begin = timestamp;
        }
        if n == 0 || self.block_timestamps[n - 1] != timestamp {
            self.block_timestamps.push(timestamp);
        }
        self.header.end_time = timestamp;
        self.timestamps_count = self.timestamps_count.wrapping_add(1);
    }

    /// Record a value change of `handle` at the current time; when the
    /// block's size estimate (16 bytes per change, 8 per timestamp) reaches
    /// the block size, the block is written.
    pub fn emit_value_change(&mut self, handle: u32, value: &[u8])
        requires
            old(self)@.signals.len() < usize::MAX,
            ({
                let v = old(self)@;
                let time_idx = (if v.timestamps.len() == 0 {
                    0
                } else {
                    v.timestamps.len() - 1
                }) as u32;
                let es = v.entries.push((handle, time_idx, value@));
                es.len() * 16 + v.timestamps.len() * 8 >= v.options.block_size && v.timestamps.len() > 0
                    ==> entries_packable(v.signals, es)
            }),
        ensures
            ({
                let v = old(self)@;
                let time_idx = (if v.timestamps.len() == 0 {
                    0
                } else {
                    v.timestamps.len() - 1
                }) as u32;
                let pushed = WriterView {
                    entries: v.entries.push((handle, time_idx, value@)),
                    value_changes_count: wrap_add_usize(v.value_changes_count, 1),
                    ..v
                };
                final(self)@ == if pushed.entries.len() * 16 + pushed.timestamps.len() * 8
                    >= v.options.block_size {
                    after_flush(pushed)
                } else {
                    pushed
                }
            }),
    {
        let n: usize = self.block_timestamps.len();
        let time_idx: u32 = n.saturating_sub(1) as u32;
        let value_vec: Vec<u8> = vstd::slice::slice_to_vec(value);
        self.block_entries.push(BlockEntry { handle, time_idx, value: value_vec });
        self.value_changes_count = self.value_changes_count.wrapping_add(1);
        let ghost pushed = self@;
        assert(self@.entries =~= old(self)@.entries.push((handle, time_idx, value@)));
        let est: u128 = (self.block_entries.len() as u128) * 16 + (self.block_timestamps.len()
            as u128) * 8;
        if est >= self.opts.block_size as u128 {
            self.flush_block();
        }
    }

    /// Write the current block, if it has anything.
    pub fn flush_block(&mut self)
        requires
            flushable(old(self)@),
        ensures
            final(self)@ == after_flush(old(self)@),
    {
        if self.block_entries.len() == 0 && self.block_timestamps.len() == 0 {
            return ;
        }
        let block = build_block_08(
            self.signals.as_slice(),
            self.block_timestamps.as_slice(),
            self.block_entries.as_slice(),
            self.current_block_time_begin,
            self.header.end_time,
        );
        self.block_entries = Vec::new();
        self.block_timestamps = Vec::new();
        assert(self@.entries =~= Seq::<EntryView>::empty());
        if block.len() == 0 {
            return ;
        }
        let n: u64 = block.len() as u64;
        crate::bytes::append_bytes(&mut self.out, block.as_slice());
        self.bytes_written = self.bytes_written.wrapping_add(n);
        self.blocks_written = self.blocks_written.wrapping_add(1);
    }

    /// The hierarchy, uncompressed.
    fn hier_bytes(&self) -> (r: Vec<u8>)
        ensures
            r@ == hier_data(self@.scopes, self@.signals),
    {
        let mut data: Vec<u8> = Vec::new();
        let mut i: usize = 0;
        while i < self.scopes.len()
            invariant
                i <= self@.scopes.len(),
                data@ == hier_scopes(self@.scopes.take(i as int)),
            decreases self@.scopes.len() - i,
        {
            let e = encode_scope_entry(self.scopes[i].as_str(), ScopeType::VcdModule);
            crate::bytes::append_bytes(&mut data, e.as_slice());
            proof {
                let t = self@.scopes.take(i + 1);
                assert(t.drop_last() =~= self@.scopes.take(i as int));
            }
            i = i + 1;
        }
        assert(self@.scopes.take(self@.scopes.len() as int) =~= self@.scopes);
        let ghost after_scopes = data@;
        let mut k: usize = 0;
        while k < self.scopes.len()
            invariant
                k <= self@.scopes.len(),
                data@ == after_scopes + Seq::new(k as nat, |j: int| 0x03u8),
            decreases self@.scopes.len() - k,
        {
            data.push(0x03);
            k = k + 1;
            assert(data@ =~= after_scopes + Seq::new(k as nat, |j: int| 0x03u8));
        }
        let ghost after_up = data@;
        let mut s: usize = 0;
        while s < self.signals.len()
            invariant
                s <= self@.signals.len(),
                data@ == after_up + hier_vars(self@.signals.take(s as int)),
            decreases self@.signals.len() - s,
        {
            let sig = &self.signals[s];
            let e = encode_var_entry(sig.handle, sig.name.as_str(), sig.var_type, sig.width);
            crate::bytes::append_bytes(&mut data, e.as_slice());
            proof {
                let t = self@.signals.take(s + 1);
                assert(t.drop_last() =~= self@.signals.take(s as int));
                assert(t.last() == sig@);
            }
            s = s + 1;
        }
        assert(self@.signals.take(self@.signals.len() as int) =~= self@.signals);
        data
    }

    /// Write the current block, then the geometry and hierarchy blocks;
    /// returns every byte not yet taken, and the statistics.
    pub fn close(self) -> (r: (Vec<u8>, FstStats))
        requires
            flushable(self@),
        ensures
            ({
                let v = after_flush(self@);
                let g = geom_block(v.signals);
                let h = hier_block(v);
                &&& r.0@ == with_final_header(v) + g + h
                &&& r.1.output_bytes == wrap_add64(
                    wrap_add64(v.bytes_written, g.len() as u64),
                    h.len() as u64,
                )
                &&& r.1.blocks_written == wrap_add_usize(wrap_add_usize(v.blocks_written, 1), 1)
                &&& r.1.signals == v.signals.len()
                &&& r.1.scopes == v.scopes.len()
                &&& r.1.timestamps == v.timestamps_count
                &&& r.1.value_changes == v.value_changes_count
            }),
    {
        let mut w = self;
        w.flush_block();
        // The header block, with the final header, over the one written on
        // creation.
        let mut hdr = BlockWriter::new(BlockType::Hdr);
        hdr.write_header(&w.header, 0, 0, 0, 0);
        let hdr_bytes = hdr.finalize();
        if w.header_held && w.out.len() >= hdr_bytes.len() {
            let rest = vstd::slice::slice_subrange(w.out.as_slice(), hdr_bytes.len(), w.out.len());
            let mut rewritten = hdr_bytes;
            crate::bytes::append_bytes(&mut rewritten, rest);
            w.out = rewritten;
        }
        // Geometry block.
        let mut geom = BlockWriter::new(BlockType::Geom);
        geom.write_geom(w.signals.as_slice(), w.signals.len() as u64);
        let geom_bytes = geom.finalize();
        crate::bytes::append_bytes(&mut w.out, geom_bytes.as_slice());
        w.bytes_written = w.bytes_written.wrapping_add(geom_bytes.len() as u64);
        w.blocks_written = w.blocks_written.wrapping_add(1);
        // Hierarchy block.
        let hier = w.hier_bytes();
        let compressed = compress_with(w.opts.compression, hier.as_slice());
        let mut hb = BlockWriter::new(BlockType::HierLz4);
        hb.write_bytes(compressed.as_slice());
        let hier_block_bytes = hb.finalize();
        crate::bytes::append_bytes(&mut w.out, hier_block_bytes.as_slice());
        w.bytes_written = w.bytes_written.wrapping_add(hier_block_bytes.len() as u64);
        w.blocks_written = w.blocks_written.wrapping_add(1);
        let stats = FstStats {
            output_bytes: w.bytes_written,
            blocks_written: w.blocks_written,
            signals: w.signals.len(),
            scopes: w.scopes.len(),
            timestamps: w.timestamps_count,
            value_changes: w.value_changes_count,
        };
        (w.out, stats)
    }
}

} // verus!
