//! FST block serialization.
//!
//! Each FST block is `[block_type: u8][block_length: u64 LE][block_data]`.
use vstd::prelude::*;
use vstd::utf8::encode_utf8;
use vstd::string::StringSliceAdditionalSpecFns;

use crate::bytes::{append_bytes, le16, le16_bytes, le32, le32_bytes, le64, le64_bytes};
use crate::fst::types::{
    block_type_code, scope_type_code, sig_views, var_type_code, BlockType, FstHeader, HeaderView,
    ScopeType, SignalDecl, SignalView, VarType,
};
use crate::fst::varint::{encode_signed_varint, encode_varint, spec_encode_varint, zigzag};

verus! {

// ---------------------------------------------------------------------------
// Specifications of the encodings
// ---------------------------------------------------------------------------

/// The UTF-8 bytes of a string.
pub open spec fn str_bytes(s: Seq<char>) -> Seq<u8> {
    encode_utf8(s)
}

/// A 128-byte field holding at most the first 127 bytes of `s`, padded with
/// zeros.
pub open spec fn padded128(s: Seq<u8>) -> Seq<u8> {
    let n = if s.len() < 127 { s.len() as int } else { 127int };
    Seq::new(128, |i: int| if i < n { s[i] } else { 0u8 })
}

/// The little-endian bytes of the `f64` 3.14159265358979, the header's
/// endianness test value.
pub open spec fn endian_test_bytes() -> Seq<u8> {
    seq![0x11u8, 0x2d, 0x44, 0x54, 0xfb, 0x21, 0x09, 0x40]
}

/// The body of a header block.
pub open spec fn header_body(
    hdr: HeaderView,
    scope_count: u64,
    var_count: u64,
    max_handle: u64,
    vc_count: u64,
) -> Seq<u8> {
    le64(hdr.start_time) + le64(hdr.end_time) + endian_test_bytes() + le64(0) + le64(scope_count)
        + le64(var_count) + le64(max_handle) + le64(vc_count) + seq![hdr.timescale_exp as u8]
        + padded128(str_bytes(hdr.version)) + padded128(str_bytes(hdr.date))
}

/// One signal of a geometry block: handle, name length and name, type,
/// direction (0) and width.
pub open spec fn geom_entry(sig: SignalView) -> Seq<u8> {
    let name = str_bytes(sig.name);
    le32(sig.handle) + spec_encode_varint(name.len() as u64) + name + seq![
        var_type_code(sig.var_type),
        0u8,
    ] + le32(sig.width)
}

/// The signal entries of a geometry block, in order.
pub open spec fn geom_entries(sigs: Seq<SignalView>) -> Seq<u8>
    decreases sigs.len(),
{
    if sigs.len() == 0 {
        Seq::empty()
    } else {
        geom_entries(sigs.drop_last()) + geom_entry(sigs.last())
    }
}

/// The body of a geometry block: section length (entries + 24), the
/// entries' length, the largest handle, then the entries.
pub open spec fn geom_body(sigs: Seq<SignalView>, max_handle: u64) -> Seq<u8> {
    let e = geom_entries(sigs);
    le64((e.len() + 24) as u64) + le64(e.len() as u64) + le64(max_handle) + e
}

/// The header of a VCDATA block: five varints.
pub open spec fn vcdata_header(
    time_begin: u64,
    time_end: u64,
    mem_required: u64,
    compressed_len: u64,
    max_handle: u64,
) -> Seq<u8> {
    spec_encode_varint(time_begin) + spec_encode_varint(time_end) + spec_encode_varint(
        mem_required,
    ) + spec_encode_varint(compressed_len) + spec_encode_varint(max_handle)
}

/// A finished block: its type byte, the length of the rest as a
/// little-endian `u64`, then the rest.
pub open spec fn framed_block(buf: Seq<u8>) -> Seq<u8> {
    seq![buf[0]] + le64((buf.len() - 1) as u64) + buf.skip(1)
}

/// A hierarchy scope entry.
pub open spec fn scope_entry(name: Seq<u8>, scope_type: ScopeType) -> Seq<u8> {
    seq![0x01u8, scope_type_code(scope_type)] + name + seq![0u8]
}

/// A hierarchy variable entry.
pub open spec fn var_entry(handle: u32, name: Seq<u8>, var_type: VarType, width: u32) -> Seq<u8> {
    seq![0x02u8, var_type_code(var_type), 0u8] + name + seq![0u8] + le32(handle) + le32(width)
}

// ---------------------------------------------------------------------------
// Block writer
// ---------------------------------------------------------------------------

/// Block writer for serializing FST blocks. Its contents start with the
/// block's type byte.
#[derive(Debug)]
pub struct BlockWriter {
    buf: Vec<u8>,
}

impl View for BlockWriter {
    type V = Seq<u8>;

    /// The type byte followed by the body written so far.
    closed spec fn view(&self) -> Seq<u8> {
        self.buf@
    }
}

impl BlockWriter {
    /// A block writer always holds its type byte.
    #[verifier::type_invariant]
    closed spec fn holds_type_byte(&self) -> bool {
        self.buf@.len() >= 1
    }

    /// Append bytes to the block.
    fn append(&mut self, data: &[u8])
        ensures
            final(self)@ == old(self)@ + data@,
    {
        proof {
            use_type_invariant(&*self);
        }
        let mut b: Vec<u8> = vec![0u8];
        std::mem::swap(&mut b, &mut self.buf);
        append_bytes(&mut b, data);
        self.buf = b;
    }

    /// A block of the given type with an empty body.
    pub fn new(block_type: BlockType) -> (w: BlockWriter)
        ensures
            w@ == seq![block_type_code(block_type)],
    {
        let mut buf: Vec<u8> = Vec::with_capacity(256);
        buf.push(block_type.code());
        BlockWriter { buf }
    }

    /// Write a byte.
    pub fn write_u8(&mut self, v: u8)
        ensures
            final(self)@ == old(self)@.push(v),
    {
        let one: [u8; 1] = [v];
        self.append(&one);
        assert(one@ =~= seq![v]);
    }

    /// Write a little-endian u16.
    pub fn write_u16(&mut self, v: u16)
        ensures
            final(self)@ == old(self)@ + le16(v),
    {
        let b = le16_bytes(v);
        self.append(&b);
    }

    /// Write a little-endian u32.
    pub fn write_u32(&mut self, v: u32)
        ensures
            final(self)@ == old(self)@ + le32(v),
    {
        let b = le32_bytes(v);
        self.append(&b);
    }

    /// Write a little-endian u64.
    pub fn write_u64(&mut self, v: u64)
        ensures
            final(self)@ == old(self)@ + le64(v),
    {
        let b = le64_bytes(v);
        self.append(&b);
    }

    /// Write a signed i8 as its byte.
    pub fn write_i8(&mut self, v: i8)
        ensures
            final(self)@ == old(self)@.push(v as u8),
    {
        let one: [u8; 1] = [v as u8];
        self.append(&one);
        assert(one@ =~= seq![v as u8]);
    }

    /// Write a signed i64 as a zigzag varint.
    pub fn write_i64(&mut self, v: i64)
        ensures
            final(self)@ == old(self)@ + spec_encode_varint(zigzag(v)),
    {
        let encoded = encode_signed_varint(v);
        self.append(encoded.as_slice());
    }

    /// Write a varint.
    pub fn write_varint(&mut self, v: u64)
        ensures
            final(self)@ == old(self)@ + spec_encode_varint(v),
    {
        let encoded = encode_varint(v);
        self.append(encoded.as_slice());
    }

    /// Write raw bytes.
    pub fn write_bytes(&mut self, data: &[u8])
        ensures
            final(self)@ == old(self)@ + data@,
    {
        self.append(data);
    }

    /// Write a null-terminated string.
    pub fn write_cstring(&mut self, s: &str)
        ensures
            final(self)@ == old(self)@ + s.spec_bytes() + seq![0u8],
    {
        self.append(s.as_bytes());
        let zero: [u8; 1] = [0];
        self.append(&zero);
        assert(zero@ =~= seq![0u8]);
    }

    /// Write a header block body.
    pub fn write_header(
        &mut self,
        hdr: &FstHeader,
        scope_count: u64,
        var_count: u64,
        max_handle: u64,
        vc_count: u64,
    )
        ensures
            final(self)@ == old(self)@ + header_body(
                hdr@,
                scope_count,
                var_count,
                max_handle,
                vc_count,
            ),
    {
        let ghost start = self@;
        self.write_u64(hdr.start_time);
        self.write_u64(hdr.end_time);
        // The endianness test value 3.14159265358979 as a little-endian f64.
        let pi: [u8; 8] = [0x11, 0x2d, 0x44, 0x54, 0xfb, 0x21, 0x09, 0x40];
        assert(pi@ =~= endian_test_bytes());
        self.write_bytes(&pi);
        self.write_u64(0);
        self.write_u64(scope_count);
        self.write_u64(var_count);
        self.write_u64(max_handle);
        self.write_u64(vc_count);
        self.write_i8(hdr.timescale_exp);
        let version = padded_field(hdr.version.as_str().as_bytes());
        self.write_bytes(&version);
        let date = padded_field(hdr.date.as_str().as_bytes());
        self.write_bytes(&date);
        assert(self@ =~= start + header_body(hdr@, scope_count, var_count, max_handle, vc_count));
    }

    /// Write a geometry block body for `signals`.
    pub fn write_geom(&mut self, signals: &[SignalDecl], max_handle: u64)
        ensures
            final(self)@ == old(self)@ + geom_body(sig_views(signals@), max_handle),
    {
        let ghost start = self@;
        let header_start: usize = self.buf.len();
        self.write_u64(0);
        self.write_u64(0);
        self.write_u64(max_handle);
        let mut i: usize = 0;
        while i < signals.len()
            invariant
                i <= signals@.len(),
                header_start == start.len(),
                self@ == start + le64(0) + le64(0) + le64(max_handle) + geom_entries(
                    sig_views(signals@.take(i as int)),
                ),
            decreases signals@.len() - i,
        {
            let sig = &signals[i];
            let name: &[u8] = sig.name.as_str().as_bytes();
            self.write_u32(sig.handle);
            self.write_varint(name.len() as u64);
            self.write_bytes(name);
            self.write_u8(sig.var_type.code());
            self.write_u8(0);
            self.write_u32(sig.width);
            proof {
                let t = sig_views(signals@.take(i + 1));
                assert(t.drop_last() =~= sig_views(signals@.take(i as int)));
                assert(t.last() == signals@[i as int]@);
            }
            i = i + 1;
            assert(self@ =~= start + le64(0) + le64(0) + le64(max_handle) + geom_entries(
                sig_views(signals@.take(i as int)),
            ));
        }
        assert(signals@.take(signals@.len() as int) =~= signals@);
        let ghost e = geom_entries(sig_views(signals@));
        assert(self@.len() == start.len() + 24 + e.len());
        let data_len: usize = self.buf.len() - header_start - 24;
        let uncompressed: u64 = data_len as u64;
        self.write_u64_at(header_start, uncompressed + 24);
        self.write_u64_at(header_start + 8, uncompressed);
        assert(self@ =~= start + geom_body(sig_views(signals@), max_handle));
    }

    /// Write a hierarchy block body.
    pub fn write_hier(&mut self, data: &[u8])
        ensures
            final(self)@ == old(self)@ + data@,
    {
        self.write_bytes(data);
    }

    /// Write a VCDATA block header.
    pub fn write_vcdata_header(
        &mut self,
        time_begin: u64,
        time_end: u64,
        mem_required: u64,
        compressed_len: u64,
        max_handle: u64,
    )
        ensures
            final(self)@ == old(self)@ + vcdata_header(
                time_begin,
                time_end,
                mem_required,
                compressed_len,
                max_handle,
            ),
    {
        let ghost start = self@;
        self.write_varint(time_begin);
        self.write_varint(time_end);
        self.write_varint(mem_required);
        self.write_varint(compressed_len);
        self.write_varint(max_handle);
        assert(self@ =~= start + vcdata_header(
            time_begin,
            time_end,
            mem_required,
            compressed_len,
            max_handle,
        ));
    }

    /// Write a null byte.
    pub fn write_null(&mut self)
        ensures
            final(self)@ == old(self)@.push(0),
    {
        let zero: [u8; 1] = [0];
        self.append(&zero);
        assert(zero@ =~= seq![0u8]);
    }

    /// The complete block: type byte, body length, body.
    pub fn finalize(self) -> (block: Vec<u8>)
        ensures
            block@ == framed_block(self@),
            block@.len() == self@.len() + 8,
    {
        proof {
            use_type_invariant(&self);
        }
        let block_type: u8 = self.buf[0];
        let block_data_len: usize = self.buf.len() - 1;
        let mut result: Vec<u8> = Vec::with_capacity(block_data_len);
        result.push(block_type);
        let len_bytes = le64_bytes(block_data_len as u64);
        append_bytes(&mut result, &len_bytes);
        let body: &[u8] = vstd::slice::slice_subrange(self.buf.as_slice(), 1, self.buf.len());
        append_bytes(&mut result, body);
        assert(result@ =~= framed_block(self@));
        result
    }

    /// Overwrite eight bytes at `offset` with the little-endian `v`.
    fn write_u64_at(&mut self, offset: usize, v: u64)
        requires
            offset + 8 <= old(self)@.len(),
        ensures
            final(self)@ == old(self)@.subrange(0, offset as int) + le64(v) + old(self)@.subrange(
                offset + 8,
                old(self)@.len() as int,
            ),
    {
        proof {
            use_type_invariant(&*self);
        }
        let b = le64_bytes(v);
        let ghost start = self@;
        let mut buf: Vec<u8> = vec![0u8];
        std::mem::swap(&mut buf, &mut self.buf);
        let total: usize = buf.len();
        let mut k: usize = 0;
        while k < 8
            invariant
                k <= 8,
                total == start.len(),
                offset + 8 <= start.len(),
                buf@.len() == start.len(),
                forall|j: int| 0 <= j < offset ==> buf@[j] == start[j],
                forall|j: int| offset <= j < offset + k ==> buf@[j] == b@[j - offset],
                forall|j: int| offset + 8 <= j < start.len() ==> buf@[j] == start[j],
                forall|j: int| offset + k <= j < offset + 8 ==> buf@[j] == start[j],
            decreases 8 - k,
        {
            buf.set(offset + k, b[k]);
            k = k + 1;
        }
        assert(buf@ =~= start.subrange(0, offset as int) + le64(v) + start.subrange(
            offset + 8,
            start.len() as int,
        ));
        self.buf = buf;
    }

    /// Number of bytes written, the type byte included.
    pub fn position(&self) -> (p: usize)
        ensures
            p == self@.len(),
            p >= 1,
    {
        proof {
            use_type_invariant(self);
        }
        self.buf.len()
    }
}

/// The 128-byte field for a header string: its first 127 bytes at most, then
/// zeros.
fn padded_field(s: &[u8]) -> (r: [u8; 128])
    ensures
        r@ == padded128(s@),
{
    let mut out: [u8; 128] = [0u8; 128];
    let n: usize = if s.len() < 127 { s.len() } else { 127 };
    let mut i: usize = 0;
    while i < n
        invariant
            i <= n,
            n <= 127,
            n == (if s@.len() < 127 { s@.len() as int } else { 127int }),
            out@.len() == 128,
            forall|j: int| 0 <= j < i ==> out@[j] == s@[j],
            forall|j: int| i <= j < 128 ==> out@[j] == 0u8,
        decreases n - i,
    {
        out[i] = s[i];
        i = i + 1;
    }
    assert(out@ =~= padded128(s@));
    out
}

/// Encode a scope entry for a hierarchy block.
pub fn encode_scope_entry(name: &str, scope_type: ScopeType) -> (buf: Vec<u8>)
    ensures
        buf@ == scope_entry(name.spec_bytes(), scope_type),
{
    let mut buf: Vec<u8> = Vec::with_capacity(64);
    buf.push(0x01);
    buf.push(scope_type.code());
    append_bytes(&mut buf, name.as_bytes());
    buf.push(0);
    assert(buf@ =~= scope_entry(name.spec_bytes(), scope_type));
    buf
}

/// Encode a variable entry for a hierarchy block.
pub fn encode_var_entry(handle: u32, name: &str, var_type: VarType, width: u32) -> (buf: Vec<u8>)
    ensures
        buf@ == var_entry(handle, name.spec_bytes(), var_type, width),
{
    let mut buf: Vec<u8> = Vec::with_capacity(64);
    buf.push(0x02);
    buf.push(var_type.code());
    buf.push(0);
    append_bytes(&mut buf, name.as_bytes());
    buf.push(0);
    let h = le32_bytes(handle);
    append_bytes(&mut buf, &h);
    let w = le32_bytes(width);
    append_bytes(&mut buf, &w);
    assert(buf@ =~= var_entry(handle, name.spec_bytes(), var_type, width));
    buf
}

} // verus!
