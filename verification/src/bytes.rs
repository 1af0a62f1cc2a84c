//! Fixed-width little- and big-endian integers as bytes, and appending bytes
//! to a vector.
use vstd::prelude::*;

verus! {

/// Little-endian bytes of a `u16`.
pub open spec fn le16(v: u16) -> Seq<u8> {
    seq![v as u8, (v >> 8u16) as u8]
}

/// Little-endian bytes of a `u32`.
pub open spec fn le32(v: u32) -> Seq<u8> {
    seq![v as u8, (v >> 8u32) as u8, (v >> 16u32) as u8, (v >> 24u32) as u8]
}

/// Little-endian bytes of a `u64`.
pub open spec fn le64(v: u64) -> Seq<u8> {
    seq![
        v as u8,
        (v >> 8u64) as u8,
        (v >> 16u64) as u8,
        (v >> 24u64) as u8,
        (v >> 32u64) as u8,
        (v >> 40u64) as u8,
        (v >> 48u64) as u8,
        (v >> 56u64) as u8,
    ]
}

/// Big-endian bytes of a `u64`.
pub open spec fn be64(v: u64) -> Seq<u8> {
    le64(v).reverse()
}

/// The `u64` whose little-endian bytes are the first eight of `s`.
pub open spec fn u64_from_le(s: Seq<u8>) -> u64 {
    (s[0] as u64) | ((s[1] as u64) << 8u64) | ((s[2] as u64) << 16u64) | ((s[3] as u64)
        << 24u64) | ((s[4] as u64) << 32u64) | ((s[5] as u64) << 40u64) | ((s[6] as u64)
        << 48u64) | ((s[7] as u64) << 56u64)
}

/// The `u64` whose big-endian bytes are the first eight of `s`.
pub open spec fn u64_from_be(s: Seq<u8>) -> u64 {
    (s[7] as u64) | ((s[6] as u64) << 8u64) | ((s[5] as u64) << 16u64) | ((s[4] as u64)
        << 24u64) | ((s[3] as u64) << 32u64) | ((s[2] as u64) << 40u64) | ((s[1] as u64)
        << 48u64) | ((s[0] as u64) << 56u64)
}

/// The `u32` whose little-endian bytes are the first four of `s`.
pub open spec fn u32_from_le(s: Seq<u8>) -> u32 {
    (s[0] as u32) | ((s[1] as u32) << 8u32) | ((s[2] as u32) << 16u32) | ((s[3] as u32)
        << 24u32)
}

/// The `u32` whose big-endian bytes are the first four of `s`.
pub open spec fn u32_from_be(s: Seq<u8>) -> u32 {
    (s[3] as u32) | ((s[2] as u32) << 8u32) | ((s[1] as u32) << 16u32) | ((s[0] as u32)
        << 24u32)
}

/// Reading back the little-endian bytes of `v` gives `v`.
pub proof fn lemma_le64_roundtrip(v: u64)
    ensures
        u64_from_le(le64(v)) == v,
{
    let b0 = v as u8;
    let b1 = (v >> 8u64) as u8;
    let b2 = (v >> 16u64) as u8;
    let b3 = (v >> 24u64) as u8;
    let b4 = (v >> 32u64) as u8;
    let b5 = (v >> 40u64) as u8;
    let b6 = (v >> 48u64) as u8;
    let b7 = (v >> 56u64) as u8;
    assert((b0 as u64) | ((b1 as u64) << 8u64) | ((b2 as u64) << 16u64) | ((b3 as u64) << 24u64)
        | ((b4 as u64) << 32u64) | ((b5 as u64) << 40u64) | ((b6 as u64) << 48u64) | ((b7 as u64)
        << 56u64) == v) by (bit_vector)
        requires
            b0 == v as u8,
            b1 == (v >> 8u64) as u8,
            b2 == (v >> 16u64) as u8,
            b3 == (v >> 24u64) as u8,
            b4 == (v >> 32u64) as u8,
            b5 == (v >> 40u64) as u8,
            b6 == (v >> 48u64) as u8,
            b7 == (v >> 56u64) as u8,
    ;
}

/// Reading back the big-endian bytes of `v` gives `v`.
pub proof fn lemma_be64_roundtrip(v: u64)
    ensures
        u64_from_be(be64(v)) == v,
{
    lemma_le64_roundtrip(v);
    assert(be64(v)[7] == le64(v)[0]);
    assert(be64(v)[6] == le64(v)[1]);
    assert(be64(v)[5] == le64(v)[2]);
    assert(be64(v)[4] == le64(v)[3]);
    assert(be64(v)[3] == le64(v)[4]);
    assert(be64(v)[2] == le64(v)[5]);
    assert(be64(v)[1] == le64(v)[6]);
    assert(be64(v)[0] == le64(v)[7]);
}

/// Reading back the little-endian bytes of `v` gives `v`.
pub proof fn lemma_le32_roundtrip(v: u32)
    ensures
        u32_from_le(le32(v)) == v,
{
    let b0 = v as u8;
    let b1 = (v >> 8u32) as u8;
    let b2 = (v >> 16u32) as u8;
    let b3 = (v >> 24u32) as u8;
    assert((b0 as u32) | ((b1 as u32) << 8u32) | ((b2 as u32) << 16u32) | ((b3 as u32) << 24u32)
        == v) by (bit_vector)
        requires
            b0 == v as u8,
            b1 == (v >> 8u32) as u8,
            b2 == (v >> 16u32) as u8,
            b3 == (v >> 24u32) as u8,
    ;
}

/// Appends `s` to `v`.
pub fn append_bytes(v: &mut Vec<u8>, s: &[u8])
    ensures
        final(v)@ == old(v)@ + s@,
{
    let ghost start = v@;
    let mut i: usize = 0;
    while i < s.len()
        invariant
            i <= s@.len(),
            v@ == start + s@.take(i as int),
        decreases s@.len() - i,
    {
        v.push(s[i]);
        i = i + 1;
        assert(v@ =~= start + s@.take(i as int));
    }
    assert(s@.take(s@.len() as int) =~= s@);
}

/// The little-endian bytes of `v`.
pub fn le16_bytes(v: u16) -> (r: [u8; 2])
    ensures
        r@ == le16(v),
{
    let r: [u8; 2] = [v as u8, (v >> 8u16) as u8];
    assert(r@ =~= le16(v));
    r
}

/// The little-endian bytes of `v`.
pub fn le32_bytes(v: u32) -> (r: [u8; 4])
    ensures
        r@ == le32(v),
{
    let r: [u8; 4] = [v as u8, (v >> 8u32) as u8, (v >> 16u32) as u8, (v >> 24u32) as u8];
    assert(r@ =~= le32(v));
    r
}

/// The little-endian bytes of `v`.
pub fn le64_bytes(v: u64) -> (r: [u8; 8])
    ensures
        r@ == le64(v),
{
    let r: [u8; 8] = [
        v as u8,
        (v >> 8u64) as u8,
        (v >> 16u64) as u8,
        (v >> 24u64) as u8,
        (v >> 32u64) as u8,
        (v >> 40u64) as u8,
        (v >> 48u64) as u8,
        (v >> 56u64) as u8,
    ];
    assert(r@ =~= le64(v));
    r
}

/// The `u64` stored little-endian at `data[off..off + 8]`.
pub fn read_u64_le(data: &[u8], off: usize) -> (r: u64)
    requires
        off + 8 <= data@.len(),
    ensures
        r == u64_from_le(data@.subrange(off as int, off + 8)),
{
    let ghost s = data@.subrange(off as int, off + 8);
    assert(s[0] == data@[off as int] && s[1] == data@[off + 1] && s[2] == data@[off + 2] && s[3]
        == data@[off + 3] && s[4] == data@[off + 4] && s[5] == data@[off + 5] && s[6]
        == data@[off + 6] && s[7] == data@[off + 7]);
    (data[off] as u64) | ((data[off + 1] as u64) << 8u64) | ((data[off + 2] as u64) << 16u64)
        | ((data[off + 3] as u64) << 24u64) | ((data[off + 4] as u64) << 32u64) | ((data[off
        + 5] as u64) << 40u64) | ((data[off + 6] as u64) << 48u64) | ((data[off + 7] as u64)
        << 56u64)
}

/// The `u64` stored big-endian at `data[off..off + 8]`.
pub fn read_u64_be(data: &[u8], off: usize) -> (r: u64)
    requires
        off + 8 <= data@.len(),
    ensures
        r == u64_from_be(data@.subrange(off as int, off + 8)),
{
    let ghost s = data@.subrange(off as int, off + 8);
    assert(s[0] == data@[off as int] && s[1] == data@[off + 1] && s[2] == data@[off + 2] && s[3]
        == data@[off + 3] && s[4] == data@[off + 4] && s[5] == data@[off + 5] && s[6]
        == data@[off + 6] && s[7] == data@[off + 7]);
    let _n: usize = data.len();
    (data[off + 7] as u64) | ((data[off + 6] as u64) << 8u64) | ((data[off + 5] as u64) << 16u64)
        | ((data[off + 4] as u64) << 24u64) | ((data[off + 3] as u64) << 32u64) | ((data[off
        + 2] as u64) << 40u64) | ((data[off + 1] as u64) << 48u64) | ((data[off] as u64)
        << 56u64)
}

/// The `u32` stored little-endian at `data[off..off + 4]`.
pub fn read_u32_le(data: &[u8], off: usize) -> (r: u32)
    requires
        off + 4 <= data@.len(),
    ensures
        r == u32_from_le(data@.subrange(off as int, off + 4)),
{
    let ghost s = data@.subrange(off as int, off + 4);
    assert(s[0] == data@[off as int] && s[1] == data@[off + 1] && s[2] == data@[off + 2] && s[3]
        == data@[off + 3]);
    (data[off] as u32) | ((data[off + 1] as u32) << 8u32) | ((data[off + 2] as u32) << 16u32)
        | ((data[off + 3] as u32) << 24u32)
}

/// The `u32` stored big-endian at `data[off..off + 4]`.
pub fn read_u32_be(data: &[u8], off: usize) -> (r: u32)
    requires
        off + 4 <= data@.len(),
    ensures
        r == u32_from_be(data@.subrange(off as int, off + 4)),
{
    let ghost s = data@.subrange(off as int, off + 4);
    assert(s[0] == data@[off as int] && s[1] == data@[off + 1] && s[2] == data@[off + 2] && s[3]
        == data@[off + 3]);
    let _n: usize = data.len();
    (data[off + 3] as u32) | ((data[off + 2] as u32) << 8u32) | ((data[off + 1] as u32) << 16u32)
        | ((data[off] as u32) << 24u32)
}

} // verus!
