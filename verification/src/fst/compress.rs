//! Compression of FST blocks: LZ4 (size-prepended block format) and zlib.
use std::io::Read;
use std::io::Write;
use vstd::prelude::*;

use crate::fst::types::Compression;

verus! {

// ---------------------------------------------------------------------------
// What the outside codecs compute
// ---------------------------------------------------------------------------

/// What `lz4_flex::block::compress_prepend_size` returns for `input`.
pub uninterp spec fn lz4_compress_prepend(input: Seq<u8>) -> Seq<u8>;

/// What `lz4_flex::block::decompress_size_prepended` returns for `input`
/// (`None` for its error).
pub uninterp spec fn lz4_decompress_prepended(input: Seq<u8>) -> Option<Seq<u8>>;

/// What a `flate2` `ZlibEncoder` at `level` produces for `input`.
pub uninterp spec fn zlib_compress(level: u32, input: Seq<u8>) -> Seq<u8>;

/// What `read_exact` of `n` bytes from a `flate2::read::ZlibDecoder` over
/// `input` yields (`None` for its error).
pub uninterp spec fn zlib_read_exact(input: Seq<u8>, n: nat) -> Option<Seq<u8>>;

/// What `read_to_end` on a `flate2::read::ZlibDecoder` over `input` yields:
/// the decoded bytes, or whether the error was an unexpected end of input.
pub uninterp spec fn zlib_read_to_end(input: Seq<u8>) -> Result<Seq<u8>, bool>;

/// What `read_to_end` on a `flate2::read::GzDecoder` over `input` yields:
/// the decoded bytes, or whether the error was an unexpected end of input.
pub uninterp spec fn gzip_read_to_end(input: Seq<u8>) -> Result<Seq<u8>, bool>;

/// A decoder's outcome is success with `v`.
pub open spec fn decodes_to(res: Result<Seq<u8>, bool>, v: Seq<u8>) -> bool {
    res matches Ok(d) && d == v
}

/// A decoder's outcome is an error; `eof` tells whether it was an unexpected
/// end of input.
pub open spec fn fails_with(res: Result<Seq<u8>, bool>, eof: bool) -> bool {
    res matches Err(e) && e == eof
}

/// Calls `lz4_flex::block::compress_prepend_size`. Claimed: the result is
/// named `lz4_compress_prepend(input)`; it starts with the input's length as a
/// little-endian `u32`; and, as the crate documents it for use with
/// `decompress_size_prepended`, decompressing it gives the input back when
/// that length fits in a `u32`.
#[verifier::external_body]
pub(crate) fn lz4_compress_prepend_size(input: &[u8]) -> (r: Vec<u8>)
    ensures
        r@ == lz4_compress_prepend(input@),
        input@.len() <= u32::MAX ==> lz4_decompress_prepended(r@) == Some(input@),
{
    lz4_flex::block::compress_prepend_size(input)
}

/// Calls `lz4_flex::block::decompress_size_prepended`; its error becomes
/// `None`. Claimed: the result is named `lz4_decompress_prepended(input)`.
#[verifier::external_body]
pub(crate) fn lz4_decompress_size_prepended(input: &[u8]) -> (r: Option<Vec<u8>>)
    ensures
        match r {
            Some(v) => lz4_decompress_prepended(input@) == Some(v@),
            None => lz4_decompress_prepended(input@) is None,
        },
{
    lz4_flex::block::decompress_size_prepended(input).ok()
}

/// Compresses `input` with a `flate2::write::ZlibEncoder` at `level` over a
/// `Vec` (writing to a `Vec` cannot fail). Claimed: the result is named
/// `zlib_compress(level, input)`, and a zlib decoder gives the input back
/// from it, both by `read_exact` of its length and by `read_to_end`. The
/// level is at most 9: both flate2 back ends assert a bound on it.
#[verifier::external_body]
pub(crate) fn zlib_encode(level: u32, input: &[u8]) -> (r: Vec<u8>)
    requires
        level <= 9,
    ensures
        r@ == zlib_compress(level, input@),
        zlib_read_exact(r@, input@.len()) == Some(input@),
        decodes_to(zlib_read_to_end(r@), input@),
{
    let mut encoder = flate2::write::ZlibEncoder::new(
        Vec::with_capacity(input.len()),
        flate2::Compression::new(level),
    );
    encoder.write_all(input).unwrap();
    encoder.finish().unwrap()
}

/// Reads exactly `n` bytes from a `flate2::read::ZlibDecoder` over `input`;
/// an error becomes `None`. Claimed: the result is named
/// `zlib_read_exact(input, n)`, and it has `n` bytes.
#[verifier::external_body]
pub(crate) fn zlib_decode_exact(input: &[u8], n: usize) -> (r: Option<Vec<u8>>)
    ensures
        match r {
            Some(v) => zlib_read_exact(input@, n as nat) == Some(v@) && v@.len() == n,
            None => zlib_read_exact(input@, n as nat) is None,
        },
{
    let mut decoder = flate2::read::ZlibDecoder::new(input);
    let mut output = vec![0u8; n];
    match decoder.read_exact(&mut output) {
        Ok(()) => Some(output),
        Err(_) => None,
    }
}

/// Calls `read_to_end` on a `flate2::read::ZlibDecoder` over `input`; an error
/// becomes `Err(e)` with `e` telling whether its kind was `UnexpectedEof`.
/// Claimed: the result is named `zlib_read_to_end(input)`.
#[verifier::external_body]
pub(crate) fn zlib_decode_all(input: &[u8]) -> (r: Result<Vec<u8>, bool>)
    ensures
        match r {
            Ok(v) => decodes_to(zlib_read_to_end(input@), v@),
            Err(eof) => fails_with(zlib_read_to_end(input@), eof),
        },
{
    let mut decoder = flate2::read::ZlibDecoder::new(input);
    let mut output = Vec::new();
    match decoder.read_to_end(&mut output) {
        Ok(_) => Ok(output),
        Err(e) => Err(e.kind() == std::io::ErrorKind::UnexpectedEof),
    }
}

/// Calls `read_to_end` on a `flate2::read::GzDecoder` over `input`; an error
/// becomes `Err(e)` with `e` telling whether its kind was `UnexpectedEof`.
/// Claimed: the result is named `gzip_read_to_end(input)`.
#[verifier::external_body]
pub(crate) fn gzip_decode_all(input: &[u8]) -> (r: Result<Vec<u8>, bool>)
    ensures
        match r {
            Ok(v) => decodes_to(gzip_read_to_end(input@), v@),
            Err(eof) => fails_with(gzip_read_to_end(input@), eof),
        },
{
    let mut decoder = flate2::read::GzDecoder::new(input);
    let mut output = Vec::new();
    match decoder.read_to_end(&mut output) {
        Ok(_) => Ok(output),
        Err(e) => Err(e.kind() == std::io::ErrorKind::UnexpectedEof),
    }
}

// ---------------------------------------------------------------------------
// Compressors
// ---------------------------------------------------------------------------

/// Why a decompression failed.
#[derive(Debug, Clone, Copy, PartialEq, Eq, Structural)]
pub enum CompressError {
    /// The input is not valid compressed data.
    Corrupt,
    /// The data decompressed to another size than the one asked for.
    SizeMismatch,
}

/// A block compressor.
pub trait Compressor: Send + Sync {
    /// What `compress` returns for `input`.
    spec fn compressed(&self, input: Seq<u8>) -> Seq<u8>;

    /// What `decompress` returns for `input` and the expected size, `None` for
    /// an error.
    spec fn decompressed(&self, input: Seq<u8>, output_size: nat) -> Option<Seq<u8>>;

    /// The algorithm's name.
    spec fn algorithm(&self) -> Seq<char>;

    /// Compress input data.
    fn compress(&self, input: &[u8]) -> (r: Vec<u8>)
        ensures
            r@ == self.compressed(input@),
    ;

    /// Decompress input data of a known uncompressed size.
    fn decompress(&self, input: &[u8], output_size: usize) -> (r: Result<Vec<u8>, CompressError>)
        ensures
            match r {
                Ok(v) => self.decompressed(input@, output_size as nat) == Some(v@),
                Err(_) => self.decompressed(input@, output_size as nat) is None,
            },
    ;

    /// Algorithm name.
    fn name(&self) -> (r: &'static str)
        ensures
            r@ == self.algorithm(),
    ;
}

/// LZ4 compressor - fastest compression.
pub struct Lz4Compressor;

impl Lz4Compressor {
    pub fn new() -> (c: Lz4Compressor) {
        Lz4Compressor
    }
}

impl Default for Lz4Compressor {
    fn default() -> (c: Lz4Compressor) {
        Lz4Compressor::new()
    }
}

/// LZ4 decompression that also checks the size.
pub open spec fn lz4_decompressed_sized(input: Seq<u8>, output_size: nat) -> Option<Seq<u8>> {
    match lz4_decompress_prepended(input) {
        Some(v) => if v.len() == output_size { Some(v) } else { None },
        None => None,
    }
}

impl Compressor for Lz4Compressor {
    open spec fn compressed(&self, input: Seq<u8>) -> Seq<u8> {
        lz4_compress_prepend(input)
    }

    open spec fn decompressed(&self, input: Seq<u8>, output_size: nat) -> Option<Seq<u8>> {
        lz4_decompressed_sized(input, output_size)
    }

    open spec fn algorithm(&self) -> Seq<char> {
        seq!['L', 'Z', '4']
    }

    /// Decompressing the result with the input's length gives the input
    /// back, for inputs whose length fits the `u32` size prefix.
    fn compress(&self, input: &[u8]) -> (r: Vec<u8>)
        ensures
            input@.len() <= u32::MAX ==> self.decompressed(r@, input@.len()) == Some(input@),
    {
        lz4_compress_prepend_size(input)
    }

    fn decompress(&self, input: &[u8], output_size: usize) -> (r: Result<Vec<u8>, CompressError>)
        ensures
            r == Err::<Vec<u8>, CompressError>(CompressError::Corrupt) <==> lz4_decompress_prepended(
                input@,
            ) is None,
            r == Err::<Vec<u8>, CompressError>(CompressError::SizeMismatch) <==> (
            lz4_decompress_prepended(input@) is Some && lz4_decompress_prepended(input@)->0.len()
                != output_size),
    {
        match lz4_decompress_size_prepended(input) {
            None => Err(CompressError::Corrupt),
            Some(decompressed) => {
                if decompressed.len() != output_size {
                    Err(CompressError::SizeMismatch)
                } else {
                    Ok(decompressed)
                }
            },
        }
    }

    fn name(&self) -> (r: &'static str) {
        proof {
            reveal_strlit("LZ4");
        }
        "LZ4"
    }
}

/// zlib compression level.
#[derive(Clone, Copy, Debug, PartialEq, Eq, Structural)]
pub enum CompressionLevel {
    Fast,
    Balanced,
    Best,
}

/// The zlib level number of a compression level.
pub open spec fn level_value(l: CompressionLevel) -> u32 {
    match l {
        CompressionLevel::Fast => 1,
        CompressionLevel::Balanced => 6,
        CompressionLevel::Best => 9,
    }
}

impl CompressionLevel {
    /// The zlib level number.
    pub fn value(&self) -> (r: u32)
        ensures
            r == level_value(*self),
    {
        match self {
            CompressionLevel::Fast => 1,
            CompressionLevel::Balanced => 6,
            CompressionLevel::Best => 9,
        }
    }
}

/// zlib compressor.
pub struct ZlibCompressor {
    level: CompressionLevel,
}

impl Default for ZlibCompressor {
    fn default() -> (c: ZlibCompressor)
        ensures
            c.level() == CompressionLevel::Balanced,
    {
        ZlibCompressor { level: CompressionLevel::Balanced }
    }
}

impl ZlibCompressor {
    pub fn new(level: CompressionLevel) -> (c: ZlibCompressor)
        ensures
            c.level() == level,
    {
        ZlibCompressor { level }
    }

    /// The compressor's level.
    pub closed spec fn level(&self) -> CompressionLevel {
        self.level
    }
}

impl Compressor for ZlibCompressor {
    open spec fn compressed(&self, input: Seq<u8>) -> Seq<u8> {
        zlib_compress(level_value(self.level()), input)
    }

    open spec fn decompressed(&self, input: Seq<u8>, output_size: nat) -> Option<Seq<u8>> {
        zlib_read_exact(input, output_size)
    }

    open spec fn algorithm(&self) -> Seq<char> {
        seq!['z', 'l', 'i', 'b']
    }

    /// Decompressing the result with the input's length gives the input back.
    fn compress(&self, input: &[u8]) -> (r: Vec<u8>)
        ensures
            self.decompressed(r@, input@.len()) == Some(input@),
    {
        zlib_encode(self.level.value(), input)
    }

    fn decompress(&self, input: &[u8], output_size: usize) -> (r: Result<Vec<u8>, CompressError>)
    {
        match zlib_decode_exact(input, output_size) {
            Some(v) => Ok(v),
            None => Err(CompressError::Corrupt),
        }
    }

    fn name(&self) -> (r: &'static str) {
        proof {
            reveal_strlit("zlib");
        }
        "zlib"
    }
}

/// What the compressor for `c` makes of `input`: LZ4 for `Lz4` and `FastLz`,
/// zlib at the balanced level for `Zlib`.
pub open spec fn compressed_with(c: Compression, input: Seq<u8>) -> Seq<u8> {
    match c {
        Compression::Zlib => zlib_compress(6, input),
        _ => lz4_compress_prepend(input),
    }
}

/// The compressor chosen for an algorithm selection.
pub enum SelectedCompressor {
    Lz4(Lz4Compressor),
    Zlib(ZlibCompressor),
}

impl Compressor for SelectedCompressor {
    open spec fn compressed(&self, input: Seq<u8>) -> Seq<u8> {
        match self {
            SelectedCompressor::Lz4(c) => c.compressed(input),
            SelectedCompressor::Zlib(c) => c.compressed(input),
        }
    }

    open spec fn decompressed(&self, input: Seq<u8>, output_size: nat) -> Option<Seq<u8>> {
        match self {
            SelectedCompressor::Lz4(c) => c.decompressed(input, output_size),
            SelectedCompressor::Zlib(c) => c.decompressed(input, output_size),
        }
    }

    open spec fn algorithm(&self) -> Seq<char> {
        match self {
            SelectedCompressor::Lz4(c) => c.algorithm(),
            SelectedCompressor::Zlib(c) => c.algorithm(),
        }
    }

    fn compress(&self, input: &[u8]) -> (r: Vec<u8>) {
        match self {
            SelectedCompressor::Lz4(c) => c.compress(input),
            SelectedCompressor::Zlib(c) => c.compress(input),
        }
    }

    fn decompress(&self, input: &[u8], output_size: usize) -> (r: Result<Vec<u8>, CompressError>) {
        match self {
            SelectedCompressor::Lz4(c) => c.decompress(input, output_size),
            SelectedCompressor::Zlib(c) => c.decompress(input, output_size),
        }
    }

    fn name(&self) -> (r: &'static str) {
        match self {
            SelectedCompressor::Lz4(c) => c.name(),
            SelectedCompressor::Zlib(c) => c.name(),
        }
    }
}

/// The compressor for an algorithm selection (FastLZ falls back to LZ4; zlib
/// runs at the balanced level).
pub fn get_compressor(compression: Compression) -> (r: SelectedCompressor)
    ensures
        forall|input: Seq<u8>| #[trigger] r.compressed(input) == compressed_with(compression, input),
        r.algorithm() == (if compression == Compression::Zlib { seq!['z', 'l', 'i', 'b'] } else {
            seq!['L', 'Z', '4']
        }),
{
    match compression {
        Compression::Lz4 => SelectedCompressor::Lz4(Lz4Compressor::new()),
        Compression::Zlib => SelectedCompressor::Zlib(ZlibCompressor::default()),
        Compression::FastLz => SelectedCompressor::Lz4(Lz4Compressor::new()),
    }
}

/// Compresses `input` as the compressor for `c` does.
pub fn compress_with(c: Compression, input: &[u8]) -> (r: Vec<u8>)
    ensures
        r@ == compressed_with(c, input@),
{
    match c {
        Compression::Zlib => zlib_encode(6, input),
        _ => lz4_compress_prepend_size(input),
    }
}

} // verus!
