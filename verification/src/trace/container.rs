//! Choosing a waveform back end for a file: which files are refused
//! outright (compressed dumps, FSDB without its reader library, extended
//! VCD) and which format a file is read as, from its name and first bytes.
use vstd::prelude::*;
use vstd::string::StringSliceAdditionalSpecFns;

verus! {

/// The waveform formats with a back end.
#[derive(Debug, Clone, Copy, PartialEq, Eq, Structural)]
pub enum WaveFormat {
    Vcd,
    Fst,
    Fsdb,
}

/// Why a waveform file is refused before any back end reads it.
#[derive(Debug, Clone, Copy, PartialEq, Eq, Structural)]
pub enum WaveRejection {
    /// A gzip stream (first bytes 1f 8b).
    Gzip,
    /// A bzip2 stream (first bytes "BZh").
    Bzip2,
    /// An FSDB file while the FSDB reader library is not available.
    FsdbWithoutReader,
    /// Extended VCD (port dumps), whose value lines differ from VCD's.
    ExtendedVcd,
}

/// An ASCII letter in lower case.
pub open spec fn ascii_lower(b: u8) -> u8 {
    if 0x41 <= b <= 0x5A {
        (b + 0x20) as u8
    } else {
        b
    }
}

/// `s` ends with `suf` (given in lower case), ignoring the case of ASCII
/// letters.
pub open spec fn ci_ends_with(s: Seq<u8>, suf: Seq<u8>) -> bool {
    s.len() >= suf.len() && forall|i: int|
        0 <= i < suf.len() ==> ascii_lower(#[trigger] s[s.len() - suf.len() + i]) == suf[i]
}

/// `h` holds `n` somewhere.
pub open spec fn contains_bytes(h: Seq<u8>, n: Seq<u8>) -> bool {
    exists|i: int| 0 <= i && i + n.len() <= h.len() && #[trigger] h.subrange(i, i + n.len()) == n
}

pub(crate) fn lower_byte(b: u8) -> (r: u8)
    ensures
        r == ascii_lower(b),
{
    if b >= 0x41 && b <= 0x5A {
        b + 0x20
    } else {
        b
    }
}

fn ends_with_ci(s: &[u8], suf: &[u8]) -> (r: bool)
    ensures
        r == ci_ends_with(s@, suf@),
{
    if s.len() < suf.len() {
        return false;
    }
    let n = s.len();
    let off = n - suf.len();
    let mut i: usize = 0;
    while i < suf.len()
        invariant
            n == s@.len(),
            i <= suf@.len(),
            suf@.len() <= s@.len(),
            off + suf@.len() == s@.len(),
            forall|k: int| 0 <= k < i ==> ascii_lower(#[trigger] s@[s@.len() - suf@.len() + k]) == suf@[k],
        decreases suf@.len() - i,
    {
        if lower_byte(s[off + i]) != suf[i] {
            assert(ascii_lower(s@[s@.len() - suf@.len() + i]) != suf@[i as int]);
            return false;
        }
        i = i + 1;
    }
    true
}

/// Whether `h` holds `n` somewhere.
pub fn bytes_hold(h: &[u8], n: &[u8]) -> (r: bool)
    ensures
        r == contains_bytes(h@, n@),
{
    let r = crate::text::contains_sub(h, n);
    proof {
        if r {
            let i = choose|i: int| crate::text::occurs_at(h@, n@, i);
            assert(h@.subrange(i, i + n@.len()) =~= n@);
        } else {
            assert forall|i: int| 0 <= i && i + n@.len() <= h@.len() implies #[trigger] h@.subrange(
                i,
                i + n@.len(),
            ) != n@ by {
                if h@.subrange(i, i + n@.len()) == n@ {
                    assert forall|k: int| 0 <= k < n@.len() implies h@[i + k] == n@[k] by {
                        assert(h@.subrange(i, i + n@.len())[k] == h@[i + k]);
                    }
                    assert(crate::text::occurs_at(h@, n@, i));
                }
            }
        }
    }
    r
}

/// ".vcd.gz", ".vcd.bz2", ".vcd", ".fst", ".fsdb", ".evcd".
pub open spec fn ext_vcd_gz() -> Seq<u8> {
    seq![0x2eu8, 0x76, 0x63, 0x64, 0x2e, 0x67, 0x7a]
}

pub open spec fn ext_vcd_bz2() -> Seq<u8> {
    seq![0x2eu8, 0x76, 0x63, 0x64, 0x2e, 0x62, 0x7a, 0x32]
}

pub open spec fn ext_vcd() -> Seq<u8> {
    seq![0x2eu8, 0x76, 0x63, 0x64]
}

pub open spec fn ext_fst() -> Seq<u8> {
    seq![0x2eu8, 0x66, 0x73, 0x74]
}

pub open spec fn ext_fsdb() -> Seq<u8> {
    seq![0x2eu8, 0x66, 0x73, 0x64, 0x62]
}

pub open spec fn ext_evcd() -> Seq<u8> {
    seq![0x2eu8, 0x65, 0x76, 0x63, 0x64]
}

/// "FSDB".
pub open spec fn fsdb_tag() -> Seq<u8> {
    seq![0x46u8, 0x53, 0x44, 0x42]
}

/// "$dumpports" and "$var port".
pub open spec fn dumpports_tag() -> Seq<u8> {
    seq![0x24u8, 0x64, 0x75, 0x6d, 0x70, 0x70, 0x6f, 0x72, 0x74, 0x73]
}

pub open spec fn var_port_tag() -> Seq<u8> {
    seq![0x24u8, 0x76, 0x61, 0x72, 0x20, 0x70, 0x6f, 0x72, 0x74]
}

/// A VCD header's first three bytes: "$da", "$ti", "$ve" or "$sc".
pub open spec fn vcd_head3(h: Seq<u8>) -> bool {
    h.len() >= 3 && h[0] == 0x24 && ((h[1] == 0x64 && h[2] == 0x61) || (h[1] == 0x74 && h[2] == 0x69)
        || (h[1] == 0x76 && h[2] == 0x65) || (h[1] == 0x73 && h[2] == 0x63))
}

/// The format a file is read as, from its name and its first (up to 16)
/// bytes: compressed VCD names give none; then the extensions .vcd, .fst
/// and .fsdb in any case; then, with at least 4 bytes, a VCD header
/// keyword, an FST block type 0, 1, 3 or 4 as first byte, or "FSDB"
/// somewhere.
pub open spec fn format_of(name: Seq<u8>, head: Seq<u8>) -> Option<WaveFormat> {
    if ci_ends_with(name, ext_vcd_gz()) || ci_ends_with(name, ext_vcd_bz2()) {
        None
    } else if ci_ends_with(name, ext_vcd()) {
        Some(WaveFormat::Vcd)
    } else if ci_ends_with(name, ext_fst()) {
        Some(WaveFormat::Fst)
    } else if ci_ends_with(name, ext_fsdb()) {
        Some(WaveFormat::Fsdb)
    } else if head.len() < 4 {
        None
    } else if vcd_head3(head) {
        Some(WaveFormat::Vcd)
    } else if head[0] == 0 || head[0] == 1 || head[0] == 3 || head[0] == 4 {
        Some(WaveFormat::Fst)
    } else if contains_bytes(head, fsdb_tag()) {
        Some(WaveFormat::Fsdb)
    } else {
        None
    }
}

/// The format of a waveform file named `name` whose first bytes are `head`
/// (see `format_of`; the name's bytes are its UTF-8 encoding).
pub fn detect_format(name: &str, head: &[u8]) -> (r: Option<WaveFormat>)
    ensures
        r == format_of(name.spec_bytes(), head@),
{
    let nb: &[u8] = name.as_bytes();
    let vgz: [u8; 7] = [0x2e, 0x76, 0x63, 0x64, 0x2e, 0x67, 0x7a];
    let vbz: [u8; 8] = [0x2e, 0x76, 0x63, 0x64, 0x2e, 0x62, 0x7a, 0x32];
    let v: [u8; 4] = [0x2e, 0x76, 0x63, 0x64];
    let f: [u8; 4] = [0x2e, 0x66, 0x73, 0x74];
    let fd: [u8; 5] = [0x2e, 0x66, 0x73, 0x64, 0x62];
    let tag: [u8; 4] = [0x46, 0x53, 0x44, 0x42];
    assert(vgz@ =~= ext_vcd_gz());
    assert(vbz@ =~= ext_vcd_bz2());
    assert(v@ =~= ext_vcd());
    assert(f@ =~= ext_fst());
    assert(fd@ =~= ext_fsdb());
    assert(tag@ =~= fsdb_tag());
    let r = if ends_with_ci(nb, vgz.as_slice()) || ends_with_ci(nb, vbz.as_slice()) {
        None
    } else if ends_with_ci(nb, v.as_slice()) {
        Some(WaveFormat::Vcd)
    } else if ends_with_ci(nb, f.as_slice()) {
        Some(WaveFormat::Fst)
    } else if ends_with_ci(nb, fd.as_slice()) {
        Some(WaveFormat::Fsdb)
    } else if head.len() < 4 {
        None
    } else if head[0] == 0x24 && ((head[1] == 0x64 && head[2] == 0x61) || (head[1] == 0x74 && head[2]
        == 0x69) || (head[1] == 0x76 && head[2] == 0x65) || (head[1] == 0x73 && head[2] == 0x63)) {
        Some(WaveFormat::Vcd)
    } else if head[0] == 0 || head[0] == 1 || head[0] == 3 || head[0] == 4 {
        Some(WaveFormat::Fst)
    } else if bytes_hold(head, tag.as_slice()) {
        Some(WaveFormat::Fsdb)
    } else {
        None
    };
    r
}

/// Whether a file named `name` whose first (up to 8 KiB) bytes are `head`
/// is refused: a gzip or bzip2 stream by its magic; an FSDB file (by its
/// .fsdb extension in any case or "FSDB" in its first bytes) unless the
/// FSDB reader is available; extended VCD (the .evcd extension, or
/// "$dumpports" or "$var port" in its first bytes).
pub open spec fn rejection_of(name: Seq<u8>, head: Seq<u8>, reader_available: bool) -> Option<
    WaveRejection,
> {
    if head.len() >= 2 && head[0] == 0x1f && head[1] == 0x8b {
        Some(WaveRejection::Gzip)
    } else if head.len() >= 3 && head[0] == 0x42 && head[1] == 0x5a && head[2] == 0x68 {
        Some(WaveRejection::Bzip2)
    } else if ci_ends_with(name, ext_fsdb()) || contains_bytes(head, fsdb_tag()) {
        if reader_available {
            None
        } else {
            Some(WaveRejection::FsdbWithoutReader)
        }
    } else if ci_ends_with(name, ext_evcd()) || contains_bytes(head, dumpports_tag())
        || contains_bytes(head, var_port_tag()) {
        Some(WaveRejection::ExtendedVcd)
    } else {
        None
    }
}

/// Refuse a waveform file that no back end can read (see `rejection_of`);
/// `reader_available` says whether the FSDB reader library could be loaded.
pub fn reject_unsupported(name: &str, head: &[u8], reader_available: bool) -> (r: Result<(), WaveRejection>)
    ensures
        match r {
            Ok(()) => rejection_of(name.spec_bytes(), head@, reader_available) is None,
            Err(e) => rejection_of(name.spec_bytes(), head@, reader_available) == Some(e),
        },
{
    let nb: &[u8] = name.as_bytes();
    let n = head.len();
    if n >= 2 && head[0] == 0x1f && head[1] == 0x8b {
        return Err(WaveRejection::Gzip);
    }
    if n >= 3 && head[0] == 0x42 && head[1] == 0x5a && head[2] == 0x68 {
        return Err(WaveRejection::Bzip2);
    }
    let fd: [u8; 5] = [0x2e, 0x66, 0x73, 0x64, 0x62];
    let tag: [u8; 4] = [0x46, 0x53, 0x44, 0x42];
    let ev: [u8; 5] = [0x2e, 0x65, 0x76, 0x63, 0x64];
    let dp: [u8; 10] = [0x24, 0x64, 0x75, 0x6d, 0x70, 0x70, 0x6f, 0x72, 0x74, 0x73];
    let vp: [u8; 9] = [0x24, 0x76, 0x61, 0x72, 0x20, 0x70, 0x6f, 0x72, 0x74];
    assert(fd@ =~= ext_fsdb());
    assert(tag@ =~= fsdb_tag());
    assert(ev@ =~= ext_evcd());
    assert(dp@ =~= dumpports_tag());
    assert(vp@ =~= var_port_tag());
    if ends_with_ci(nb, fd.as_slice()) || bytes_hold(head, tag.as_slice()) {
        if reader_available {
            return Ok(());
        }
        return Err(WaveRejection::FsdbWithoutReader);
    }
    if ends_with_ci(nb, ev.as_slice()) || bytes_hold(head, dp.as_slice()) || bytes_hold(head, vp.as_slice()) {
        return Err(WaveRejection::ExtendedVcd);
    }
    Ok(())
}

} // verus!
