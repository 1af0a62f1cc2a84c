//! FST block types, variable and scope kinds, the file header and signal
//! declarations.
use vstd::prelude::*;
use vstd::string::StringExecFns;
use vstd::string::StringSliceAdditionalSpecFns;

use crate::text::{bytes_eq, contains_sub, seq_contains_sub};

verus! {

// ---------------------------------------------------------------------------
// Block types
// ---------------------------------------------------------------------------

/// FST block types as defined in the format specification.
#[derive(Debug, Clone, Copy, PartialEq, Eq, Structural)]
pub enum BlockType {
    /// File header block
    Hdr,
    /// Value change data block
    VcData,
    /// Blackout (dump on/off) markers
    Blackout,
    /// Geometry block (signal metadata)
    Geom,
    /// Hierarchy block (scope/variable info)
    Hier,
    /// VCD data with dynamic aliasing
    VcDataDynAlias,
    /// LZ4 compressed hierarchy
    HierLz4,
    /// Double LZ4 compressed hierarchy
    HierLz4Duo,
    /// Extended VCD data format
    VcDataDynAlias2,
    /// Compressed wrapper over whole file
    ZWrapper,
    /// Invalid block type marker
    Bad,
}

/// The byte that marks a block of this type in a file.
pub open spec fn block_type_code(t: BlockType) -> u8 {
    match t {
        BlockType::Hdr => 0x00,
        BlockType::VcData => 0x01,
        BlockType::Blackout => 0x02,
        BlockType::Geom => 0x03,
        BlockType::Hier => 0x04,
        BlockType::VcDataDynAlias => 0x05,
        BlockType::HierLz4 => 0x06,
        BlockType::HierLz4Duo => 0x07,
        BlockType::VcDataDynAlias2 => 0x08,
        BlockType::ZWrapper => 0xFE,
        BlockType::Bad => 0xFF,
    }
}

impl BlockType {
    /// The block's type byte.
    pub fn code(&self) -> (r: u8)
        ensures
            r == block_type_code(*self),
    {
        match self {
            BlockType::Hdr => 0x00,
            BlockType::VcData => 0x01,
            BlockType::Blackout => 0x02,
            BlockType::Geom => 0x03,
            BlockType::Hier => 0x04,
            BlockType::VcDataDynAlias => 0x05,
            BlockType::HierLz4 => 0x06,
            BlockType::HierLz4Duo => 0x07,
            BlockType::VcDataDynAlias2 => 0x08,
            BlockType::ZWrapper => 0xFE,
            BlockType::Bad => 0xFF,
        }
    }

    /// The block type's display name, as GTKWave's tools print it.
    pub fn name(&self) -> (r: &'static str)
        ensures
            r@ == block_type_name(*self),
    {
        proof {
            reveal_strlit("HDR");
            reveal_strlit("VCDATA");
            reveal_strlit("BLACKOUT");
            reveal_strlit("GEOM");
            reveal_strlit("HIER");
            reveal_strlit("VCDATA_DYN_ALIAS");
            reveal_strlit("HIER_LZ4");
            reveal_strlit("HIER_LZ4DUO");
            reveal_strlit("VCDATA_DYN_ALIAS2");
            reveal_strlit("ZWRAPPER");
            reveal_strlit("BAD");
        }
        match self {
            BlockType::Hdr => "HDR",
            BlockType::VcData => "VCDATA",
            BlockType::Blackout => "BLACKOUT",
            BlockType::Geom => "GEOM",
            BlockType::Hier => "HIER",
            BlockType::VcDataDynAlias => "VCDATA_DYN_ALIAS",
            BlockType::HierLz4 => "HIER_LZ4",
            BlockType::HierLz4Duo => "HIER_LZ4DUO",
            BlockType::VcDataDynAlias2 => "VCDATA_DYN_ALIAS2",
            BlockType::ZWrapper => "ZWRAPPER",
            BlockType::Bad => "BAD",
        }
    }
}

/// The display name of a block type.
pub open spec fn block_type_name(t: BlockType) -> Seq<char> {
    match t {
        BlockType::Hdr => seq!['H', 'D', 'R'],
        BlockType::VcData => seq!['V', 'C', 'D', 'A', 'T', 'A'],
        BlockType::Blackout => seq!['B', 'L', 'A', 'C', 'K', 'O', 'U', 'T'],
        BlockType::Geom => seq!['G', 'E', 'O', 'M'],
        BlockType::Hier => seq!['H', 'I', 'E', 'R'],
        BlockType::VcDataDynAlias => seq![
            'V', 'C', 'D', 'A', 'T', 'A', '_', 'D', 'Y', 'N', '_', 'A', 'L', 'I', 'A', 'S',
        ],
        BlockType::HierLz4 => seq!['H', 'I', 'E', 'R', '_', 'L', 'Z', '4'],
        BlockType::HierLz4Duo => seq!['H', 'I', 'E', 'R', '_', 'L', 'Z', '4', 'D', 'U', 'O'],
        BlockType::VcDataDynAlias2 => seq![
            'V', 'C', 'D', 'A', 'T', 'A', '_', 'D', 'Y', 'N', '_', 'A', 'L', 'I', 'A', 'S', '2',
        ],
        BlockType::ZWrapper => seq!['Z', 'W', 'R', 'A', 'P', 'P', 'E', 'R'],
        BlockType::Bad => seq!['B', 'A', 'D'],
    }
}

// ---------------------------------------------------------------------------
// Header
// ---------------------------------------------------------------------------

/// FST file header.
#[derive(Debug, Clone)]
pub struct FstHeader {
    pub start_time: u64,
    pub end_time: u64,
    pub timescale_exp: i8,
    pub version: String,
    pub date: String,
    /// Number of scopes, as the header block records it.
    pub scope_count: u64,
    /// Number of variables, as the header block records it.
    pub var_count: u64,
    /// Largest signal handle, as the header block records it.
    pub max_handle: u64,
}

/// What a header holds, its strings as characters.
pub struct HeaderView {
    pub start_time: u64,
    pub end_time: u64,
    pub timescale_exp: i8,
    pub version: Seq<char>,
    pub date: Seq<char>,
    pub scope_count: u64,
    pub var_count: u64,
    pub max_handle: u64,
}

impl View for FstHeader {
    type V = HeaderView;

    open spec fn view(&self) -> HeaderView {
        HeaderView {
            start_time: self.start_time,
            end_time: self.end_time,
            timescale_exp: self.timescale_exp,
            version: self.version@,
            date: self.date@,
            scope_count: self.scope_count,
            var_count: self.var_count,
            max_handle: self.max_handle,
        }
    }
}

/// The version string a new header carries.
pub open spec fn default_version() -> Seq<char> {
    seq!['w', 'a', 'l', 'c', 'o', 'n', 'v', ' ', '0', '.', '1', '.', '0']
}

impl FstHeader {
    /// A header for a new file: times 0, timescale 1ns, the library's version
    /// string, and a date computed from `unix_secs` seconds since 1970.
    pub fn with_date(unix_secs: u64) -> (h: FstHeader)
        ensures
            h.start_time == 0,
            h.end_time == 0,
            h.timescale_exp == -9,
            h.version@ == default_version(),
            h.date@ == lite_date(unix_secs as nat),
            h.scope_count == 0,
            h.var_count == 0,
            h.max_handle == 0,
    {
        let v = "walconv 0.1.0";
        proof {
            reveal_strlit("walconv 0.1.0");
        }
        FstHeader {
            start_time: 0,
            end_time: 0,
            timescale_exp: -9,
            version: String::from_str(v),
            date: chrono_lite_date(unix_secs),
            scope_count: 0,
            var_count: 0,
            max_handle: 0,
        }
    }
}

impl Default for FstHeader {
    /// A header for a new file, dated by the system clock.
    fn default() -> (h: FstHeader)
        ensures
            h.start_time == 0,
            h.end_time == 0,
            h.timescale_exp == -9,
            h.version@ == default_version(),
            h.scope_count == 0,
            h.var_count == 0,
            h.max_handle == 0,
            exists|secs: nat| h.date@ == lite_date(secs),
    {
        let secs = unix_time_secs();
        FstHeader::with_date(secs)
    }
}

/// Calls `SystemTime::now().duration_since(UNIX_EPOCH)` and takes whole
/// seconds. Nothing is claimed of the value: it is the clock's. A clock set
/// before 1970 gives 0.
#[verifier::external_body]
fn unix_time_secs() -> (secs: u64) {
    match std::time::SystemTime::now().duration_since(std::time::UNIX_EPOCH) {
        Ok(d) => d.as_secs(),
        Err(_) => 0,
    }
}

/// The character of the decimal digit `d`.
pub open spec fn digit_char(d: nat) -> char {
    if d == 0 { '0' } else if d == 1 { '1' } else if d == 2 { '2' } else if d == 3 { '3' }
    else if d == 4 { '4' } else if d == 5 { '5' } else if d == 6 { '6' } else if d == 7 { '7' }
    else if d == 8 { '8' } else { '9' }
}

/// The decimal representation of `n`, most significant digit first.
pub open spec fn decimal(n: nat) -> Seq<char>
    decreases n,
{
    if n < 10 {
        seq![digit_char(n)]
    } else {
        decimal(n / 10).push(digit_char(n % 10))
    }
}

/// `s` padded on the left with '0' to at least `w` characters (`{:0w}`).
pub open spec fn zero_pad(s: Seq<char>, w: nat) -> Seq<char> {
    if s.len() >= w {
        s
    } else {
        Seq::new((w - s.len()) as nat, |i: int| '0') + s
    }
}

/// The date string of a new header: a year of 365 days and months of 30
/// days counted from 1970, as `YYYY-MM-DD`.
pub open spec fn lite_date(secs: nat) -> Seq<char> {
    let days = secs / 86400;
    let year = 1970 + days / 365;
    let yday = days % 365;
    let month = yday / 30 + 1;
    let day = yday % 30 + 1;
    zero_pad(decimal(year), 4) + seq!['-'] + zero_pad(decimal(month), 2) + seq!['-']
        + zero_pad(decimal(day), 2)
}

pub(crate) fn digit_str(d: u64) -> (s: &'static str)
    requires
        d < 10,
    ensures
        s@ == seq![digit_char(d as nat)],
{
    proof {
        reveal_strlit("0");
        reveal_strlit("1");
        reveal_strlit("2");
        reveal_strlit("3");
        reveal_strlit("4");
        reveal_strlit("5");
        reveal_strlit("6");
        reveal_strlit("7");
        reveal_strlit("8");
        reveal_strlit("9");
    }
    if d == 0 { "0" } else if d == 1 { "1" } else if d == 2 { "2" } else if d == 3 { "3" }
    else if d == 4 { "4" } else if d == 5 { "5" } else if d == 6 { "6" } else if d == 7 { "7" }
    else if d == 8 { "8" } else { "9" }
}

/// Appends the decimal digits of `n` to `out`.
pub(crate) fn push_decimal(out: &mut String, n: u64)
    ensures
        final(out)@ == old(out)@ + decimal(n as nat),
    decreases n,
{
    if n < 10 {
        out.append(digit_str(n));
    } else {
        push_decimal(out, n / 10);
        out.append(digit_str(n % 10));
    }
}

/// Appends `n` in decimal, left-padded with zeros to `w` digits.
fn push_padded(out: &mut String, n: u64, w: u64)
    ensures
        final(out)@ == old(out)@ + zero_pad(decimal(n as nat), w as nat),
{
    let mut digits = String::new();
    push_decimal(&mut digits, n);
    assert(digits@ == decimal(n as nat));
    // Count digits, up to `w`.
    let mut c: u64 = 1;
    let mut m: u64 = n;
    proof {
        lemma_decimal_len(n as nat);
    }
    while m >= 10 && c < w
        invariant
            1 <= c,
            c <= w || c == 1,
            decimal(n as nat).len() == c - 1 + decimal(m as nat).len(),
        decreases m,
    {
        proof {
            lemma_decimal_len(m as nat);
        }
        m = m / 10;
        c = c + 1;
    }
    proof {
        lemma_decimal_len(m as nat);
    }
    let ghost start = out@;
    if c < w {
        assert(decimal(n as nat).len() == c);
        let pad: u64 = w - c;
        let mut k: u64 = 0;
        while k < pad
            invariant
                k <= pad,
                out@ == start + Seq::new(k as nat, |i: int| '0'),
            decreases pad - k,
        {
            out.append(digit_str(0));
            k = k + 1;
            assert(out@ =~= start + Seq::new(k as nat, |i: int| '0'));
        }
        out.append(digits.as_str());
        assert(out@ =~= start + zero_pad(decimal(n as nat), w as nat));
    } else {
        assert(decimal(n as nat).len() >= w);
        out.append(digits.as_str());
    }
}

proof fn lemma_decimal_len(n: nat)
    ensures
        decimal(n).len() >= 1,
        n < 10 ==> decimal(n).len() == 1,
        n >= 10 ==> decimal(n).len() == decimal(n / 10).len() + 1,
    decreases n,
{
    if n >= 10 {
        lemma_decimal_len(n / 10);
    }
}

/// The date string of a new header for `secs` seconds since 1970.
pub fn chrono_lite_date(secs: u64) -> (s: String)
    ensures
        s@ == lite_date(secs as nat),
{
    let days = secs / 86400;
    let year = 1970 + days / 365;
    let yday = days % 365;
    let month = yday / 30 + 1;
    let day = yday % 30 + 1;
    let mut out = String::new();
    push_padded(&mut out, year, 4);
    out.append("-");
    push_padded(&mut out, month, 2);
    out.append("-");
    push_padded(&mut out, day, 2);
    proof {
        reveal_strlit("-");
    }
    out
}

// ---------------------------------------------------------------------------
// Variable and scope kinds
// ---------------------------------------------------------------------------

/// Variable type in FST.
#[derive(Debug, Clone, Copy, PartialEq, Eq, Structural)]
pub enum VarType {
    /// VCD wire
    VcdWire,
    /// VCD reg
    VcdReg,
    /// VCD port
    VcdPort,
    /// Integer
    Integer,
    /// Real number
    Real,
    /// String
    GenString,
    /// SystemVerilog bit
    SvBit,
    /// SystemVerilog logic
    SvLogic,
    /// SystemVerilog integer
    SvInt,
}

/// The FST type code of a variable type.
pub open spec fn var_type_code(t: VarType) -> u8 {
    match t {
        VarType::VcdWire => 16,
        VarType::VcdReg => 5,
        VarType::VcdPort => 18,
        VarType::Integer => 29,
        VarType::Real => 3,
        VarType::GenString => 21,
        VarType::SvBit => 22,
        VarType::SvLogic => 23,
        VarType::SvInt => 24,
    }
}

/// The variable type of an FST type code; unknown codes read as a wire.
pub open spec fn var_type_of_code(v: u8) -> VarType {
    if v == 16 { VarType::VcdWire }
    else if v == 5 { VarType::VcdReg }
    else if v == 18 { VarType::VcdPort }
    else if v == 29 { VarType::Integer }
    else if v == 3 { VarType::Real }
    else if v == 21 { VarType::GenString }
    else if v == 22 { VarType::SvBit }
    else if v == 23 { VarType::SvLogic }
    else if v == 24 { VarType::SvInt }
    else { VarType::VcdWire }
}

/// ASCII bytes of a few VCD keywords.
pub open spec fn kw_wire() -> Seq<u8> { seq![0x77u8, 0x69, 0x72, 0x65] }
pub open spec fn kw_reg() -> Seq<u8> { seq![0x72u8, 0x65, 0x67] }
pub open spec fn kw_port() -> Seq<u8> { seq![0x70u8, 0x6f, 0x72, 0x74] }
pub open spec fn kw_integer() -> Seq<u8> { seq![0x69u8, 0x6e, 0x74, 0x65, 0x67, 0x65, 0x72] }
pub open spec fn kw_real() -> Seq<u8> { seq![0x72u8, 0x65, 0x61, 0x6c] }
pub open spec fn kw_string() -> Seq<u8> { seq![0x73u8, 0x74, 0x72, 0x69, 0x6e, 0x67] }
pub open spec fn kw_bit() -> Seq<u8> { seq![0x62u8, 0x69, 0x74] }
pub open spec fn kw_logic() -> Seq<u8> { seq![0x6cu8, 0x6f, 0x67, 0x69, 0x63] }
pub open spec fn kw_int() -> Seq<u8> { seq![0x69u8, 0x6e, 0x74] }
pub open spec fn kw_module() -> Seq<u8> { seq![0x6du8, 0x6f, 0x64, 0x75, 0x6c, 0x65] }
pub open spec fn kw_task() -> Seq<u8> { seq![0x74u8, 0x61, 0x73, 0x6b] }
pub open spec fn kw_function() -> Seq<u8> {
    seq![0x66u8, 0x75, 0x6e, 0x63, 0x74, 0x69, 0x6f, 0x6e]
}
pub open spec fn kw_begin() -> Seq<u8> { seq![0x62u8, 0x65, 0x67, 0x69, 0x6e] }
pub open spec fn kw_fork() -> Seq<u8> { seq![0x66u8, 0x6f, 0x72, 0x6b] }
pub open spec fn kw_generate() -> Seq<u8> {
    seq![0x67u8, 0x65, 0x6e, 0x65, 0x72, 0x61, 0x74, 0x65]
}

/// The FST variable type of a VCD `$var` type keyword (given as its bytes).
pub open spec fn var_type_of_vcd(t: Seq<u8>, width: u32) -> VarType {
    if t == kw_wire() { VarType::VcdWire }
    else if t == kw_reg() { VarType::VcdReg }
    else if t == kw_port() { VarType::VcdPort }
    else if t == kw_integer() { VarType::Integer }
    else if t == kw_real() { VarType::Real }
    else if t == kw_string() { VarType::GenString }
    else if width == 1 && seq_contains_sub(t, kw_bit()) { VarType::SvBit }
    else if seq_contains_sub(t, kw_logic()) || seq_contains_sub(t, kw_int()) { VarType::SvLogic }
    else { VarType::VcdWire }
}

/// The standard VCD `$var` keywords, at any width, give the FST variable
/// types of the same names: wire (code 16), reg (5), port (18), integer
/// (29), real (3) and string (21).
pub proof fn lemma_vcd_keyword_types(width: u32)
    ensures
        var_type_of_vcd(seq!['w' as u8, 'i' as u8, 'r' as u8, 'e' as u8], width) == VarType::VcdWire,
        var_type_of_vcd(seq!['r' as u8, 'e' as u8, 'g' as u8], width) == VarType::VcdReg,
        var_type_of_vcd(seq!['p' as u8, 'o' as u8, 'r' as u8, 't' as u8], width) == VarType::VcdPort,
        var_type_of_vcd(
            seq!['i' as u8, 'n' as u8, 't' as u8, 'e' as u8, 'g' as u8, 'e' as u8, 'r' as u8],
            width,
        ) == VarType::Integer,
        var_type_of_vcd(seq!['r' as u8, 'e' as u8, 'a' as u8, 'l' as u8], width) == VarType::Real,
        var_type_of_vcd(
            seq!['s' as u8, 't' as u8, 'r' as u8, 'i' as u8, 'n' as u8, 'g' as u8],
            width,
        ) == VarType::GenString,
        var_type_code(var_type_of_vcd(seq!['w' as u8, 'i' as u8, 'r' as u8, 'e' as u8], width)) == 16,
        var_type_code(var_type_of_vcd(seq!['r' as u8, 'e' as u8, 'g' as u8], width)) == 5,
        var_type_code(var_type_of_vcd(seq!['p' as u8, 'o' as u8, 'r' as u8, 't' as u8], width)) == 18,
        var_type_code(
            var_type_of_vcd(
                seq!['i' as u8, 'n' as u8, 't' as u8, 'e' as u8, 'g' as u8, 'e' as u8, 'r' as u8],
                width,
            ),
        ) == 29,
        var_type_code(var_type_of_vcd(seq!['r' as u8, 'e' as u8, 'a' as u8, 'l' as u8], width)) == 3,
        var_type_code(
            var_type_of_vcd(
                seq!['s' as u8, 't' as u8, 'r' as u8, 'i' as u8, 'n' as u8, 'g' as u8],
                width,
            ),
        ) == 21,
{
    assert(seq!['w' as u8, 'i' as u8, 'r' as u8, 'e' as u8] =~= kw_wire());
    assert(seq!['r' as u8, 'e' as u8, 'g' as u8] =~= kw_reg());
    assert(seq!['p' as u8, 'o' as u8, 'r' as u8, 't' as u8] =~= kw_port());
    assert(seq!['i' as u8, 'n' as u8, 't' as u8, 'e' as u8, 'g' as u8, 'e' as u8, 'r' as u8]
        =~= kw_integer());
    assert(seq!['r' as u8, 'e' as u8, 'a' as u8, 'l' as u8] =~= kw_real());
    assert(seq!['s' as u8, 't' as u8, 'r' as u8, 'i' as u8, 'n' as u8, 'g' as u8] =~= kw_string());
    // the keywords differ from one another in length or in a letter
    assert(kw_reg() != kw_wire());
    assert(kw_port() != kw_wire() && kw_port() != kw_reg());
    assert(kw_integer() != kw_wire() && kw_integer() != kw_reg() && kw_integer() != kw_port());
    assert(kw_real()[1] != kw_wire()[1] && kw_real()[2] != kw_reg()[2] && kw_real()[0] != kw_port()[0]);
    assert(kw_real() != kw_wire() && kw_real() != kw_reg() && kw_real() != kw_port() && kw_real() != kw_integer());
    assert(kw_string() != kw_wire() && kw_string() != kw_reg() && kw_string() != kw_port()
        && kw_string() != kw_integer() && kw_string() != kw_real());
}

impl VarType {
    /// The FST type code.
    pub fn code(&self) -> (r: u8)
        ensures
            r == var_type_code(*self),
    {
        match self {
            VarType::VcdWire => 16,
            VarType::VcdReg => 5,
            VarType::VcdPort => 18,
            VarType::Integer => 29,
            VarType::Real => 3,
            VarType::GenString => 21,
            VarType::SvBit => 22,
            VarType::SvLogic => 23,
            VarType::SvInt => 24,
        }
    }

    /// The variable type of a VCD `$var` type keyword and width.
    pub fn from_vcd_type(vcd_type: &str, width: u32) -> (r: VarType)
        ensures
            r == var_type_of_vcd(vcd_type.spec_bytes(), width),
    {
        let t: &[u8] = vcd_type.as_bytes();
        let wire: [u8; 4] = [0x77, 0x69, 0x72, 0x65];
        let reg: [u8; 3] = [0x72, 0x65, 0x67];
        let port: [u8; 4] = [0x70, 0x6f, 0x72, 0x74];
        let integer: [u8; 7] = [0x69, 0x6e, 0x74, 0x65, 0x67, 0x65, 0x72];
        let real_kw: [u8; 4] = [0x72, 0x65, 0x61, 0x6c];
        let string: [u8; 6] = [0x73, 0x74, 0x72, 0x69, 0x6e, 0x67];
        let bit: [u8; 3] = [0x62, 0x69, 0x74];
        let logic: [u8; 5] = [0x6c, 0x6f, 0x67, 0x69, 0x63];
        let int_kw: [u8; 3] = [0x69, 0x6e, 0x74];
        proof {
            assert(wire@ =~= kw_wire());
            assert(reg@ =~= kw_reg());
            assert(port@ =~= kw_port());
            assert(integer@ =~= kw_integer());
            assert(real_kw@ =~= kw_real());
            assert(string@ =~= kw_string());
            assert(bit@ =~= kw_bit());
            assert(logic@ =~= kw_logic());
            assert(int_kw@ =~= kw_int());
        }
        if bytes_eq(t, &wire) {
            VarType::VcdWire
        } else if bytes_eq(t, &reg) {
            VarType::VcdReg
        } else if bytes_eq(t, &port) {
            VarType::VcdPort
        } else if bytes_eq(t, &integer) {
            VarType::Integer
        } else if bytes_eq(t, &real_kw) {
            VarType::Real
        } else if bytes_eq(t, &string) {
            VarType::GenString
        } else if width == 1 && contains_sub(t, &bit) {
            VarType::SvBit
        } else if contains_sub(t, &logic) || contains_sub(t, &int_kw) {
            VarType::SvLogic
        } else {
            VarType::VcdWire
        }
    }

    /// The variable type of an FST type code; unknown codes read as a wire.
    pub fn from_u8(v: u8) -> (r: VarType)
        ensures
            r == var_type_of_code(v),
    {
        match v {
            16 => VarType::VcdWire,
            5 => VarType::VcdReg,
            18 => VarType::VcdPort,
            29 => VarType::Integer,
            3 => VarType::Real,
            21 => VarType::GenString,
            22 => VarType::SvBit,
            23 => VarType::SvLogic,
            24 => VarType::SvInt,
            _ => VarType::VcdWire,
        }
    }
}

/// Scope type in FST.
#[derive(Debug, Clone, Copy, PartialEq, Eq, Structural)]
pub enum ScopeType {
    /// VCD module
    VcdModule,
    /// VCD task
    VcdTask,
    /// VCD function
    VcdFunction,
    /// VCD begin block
    VcdBegin,
    /// VCD fork
    VcdFork,
    /// VCD generate
    VcdGenerate,
}

/// The FST code of a scope type.
pub open spec fn scope_type_code(t: ScopeType) -> u8 {
    match t {
        ScopeType::VcdModule => 0,
        ScopeType::VcdTask => 1,
        ScopeType::VcdFunction => 2,
        ScopeType::VcdBegin => 3,
        ScopeType::VcdFork => 4,
        ScopeType::VcdGenerate => 5,
    }
}

/// The scope type of an FST scope code; unknown codes read as a module.
pub open spec fn scope_type_of_code(v: u8) -> ScopeType {
    if v == 0 { ScopeType::VcdModule }
    else if v == 1 { ScopeType::VcdTask }
    else if v == 2 { ScopeType::VcdFunction }
    else if v == 3 { ScopeType::VcdBegin }
    else if v == 4 { ScopeType::VcdFork }
    else if v == 5 { ScopeType::VcdGenerate }
    else { ScopeType::VcdModule }
}

/// The scope type of a VCD `$scope` kind keyword (given as its bytes).
pub open spec fn scope_type_of_vcd(k: Seq<u8>) -> ScopeType {
    if k == kw_module() { ScopeType::VcdModule }
    else if k == kw_task() { ScopeType::VcdTask }
    else if k == kw_function() { ScopeType::VcdFunction }
    else if k == kw_begin() { ScopeType::VcdBegin }
    else if k == kw_fork() { ScopeType::VcdFork }
    else if k == kw_generate() { ScopeType::VcdGenerate }
    else { ScopeType::VcdModule }
}

impl ScopeType {
    /// The FST scope code.
    pub fn code(&self) -> (r: u8)
        ensures
            r == scope_type_code(*self),
    {
        match self {
            ScopeType::VcdModule => 0,
            ScopeType::VcdTask => 1,
            ScopeType::VcdFunction => 2,
            ScopeType::VcdBegin => 3,
            ScopeType::VcdFork => 4,
            ScopeType::VcdGenerate => 5,
        }
    }

    /// The scope type of a VCD `$scope` kind keyword.
    pub fn from_vcd_kind(kind: &str) -> (r: ScopeType)
        ensures
            r == scope_type_of_vcd(kind.spec_bytes()),
    {
        let k: &[u8] = kind.as_bytes();
        let module: [u8; 6] = [0x6d, 0x6f, 0x64, 0x75, 0x6c, 0x65];
        let task: [u8; 4] = [0x74, 0x61, 0x73, 0x6b];
        let function: [u8; 8] = [0x66, 0x75, 0x6e, 0x63, 0x74, 0x69, 0x6f, 0x6e];
        let begin: [u8; 5] = [0x62, 0x65, 0x67, 0x69, 0x6e];
        let fork: [u8; 4] = [0x66, 0x6f, 0x72, 0x6b];
        let generate: [u8; 8] = [0x67, 0x65, 0x6e, 0x65, 0x72, 0x61, 0x74, 0x65];
        proof {
            assert(module@ =~= kw_module());
            assert(task@ =~= kw_task());
            assert(function@ =~= kw_function());
            assert(begin@ =~= kw_begin());
            assert(fork@ =~= kw_fork());
            assert(generate@ =~= kw_generate());
        }
        if bytes_eq(k, &module) {
            ScopeType::VcdModule
        } else if bytes_eq(k, &task) {
            ScopeType::VcdTask
        } else if bytes_eq(k, &function) {
            ScopeType::VcdFunction
        } else if bytes_eq(k, &begin) {
            ScopeType::VcdBegin
        } else if bytes_eq(k, &fork) {
            ScopeType::VcdFork
        } else if bytes_eq(k, &generate) {
            ScopeType::VcdGenerate
        } else {
            ScopeType::VcdModule
        }
    }

    /// The scope type of an FST scope code; unknown codes read as a module.
    pub fn from_u8(v: u8) -> (r: ScopeType)
        ensures
            r == scope_type_of_code(v),
    {
        match v {
            0 => ScopeType::VcdModule,
            1 => ScopeType::VcdTask,
            2 => ScopeType::VcdFunction,
            3 => ScopeType::VcdBegin,
            4 => ScopeType::VcdFork,
            5 => ScopeType::VcdGenerate,
            _ => ScopeType::VcdModule,
        }
    }
}

/// Every variable type survives a round trip through its code.
pub proof fn lemma_var_type_code_roundtrip(t: VarType)
    ensures
        var_type_of_code(var_type_code(t)) == t,
{
}

/// Every scope type survives a round trip through its code.
pub proof fn lemma_scope_type_code_roundtrip(t: ScopeType)
    ensures
        scope_type_of_code(scope_type_code(t)) == t,
{
}

// ---------------------------------------------------------------------------
// Signals and compression
// ---------------------------------------------------------------------------

/// Signal declaration.
#[derive(Debug, Clone)]
pub struct SignalDecl {
    pub handle: u32,
    pub name: String,
    pub width: u32,
    pub var_type: VarType,
}

/// What a signal declaration holds, its name as characters.
pub struct SignalView {
    pub handle: u32,
    pub name: Seq<char>,
    pub width: u32,
    pub var_type: VarType,
}

impl View for SignalDecl {
    type V = SignalView;

    open spec fn view(&self) -> SignalView {
        SignalView {
            handle: self.handle,
            name: self.name@,
            width: self.width,
            var_type: self.var_type,
        }
    }
}

/// The views of a sequence of signal declarations.
pub open spec fn sig_views(s: Seq<SignalDecl>) -> Seq<SignalView> {
    s.map_values(|d: SignalDecl| d@)
}

/// Compression algorithm selection.
#[derive(Debug, Clone, Copy, PartialEq, Eq, Structural)]
pub enum Compression {
    /// LZ4 - fastest
    Lz4,
    /// zlib - balanced
    Zlib,
    /// FastLZ - lightweight alternative
    FastLz,
}

impl Default for Compression {
    fn default() -> (c: Compression)
        ensures
            c == Compression::Lz4,
    {
        Compression::Lz4
    }
}

} // verus!
