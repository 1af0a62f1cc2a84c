//! VCD values, parser events and errors.
use vstd::prelude::*;
use vstd::string::StringSliceAdditionalSpecFns;

use crate::text::{lossy_utf8, string_from_utf8_lossy};

verus! {

/// A VCD value.
#[derive(Debug, Clone, PartialEq)]
pub enum VcdValue {
    /// Single bit: 0, 1, x, z, X, Z (and the other scalar value characters)
    Bit(u8),
    /// Multi-bit vector, most significant bit first
    Vector(Vec<u8>),
    /// A real number, as its text in the file (a valid floating-point literal)
    Real(String),
}

/// The scalar value characters.
pub open spec fn is_scalar_char(c: char) -> bool {
    c == '0' || c == '1' || c == 'x' || c == 'z' || c == 'X' || c == 'Z' || c == 'u' || c == 'U'
        || c == 'w' || c == 'W' || c == 'l' || c == 'L' || c == '-'
}

/// The vector value characters.
pub open spec fn is_vector_byte(b: u8) -> bool {
    b == 0x30 || b == 0x31 || b == 0x78 || b == 0x7A || b == 0x58 || b == 0x5A
}

pub open spec fn is_digit_byte(b: u8) -> bool {
    0x30 <= b <= 0x39
}

/// ASCII letters compared case-insensitively: `b` is `lower` or its capital.
pub open spec fn ci_eq(b: u8, lower: u8) -> bool {
    b == lower || b == (lower - 32) as u8
}

/// `s` spells `word` (lower-case ASCII letters) ignoring case.
pub open spec fn ci_word(s: Seq<u8>, word: Seq<u8>) -> bool {
    s.len() == word.len() && forall|i: int| 0 <= i < s.len() ==> ci_eq(s[i], word[i])
}

/// Digits then more: the number of leading digits of `s` from `i`.
pub open spec fn digit_run_from(s: Seq<u8>, i: int) -> nat
    decreases s.len() - i,
{
    if i < 0 || i >= s.len() || !is_digit_byte(s[i]) {
        0
    } else {
        1 + digit_run_from(s, i + 1)
    }
}

/// The unsigned part of a decimal floating-point literal from `i` to the end:
/// digits with an optional fraction (at least one digit in all), then an
/// optional exponent `e`/`E`, optional sign, digits.
pub open spec fn is_float_number(s: Seq<u8>, i: int) -> bool {
    let d1 = digit_run_from(s, i);
    let p = i + d1;
    let (p2, digits) = if p < s.len() && s[p] == 0x2E {
        let d2 = digit_run_from(s, p + 1);
        (p + 1 + d2, d1 + d2)
    } else {
        (p, d1)
    };
    &&& digits > 0
    &&& (p2 == s.len() || (p2 < s.len() && (s[p2] == 0x65 || s[p2] == 0x45) && {
        let q = if p2 + 1 < s.len() && (s[p2 + 1] == 0x2B || s[p2 + 1] == 0x2D) {
            p2 + 2
        } else {
            p2 + 1
        };
        let d3 = digit_run_from(s, q);
        d3 > 0 && q + d3 == s.len()
    }))
}

/// `s` is a literal that `f64::from_str` accepts: an optional sign, then
/// `inf`, `infinity` or `nan` in any case, or a decimal number.
pub open spec fn is_float_literal(s: Seq<u8>) -> bool {
    let i = if s.len() > 0 && (s[0] == 0x2B || s[0] == 0x2D) { 1int } else { 0int };
    let rest = s.skip(i);
    ci_word(rest, seq![0x69u8, 0x6e, 0x66]) || ci_word(
        rest,
        seq![0x69u8, 0x6e, 0x66, 0x69, 0x6e, 0x69, 0x74, 0x79],
    ) || ci_word(rest, seq![0x6eu8, 0x61, 0x6e]) || is_float_number(s, i)
}

fn digit_run_exec(s: &[u8], i: usize) -> (r: usize)
    requires
        i <= s@.len(),
    ensures
        r == digit_run_from(s@, i as int),
        i + r <= s@.len(),
{
    let mut j: usize = i;
    while j < s.len() && 0x30 <= s[j] && s[j] <= 0x39
        invariant
            i <= j <= s@.len(),
            digit_run_from(s@, i as int) == (j - i) + digit_run_from(s@, j as int),
        decreases s@.len() - j,
    {
        j = j + 1;
    }
    j - i
}

fn ci_word_exec(s: &[u8], from: usize, word: &[u8]) -> (r: bool)
    requires
        from <= s@.len(),
        forall|i: int| 0 <= i < word@.len() ==> 0x61 <= #[trigger] word@[i] <= 0x7a,
    ensures
        r == ci_word(s@.skip(from as int), word@),
{
    if s.len() - from != word.len() {
        return false;
    }
    let n: usize = s.len();
    let mut i: usize = 0;
    while i < word.len()
        invariant
            n == s@.len(),
            s@.len() - from == word@.len(),
            from <= s@.len(),
            i <= word@.len(),
            forall|k: int| 0 <= k < word@.len() ==> 0x61 <= #[trigger] word@[k] <= 0x7a,
            forall|k: int| 0 <= k < i ==> ci_eq(s@.skip(from as int)[k], word@[k]),
        decreases word@.len() - i,
    {
        let b = s[from + i];
        let w = word[i];
        if !(b == w || b == w - 32) {
            return false;
        }
        i = i + 1;
    }
    true
}

/// Whether `f64::from_str` accepts `s`.
pub fn float_literal_ok(s: &[u8]) -> (r: bool)
    ensures
        r == is_float_literal(s@),
{
    let i: usize = if s.len() > 0 && (s[0] == 0x2B || s[0] == 0x2D) { 1 } else { 0 };
    let inf: [u8; 3] = [0x69, 0x6e, 0x66];
    let infinity: [u8; 8] = [0x69, 0x6e, 0x66, 0x69, 0x6e, 0x69, 0x74, 0x79];
    let nan: [u8; 3] = [0x6e, 0x61, 0x6e];
    assert(inf@ =~= seq![0x69u8, 0x6e, 0x66]);
    assert(infinity@ =~= seq![0x69u8, 0x6e, 0x66, 0x69, 0x6e, 0x69, 0x74, 0x79]);
    assert(nan@ =~= seq![0x6eu8, 0x61, 0x6e]);
    if ci_word_exec(s, i, &inf) || ci_word_exec(s, i, &infinity) || ci_word_exec(s, i, &nan) {
        return true;
    }
    let d1 = digit_run_exec(s, i);
    let p = i + d1;
    let mut p2: usize = p;
    let mut digits: usize = d1;
    if p < s.len() && s[p] == 0x2E {
        let d2 = digit_run_exec(s, p + 1);
        p2 = p + 1 + d2;
        digits = d1 + d2;
    }
    if digits == 0 {
        return false;
    }
    if p2 == s.len() {
        return true;
    }
    if !(s[p2] == 0x65 || s[p2] == 0x45) {
        return false;
    }
    let q: usize = if s.len() - p2 > 1 && (s[p2 + 1] == 0x2B || s[p2 + 1] == 0x2D) {
        p2 + 2
    } else {
        p2 + 1
    };
    let d3 = digit_run_exec(s, q);
    d3 > 0 && q + d3 == s.len()
}

impl VcdValue {
    /// The value's bytes: a scalar's character, a vector's characters. A
    /// real's bytes are those of its 64-bit float, which this library, free
    /// of floating point, does not compute: it takes no real.
    pub fn to_bytes(&self) -> (r: Vec<u8>)
        requires
            !(self is Real),
        ensures
            r@ == match self@ {
                ValueView::Bit(b) => seq![b],
                ValueView::Vector(v) => v,
                ValueView::Real(_) => Seq::empty(),
            },
    {
        match self {
            VcdValue::Bit(b) => {
                let mut out: Vec<u8> = Vec::new();
                out.push(*b);
                out
            },
            VcdValue::Vector(v) => vstd::slice::slice_to_vec(v.as_slice()),
            VcdValue::Real(_) => Vec::new(),
        }
    }

    /// The bit at position `pos` (0 = least significant): a scalar's value
    /// at every position, a vector's character, 0 outside a vector or for a
    /// real.
    pub fn bit_at(&self, pos: usize) -> (r: u8)
        ensures
            r == match self {
                VcdValue::Bit(b) => *b,
                VcdValue::Vector(v) => if pos < v@.len() { v@[v@.len() - 1 - pos] } else { 0u8 },
                VcdValue::Real(_) => 0u8,
            },
    {
        match self {
            VcdValue::Bit(b) => *b,
            VcdValue::Vector(v) => {
                if pos < v.len() {
                    v[v.len() - 1 - pos]
                } else {
                    0
                }
            },
            VcdValue::Real(_) => 0,
        }
    }

    /// Width in bits: 1 for a scalar, the length of a vector, 64 for a real.
    pub fn width(&self) -> (r: usize)
        ensures
            r == match self {
                VcdValue::Bit(_) => 1,
                VcdValue::Vector(v) => v@.len(),
                VcdValue::Real(_) => 64,
            },
    {
        match self {
            VcdValue::Bit(_) => 1,
            VcdValue::Vector(v) => v.len(),
            VcdValue::Real(_) => 64,
        }
    }

    /// A scalar value from its character.
    pub fn parse_scalar(c: char) -> (r: Option<VcdValue>)
        ensures
            match r {
                Some(v) => is_scalar_char(c) && v == VcdValue::Bit(c as u8),
                None => !is_scalar_char(c),
            },
    {
        if c == '0' || c == '1' || c == 'x' || c == 'z' || c == 'X' || c == 'Z' || c == 'u' || c
            == 'U' || c == 'w' || c == 'W' || c == 'l' || c == 'L' || c == '-' {
            Some(VcdValue::Bit(c as u8))
        } else {
            None
        }
    }

    /// A binary vector from its text (without the 'b' prefix): non-empty, of
    /// 0, 1, x, z, X, Z.
    pub fn parse_vector(s: &str) -> (r: Option<VcdValue>)
        ensures
            match r {
                Some(VcdValue::Vector(v)) => v@ == s.spec_bytes() && s.spec_bytes().len() > 0
                    && forall|i: int|
                    0 <= i < v@.len() ==> is_vector_byte(#[trigger] v@[i]),
                Some(_) => false,
                None => s.spec_bytes().len() == 0 || exists|i: int|
                    0 <= i < s.spec_bytes().len() && !is_vector_byte(
                        #[trigger] s.spec_bytes()[i],
                    ),
            },
    {
        let b: &[u8] = s.as_bytes();
        vector_from_bytes(b)
    }

    /// A real value from its text (without the 'r' prefix), when
    /// `f64::from_str` accepts it.
    pub fn parse_real(s: &str) -> (r: Option<VcdValue>)
        ensures
            match r {
                Some(VcdValue::Real(t)) => is_float_literal(s.spec_bytes()) && t@ == lossy_utf8(
                    s.spec_bytes(),
                ),
                Some(_) => false,
                None => !is_float_literal(s.spec_bytes()),
            },
    {
        real_from_bytes(s.as_bytes())
    }
}

/// A vector value from bytes.
pub fn vector_from_bytes(b: &[u8]) -> (r: Option<VcdValue>)
    ensures
        match r {
            Some(VcdValue::Vector(v)) => v@ == b@ && b@.len() > 0 && forall|i: int|
                0 <= i < v@.len() ==> is_vector_byte(#[trigger] v@[i]),
            Some(_) => false,
            None => b@.len() == 0 || exists|i: int|
                0 <= i < b@.len() && !is_vector_byte(#[trigger] b@[i]),
        },
{
    if b.len() == 0 {
        return None;
    }
    let mut i: usize = 0;
    while i < b.len()
        invariant
            i <= b@.len(),
            forall|k: int| 0 <= k < i ==> is_vector_byte(#[trigger] b@[k]),
        decreases b@.len() - i,
    {
        let c = b[i];
        if !(c == 0x30 || c == 0x31 || c == 0x78 || c == 0x7A || c == 0x58 || c == 0x5A) {
            assert(!is_vector_byte(b@[i as int]));
            return None;
        }
        i = i + 1;
    }
    Some(VcdValue::Vector(vstd::slice::slice_to_vec(b)))
}

/// A real value from bytes, when they are a floating-point literal.
pub fn real_from_bytes(b: &[u8]) -> (r: Option<VcdValue>)
    ensures
        match r {
            Some(VcdValue::Real(t)) => is_float_literal(b@) && t@ == lossy_utf8(b@),
            Some(_) => false,
            None => !is_float_literal(b@),
        },
{
    if float_literal_ok(b) {
        Some(VcdValue::Real(string_from_utf8_lossy(b)))
    } else {
        None
    }
}

/// VCD parser error kinds.
#[derive(Debug, Clone)]
pub enum ErrorKind {
    /// Unexpected character found
    UnexpectedChar { found: char, expected: &'static str },
    /// Missing $end keyword
    MissingEndKeyword,
    /// Invalid timestamp format
    InvalidTimestamp { value: String },
    /// Unterminated comment
    UnterminatedComment,
    /// Duplicate signal declaration
    DuplicateSignal { first_line: usize },
    /// Invalid timescale value
    InvalidTimescale,
    /// IO error
    IoError(String),
}

/// VCD parser error.
#[derive(Debug, Clone)]
pub struct VcdError {
    pub line: usize,
    pub column: usize,
    pub kind: ErrorKind,
    pub help: Option<String>,
}

/// The error kinds that allow parsing to continue.
pub open spec fn recoverable_kind(k: ErrorKind) -> bool {
    match k {
        ErrorKind::UnexpectedChar { .. } => true,
        ErrorKind::MissingEndKeyword => true,
        ErrorKind::InvalidTimestamp { .. } => true,
        ErrorKind::UnterminatedComment => true,
        ErrorKind::DuplicateSignal { .. } => false,
        ErrorKind::InvalidTimescale => false,
        ErrorKind::IoError(_) => false,
    }
}

impl VcdError {
    /// Whether this error allows continuation.
    pub fn is_recoverable(&self) -> (r: bool)
        ensures
            r == recoverable_kind(self.kind),
    {
        match self.kind {
            ErrorKind::UnexpectedChar { .. } => true,
            ErrorKind::MissingEndKeyword => true,
            ErrorKind::InvalidTimestamp { .. } => true,
            ErrorKind::UnterminatedComment => true,
            ErrorKind::DuplicateSignal { .. } => false,
            ErrorKind::InvalidTimescale => false,
            ErrorKind::IoError(_) => false,
        }
    }
}

/// VCD events emitted by the parser.
#[derive(Debug, Clone)]
pub enum VcdEvent {
    /// Timescale directive (exponent of ten, in seconds)
    Timescale(i8),
    /// Date directive
    Date(String),
    /// Scope start
    ScopeStart { name: String, kind: String },
    /// Scope end
    ScopeEnd,
    /// Variable declaration
    VarDecl { id: String, name: String, width: u32, var_type: String },
    /// Timestamp marker
    Timestamp(u64),
    /// Value change for a signal (id is the signal number)
    ValueChange { id: u32, value: VcdValue },
    /// Dump vars marker
    DumpVars,
    /// Dump off marker
    DumpOff,
    /// Dump on marker
    DumpOn,
    /// Comment (ignored)
    Comment(String),
}

/// Parser state.
#[derive(Debug, Clone, Copy, PartialEq, Eq, Structural)]
pub enum ParserState {
    /// Parsing header section
    Header,
    /// Parsing dump section
    Dump,
    /// Skipping to $end keyword
    SkipToEnd,
}

impl Default for ParserState {
    fn default() -> (s: ParserState)
        ensures
            s == ParserState::Header,
    {
        ParserState::Header
    }
}

/// What a VCD value holds.
pub enum ValueView {
    Bit(u8),
    Vector(Seq<u8>),
    Real(Seq<char>),
}

impl View for VcdValue {
    type V = ValueView;

    open spec fn view(&self) -> ValueView {
        match self {
            VcdValue::Bit(b) => ValueView::Bit(*b),
            VcdValue::Vector(v) => ValueView::Vector(v@),
            VcdValue::Real(t) => ValueView::Real(t@),
        }
    }
}

/// What a parser event holds, strings as characters.
pub enum EventView {
    Timescale(i8),
    Date(Seq<char>),
    ScopeStart { name: Seq<char>, kind: Seq<char> },
    ScopeEnd,
    VarDecl { id: Seq<char>, name: Seq<char>, width: u32, var_type: Seq<char> },
    Timestamp(u64),
    ValueChange { id: u32, value: ValueView },
    DumpVars,
    DumpOff,
    DumpOn,
    Comment(Seq<char>),
}

impl View for VcdEvent {
    type V = EventView;

    open spec fn view(&self) -> EventView {
        match self {
            VcdEvent::Timescale(e) => EventView::Timescale(*e),
            VcdEvent::Date(d) => EventView::Date(d@),
            VcdEvent::ScopeStart { name, kind } => EventView::ScopeStart { name: name@, kind: kind@ },
            VcdEvent::ScopeEnd => EventView::ScopeEnd,
            VcdEvent::VarDecl { id, name, width, var_type } => EventView::VarDecl {
                id: id@,
                name: name@,
                width: *width,
                var_type: var_type@,
            },
            VcdEvent::Timestamp(t) => EventView::Timestamp(*t),
            VcdEvent::ValueChange { id, value } => EventView::ValueChange { id: *id, value: value@ },
            VcdEvent::DumpVars => EventView::DumpVars,
            VcdEvent::DumpOff => EventView::DumpOff,
            VcdEvent::DumpOn => EventView::DumpOn,
            VcdEvent::Comment(c) => EventView::Comment(c@),
        }
    }
}

/// What an error kind holds, strings as characters.
pub enum KindView {
    UnexpectedChar { found: char, expected: Seq<char> },
    MissingEndKeyword,
    InvalidTimestamp { value: Seq<char> },
    UnterminatedComment,
    DuplicateSignal { first_line: usize },
    InvalidTimescale,
    IoError(Seq<char>),
}

impl View for ErrorKind {
    type V = KindView;

    open spec fn view(&self) -> KindView {
        match self {
            ErrorKind::UnexpectedChar { found, expected } => KindView::UnexpectedChar {
                found: *found,
                expected: expected@,
            },
            ErrorKind::MissingEndKeyword => KindView::MissingEndKeyword,
            ErrorKind::InvalidTimestamp { value } => KindView::InvalidTimestamp { value: value@ },
            ErrorKind::UnterminatedComment => KindView::UnterminatedComment,
            ErrorKind::DuplicateSignal { first_line } => KindView::DuplicateSignal {
                first_line: *first_line,
            },
            ErrorKind::InvalidTimescale => KindView::InvalidTimescale,
            ErrorKind::IoError(m) => KindView::IoError(m@),
        }
    }
}

/// What a parser error holds.
pub struct ErrorView {
    pub line: usize,
    pub column: usize,
    pub kind: KindView,
    pub help: Option<Seq<char>>,
}

impl View for VcdError {
    type V = ErrorView;

    open spec fn view(&self) -> ErrorView {
        ErrorView {
            line: self.line,
            column: self.column,
            kind: self.kind@,
            help: match self.help {
                Some(h) => Some(h@),
                None => None,
            },
        }
    }
}

/// The view of a parser result.
pub open spec fn result_view(r: Result<VcdEvent, VcdError>) -> Result<EventView, ErrorView> {
    match r {
        Ok(e) => Ok(e@),
        Err(e) => Err(e@),
    }
}

} // verus!
