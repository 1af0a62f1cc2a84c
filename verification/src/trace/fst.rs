//! Values of the FST trace back end: the bit string of a bit-vector value,
//! through wellen, and the value the query engine sees.
use vstd::prelude::*;
use crate::text::string_bytes;
use crate::trace::trace::{ScalarValue, ScalarView};
use vstd::utf8::encode_utf8;

verus! {

/// How many states each bit of a bit vector has.
#[derive(Clone, Copy, PartialEq, Eq, Structural)]
pub enum BitStates {
    Two,
    Four,
    Nine,
}

/// A waveform value as wellen gives it: an event, a bit vector of two,
/// four or nine states per bit (its packed bytes, most significant first,
/// and its width), a string, or a real (the bit pattern of its double).
pub enum WaveValue {
    Event,
    Binary(Vec<u8>, u32),
    FourValue(Vec<u8>, u32),
    NineValue(Vec<u8>, u32),
    String(String),
    Real(u64),
}

/// The bytes a bit vector of `width` bits takes.
pub open spec fn bytes_required(s: BitStates, width: u32) -> int {
    match s {
        BitStates::Two => (width + 7) / 8,
        BitStates::Four => (width + 3) / 4,
        BitStates::Nine => (width + 1) / 2,
    }
}

/// The state of bit `bit` of nine-state packed data: a nibble, the least
/// significant bits in the last byte.
pub open spec fn nine_state(data: Seq<u8>, bit: int) -> u8 {
    ((data[data.len() - 1 - bit / 2] >> (4 * (bit % 2)) as u8) & 0x0F) as u8
}

/// Packed data of the right size, and for nine states a state below 9 in
/// every bit.
pub open spec fn packed_ok(s: BitStates, width: u32, data: Seq<u8>) -> bool {
    &&& data.len() == bytes_required(s, width)
    &&& s == BitStates::Nine ==> forall|b: int| 0 <= b < width ==> #[trigger] nine_state(data, b) < 9
}

/// The state of bit `bit` of packed data: one, two or four bits per state
/// (see `nine_state` for four), the least significant states in the last
/// byte.
pub open spec fn state_of(s: BitStates, data: Seq<u8>, bit: int) -> u8 {
    match s {
        BitStates::Two => ((data[data.len() - 1 - bit / 8] >> (bit % 8) as u8) & 0x01) as u8,
        BitStates::Four => ((data[data.len() - 1 - bit / 4] >> (2 * (bit % 4)) as u8) & 0x03) as u8,
        BitStates::Nine => nine_state(data, bit),
    }
}

/// The character of a state: 0 '0', 1 '1', 2 'x', 3 'z', 4 'h', 5 'u',
/// 6 'w', 7 'l', 8 '-'.
pub open spec fn state_char(v: u8) -> char {
    if v == 0 {
        '0'
    } else if v == 1 {
        '1'
    } else if v == 2 {
        'x'
    } else if v == 3 {
        'z'
    } else if v == 4 {
        'h'
    } else if v == 5 {
        'u'
    } else if v == 6 {
        'w'
    } else if v == 7 {
        'l'
    } else {
        '-'
    }
}

/// The bit string of a bit vector: one character per bit, the most
/// significant first.
pub open spec fn bits_text(s: BitStates, width: u32, data: Seq<u8>) -> Seq<char> {
    Seq::new(width as nat, |i: int| state_char(state_of(s, data, width - 1 - i)))
}

/// Calls wellen's `SignalValueRef::bit_vec(states, width, data)` and its
/// `to_bit_string`, which is `Some` for a bit vector. Claimed, as wellen's
/// `BitVecRef::bit_string` and `States::get_bit` compute it: one character
/// per bit from the most significant, each state read from the packed data
/// and looked up in wellen's nine-character table (see `bits_text`).
/// wellen asserts (in debug builds) the data's size and, for nine states,
/// every state's range, and indexes its table with the state: those inputs
/// are left out.
#[verifier::external_body]
fn bit_vec_string(states: BitStates, width: u32, data: &[u8]) -> (r: String)
    requires
        packed_ok(states, width, data@),
    ensures
        r@ == bits_text(states, width, data@),
{
    let st = match states {
        BitStates::Two => wellen::States::Two,
        BitStates::Four => wellen::States::Four,
        BitStates::Nine => wellen::States::Nine,
    };
    match wellen::SignalValueRef::bit_vec(st, width, data).to_bit_string() {
        Some(s) => s,
        None => String::new(),
    }
}

/// A value wellen can hold: a bit vector's data is packed as its states
/// kind needs.
pub open spec fn wave_ok(v: &WaveValue) -> bool {
    match v {
        WaveValue::Binary(d, w) => packed_ok(BitStates::Two, *w, d@),
        WaveValue::FourValue(d, w) => packed_ok(BitStates::Four, *w, d@),
        WaveValue::NineValue(d, w) => packed_ok(BitStates::Nine, *w, d@),
        _ => true,
    }
}

/// The bit string of a bit-vector value (see `bits_text`); none for an
/// event, a string or a real.
pub open spec fn bit_string_of(v: &WaveValue) -> Option<Seq<char>> {
    match v {
        WaveValue::Binary(d, w) => Some(bits_text(BitStates::Two, *w, d@)),
        WaveValue::FourValue(d, w) => Some(bits_text(BitStates::Four, *w, d@)),
        WaveValue::NineValue(d, w) => Some(bits_text(BitStates::Nine, *w, d@)),
        _ => None,
    }
}

/// The bit string of a bit-vector value (see `bit_string_of`).
pub fn sv_bit_string(sv: &WaveValue) -> (r: Option<String>)
    requires
        wave_ok(sv),
    ensures
        match r {
            Some(s) => bit_string_of(sv) == Some(s@),
            None => bit_string_of(sv) is None,
        },
{
    match sv {
        WaveValue::Binary(d, w) => Some(bit_vec_string(BitStates::Two, *w, d.as_slice())),
        WaveValue::FourValue(d, w) => Some(bit_vec_string(BitStates::Four, *w, d.as_slice())),
        WaveValue::NineValue(d, w) => Some(bit_vec_string(BitStates::Nine, *w, d.as_slice())),
        _ => None,
    }
}

/// The value the query engine sees: an event is the bit '1', a string its
/// bytes, a real stays a real; a bit vector's bit string is one bit when it
/// is one byte long, else a vector of its bytes.
pub open spec fn scalar_of(v: &WaveValue) -> ScalarView {
    match v {
        WaveValue::Event => ScalarView::Bit(0x31),
        WaveValue::String(s) => ScalarView::Vector(encode_utf8(s@)),
        WaveValue::Real(bits) => ScalarView::Real(*bits),
        _ => match bit_string_of(v) {
            Some(bs) => if encode_utf8(bs).len() == 1 {
                ScalarView::Bit(encode_utf8(bs)[0])
            } else {
                ScalarView::Vector(encode_utf8(bs))
            },
            None => ScalarView::Bit(0x78),
        },
    }
}

/// The value the query engine sees (see `scalar_of`).
pub fn value_to_scalar(sv: &WaveValue) -> (r: ScalarValue)
    requires
        wave_ok(sv),
    ensures
        r@ == scalar_of(sv),
{
    match sv {
        WaveValue::Event => ScalarValue::Bit(0x31),
        WaveValue::String(s) => ScalarValue::Vector(string_bytes(s)),
        WaveValue::Real(bits) => ScalarValue::Real(*bits),
        _ => match sv_bit_string(sv) {
            Some(bs) => {
                let b = string_bytes(&bs);
                if b.len() == 1 {
                    ScalarValue::Bit(b[0])
                } else {
                    ScalarValue::Vector(b)
                }
            },
            None => ScalarValue::Bit(0x78),
        },
    }
}

} // verus!
