//! Value columns of the FSDB back end: reading scalar values as bits,
//! integers and edges, evaluating a find condition over a signal's change
//! column, and the byte layout of the per-signal column cache.
use vstd::prelude::*;

use crate::bytes::{append_bytes, le32, le32_bytes, le64, le64_bytes, read_u32_le, read_u64_le, u32_from_le, u64_from_le};
use crate::fst::varint::{spec_decode_varint, spec_encode_varint};
use crate::trace::fsdb::{get_varint, put_varint};
use crate::trace::trace::{FindCondition, ScalarValue, ScalarView};

verus! {

// ---------------------------------------------------------------------------
// Scalar values as bits
// ---------------------------------------------------------------------------

/// Calls `std::slice::from_ref`, documented to give a one-element slice
/// holding the referenced value.
#[verifier::external_body]
fn slice_from_ref(b: &u8) -> (r: &[u8])
    ensures
        r@ == seq![*b],
{
    std::slice::from_ref(b)
}

/// The bits of a value: a bit's one byte, a vector's bytes; none for a real.
pub open spec fn bits_of(v: ScalarView) -> Option<Seq<u8>> {
    match v {
        ScalarView::Bit(b) => Some(seq![b]),
        ScalarView::Vector(x) => Some(x),
        ScalarView::Real(_) => None,
    }
}

/// The bits of a value (see `bits_of`).
pub fn sv_bits(v: &ScalarValue) -> (r: Option<&[u8]>)
    ensures
        match r {
            Some(b) => bits_of(v@) == Some(b@),
            None => bits_of(v@) is None,
        },
{
    match v {
        ScalarValue::Bit(b) => Some(slice_from_ref(b)),
        ScalarValue::Vector(x) => Some(x.as_slice()),
        ScalarValue::Real(_) => None,
    }
}

/// The single bit of a value that has exactly one.
pub open spec fn as_bit_of(v: ScalarView) -> Option<u8> {
    match bits_of(v) {
        Some(b) => if b.len() == 1 {
            Some(b[0])
        } else {
            None
        },
        None => None,
    }
}

/// The single bit of a value (see `as_bit_of`).
pub fn sv_as_bit(v: &ScalarValue) -> (r: Option<u8>)
    ensures
        r == as_bit_of(v@),
{
    match sv_bits(v) {
        Some(b) => if b.len() == 1 {
            Some(b[0])
        } else {
            None
        },
        None => None,
    }
}

/// '0' or '1'.
pub open spec fn is_01(c: u8) -> bool {
    c == 0x30 || c == 0x31
}

/// Every byte of `b` is '0' or '1'.
pub open spec fn all_01(b: Seq<u8>) -> bool {
    forall|i: int| 0 <= i < b.len() ==> is_01(#[trigger] b[i])
}

/// Every byte of `b` is '0'.
pub open spec fn all_zero_bits(b: Seq<u8>) -> bool {
    forall|i: int| 0 <= i < b.len() ==> #[trigger] b[i] == 0x30
}

fn check_all_01(b: &[u8]) -> (r: bool)
    ensures
        r == all_01(b@),
{
    let mut i: usize = 0;
    while i < b.len()
        invariant
            i <= b@.len(),
            forall|k: int| 0 <= k < i ==> is_01(#[trigger] b@[k]),
        decreases b@.len() - i,
    {
        if !(b[i] == 0x30 || b[i] == 0x31) {
            assert(!is_01(b@[i as int]));
            return false;
        }
        i = i + 1;
    }
    true
}

fn check_all_zero(b: &[u8]) -> (r: bool)
    ensures
        r == all_zero_bits(b@),
{
    let mut i: usize = 0;
    while i < b.len()
        invariant
            i <= b@.len(),
            forall|k: int| 0 <= k < i ==> #[trigger] b@[k] == 0x30,
        decreases b@.len() - i,
    {
        if b[i] != 0x30 {
            return false;
        }
        i = i + 1;
    }
    true
}

/// A defined value: a real, or one or more bits all '0' or '1'.
pub open spec fn defined_of(v: ScalarView) -> bool {
    match v {
        ScalarView::Real(_) => true,
        _ => match bits_of(v) {
            Some(b) => b.len() > 0 && all_01(b),
            None => false,
        },
    }
}

/// Whether a value is defined (see `defined_of`).
pub fn sv_is_defined(v: &ScalarValue) -> (r: bool)
    ensures
        r == defined_of(v@),
{
    match v {
        ScalarValue::Real(_) => true,
        _ => match sv_bits(v) {
            Some(b) => b.len() > 0 && check_all_01(b),
            None => false,
        },
    }
}

/// Whether a value is a defined zero: `Some(true)` for all '0', `Some(false)`
/// for defined bits that are not all '0', `None` with an x/z bit or for a
/// real.
pub open spec fn zero_of(v: ScalarView) -> Option<bool> {
    match v {
        ScalarView::Real(_) => None,
        ScalarView::Bit(b) => if b == 0x30 {
            Some(true)
        } else if b == 0x31 {
            Some(false)
        } else {
            None
        },
        ScalarView::Vector(x) => if all_01(x) {
            Some(all_zero_bits(x))
        } else {
            None
        },
    }
}

/// Whether a value is a defined zero (see `zero_of`).
pub fn sv_is_zero(v: &ScalarValue) -> (r: Option<bool>)
    ensures
        r == zero_of(v@),
{
    match v {
        ScalarValue::Real(_) => None,
        ScalarValue::Bit(b) => {
            if *b == 0x30 {
                Some(true)
            } else if *b == 0x31 {
                Some(false)
            } else {
                None
            }
        },
        ScalarValue::Vector(x) => {
            if check_all_01(x.as_slice()) {
                Some(check_all_zero(x.as_slice()))
            } else {
                None
            }
        },
    }
}

/// The value of a string of '0'/'1' bytes read as binary, most significant
/// first.
pub open spec fn bin_value(b: Seq<u8>) -> nat
    decreases b.len(),
{
    if b.len() == 0 {
        0
    } else {
        bin_value(b.drop_last()) * 2 + (if b.last() == 0x31 { 1nat } else { 0nat })
    }
}

/// A value as a signed 64-bit integer: a single bit '0' or '1' as 0 or 1;
/// two or more bits, all '0'/'1', as the two's-complement reading of their
/// last 64 (when more than 64, the ones before them must all be '0');
/// nothing otherwise.
pub open spec fn i64_of(v: ScalarView) -> Option<i64> {
    match bits_of(v) {
        None => None,
        Some(b) => if b.len() == 0 {
            None
        } else if b.len() == 1 {
            if b[0] == 0x30 {
                Some(0i64)
            } else if b[0] == 0x31 {
                Some(1i64)
            } else {
                None
            }
        } else if !all_01(b) {
            None
        } else if b.len() > 64 && !all_zero_bits(b.take(b.len() - 64)) {
            None
        } else {
            let tail = if b.len() > 64 { b.skip(b.len() - 64) } else { b };
            Some((bin_value(tail) as u64) as i64)
        },
    }
}

proof fn lemma_bin_value_bound(b: Seq<u8>)
    ensures
        bin_value(b) < vstd::arithmetic::power2::pow2(b.len()),
    decreases b.len(),
{
    if b.len() > 0 {
        lemma_bin_value_bound(b.drop_last());
        vstd::arithmetic::power2::lemma_pow2_unfold(b.len());
    } else {
        vstd::arithmetic::power2::lemma2_to64();
    }
}

/// The two's-complement value of up to 64 '0'/'1' bytes.
fn bits_to_u64(b: &[u8]) -> (r: u64)
    requires
        b@.len() <= 64,
    ensures
        r as nat == bin_value(b@),
{
    let mut val: u64 = 0;
    let mut i: usize = 0;
    proof {
        vstd::arithmetic::power2::lemma2_to64();
    }
    while i < b.len()
        invariant
            i <= b@.len() <= 64,
            val as nat == bin_value(b@.take(i as int)),
        decreases b@.len() - i,
    {
        proof {
            lemma_bin_value_bound(b@.take(i as int));
            vstd::arithmetic::power2::lemma2_to64_rest();
            if i < 63 {
                vstd::arithmetic::power2::lemma_pow2_strictly_increases(i as nat, 63);
            }
            assert(val < 0x8000_0000_0000_0000);
            assert(b@.take(i + 1).drop_last() =~= b@.take(i as int));
            assert(b@.take(i + 1).last() == b@[i as int]);
        }
        let bit: u64 = if b[i] == 0x31 {
            1
        } else {
            0
        };
        val = val * 2 + bit;
        i = i + 1;
    }
    assert(b@.take(i as int) =~= b@);
    val
}

/// A value as a signed 64-bit integer (see `i64_of`).
pub fn sv_to_i64(v: &ScalarValue) -> (r: Option<i64>)
    ensures
        r == i64_of(v@),
{
    let b = match sv_bits(v) {
        Some(b) => b,
        None => {
            return None;
        },
    };
    if b.len() == 0 {
        return None;
    }
    if b.len() == 1 {
        return if b[0] == 0x30 {
            Some(0)
        } else if b[0] == 0x31 {
            Some(1)
        } else {
            None
        };
    }
    if !check_all_01(b) {
        return None;
    }
    if b.len() > 64 {
        let head: &[u8] = vstd::slice::slice_subrange(b, 0, b.len() - 64);
        assert(head@ =~= b@.take(b@.len() - 64));
        let mut k: usize = 0;
        while k < head.len()
            invariant
                k <= head@.len(),
                b@.len() > 64,
                bits_of(v@) == Some(b@),
                head@ == b@.take(b@.len() - 64),
                all_01(b@),
                forall|j: int| 0 <= j < k ==> #[trigger] head@[j] == 0x30,
            decreases head@.len() - k,
        {
            if head[k] == 0x31 {
                assert(head@[k as int] == 0x31);
                assert(!all_zero_bits(b@.take(b@.len() - 64)));
                return None;
            }
            assert(is_01(b@[k as int]));
            k = k + 1;
        }
        let tail: &[u8] = vstd::slice::slice_subrange(b, b.len() - 64, b.len());
        assert(tail@ =~= b@.skip(b@.len() - 64));
        let val = bits_to_u64(tail);
        return Some(val as i64);
    }
    let val = bits_to_u64(b);
    Some(val as i64)
}

// ---------------------------------------------------------------------------
// Sameness
// ---------------------------------------------------------------------------

/// A double's bit pattern is a NaN: all exponent bits set, a fraction.
pub open spec fn is_nan_bits(x: u64) -> bool {
    (x & 0x7FF0_0000_0000_0000u64) == 0x7FF0_0000_0000_0000u64 && (x & 0x000F_FFFF_FFFF_FFFFu64)
        != 0
}

/// Two doubles, by their bit patterns, compare equal as IEEE-754 numbers:
/// neither is a NaN, and the patterns are equal or both are zeros.
pub open spec fn real_eq(x: u64, y: u64) -> bool {
    !is_nan_bits(x) && !is_nan_bits(y) && (x == y || ((x & 0x7FFF_FFFF_FFFF_FFFFu64) == 0 && (y
        & 0x7FFF_FFFF_FFFF_FFFFu64) == 0))
}

fn real_bits_eq(x: u64, y: u64) -> (r: bool)
    ensures
        r == real_eq(x, y),
{
    let nx = (x & 0x7FF0_0000_0000_0000u64) == 0x7FF0_0000_0000_0000u64 && (x
        & 0x000F_FFFF_FFFF_FFFFu64) != 0;
    let ny = (y & 0x7FF0_0000_0000_0000u64) == 0x7FF0_0000_0000_0000u64 && (y
        & 0x000F_FFFF_FFFF_FFFFu64) != 0;
    !nx && !ny && (x == y || ((x & 0x7FFF_FFFF_FFFF_FFFFu64) == 0 && (y & 0x7FFF_FFFF_FFFF_FFFFu64)
        == 0))
}

/// Two values are equal: the same kind, equal bits, or equal reals.
pub open spec fn scalar_eq(a: ScalarView, b: ScalarView) -> bool {
    match (a, b) {
        (ScalarView::Bit(x), ScalarView::Bit(y)) => x == y,
        (ScalarView::Vector(x), ScalarView::Vector(y)) => x == y,
        (ScalarView::Real(x), ScalarView::Real(y)) => real_eq(x, y),
        _ => false,
    }
}

/// Every byte of `x` is `lo` or `up`.
pub open spec fn all_either(x: Seq<u8>, lo: u8, up: u8) -> bool {
    forall|i: int| 0 <= i < x.len() ==> (#[trigger] x[i] == lo || x[i] == up)
}

fn check_all_either(x: &[u8], lo: u8, up: u8) -> (r: bool)
    ensures
        r == all_either(x@, lo, up),
{
    let mut i: usize = 0;
    while i < x.len()
        invariant
            i <= x@.len(),
            forall|k: int| 0 <= k < i ==> (#[trigger] x@[k] == lo || x@[k] == up),
        decreases x@.len() - i,
    {
        if !(x[i] == lo || x[i] == up) {
            return false;
        }
        i = i + 1;
    }
    true
}

/// A value with an all-x vector shown as the bit 'x', an all-z one as 'z'.
pub open spec fn norm_of(v: ScalarView) -> ScalarView {
    match v {
        ScalarView::Vector(x) => if x.len() > 0 && all_either(x, 0x78, 0x58) {
            ScalarView::Bit(0x78)
        } else if x.len() > 0 && all_either(x, 0x7A, 0x5A) {
            ScalarView::Bit(0x7A)
        } else {
            v
        },
        _ => v,
    }
}

/// A value with an all-x or all-z vector shown as one bit (see `norm_of`).
pub fn sv_norm(v: &ScalarValue) -> (r: ScalarValue)
    ensures
        r@ == norm_of(v@),
{
    match v {
        ScalarValue::Vector(x) => {
            if x.len() > 0 && check_all_either(x.as_slice(), 0x78, 0x58) {
                ScalarValue::Bit(0x78)
            } else if x.len() > 0 && check_all_either(x.as_slice(), 0x7A, 0x5A) {
                ScalarValue::Bit(0x7A)
            } else {
                ScalarValue::Vector(vstd::slice::slice_to_vec(x.as_slice()))
            }
        },
        ScalarValue::Bit(b) => ScalarValue::Bit(*b),
        ScalarValue::Real(x) => ScalarValue::Real(*x),
    }
}

/// Two values are the same state once all-x and all-z vectors are seen as
/// one bit.
pub open spec fn same_of(a: ScalarView, b: ScalarView) -> bool {
    scalar_eq(norm_of(a), norm_of(b))
}

/// Whether two values are the same state (see `same_of`).
pub fn sv_same(a: &ScalarValue, b: &ScalarValue) -> (r: bool)
    ensures
        r == same_of(a@, b@),
{
    let na = sv_norm(a);
    let nb = sv_norm(b);
    match (&na, &nb) {
        (ScalarValue::Bit(x), ScalarValue::Bit(y)) => *x == *y,
        (ScalarValue::Vector(x), ScalarValue::Vector(y)) => {
            crate::text::bytes_eq(x.as_slice(), y.as_slice())
        },
        (ScalarValue::Real(x), ScalarValue::Real(y)) => real_bits_eq(*x, *y),
        _ => false,
    }
}

// ---------------------------------------------------------------------------
// Conditions
// ---------------------------------------------------------------------------

/// Whether `b` holds `lo` or `up` somewhere.
pub open spec fn has_either(b: Seq<u8>, lo: u8, up: u8) -> bool {
    exists|i: int| 0 <= i < b.len() && (#[trigger] b[i] == lo || b[i] == up)
}

pub(crate) fn check_has_either(b: &[u8], lo: u8, up: u8) -> (r: bool)
    ensures
        r == has_either(b@, lo, up),
{
    let mut i: usize = 0;
    while i < b.len()
        invariant
            i <= b@.len(),
            forall|k: int| 0 <= k < i ==> !(#[trigger] b@[k] == lo || b@[k] == up),
        decreases b@.len() - i,
    {
        if b[i] == lo || b[i] == up {
            return true;
        }
        i = i + 1;
    }
    false
}

/// A bit read as the byte `v`: the byte itself, or '1' for 1 and '0' for 0.
pub open spec fn bit_is(bit: u8, v: u8) -> bool {
    bit == v || (bit == 0x31 && v == 1) || (bit == 0x30 && v == 0)
}

/// Whether `val` (with `prev` before it, if any) meets `cond`:
/// - a rising (falling) edge goes from a defined zero to a defined non-zero
///   (or back), or from the bit '0' to '1' (or back);
/// - high and low are the single bits '1' and '0';
/// - a byte value matches a single bit (see `bit_is`), or the integer value
///   of a wider one; an i64 value matches the integer value; the "not"
///   forms are their negations;
/// - x and z look for one such bit in either case;
/// - changed needs a previous value that is not the same state.
pub open spec fn cond_matches(val: ScalarView, prev: Option<ScalarView>, cond: FindCondition) -> bool {
    let prev_bit = match prev {
        Some(p) => as_bit_of(p),
        None => None,
    };
    let prev_zero = match prev {
        Some(p) => zero_of(p),
        None => None,
    };
    match cond {
        FindCondition::Rising => (prev_zero == Some(true) && zero_of(val) == Some(false)) || (
        prev_bit == Some(0x30u8) && as_bit_of(val) == Some(0x31u8)),
        FindCondition::Falling => (prev_zero == Some(false) && zero_of(val) == Some(true)) || (
        prev_bit == Some(0x31u8) && as_bit_of(val) == Some(0x30u8)),
        FindCondition::High => as_bit_of(val) == Some(0x31u8),
        FindCondition::Low => as_bit_of(val) == Some(0x30u8),
        FindCondition::Value(v) => match as_bit_of(val) {
            Some(bit) => bit_is(bit, v),
            None => i64_of(val) == Some(v as i64),
        },
        FindCondition::ValueI64(t) => i64_of(val) == Some(t),
        FindCondition::Neq(v) => match as_bit_of(val) {
            Some(bit) => !bit_is(bit, v),
            None => i64_of(val) != Some(v as i64),
        },
        FindCondition::NeqI64(t) => i64_of(val) != Some(t),
        FindCondition::IsX => match bits_of(val) {
            Some(b) => has_either(b, 0x78, 0x58),
            None => false,
        },
        FindCondition::IsZ => match bits_of(val) {
            Some(b) => has_either(b, 0x7A, 0x5A),
            None => false,
        },
        FindCondition::Changed => match prev {
            Some(p) => !same_of(p, val),
            None => false,
        },
    }
}

/// Falling is rising reversed: a value falls from `prev` exactly when
/// `prev` rises from it.
pub proof fn lemma_cond_falling_is_rising_reversed(val: ScalarView, prev: ScalarView)
    ensures
        cond_matches(val, Some(prev), FindCondition::Falling) == cond_matches(
            prev,
            Some(val),
            FindCondition::Rising,
        ),
{
}

/// The view of an optional owned value.
pub open spec fn owned_view(o: Option<ScalarValue>) -> Option<ScalarView> {
    match o {
        Some(v) => Some(v@),
        None => None,
    }
}

/// The view of an optional value.
pub open spec fn opt_view(o: Option<&ScalarValue>) -> Option<ScalarView> {
    match o {
        Some(v) => Some(v@),
        None => None,
    }
}

/// Whether `val` (after `prev_val`) meets `cond` (see `cond_matches`).
pub fn find_cond_matches(val: &ScalarValue, prev_val: Option<&ScalarValue>, cond: &FindCondition) -> (r: bool)
    ensures
        r == cond_matches(val@, opt_view(prev_val), *cond),
{
    let prev_bit = match prev_val {
        Some(p) => sv_as_bit(p),
        None => None,
    };
    match cond {
        FindCondition::Rising => {
            let pz = match prev_val {
                Some(p) => sv_is_zero(p),
                None => None,
            };
            let vz = sv_is_zero(val);
            (pz == Some(true) && vz == Some(false)) || (prev_bit == Some(0x30u8) && sv_as_bit(val)
                == Some(0x31u8))
        },
        FindCondition::Falling => {
            let pz = match prev_val {
                Some(p) => sv_is_zero(p),
                None => None,
            };
            let vz = sv_is_zero(val);
            (pz == Some(false) && vz == Some(true)) || (prev_bit == Some(0x31u8) && sv_as_bit(val)
                == Some(0x30u8))
        },
        FindCondition::High => sv_as_bit(val) == Some(0x31u8),
        FindCondition::Low => sv_as_bit(val) == Some(0x30u8),
        FindCondition::Value(v) => match sv_as_bit(val) {
            Some(bit) => bit == *v || (bit == 0x31 && *v == 1) || (bit == 0x30 && *v == 0),
            None => sv_to_i64(val) == Some(*v as i64),
        },
        FindCondition::ValueI64(t) => sv_to_i64(val) == Some(*t),
        FindCondition::Neq(v) => match sv_as_bit(val) {
            Some(bit) => !(bit == *v || (bit == 0x31 && *v == 1) || (bit == 0x30 && *v == 0)),
            None => sv_to_i64(val) != Some(*v as i64),
        },
        FindCondition::NeqI64(t) => sv_to_i64(val) != Some(*t),
        FindCondition::IsX => match sv_bits(val) {
            Some(b) => check_has_either(b, 0x78, 0x58),
            None => false,
        },
        FindCondition::IsZ => match sv_bits(val) {
            Some(b) => check_has_either(b, 0x7A, 0x5A),
            None => false,
        },
        FindCondition::Changed => match prev_val {
            Some(p) => !sv_same(p, val),
            None => false,
        },
    }
}

// ---------------------------------------------------------------------------
// A condition over a change column
// ---------------------------------------------------------------------------

/// The change points of a column, values by their views.
pub open spec fn points_view(points: Seq<(usize, ScalarValue)>) -> Seq<(usize, ScalarView)> {
    points.map_values(|p: (usize, ScalarValue)| (p.0, p.1@))
}

/// An edge condition: rising, falling or changed.
pub open spec fn is_edge_cond(cond: FindCondition) -> bool {
    cond is Rising || cond is Falling || cond is Changed
}

/// The value before the first change point: the given initial value, or
/// 'x'.
pub open spec fn init_value(initial: Option<ScalarView>) -> ScalarView {
    match initial {
        Some(v) => v,
        None => ScalarView::Bit(0x78),
    }
}

/// What the first change point follows: the initial value, except that a
/// first change at index 0 follows nothing unless the initial value is
/// defined.
pub open spec fn first_prev(pts: Seq<(usize, ScalarView)>, initial: Option<ScalarView>) -> Option<
    ScalarView,
> {
    let init = init_value(initial);
    if pts.len() > 0 && pts[0].0 == 0 {
        if defined_of(init) {
            Some(init)
        } else {
            None
        }
    } else {
        Some(init)
    }
}

/// What change point `k` follows.
pub open spec fn prev_at(pts: Seq<(usize, ScalarView)>, initial: Option<ScalarView>, k: int) -> Option<
    ScalarView,
> {
    if k == 0 {
        first_prev(pts, initial)
    } else {
        Some(pts[k - 1].1)
    }
}

/// Whether change point `k` meets the condition.
pub open spec fn matched_at(
    pts: Seq<(usize, ScalarView)>,
    initial: Option<ScalarView>,
    cond: FindCondition,
    k: int,
) -> bool {
    cond_matches(pts[k].1, prev_at(pts, initial, k), cond)
}

/// The number of leading change points at indices up to `max_index`,
/// counting from `k`.
pub open spec fn live_from(pts: Seq<(usize, ScalarView)>, max_index: usize, k: int) -> int
    decreases pts.len() - k,
{
    if k < 0 || k >= pts.len() || pts[k].0 > max_index {
        k
    } else {
        live_from(pts, max_index, k + 1)
    }
}

/// The indices of the first `k` change points that meet the condition.
pub open spec fn edges_upto(
    pts: Seq<(usize, ScalarView)>,
    initial: Option<ScalarView>,
    cond: FindCondition,
    k: int,
) -> Seq<usize>
    decreases k,
{
    if k <= 0 {
        Seq::empty()
    } else {
        edges_upto(pts, initial, cond, k - 1) + (if matched_at(pts, initial, cond, k - 1) {
            seq![pts[k - 1].0]
        } else {
            Seq::empty()
        })
    }
}

/// `a` or `b`, whichever is smaller.
pub open spec fn min_usize(a: usize, b: usize) -> usize {
    if a < b {
        a
    } else {
        b
    }
}

/// Where the span of change point `k` ends: at the next change point, or
/// past the last index.
pub open spec fn span_end(pts: Seq<(usize, ScalarView)>, max_index: usize, k: int) -> usize {
    let next = if k + 1 < pts.len() {
        pts[k + 1].0
    } else {
        (max_index + 1) as usize
    };
    min_usize(next, (max_index + 1) as usize)
}

/// The spans of the first `k` change points that meet the condition.
pub open spec fn spans_upto(
    pts: Seq<(usize, ScalarView)>,
    initial: Option<ScalarView>,
    cond: FindCondition,
    max_index: usize,
    k: int,
) -> Seq<(usize, usize)>
    decreases k,
{
    if k <= 0 {
        Seq::empty()
    } else {
        spans_upto(pts, initial, cond, max_index, k - 1) + (if matched_at(pts, initial, cond, k - 1) {
            seq![(pts[k - 1].0, span_end(pts, max_index, k - 1))]
        } else {
            Seq::empty()
        })
    }
}

/// The span before the first change point, when the initial value meets a
/// level condition.
pub open spec fn head_span(
    pts: Seq<(usize, ScalarView)>,
    initial: Option<ScalarView>,
    cond: FindCondition,
    max_index: usize,
) -> Seq<(usize, usize)> {
    if !is_edge_cond(cond) && cond_matches(init_value(initial), None, cond) {
        let first = if pts.len() > 0 {
            pts[0].0
        } else {
            (max_index + 1) as usize
        };
        seq![(0usize, min_usize(first, (max_index + 1) as usize))]
    } else {
        Seq::empty()
    }
}

/// A condition over a change column up to `max_index`: for an edge
/// condition, the indices of the change points that meet it; for a level
/// condition, the spans `[start, end)` over which it holds (the head span
/// first).
pub open spec fn column_spans(
    pts: Seq<(usize, ScalarView)>,
    initial: Option<ScalarView>,
    cond: FindCondition,
    max_index: usize,
) -> (Seq<usize>, Seq<(usize, usize)>) {
    let k = live_from(pts, max_index, 0);
    if is_edge_cond(cond) {
        (edges_upto(pts, initial, cond, k), Seq::empty())
    } else {
        (Seq::empty(), head_span(pts, initial, cond, max_index) + spans_upto(
            pts,
            initial,
            cond,
            max_index,
            k,
        ))
    }
}

proof fn lemma_live_from(pts: Seq<(usize, ScalarView)>, max_index: usize, k: int)
    requires
        0 <= k <= pts.len(),
    ensures
        k <= live_from(pts, max_index, k) <= pts.len(),
        live_from(pts, max_index, k) < pts.len() ==> pts[live_from(pts, max_index, k)].0 > max_index,
    decreases pts.len() - k,
{
    if k < pts.len() && pts[k].0 <= max_index {
        lemma_live_from(pts, max_index, k + 1);
    }
}

/// Evaluate a condition over a change column (see `column_spans`): the
/// change points must be in index order with one value per index.
pub fn eval_column_spans(
    max_index: usize,
    points: &[(usize, ScalarValue)],
    initial: Option<&ScalarValue>,
    cond: &FindCondition,
) -> (r: (Vec<usize>, Vec<(usize, usize)>))
    requires
        max_index < usize::MAX,
    ensures
        r.0@ == column_spans(points_view(points@), opt_view(initial), *cond, max_index).0,
        r.1@ == column_spans(points_view(points@), opt_view(initial), *cond, max_index).1,
{
    let ghost pts = points_view(points@);
    let ghost ini = opt_view(initial);
    let is_edge = match cond {
        FindCondition::Rising | FindCondition::Falling | FindCondition::Changed => true,
        _ => false,
    };
    let mut edges: Vec<usize> = Vec::new();
    let mut spans: Vec<(usize, usize)> = Vec::new();
    let init_x = ScalarValue::Bit(0x78);
    let init_ref: &ScalarValue = match initial {
        Some(v) => v,
        None => &init_x,
    };
    assert(init_ref@ == init_value(ini));
    let first_is_zero = points.len() > 0 && points[0].0 == 0;
    let mut prev: Option<&ScalarValue> = if first_is_zero {
        if sv_is_defined(init_ref) {
            Some(init_ref)
        } else {
            None
        }
    } else {
        Some(init_ref)
    };
    let limit: usize = max_index + 1;
    if !is_edge && find_cond_matches(init_ref, None, cond) {
        let first_idx = if points.len() > 0 {
            points[0].0
        } else {
            limit
        };
        let e = if first_idx < limit {
            first_idx
        } else {
            limit
        };
        spans.push((0, e));
    }
    assert(spans@ =~= head_span(pts, ini, *cond, max_index));
    let n = points.len();
    let mut k: usize = 0;
    proof {
        lemma_live_from(pts, max_index, 0);
    }
    while k < n
        invariant
            n == points@.len(),
            pts == points_view(points@),
            ini == opt_view(initial),
            limit == max_index + 1,
            k <= live_from(pts, max_index, 0) <= n,
            is_edge == is_edge_cond(*cond),
            live_from(pts, max_index, 0) < n ==> pts[live_from(pts, max_index, 0)].0 > max_index,
            forall|j: int| 0 <= j < k ==> pts[j].0 <= max_index,
            opt_view(prev) == prev_at(pts, ini, k as int),
            is_edge ==> edges@ == edges_upto(pts, ini, *cond, k as int) && spans@.len() == 0,
            !is_edge ==> edges@.len() == 0 && spans@ == head_span(pts, ini, *cond, max_index)
                + spans_upto(pts, ini, *cond, max_index, k as int),
        ensures
            k < n ==> pts[k as int].0 > max_index,
        decreases n - k,
    {
        let idx = points[k].0;
        let v: &ScalarValue = &points[k].1;
        assert(pts[k as int] == (idx, v@));
        if idx > max_index {
            break;
        }
        proof {
            if live_from(pts, max_index, 0) == k {
                assert(false);
            }
        }
        let matched = find_cond_matches(v, prev, cond);
        assert(matched == matched_at(pts, ini, *cond, k as int));
        prev = Some(v);
        if matched {
            if is_edge {
                edges.push(idx);
            } else {
                let next = if k + 1 < n {
                    points[k + 1].0
                } else {
                    limit
                };
                let end = if next < limit {
                    next
                } else {
                    limit
                };
                spans.push((idx, end));
            }
        }
        proof {
            if is_edge {
                assert(edges@ =~= edges_upto(pts, ini, *cond, k + 1));
            } else {
                assert(spans@ =~= head_span(pts, ini, *cond, max_index) + spans_upto(
                    pts,
                    ini,
                    *cond,
                    max_index,
                    k + 1,
                ));
            }
        }
        k = k + 1;
    }
    proof {
        lemma_live_exact(pts, max_index, k as int);
    }
    (edges, spans)
}

proof fn lemma_live_exact(pts: Seq<(usize, ScalarView)>, max_index: usize, k: int)
    requires
        0 <= k <= pts.len(),
        forall|j: int| 0 <= j < k ==> pts[j].0 <= max_index,
        k < pts.len() ==> pts[k].0 > max_index,
    ensures
        live_from(pts, max_index, 0) == k,
{
    lemma_live_step(pts, max_index, 0, k);
}

proof fn lemma_live_step(pts: Seq<(usize, ScalarView)>, max_index: usize, i: int, k: int)
    requires
        0 <= i <= k <= pts.len(),
        forall|j: int| 0 <= j < k ==> pts[j].0 <= max_index,
        k < pts.len() ==> pts[k].0 > max_index,
    ensures
        live_from(pts, max_index, i) == k,
    decreases k - i,
{
    if i < k {
        lemma_live_step(pts, max_index, i + 1, k);
    }
}

/// The indices `s, s + 1, .., e - 1`.
pub open spec fn index_range(s: usize, e: usize) -> Seq<usize> {
    if s < e {
        Seq::new((e - s) as nat, |i: int| (s + i) as usize)
    } else {
        Seq::empty()
    }
}

/// The indices of a list of spans, span by span.
pub open spec fn span_indices(spans: Seq<(usize, usize)>) -> Seq<usize>
    decreases spans.len(),
{
    if spans.len() == 0 {
        Seq::empty()
    } else {
        span_indices(spans.drop_last()) + index_range(spans.last().0, spans.last().1)
    }
}

/// Change points in index order.
pub open spec fn index_ordered(pts: Seq<(usize, ScalarView)>) -> bool {
    forall|i: int, j: int| 0 <= i <= j < pts.len() ==> pts[i].0 <= pts[j].0
}

/// The indices at which a condition holds over a change column: the edge
/// indices, or every index of the level spans.
pub open spec fn column_indices(
    pts: Seq<(usize, ScalarView)>,
    initial: Option<ScalarView>,
    cond: FindCondition,
    max_index: usize,
) -> Seq<usize> {
    if is_edge_cond(cond) {
        column_spans(pts, initial, cond, max_index).0
    } else {
        span_indices(column_spans(pts, initial, cond, max_index).1)
    }
}

/// Evaluate a condition over a change column index by index (see
/// `column_indices`); the change points must be in index order.
pub fn eval_column(
    max_index: usize,
    points: &[(usize, ScalarValue)],
    initial: Option<&ScalarValue>,
    cond: &FindCondition,
) -> (r: Vec<usize>)
    requires
        max_index < usize::MAX,
        index_ordered(points_view(points@)),
    ensures
        r@ == column_indices(points_view(points@), opt_view(initial), *cond, max_index),
{
    let is_edge = match cond {
        FindCondition::Rising | FindCondition::Falling | FindCondition::Changed => true,
        _ => false,
    };
    let (edges, spans) = eval_column_spans(max_index, points, initial, cond);
    if is_edge {
        return edges;
    }
    let mut indices: Vec<usize> = Vec::new();
    let mut k: usize = 0;
    while k < spans.len()
        invariant
            k <= spans@.len(),
            indices@ == span_indices(spans@.take(k as int)),
        decreases spans@.len() - k,
    {
        let (s, e) = spans[k];
        let ghost before = indices@;
        let mut i: usize = s;
        while i < e
            invariant
                s <= i,
                i <= e || s >= e,
                s >= e ==> i == s,
                indices@ == before + index_range(s, i),
            decreases e - i,
        {
            proof {
                assert(index_range(s, (i + 1) as usize) =~= index_range(s, i).push(i));
            }
            indices.push(i);
            i = i + 1;
        }
        proof {
            if s < e {
                assert(i == e);
            } else {
                assert(index_range(s, i) =~= index_range(s, e));
            }
            assert(spans@.take(k + 1).drop_last() =~= spans@.take(k as int));
        }
        k = k + 1;
    }
    assert(spans@.take(k as int) =~= spans@);
    indices
}

// ---------------------------------------------------------------------------
// Column cache bytes
// ---------------------------------------------------------------------------
//
// Layout (little-endian): "WALFCOL2"; the wave's fingerprint (8 bytes); the
// width (4 bytes); the initial value (a kind byte: 0 none, 1 bit, 2 vector,
// 3 real, then its payload); the number of points (4 bytes); then per point
// the varint time delta from the previous point (wrapping) and the value
// (a kind byte: 0 bit, 1 vector, 2 real, then its payload). A bit's payload
// is its byte, a vector's its varint length and bytes, a real's the 8 bytes
// of its bit pattern.

/// A value's payload: its byte, its length and bytes, or its 8 bytes.
pub open spec fn payload_bytes(v: ScalarView) -> Seq<u8> {
    match v {
        ScalarView::Bit(b) => seq![b],
        ScalarView::Vector(x) => spec_encode_varint(x.len() as u64) + x,
        ScalarView::Real(x) => le64(x),
    }
}

/// The kind byte of a value in a point: 0, 1 or 2.
pub open spec fn kind_of(v: ScalarView) -> u8 {
    match v {
        ScalarView::Bit(_) => 0,
        ScalarView::Vector(_) => 1,
        ScalarView::Real(_) => 2,
    }
}

/// A point's value bytes.
pub open spec fn scalar_bytes(v: ScalarView) -> Seq<u8> {
    seq![kind_of(v)] + payload_bytes(v)
}

/// The initial value's bytes: 0 for none, else its kind plus one and its
/// payload.
pub open spec fn init_bytes(init: Option<ScalarView>) -> Seq<u8> {
    match init {
        None => seq![0u8],
        Some(v) => seq![(kind_of(v) + 1) as u8] + payload_bytes(v),
    }
}

/// The bytes of a list of points, times as wrapping deltas from `prev`.
pub open spec fn points_bytes(pts: Seq<(u64, ScalarView)>, prev: u64) -> Seq<u8>
    decreases pts.len(),
{
    if pts.len() == 0 {
        Seq::empty()
    } else {
        spec_encode_varint(pts[0].0.wrapping_sub(prev)) + scalar_bytes(pts[0].1) + points_bytes(
            pts.drop_first(),
            pts[0].0,
        )
    }
}

/// "WALFCOL2".
pub open spec fn col_magic() -> Seq<u8> {
    seq![0x57u8, 0x41, 0x4c, 0x46, 0x43, 0x4f, 0x4c, 0x32]
}

/// A column cache: magic, fingerprint, width, initial value, point count
/// and points.
pub open spec fn col_cache_bytes(
    fp: u64,
    width: usize,
    init: Option<ScalarView>,
    pts: Seq<(u64, ScalarView)>,
) -> Seq<u8> {
    col_magic() + le64(fp) + le32(width as u32) + init_bytes(init) + le32(pts.len() as u32)
        + points_bytes(pts, 0)
}

/// Append a value's payload.
fn put_payload(out: &mut Vec<u8>, v: &ScalarValue)
    ensures
        final(out)@ == old(out)@ + payload_bytes(v@),
{
    match v {
        ScalarValue::Bit(b) => {
            out.push(*b);
            assert(final(out)@ =~= old(out)@ + seq![*b]) by {
                assert(out@ =~= old(out)@.push(*b));
            }
        },
        ScalarValue::Vector(bytes) => {
            put_varint(out, bytes.len() as u64);
            append_bytes(out, bytes.as_slice());
            assert(out@ =~= old(out)@ + (spec_encode_varint(bytes@.len() as u64) + bytes@));
        },
        ScalarValue::Real(x) => {
            let a = le64_bytes(*x);
            append_bytes(out, &a);
        },
    }
}

/// Append a point's value: its kind byte and payload.
pub fn put_scalar(out: &mut Vec<u8>, v: &ScalarValue)
    ensures
        final(out)@ == old(out)@ + scalar_bytes(v@),
{
    let kind: u8 = match v {
        ScalarValue::Bit(_) => 0,
        ScalarValue::Vector(_) => 1,
        ScalarValue::Real(_) => 2,
    };
    out.push(kind);
    let ghost mid = out@;
    put_payload(out, v);
    assert(out@ =~= old(out)@ + scalar_bytes(v@));
}

/// The bytes of a column cache (see `col_cache_bytes`).
pub fn encode_col_cache(
    fp: u64,
    width: usize,
    init: Option<&ScalarValue>,
    pts: &[(u64, ScalarValue)],
) -> (out: Vec<u8>)
    ensures
        out@ == col_cache_bytes(fp, width, opt_view(init), times_view(pts@)),
{
    let mut out: Vec<u8> = Vec::new();
    out.push(0x57);
    out.push(0x41);
    out.push(0x4c);
    out.push(0x46);
    out.push(0x43);
    out.push(0x4f);
    out.push(0x4c);
    out.push(0x32);
    assert(out@ =~= col_magic());
    let f = le64_bytes(fp);
    append_bytes(&mut out, &f);
    let w = le32_bytes(width as u32);
    append_bytes(&mut out, &w);
    let ghost head = out@;
    match init {
        None => {
            out.push(0);
        },
        Some(v) => {
            let kind: u8 = match v {
                ScalarValue::Bit(_) => 1,
                ScalarValue::Vector(_) => 2,
                ScalarValue::Real(_) => 3,
            };
            out.push(kind);
            put_payload(&mut out, v);
        },
    }
    assert(out@ =~= head + init_bytes(opt_view(init)));
    let c = le32_bytes(pts.len() as u32);
    append_bytes(&mut out, &c);
    let ghost start = out@;
    let ghost tv = times_view(pts@);
    let mut prev: u64 = 0;
    let mut k: usize = 0;
    assert(tv.skip(0) =~= tv);
    while k < pts.len()
        invariant
            k <= pts@.len(),
            tv == times_view(pts@),
            prev == (if k == 0 { 0u64 } else { tv[k - 1].0 }),
            out@ + points_bytes(tv.skip(k as int), prev) == start + points_bytes(tv, 0),
        decreases pts@.len() - k,
    {
        let t = pts[k].0;
        proof {
            assert(tv.skip(k as int)[0] == tv[k as int]);
            assert(tv.skip(k as int).drop_first() =~= tv.skip(k + 1));
        }
        let ghost before = out@;
        put_varint(&mut out, t.wrapping_sub(prev));
        put_scalar(&mut out, &pts[k].1);
        proof {
            assert(out@ + points_bytes(tv.skip(k + 1), t) =~= before + points_bytes(tv.skip(k as int), prev));
        }
        prev = t;
        k = k + 1;
    }
    proof {
        assert(tv.skip(k as int) =~= Seq::<(u64, ScalarView)>::empty());
        assert(points_bytes(tv.skip(k as int), prev) =~= Seq::<u8>::empty());
        assert(out@ =~= start + points_bytes(tv, 0));
    }
    out
}

/// The points of a column, values by their views.
pub open spec fn times_view(pts: Seq<(u64, ScalarValue)>) -> Seq<(u64, ScalarView)> {
    pts.map_values(|p: (u64, ScalarValue)| (p.0, p.1@))
}

/// A payload of kind `kind` (0 bit, 1 vector, 2 real) read at `p`: the
/// value and the position after it.
pub open spec fn payload_decode(buf: Seq<u8>, kind: u8, p: int) -> Option<(ScalarView, int)> {
    if p < 0 || p > buf.len() {
        None
    } else if kind == 0 {
        if p >= buf.len() {
            None
        } else {
            Some((ScalarView::Bit(buf[p]), p + 1))
        }
    } else if kind == 1 {
        match spec_decode_varint(buf.skip(p)) {
            None => None,
            Some((n, k)) => {
                let q = p + k;
                let m = (n as usize) as int;
                if q + m > buf.len() {
                    None
                } else {
                    Some((ScalarView::Vector(buf.subrange(q, q + m)), q + m))
                }
            },
        }
    } else if kind == 2 {
        if p + 8 > buf.len() {
            None
        } else {
            Some((ScalarView::Real(u64_from_le(buf.subrange(p, p + 8))), p + 8))
        }
    } else {
        None
    }
}

/// A vector payload at `p` whose length, added to where its bytes start,
/// would pass the largest `usize` (reading it would overflow).
pub open spec fn payload_overflows(buf: Seq<u8>, kind: u8, p: int) -> bool {
    kind == 1 && 0 <= p <= buf.len() && match spec_decode_varint(buf.skip(p)) {
        None => false,
        Some((n, k)) => p + k + ((n as usize) as int) > usize::MAX,
    }
}

/// A point's value read at `pos`: its kind byte, then its payload.
pub open spec fn scalar_decode(buf: Seq<u8>, pos: int) -> Option<(ScalarView, int)> {
    if pos < 0 || pos >= buf.len() {
        None
    } else {
        payload_decode(buf, buf[pos], pos + 1)
    }
}

/// Read a payload of kind `kind` (see `payload_decode`), moving `*pos` past
/// it.
fn get_payload(buf: &[u8], kind: u8, pos: &mut usize) -> (r: Option<ScalarValue>)
    requires
        *old(pos) <= buf@.len() <= isize::MAX,
        !payload_overflows(buf@, kind, *old(pos) as int),
    ensures
        match payload_decode(buf@, kind, *old(pos) as int) {
            Some((v, e)) => r matches Some(x) && x@ == v && *final(pos) == e,
            None => r is None,
        },
        *final(pos) <= buf@.len(),
{
    let p = *pos;
    if kind == 0 {
        if p >= buf.len() {
            return None;
        }
        *pos = p + 1;
        Some(ScalarValue::Bit(buf[p]))
    } else if kind == 1 {
        let n = match get_varint(buf, pos) {
            Some(n) => n,
            None => {
                *pos = p;
                return None;
            },
        };
        let m = n as usize;
        let q = *pos;
        if m > buf.len() - q {
            *pos = p;
            return None;
        }
        let v: Vec<u8> = vstd::slice::slice_to_vec(vstd::slice::slice_subrange(buf, q, q + m));
        *pos = q + m;
        Some(ScalarValue::Vector(v))
    } else if kind == 2 {
        if buf.len() - p < 8 {
            return None;
        }
        let x = read_u64_le(buf, p);
        *pos = p + 8;
        Some(ScalarValue::Real(x))
    } else {
        None
    }
}

/// Read a point's value (see `scalar_decode`), moving `*pos` past it.
pub fn get_scalar(buf: &[u8], pos: &mut usize) -> (r: Option<ScalarValue>)
    requires
        *old(pos) <= buf@.len() <= isize::MAX,
        *old(pos) < buf@.len() ==> !payload_overflows(buf@, buf@[*old(pos) as int], *old(pos) + 1),
    ensures
        match scalar_decode(buf@, *old(pos) as int) {
            Some((v, e)) => r matches Some(x) && x@ == v && *final(pos) == e,
            None => r is None,
        },
        *final(pos) <= buf@.len(),
{
    if *pos >= buf.len() {
        return None;
    }
    let tag = buf[*pos];
    *pos = *pos + 1;
    get_payload(buf, tag, pos)
}

/// The initial value read at `pos`: kind 0 is none, kinds 1 to 3 a bit, a
/// vector or a real; with the position after it.
pub open spec fn init_decode(buf: Seq<u8>, pos: int) -> Option<(Option<ScalarView>, int)> {
    if pos < 0 || pos >= buf.len() {
        None
    } else if buf[pos] == 0 {
        Some((None, pos + 1))
    } else if 1 <= buf[pos] <= 3 {
        match payload_decode(buf, (buf[pos] - 1) as u8, pos + 1) {
            Some((v, e)) => Some((Some(v), e)),
            None => None,
        }
    } else {
        None
    }
}

/// A column cache's header: at least 25 bytes, the magic, then the given
/// fingerprint; gives the width, the initial value and where the point
/// count starts.
pub open spec fn col_header_decode(buf: Seq<u8>, fp: u64) -> Option<(usize, Option<ScalarView>, int)> {
    if buf.len() < 25 || buf.take(8) != col_magic() || u64_from_le(buf.subrange(8, 16)) != fp {
        None
    } else {
        match init_decode(buf, 20) {
            Some((init, e)) => Some(((u32_from_le(buf.subrange(16, 20)) as usize), init, e)),
            None => None,
        }
    }
}

/// The header's initial value is a vector whose length overflows (see
/// `payload_overflows`).
pub open spec fn header_overflows(buf: Seq<u8>) -> bool {
    buf.len() > 20 && buf[20] == 2 && payload_overflows(buf, 1, 21)
}

/// Parse a column cache's header (see `col_header_decode`): `None` for a
/// short or corrupt buffer or another fingerprint.
pub fn parse_col_header(buf: &[u8], fp: u64) -> (r: Option<(usize, Option<ScalarValue>, usize)>)
    requires
        buf@.len() <= isize::MAX,
        !header_overflows(buf@),
    ensures
        match col_header_decode(buf@, fp) {
            Some((w, init, e)) => r matches Some((w2, init2, e2)) && w2 == w && owned_view(init2)
                == init && e2 == e,
            None => r is None,
        },
{
    if buf.len() < 25 {
        return None;
    }
    let magic_ok = buf[0] == 0x57 && buf[1] == 0x41 && buf[2] == 0x4c && buf[3] == 0x46 && buf[4]
        == 0x43 && buf[5] == 0x4f && buf[6] == 0x4c && buf[7] == 0x32;
    proof {
        if magic_ok {
            assert(buf@.take(8) =~= col_magic());
        } else {
            if buf@.take(8) == col_magic() {
                assert(buf@.take(8)[0] == buf@[0]);
                assert(buf@.take(8)[1] == buf@[1]);
                assert(buf@.take(8)[2] == buf@[2]);
                assert(buf@.take(8)[3] == buf@[3]);
                assert(buf@.take(8)[4] == buf@[4]);
                assert(buf@.take(8)[5] == buf@[5]);
                assert(buf@.take(8)[6] == buf@[6]);
                assert(buf@.take(8)[7] == buf@[7]);
            }
        }
    }
    if !magic_ok {
        return None;
    }
    if read_u64_le(buf, 8) != fp {
        return None;
    }
    let width = read_u32_le(buf, 16) as usize;
    let mut pos: usize = 20;
    let kind = buf[pos];
    pos = pos + 1;
    let init: Option<ScalarValue> = if kind == 0 {
        None
    } else if kind >= 1 && kind <= 3 {
        match get_payload(buf, kind - 1, &mut pos) {
            Some(v) => Some(v),
            None => {
                return None;
            },
        }
    } else {
        return None;
    };
    Some((width, init, pos))
}

/// `n` points read from `pos`, times accumulated (wrapping) from `t`.
pub open spec fn points_decode(buf: Seq<u8>, pos: int, n: nat, t: u64) -> Option<
    Seq<(u64, ScalarView)>,
>
    decreases n,
{
    if n == 0 {
        Some(Seq::empty())
    } else if pos < 0 || pos > buf.len() {
        None
    } else {
        match spec_decode_varint(buf.skip(pos)) {
            None => None,
            Some((d, k)) => {
                let t2 = t.wrapping_add(d);
                match scalar_decode(buf, pos + k) {
                    None => None,
                    Some((v, e)) => match points_decode(buf, e, (n - 1) as nat, t2) {
                        None => None,
                        Some(rest) => Some(seq![(t2, v)] + rest),
                    },
                }
            },
        }
    }
}

/// Reading `n` points from `pos` meets a vector length that overflows.
pub open spec fn points_overflow(buf: Seq<u8>, pos: int, n: nat) -> bool
    decreases n,
{
    if n == 0 || pos < 0 || pos > buf.len() {
        false
    } else {
        match spec_decode_varint(buf.skip(pos)) {
            None => false,
            Some((d, k)) => {
                let q = pos + k;
                (q < buf.len() && payload_overflows(buf, buf[q], q + 1)) || match scalar_decode(
                    buf,
                    q,
                ) {
                    None => false,
                    Some((v, e)) => points_overflow(buf, e, (n - 1) as nat),
                }
            },
        }
    }
}

/// The points of a column cache from `pos`: a 4-byte count, then the
/// points.
pub open spec fn col_points_decode(buf: Seq<u8>, pos: int) -> Option<Seq<(u64, ScalarView)>> {
    if pos < 0 || pos + 4 > buf.len() {
        None
    } else {
        points_decode(buf, pos + 4, u32_from_le(buf.subrange(pos, pos + 4)) as nat, 0)
    }
}

/// Reading the points from `pos` meets a vector length that overflows.
pub open spec fn col_points_overflow(buf: Seq<u8>, pos: int) -> bool {
    0 <= pos && pos + 4 <= buf.len() && points_overflow(
        buf,
        pos + 4,
        u32_from_le(buf.subrange(pos, pos + 4)) as nat,
    )
}

/// Read the points of a column cache from `pos` (see `col_points_decode`).
pub fn decode_col_points(buf: &[u8], pos: usize) -> (r: Option<Vec<(u64, ScalarValue)>>)
    requires
        buf@.len() <= isize::MAX,
        !col_points_overflow(buf@, pos as int),
    ensures
        match col_points_decode(buf@, pos as int) {
            Some(pts) => r matches Some(v) && times_view(v@) == pts,
            None => r is None,
        },
{
    if pos > buf.len() || buf.len() - pos < 4 {
        return None;
    }
    let n = read_u32_le(buf, pos) as usize;
    let ghost total = u32_from_le(buf@.subrange(pos as int, pos + 4)) as nat;
    let mut p: usize = pos + 4;
    let mut out: Vec<(u64, ScalarValue)> = Vec::new();
    let mut t: u64 = 0;
    let mut i: usize = 0;
    while i < n
        invariant
            n == total,
            i <= n,
            p <= buf@.len() <= isize::MAX,
            !points_overflow(buf@, p as int, (n - i) as nat),
            col_points_decode(buf@, pos as int) == (match points_decode(buf@, p as int, (n - i) as nat, t) {
                Some(rest) => Some(times_view(out@) + rest),
                None => None,
            }),
        decreases n - i,
    {
        let ghost p0 = p as int;
        let d = match get_varint(buf, &mut p) {
            Some(d) => d,
            None => {
                return None;
            },
        };
        t = t.wrapping_add(d);
        let v = match get_scalar(buf, &mut p) {
            Some(v) => v,
            None => {
                return None;
            },
        };
        proof {
            assert(times_view(out@.push((t, v))) =~= times_view(out@) + seq![(t, v@)]);
        }
        out.push((t, v));
        i = i + 1;
        proof {
            match points_decode(buf@, p as int, (n - i) as nat, t) {
                Some(rest) => {
                    assert(times_view(out@) + rest =~= times_view(out@).drop_last() + (seq![
                        (t, v@),
                    ] + rest));
                },
                None => {},
            }
        }
    }
    assert(times_view(out@) + Seq::<(u64, ScalarView)>::empty() =~= times_view(out@));
    Some(out)
}

/// A column cache read back for a signal of width `width`: the initial
/// value and the points, when the header matches the fingerprint and the
/// width and the points read whole.
pub open spec fn col_cache_decode(buf: Seq<u8>, fp: u64, width: usize) -> Option<
    (Option<ScalarView>, Seq<(u64, ScalarView)>),
> {
    match col_header_decode(buf, fp) {
        None => None,
        Some((w, init, e)) => if w != width {
            None
        } else {
            match col_points_decode(buf, e) {
                Some(pts) => Some((init, pts)),
                None => None,
            }
        },
    }
}

/// Read a column cache back (see `col_cache_decode`).
pub fn decode_col_cache(buf: &[u8], fp: u64, width: usize) -> (r: Option<
    (Option<ScalarValue>, Vec<(u64, ScalarValue)>),
>)
    requires
        buf@.len() <= isize::MAX,
        !header_overflows(buf@),
        col_header_decode(buf@, fp) matches Some((_w, _i, e)) ==> !col_points_overflow(buf@, e),
    ensures
        match col_cache_decode(buf@, fp, width) {
            Some((init, pts)) => r matches Some((i2, v)) && owned_view(i2) == init && times_view(v@)
                == pts,
            None => r is None,
        },
{
    let (w, init, pos) = match parse_col_header(buf, fp) {
        Some(h) => h,
        None => {
            return None;
        },
    };
    if w != width {
        return None;
    }
    match decode_col_points(buf, pos) {
        Some(v) => Some((init, v)),
        None => None,
    }
}

proof fn lemma_wrapping_delta(prev: u64, t: u64)
    ensures
        prev.wrapping_add(t.wrapping_sub(prev)) == t,
{
}

proof fn lemma_payload_roundtrip(a: Seq<u8>, v: ScalarView, rest: Seq<u8>)
    requires
        (a + payload_bytes(v) + rest).len() <= isize::MAX,
    ensures
        payload_decode(a + payload_bytes(v) + rest, kind_of(v), a.len() as int) == Some(
            (v, a.len() + payload_bytes(v).len() as int),
        ),
        !payload_overflows(a + payload_bytes(v) + rest, kind_of(v), a.len() as int),
{
    let b = a + payload_bytes(v) + rest;
    let p = a.len() as int;
    match v {
        ScalarView::Bit(x) => {
            assert(b[p] == x);
        },
        ScalarView::Vector(x) => {
            let enc = spec_encode_varint(x.len() as u64);
            assert(b.skip(p) =~= enc + (x + rest));
            crate::trace::fsdb::lemma_decode_varint_prefix(x.len() as u64, x + rest);
            let q = p + enc.len();
            assert(((x.len() as u64) as usize) as int == x.len());
            assert(b.subrange(q, q + x.len()) =~= x);
        },
        ScalarView::Real(x) => {
            assert(b.subrange(p, p + 8) =~= le64(x));
            crate::bytes::lemma_le64_roundtrip(x);
        },
    }
}

proof fn lemma_points_roundtrip(a: Seq<u8>, pts: Seq<(u64, ScalarView)>, prev: u64, rest: Seq<u8>)
    requires
        (a + points_bytes(pts, prev) + rest).len() <= isize::MAX,
    ensures
        points_decode(a + points_bytes(pts, prev) + rest, a.len() as int, pts.len(), prev) == Some(pts),
        !points_overflow(a + points_bytes(pts, prev) + rest, a.len() as int, pts.len()),
    decreases pts.len(),
{
    let b = a + points_bytes(pts, prev) + rest;
    let p = a.len() as int;
    if pts.len() > 0 {
        let (t, v) = pts[0];
        let d = t.wrapping_sub(prev);
        let enc = spec_encode_varint(d);
        let tail = points_bytes(pts.drop_first(), t);
        assert(points_bytes(pts, prev) == enc + scalar_bytes(v) + tail);
        assert(b.skip(p) =~= enc + (scalar_bytes(v) + tail + rest));
        crate::trace::fsdb::lemma_decode_varint_prefix(d, scalar_bytes(v) + tail + rest);
        lemma_wrapping_delta(prev, t);
        let a1 = a + enc + seq![kind_of(v)];
        assert(b =~= a1 + payload_bytes(v) + (tail + rest));
        lemma_payload_roundtrip(a1, v, tail + rest);
        let q = p + enc.len();
        assert(b[q] == kind_of(v));
        assert(scalar_decode(b, q) == Some((v, a1.len() + payload_bytes(v).len() as int)));
        let a2 = a + enc + scalar_bytes(v);
        assert(b =~= a2 + tail + rest);
        lemma_points_roundtrip(a2, pts.drop_first(), t, rest);
        assert(seq![(t, v)] + pts.drop_first() =~= pts);
    }
}

/// A column cache read back with its own fingerprint and width gives the
/// initial value and points that were written (a width and a point count
/// that fit 32 bits, a cache of a size a slice can have); with another
/// fingerprint its header is refused.
pub proof fn lemma_col_cache_roundtrip(
    fp: u64,
    width: usize,
    init: Option<ScalarView>,
    pts: Seq<(u64, ScalarView)>,
    other_fp: u64,
)
    requires
        width <= u32::MAX,
        pts.len() <= u32::MAX,
        col_cache_bytes(fp, width, init, pts).len() <= isize::MAX,
    ensures
        !header_overflows(col_cache_bytes(fp, width, init, pts)),
        col_header_decode(col_cache_bytes(fp, width, init, pts), fp) matches Some((w, i, e)) && w
            == width && i == init && !col_points_overflow(col_cache_bytes(fp, width, init, pts), e),
        col_cache_decode(col_cache_bytes(fp, width, init, pts), fp, width) == Some((init, pts)),
        other_fp != fp ==> col_header_decode(col_cache_bytes(fp, width, init, pts), other_fp) is None,
{
    let b = col_cache_bytes(fp, width, init, pts);
    let h = col_magic() + le64(fp) + le32(width as u32);
    let ib = init_bytes(init);
    let cnt = le32(pts.len() as u32);
    let pb = points_bytes(pts, 0);
    assert(b =~= h + ib + cnt + pb);
    assert(h.len() == 20);
    assert(b.take(8) =~= col_magic());
    assert(b.subrange(8, 16) =~= le64(fp));
    crate::bytes::lemma_le64_roundtrip(fp);
    assert(b.subrange(16, 20) =~= le32(width as u32));
    crate::bytes::lemma_le32_roundtrip(width as u32);
    let e: int = 20 + ib.len() as int;
    match init {
        None => {
            assert(b[20] == 0);
        },
        Some(v) => {
            let a1 = h + seq![(kind_of(v) + 1) as u8];
            assert(b =~= a1 + payload_bytes(v) + (cnt + pb));
            lemma_payload_roundtrip(a1, v, cnt + pb);
            assert(b[20] == (kind_of(v) + 1) as u8);
        },
    }
    assert(init_decode(b, 20) == Some((init, e)));
    assert(b.len() >= 25);
    assert(b.subrange(e, e + 4) =~= cnt);
    crate::bytes::lemma_le32_roundtrip(pts.len() as u32);
    let a2 = h + ib + cnt;
    assert(b =~= a2 + pb + Seq::<u8>::empty());
    lemma_points_roundtrip(a2, pts, 0, Seq::<u8>::empty());
}

} // verus!
