//! The query types shared by the waveform back ends: find conditions,
//! batch entries and scalar values.
use vstd::prelude::*;
use vstd::string::StringSliceAdditionalSpecFns;
use vstd::utf8::encode_utf8;

use crate::trace::container::contains_bytes;

verus! {

/// A condition a signal's value is searched for.
#[derive(Debug, Clone, PartialEq, Eq, Structural)]
pub enum FindCondition {
    Rising,
    Falling,
    High,
    Low,
    Value(u8),
    ValueI64(i64),
    Neq(u8),
    NeqI64(i64),
    IsX,
    IsZ,
    Changed,
}

/// A single entry in a batch find/index operation.
#[derive(Debug, Clone)]
pub enum BatchEntry {
    /// One signal that must meet its condition.
    Simple(String, FindCondition),
    /// Several signals that must all meet their conditions.
    And(Vec<(String, FindCondition)>),
}

/// A signal's value as the query engine sees it: one bit, a vector of
/// bits, or a real, held as the bit pattern of its IEEE-754 double.
#[derive(Debug, Clone, PartialEq)]
pub enum ScalarValue {
    Bit(u8),
    Vector(Vec<u8>),
    Real(u64),
}

/// What a scalar value holds.
pub enum ScalarView {
    Bit(u8),
    Vector(Seq<u8>),
    Real(u64),
}

impl View for ScalarValue {
    type V = ScalarView;

    open spec fn view(&self) -> ScalarView {
        match self {
            ScalarValue::Bit(b) => ScalarView::Bit(*b),
            ScalarValue::Vector(v) => ScalarView::Vector(v@),
            ScalarValue::Real(x) => ScalarView::Real(*x),
        }
    }
}

impl ScalarValue {
    /// A bit's byte as an integer; nothing for a vector or a real.
    pub fn to_int(&self) -> (r: Option<i64>)
        ensures
            r == (match self@ {
                ScalarView::Bit(b) => Some(b as i64),
                _ => None::<i64>,
            }),
    {
        match self {
            ScalarValue::Bit(v) => Some(*v as i64),
            ScalarValue::Vector(_) => None,
            ScalarValue::Real(_) => None,
        }
    }
}

// ---------------------------------------------------------------------------
// Resolving a signal name
// ---------------------------------------------------------------------------

/// The UTF-8 bytes of each signal name.
pub open spec fn names_bytes(sigs: Seq<String>) -> Seq<Seq<u8>> {
    sigs.map_values(|s: String| encode_utf8(s@))
}

/// The position of the last '.' among the first `k` bytes of `s`, or -1.
pub open spec fn last_dot(s: Seq<u8>, k: int) -> int
    decreases k,
{
    if k <= 0 {
        -1
    } else if s[k - 1] == 0x2e {
        k - 1
    } else {
        last_dot(s, k - 1)
    }
}

/// A hierarchical name's leaf: what follows its last '.', or the whole
/// name.
pub open spec fn leaf_of(s: Seq<u8>) -> Seq<u8> {
    s.skip(last_dot(s, s.len() as int) + 1)
}

/// Leaf names are tried for a short name (at most 8 bytes) or one without
/// a '.'.
pub open spec fn leaf_lookup(name: Seq<u8>) -> bool {
    name.len() <= 8 || !name.contains(0x2eu8)
}

/// The first position from `k` whose name is `name`.
pub open spec fn first_exact(sigs: Seq<Seq<u8>>, name: Seq<u8>, k: int) -> Option<int>
    decreases sigs.len() - k,
{
    if k < 0 || k >= sigs.len() {
        None
    } else if sigs[k] == name {
        Some(k)
    } else {
        first_exact(sigs, name, k + 1)
    }
}

/// The first position from `k` whose leaf is `name`.
pub open spec fn first_leaf(sigs: Seq<Seq<u8>>, name: Seq<u8>, k: int) -> Option<int>
    decreases sigs.len() - k,
{
    if k < 0 || k >= sigs.len() {
        None
    } else if leaf_of(sigs[k]) == name {
        Some(k)
    } else {
        first_leaf(sigs, name, k + 1)
    }
}

/// The first position from `k` whose name holds `name`.
pub open spec fn first_holding(sigs: Seq<Seq<u8>>, name: Seq<u8>, k: int) -> Option<int>
    decreases sigs.len() - k,
{
    if k < 0 || k >= sigs.len() {
        None
    } else if contains_bytes(sigs[k], name) {
        Some(k)
    } else {
        first_holding(sigs, name, k + 1)
    }
}

/// The signal a name resolves to: the first exact match; else, for a name
/// that allows it (see `leaf_lookup`), the first whose leaf matches; else
/// the first that holds the name.
pub open spec fn resolved_index(sigs: Seq<Seq<u8>>, name: Seq<u8>) -> Option<int> {
    if first_exact(sigs, name, 0) is Some {
        first_exact(sigs, name, 0)
    } else if leaf_lookup(name) && first_leaf(sigs, name, 0) is Some {
        first_leaf(sigs, name, 0)
    } else {
        first_holding(sigs, name, 0)
    }
}

pub(crate) fn leaf_slice(s: &[u8]) -> (r: &[u8])
    ensures
        r@ == leaf_of(s@),
{
    let n = s.len();
    let mut k: usize = n;
    while k > 0 && s[k - 1] != 0x2e
        invariant
            k <= n,
            n == s@.len(),
            last_dot(s@, n as int) == last_dot(s@, k as int),
        decreases k,
    {
        k = k - 1;
    }
    proof {
        if k > 0 {
            assert(last_dot(s@, k as int) == k - 1);
        }
    }
    let r = vstd::slice::slice_subrange(s, k, n);
    assert(r@ =~= leaf_of(s@));
    r
}

fn has_dot(s: &[u8]) -> (r: bool)
    ensures
        r == s@.contains(0x2eu8),
{
    let mut i: usize = 0;
    while i < s.len()
        invariant
            i <= s@.len(),
            forall|k: int| 0 <= k < i ==> s@[k] != 0x2e,
        decreases s@.len() - i,
    {
        if s[i] == 0x2e {
            assert(s@[i as int] == 0x2e);
            return true;
        }
        i = i + 1;
    }
    false
}

fn name_bytes_at<'a>(signals: &'a [String], i: usize) -> (r: &'a [u8])
    requires
        i < signals@.len(),
    ensures
        r@ == names_bytes(signals@)[i as int],
{
    signals[i].as_str().as_bytes()
}

/// The position of the signal a name resolves to (see `resolved_index`).
pub fn resolve_index(signals: &[String], name: &str) -> (r: Option<usize>)
    ensures
        match r {
            Some(i) => resolved_index(names_bytes(signals@), name.spec_bytes()) == Some(i as int)
                && i < signals@.len(),
            None => resolved_index(names_bytes(signals@), name.spec_bytes()) is None,
        },
{
    let ghost sigs = names_bytes(signals@);
    let nb: &[u8] = name.as_bytes();
    let n = signals.len();
    let mut i: usize = 0;
    while i < n
        invariant
            n == signals@.len(),
            sigs == names_bytes(signals@),
            nb@ == name.spec_bytes(),
            i <= n,
            first_exact(sigs, nb@, 0) == first_exact(sigs, nb@, i as int),
        decreases n - i,
    {
        if crate::text::bytes_eq(name_bytes_at(signals, i), nb) {
            assert(sigs[i as int] == nb@);
            assert(first_exact(sigs, nb@, i as int) == Some(i as int));
            return Some(i);
        }
        i = i + 1;
    }
    if nb.len() <= 8 || !has_dot(nb) {
        let mut j: usize = 0;
        while j < n
            invariant
                n == signals@.len(),
                sigs == names_bytes(signals@),
            nb@ == name.spec_bytes(),
                j <= n,
                first_exact(sigs, nb@, 0) is None,
                leaf_lookup(nb@),
                first_leaf(sigs, nb@, 0) == first_leaf(sigs, nb@, j as int),
            decreases n - j,
        {
            if crate::text::bytes_eq(leaf_slice(name_bytes_at(signals, j)), nb) {
                assert(leaf_of(sigs[j as int]) == nb@);
                assert(first_leaf(sigs, nb@, j as int) == Some(j as int));
                return Some(j);
            }
            j = j + 1;
        }
    }
    let mut k: usize = 0;
    while k < n
        invariant
            n == signals@.len(),
            sigs == names_bytes(signals@),
            nb@ == name.spec_bytes(),
            k <= n,
            resolved_index(sigs, nb@) == first_holding(sigs, nb@, 0),
            first_holding(sigs, nb@, 0) == first_holding(sigs, nb@, k as int),
        decreases n - k,
    {
        let s = name_bytes_at(signals, k);
        if crate::trace::container::bytes_hold(s, nb) {
            assert(contains_bytes(sigs[k as int], nb@));
            assert(first_holding(sigs, nb@, k as int) == Some(k as int));
            return Some(k);
        }
        k = k + 1;
    }
    None
}

/// The name a name resolves to (see `resolved_index`).
pub fn resolve_name(signals: &[String], name: &str) -> (r: Option<String>)
    ensures
        match r {
            Some(s) => resolved_index(names_bytes(signals@), name.spec_bytes()) matches Some(i) && s@
                == signals@[i]@,
            None => resolved_index(names_bytes(signals@), name.spec_bytes()) is None,
        },
{
    match resolve_index(signals, name) {
        Some(i) => Some(signals[i].clone()),
        None => None,
    }
}

/// The names that hold `name`, among the first `k`, in order.
pub open spec fn holding_names(sigs: Seq<String>, name: Seq<u8>, k: int) -> Seq<String>
    decreases k,
{
    if k <= 0 || k > sigs.len() {
        Seq::empty()
    } else if contains_bytes(encode_utf8(sigs[k - 1]@), name) {
        holding_names(sigs, name, k - 1).push(sigs[k - 1])
    } else {
        holding_names(sigs, name, k - 1)
    }
}

/// Strict resolution: the first exact match; else the one name that holds
/// `name`, when exactly one does; else an error with every name that holds
/// it, in order.
pub fn resolve_name_strict(signals: &[String], name: &str) -> (r: Result<String, Vec<String>>)
    ensures
        first_exact(names_bytes(signals@), name.spec_bytes(), 0) matches Some(i) ==> (r matches Ok(s)
            && s@ == signals@[i]@),
        first_exact(names_bytes(signals@), name.spec_bytes(), 0) is None ==> {
            let m = holding_names(signals@, name.spec_bytes(), signals@.len() as int);
            if m.len() == 1 {
                r matches Ok(s) && s@ == m[0]@
            } else {
                r matches Err(c) && c@.len() == m.len() && forall|j: int| 0 <= j < m.len() ==> #[trigger] c@[j]@ == m[j]@
            }
        },
{
    let ghost sigs = names_bytes(signals@);
    let nb: &[u8] = name.as_bytes();
    let n = signals.len();
    let mut i: usize = 0;
    while i < n
        invariant
            n == signals@.len(),
            sigs == names_bytes(signals@),
            nb@ == name.spec_bytes(),
            i <= n,
            first_exact(sigs, nb@, 0) == first_exact(sigs, nb@, i as int),
        decreases n - i,
    {
        if crate::text::bytes_eq(name_bytes_at(signals, i), nb) {
            assert(sigs[i as int] == nb@);
            assert(first_exact(sigs, nb@, i as int) == Some(i as int));
            return Ok(signals[i].clone());
        }
        i = i + 1;
    }
    let mut found: Vec<String> = Vec::new();
    let mut k: usize = 0;
    while k < n
        invariant
            n == signals@.len(),
            sigs == names_bytes(signals@),
            nb@ == name.spec_bytes(),
            k <= n,
            found@.len() == holding_names(signals@, nb@, k as int).len(),
            forall|j: int| 0 <= j < found@.len() ==> #[trigger] found@[j]@ == holding_names(signals@, nb@, k as int)[j]@,
        decreases n - k,
    {
        let s = name_bytes_at(signals, k);
        if crate::trace::container::bytes_hold(s, nb) {
            found.push(signals[k].clone());
        }
        k = k + 1;
    }
    if found.len() == 1 {
        Ok(found[0].clone())
    } else {
        Err(found)
    }
}

} // verus!
