//! Byte-level text helpers shared by the VCD and FST code: whitespace
//! splitting, prefix/suffix tests, substring search, decimal parsing and the
//! conversions between bytes and strings.
use vstd::prelude::*;
use vstd::utf8::*;
use vstd::string::StringSliceAdditionalSpecFns;

verus! {

// ---------------------------------------------------------------------------
// Strings from bytes (std)
// ---------------------------------------------------------------------------

/// What `String::from_utf8_lossy` makes of a byte sequence.
pub uninterp spec fn lossy_utf8(bytes: Seq<u8>) -> Seq<char>;

/// Calls `String::from_utf8_lossy` (then takes ownership of the result).
/// Claimed, as std documents: the result is `lossy_utf8(bytes)`, and for valid
/// UTF-8 input it is exactly the decoded text; invalid sequences become
/// U+FFFD, which is left unsaid beyond the name.
#[verifier::external_body]
pub(crate) fn string_from_utf8_lossy(bytes: &[u8]) -> (s: String)
    ensures
        s@ == lossy_utf8(bytes@),
        valid_utf8(bytes@) ==> s@ == decode_utf8(bytes@),
{
    String::from_utf8_lossy(bytes).into_owned()
}

/// Calls `std::str::from_utf8`. Claimed, as std documents: it succeeds exactly
/// on valid UTF-8, and the string it returns has exactly those bytes.
#[verifier::external_body]
pub(crate) fn str_from_utf8(bytes: &[u8]) -> (r: Option<&str>)
    ensures
        r is Some <==> valid_utf8(bytes@),
        r matches Some(s) ==> s.spec_bytes() == bytes@ && s@ == decode_utf8(bytes@),
{
    std::str::from_utf8(bytes).ok()
}

/// The UTF-8 bytes of a `String` as a vector.
pub fn string_bytes(s: &String) -> (b: Vec<u8>)
    ensures
        b@ == encode_utf8(s@),
{
    let st: &str = s.as_str();
    let sl: &[u8] = st.as_bytes();
    vstd::slice::slice_to_vec(sl)
}

/// A `String` holding exactly the given bytes, when they are valid UTF-8
/// (replacement characters otherwise).
pub fn string_from_bytes(bytes: &[u8]) -> (s: String)
    ensures
        s@ == lossy_utf8(bytes@),
        valid_utf8(bytes@) ==> encode_utf8(s@) == bytes@,
{
    let s: String = string_from_utf8_lossy(bytes);
    proof {
        if valid_utf8(bytes@) {
            decode_utf8_encode_utf8(bytes@);
        }
    }
    s
}

/// Byte-wise equality of two slices.
pub fn bytes_eq(a: &[u8], b: &[u8]) -> (r: bool)
    ensures
        r == (a@ == b@),
{
    if a.len() != b.len() {
        return false;
    }
    let mut i: usize = 0;
    while i < a.len()
        invariant
            a@.len() == b@.len(),
            i <= a@.len(),
            forall|j: int| 0 <= j < i ==> a@[j] == b@[j],
        decreases a@.len() - i,
    {
        if a[i] != b[i] {
            return false;
        }
        i = i + 1;
    }
    assert(a@ =~= b@);
    true
}

/// Equality of two strings, compared by their bytes.
pub fn str_eq(a: &str, b: &str) -> (r: bool)
    ensures
        r == (a@ == b@),
{
    let r = bytes_eq(a.as_bytes(), b.as_bytes());
    proof {
        encode_utf8_decode_utf8(a@);
        encode_utf8_decode_utf8(b@);
    }
    r
}

// ---------------------------------------------------------------------------
// Whitespace, prefixes, substrings
// ---------------------------------------------------------------------------

/// The ASCII bytes that `char::is_whitespace` accepts.
pub open spec fn is_ws(b: u8) -> bool {
    b == 0x20 || b == 0x09 || b == 0x0A || b == 0x0B || b == 0x0C || b == 0x0D
}

pub fn is_ws_byte(b: u8) -> (r: bool)
    ensures
        r == is_ws(b),
{
    b == 0x20 || b == 0x09 || b == 0x0A || b == 0x0B || b == 0x0C || b == 0x0D
}

pub open spec fn is_digit(b: u8) -> bool {
    0x30 <= b <= 0x39
}

/// `s` starts with `p`.
pub open spec fn seq_starts_with(s: Seq<u8>, p: Seq<u8>) -> bool {
    p.len() <= s.len() && s.take(p.len() as int) == p
}

/// `s` ends with `p`.
pub open spec fn seq_ends_with(s: Seq<u8>, p: Seq<u8>) -> bool {
    p.len() <= s.len() && s.skip(s.len() - p.len()) == p
}

/// `n` occurs in `h` at position `i`.
pub open spec fn occurs_at(h: Seq<u8>, n: Seq<u8>, i: int) -> bool {
    0 <= i && i + n.len() <= h.len() && h.subrange(i, i + n.len()) == n
}

pub open spec fn seq_contains_sub(h: Seq<u8>, n: Seq<u8>) -> bool {
    exists|i: int| occurs_at(h, n, i)
}

pub fn starts_with(s: &[u8], p: &[u8]) -> (r: bool)
    ensures
        r == seq_starts_with(s@, p@),
{
    if p.len() > s.len() {
        return false;
    }
    let mut i: usize = 0;
    while i < p.len()
        invariant
            p@.len() <= s@.len(),
            i <= p@.len(),
            forall|j: int| 0 <= j < i ==> s@[j] == p@[j],
        decreases p@.len() - i,
    {
        if s[i] != p[i] {
            assert(s@.take(p@.len() as int)[i as int] != p@[i as int]);
            return false;
        }
        i = i + 1;
    }
    assert(s@.take(p@.len() as int) =~= p@);
    true
}

pub fn ends_with(s: &[u8], p: &[u8]) -> (r: bool)
    ensures
        r == seq_ends_with(s@, p@),
{
    if p.len() > s.len() {
        return false;
    }
    let off: usize = s.len() - p.len();
    let mut i: usize = 0;
    while i < p.len()
        invariant
            p@.len() <= s@.len(),
            off == s@.len() - p@.len(),
            off + p@.len() == s@.len(),
            s@.len() <= usize::MAX,
            i <= p@.len(),
            forall|j: int| 0 <= j < i ==> s@[off + j] == p@[j],
        decreases p@.len() - i,
    {
        if s[off + i] != p[i] {
            assert(s@.skip(off as int)[i as int] != p@[i as int]);
            return false;
        }
        i = i + 1;
    }
    assert(s@.skip(off as int) =~= p@);
    true
}

/// Does `n` occur in `h` at position `i`?
pub fn matches_at(h: &[u8], n: &[u8], i: usize) -> (r: bool)
    ensures
        r == occurs_at(h@, n@, i as int),
{
    if i > h.len() || n.len() > h.len() - i {
        return false;
    }
    let mut j: usize = 0;
    while j < n.len()
        invariant
            i + n@.len() <= h@.len(),
            h@.len() <= usize::MAX,
            j <= n@.len(),
            forall|k: int| 0 <= k < j ==> h@[i + k] == n@[k],
        decreases n@.len() - j,
    {
        if h[i + j] != n[j] {
            assert(h@.subrange(i as int, i + n@.len())[j as int] != n@[j as int]);
            return false;
        }
        j = j + 1;
    }
    assert(h@.subrange(i as int, i + n@.len()) =~= n@);
    true
}

/// Position of the first occurrence of `n` in `h` at or after `from`.
pub fn find_from(h: &[u8], n: &[u8], from: usize) -> (r: Option<usize>)
    ensures
        match r {
            Some(i) => from <= i && occurs_at(h@, n@, i as int) && forall|k: int|
                from <= k < i ==> !occurs_at(h@, n@, k),
            None => forall|k: int| from <= k ==> !occurs_at(h@, n@, k),
        },
{
    if from > h.len() {
        assert forall|k: int| from <= k implies !occurs_at(h@, n@, k) by {}
        return None;
    }
    let mut i: usize = from;
    loop
        invariant
            from <= i <= h@.len(),
            forall|k: int| from <= k < i ==> !occurs_at(h@, n@, k),
        decreases h@.len() - i,
    {
        if matches_at(h, n, i) {
            return Some(i);
        }
        if i == h.len() {
            assert forall|k: int| from <= k implies !occurs_at(h@, n@, k) by {
                if k > h@.len() {
                    assert(!occurs_at(h@, n@, k));
                }
            }
            return None;
        }
        i = i + 1;
    }
}

/// Position of the first occurrence of `n` in `h`.
pub fn find_sub(h: &[u8], n: &[u8]) -> (r: Option<usize>)
    ensures
        match r {
            Some(i) => occurs_at(h@, n@, i as int) && forall|k: int|
                0 <= k < i ==> !occurs_at(h@, n@, k),
            None => !seq_contains_sub(h@, n@),
        },
{
    find_from(h, n, 0)
}

/// Does `n` occur anywhere in `h`?
pub fn contains_sub(h: &[u8], n: &[u8]) -> (r: bool)
    ensures
        r == seq_contains_sub(h@, n@),
{
    match find_sub(h, n) {
        Some(_) => true,
        None => false,
    }
}

/// Position of the last occurrence of `n` in `h`.
pub fn rfind_sub(h: &[u8], n: &[u8]) -> (r: Option<usize>)
    ensures
        match r {
            Some(i) => occurs_at(h@, n@, i as int) && forall|k: int|
                i < k ==> !occurs_at(h@, n@, k),
            None => !seq_contains_sub(h@, n@),
        },
{
    if n.len() > h.len() {
        return None;
    }
    let mut i: usize = h.len() - n.len();
    loop
        invariant
            i <= h@.len() - n@.len(),
            n@.len() <= h@.len(),
            forall|k: int| i < k ==> !occurs_at(h@, n@, k),
        decreases i,
    {
        if matches_at(h, n, i) {
            return Some(i);
        }
        if i == 0 {
            return None;
        }
        i = i - 1;
    }
}

/// Position of the first byte equal to `b` at or after `from`.
pub fn find_byte(h: &[u8], b: u8, from: usize) -> (r: Option<usize>)
    ensures
        match r {
            Some(i) => from <= i < h@.len() && h@[i as int] == b && forall|k: int|
                from <= k < i ==> h@[k] != b,
            None => forall|k: int| from <= k < h@.len() ==> h@[k] != b,
        },
{
    let mut i: usize = from;
    while i < h.len()
        invariant
            from <= i,
            forall|k: int| from <= k < i && k < h@.len() ==> h@[k] != b,
        decreases h@.len() - i,
    {
        if h[i] == b {
            return Some(i);
        }
        i = i + 1;
    }
    None
}

/// A two-byte whitespace character (U+0085, U+00A0) starts at `j`.
pub open spec fn ws2_at(s: Seq<u8>, j: int) -> bool {
    0 <= j && j + 1 < s.len() && s[j] == 0xC2 && (s[j + 1] == 0x85 || s[j + 1] == 0xA0)
}

/// A three-byte whitespace character (U+1680, U+2000..U+200A, U+2028,
/// U+2029, U+202F, U+205F, U+3000) starts at `j`.
pub open spec fn ws3_at(s: Seq<u8>, j: int) -> bool {
    0 <= j && j + 2 < s.len() && (
    (s[j] == 0xE1 && s[j + 1] == 0x9A && s[j + 2] == 0x80) || (s[j] == 0xE2 && s[j + 1] == 0x80
        && ((0x80 <= s[j + 2] && s[j + 2] <= 0x8A) || s[j + 2] == 0xA8 || s[j + 2] == 0xA9 || s[j
        + 2] == 0xAF)) || (s[j] == 0xE2 && s[j + 1] == 0x81 && s[j + 2] == 0x9F) || (s[j] == 0xE3
        && s[j + 1] == 0x80 && s[j + 2] == 0x80))
}

/// Byte `k` of the UTF-8 text `s` belongs to a whitespace character (as
/// `char::is_whitespace` defines it).
pub open spec fn uws(s: Seq<u8>, k: int) -> bool {
    0 <= k < s.len() && (is_ws(s[k]) || ws2_at(s, k) || ws2_at(s, k - 1) || ws3_at(s, k) || ws3_at(
        s,
        k - 1,
    ) || ws3_at(s, k - 2))
}

fn ws2_at_exec(s: &[u8], j: usize) -> (r: bool)
    ensures
        r == ws2_at(s@, j as int),
{
    j < s.len() && s.len() - j > 1 && s[j] == 0xC2 && (s[j + 1] == 0x85 || s[j + 1] == 0xA0)
}

fn ws3_at_exec(s: &[u8], j: usize) -> (r: bool)
    ensures
        r == ws3_at(s@, j as int),
{
    if !(j < s.len() && s.len() - j > 2) {
        return false;
    }
    let a = s[j];
    let b = s[j + 1];
    let c = s[j + 2];
    (a == 0xE1 && b == 0x9A && c == 0x80) || (a == 0xE2 && b == 0x80 && ((0x80 <= c && c <= 0x8A)
        || c == 0xA8 || c == 0xA9 || c == 0xAF)) || (a == 0xE2 && b == 0x81 && c == 0x9F) || (a
        == 0xE3 && b == 0x80 && c == 0x80)
}

/// Whether byte `k` of `s` belongs to a whitespace character.
pub fn uws_exec(s: &[u8], k: usize) -> (r: bool)
    ensures
        r == uws(s@, k as int),
{
    if k >= s.len() {
        return false;
    }
    is_ws_byte(s[k]) || ws2_at_exec(s, k) || (k >= 1 && ws2_at_exec(s, k - 1)) || ws3_at_exec(s, k)
        || (k >= 1 && ws3_at_exec(s, k - 1)) || (k >= 2 && ws3_at_exec(s, k - 2))
}

/// Bounds of `s[lo..hi]` with leading and trailing whitespace removed.
pub open spec fn trim_bounds_ok(s: Seq<u8>, lo: int, hi: int, a: int, b: int) -> bool {
    &&& lo <= a <= b <= hi
    &&& forall|k: int| lo <= k < a ==> uws(s, k)
    &&& forall|k: int| b <= k < hi ==> uws(s, k)
    &&& a < b ==> !uws(s, a) && !uws(s, b - 1)
}

/// The bounds of `s[lo..hi]` trimmed of whitespace at both ends.
pub fn trim_range(s: &[u8], lo: usize, hi: usize) -> (r: (usize, usize))
    requires
        lo <= hi <= s@.len(),
    ensures
        trim_bounds_ok(s@, lo as int, hi as int, r.0 as int, r.1 as int),
{
    let mut a: usize = lo;
    while a < hi && uws_exec(s, a)
        invariant
            lo <= a <= hi <= s@.len(),
            forall|k: int| lo <= k < a ==> uws(s@, k),
        decreases hi - a,
    {
        a = a + 1;
    }
    let mut b: usize = hi;
    while b > a && uws_exec(s, b - 1)
        invariant
            a <= b <= hi <= s@.len(),
            forall|k: int| b <= k < hi ==> uws(s@, k),
        decreases b,
    {
        b = b - 1;
    }
    (a, b)
}

/// `spans` are the whitespace-separated tokens of `s`: maximal runs of
/// non-whitespace bytes, in order.
pub open spec fn is_token_split(s: Seq<u8>, spans: Seq<(usize, usize)>) -> bool {
    &&& forall|i: int|
        0 <= i < spans.len() ==> (#[trigger] spans[i]).0 < spans[i].1 <= s.len()
    &&& forall|i: int|
        0 <= i < spans.len() - 1 ==> (#[trigger] spans[i]).1 < spans[i + 1].0
    &&& forall|i: int, k: int|
        #![trigger spans[i], uws(s, k)]
        0 <= i < spans.len() && spans[i].0 <= k < spans[i].1 ==> !uws(s, k)
    &&& forall|k: int|
        0 <= k < s.len() && !#[trigger] uws(s, k) ==> exists|i: int|
            0 <= i < spans.len() && (#[trigger] spans[i]).0 <= k < spans[i].1
    &&& forall|i: int|
        0 <= i < spans.len() && spans[i].1 < s.len() ==> uws(s, (#[trigger] spans[i]).1 as int)
    &&& forall|i: int|
        0 <= i < spans.len() && spans[i].0 > 0 ==> uws(s, (#[trigger] spans[i]).0 - 1)
}

/// Split `s` at whitespace into token spans (like `str::split_whitespace`).
pub fn split_ws(s: &[u8]) -> (spans: Vec<(usize, usize)>)
    ensures
        is_token_split(s@, spans@),
{
    let mut spans: Vec<(usize, usize)> = Vec::new();
    let mut i: usize = 0;
    let n: usize = s.len();
    while i < n
        invariant
            n == s@.len(),
            i <= n,
            forall|j: int| 0 <= j < spans@.len() ==> (#[trigger] spans@[j]).0 < spans@[j].1 <= i,
            forall|j: int| 0 <= j < spans@.len() - 1 ==> (#[trigger] spans@[j]).1 < spans@[j + 1].0,
            forall|j: int, k: int|
                #![trigger spans@[j], uws(s@, k)]
                0 <= j < spans@.len() && spans@[j].0 <= k < spans@[j].1 ==> !uws(s@, k),
            forall|k: int|
                0 <= k < i && !#[trigger] uws(s@, k) ==> exists|j: int|
                    0 <= j < spans@.len() && (#[trigger] spans@[j]).0 <= k < spans@[j].1,
            forall|j: int|
                0 <= j < spans@.len() && spans@[j].1 < s@.len() ==> uws(
                    s@,
                    (#[trigger] spans@[j]).1 as int,
                ),
            forall|j: int|
                0 <= j < spans@.len() && spans@[j].0 > 0 ==> uws(s@, (#[trigger] spans@[j]).0 - 1),
            spans@.len() > 0 ==> spans@.last().1 < i || i == n || (spans@.last().1 == i && (i
                == n || uws(s@, i as int))),
        decreases n - i,
    {
        if uws_exec(s, i) {
            i = i + 1;
        } else {
            let start: usize = i;
            while i < n && !uws_exec(s, i)
                invariant
                    n == s@.len(),
                    start <= i <= n,
                    forall|k: int| start <= k < i ==> !uws(s@, k),
                decreases n - i,
            {
                i = i + 1;
            }
            let ghost old_spans = spans@;
            spans.push((start, i));
            assert(spans@[spans@.len() - 1] == (start, i));
            assert forall|k: int|
                0 <= k < i && !#[trigger] uws(s@, k) implies exists|j: int|
                0 <= j < spans@.len() && (#[trigger] spans@[j]).0 <= k < spans@[j].1 by {
                if k >= start {
                    assert(spans@[spans@.len() - 1].0 <= k < spans@[spans@.len() - 1].1);
                } else {
                    let j = choose|j: int|
                        0 <= j < old_spans.len() && (#[trigger] old_spans[j]).0 <= k
                            < old_spans[j].1;
                    assert(spans@[j] == old_spans[j]);
                }
            }
            assert forall|j: int|
                0 <= j < spans@.len() && spans@[j].0 > 0 implies uws(
                s@,
                (#[trigger] spans@[j]).0 - 1,
            ) by {
                if j == spans@.len() - 1 {
                    if start > 0 {
                        assert(!uws(s@, start - 1) ==> exists|jj: int|
                            0 <= jj < old_spans.len() && (#[trigger] old_spans[jj]).0 <= start - 1
                                < old_spans[jj].1);
                    }
                } else {
                    assert(spans@[j] == old_spans[j]);
                }
            }
        }
    }
    spans
}

/// First position at or after `i` that is not whitespace (or the end).
pub open spec fn skip_ws(s: Seq<u8>, i: int) -> int
    decreases s.len() - i,
{
    if 0 <= i < s.len() && uws(s, i) {
        skip_ws(s, i + 1)
    } else {
        i
    }
}

/// First position at or after `i` that is whitespace (or the end).
pub open spec fn word_end(s: Seq<u8>, i: int) -> int
    decreases s.len() - i,
{
    if 0 <= i < s.len() && !uws(s, i) {
        word_end(s, i + 1)
    } else {
        i
    }
}

/// Start of the trailing whitespace that ends at `j`, not before `lo`.
pub open spec fn rskip_ws(s: Seq<u8>, lo: int, j: int) -> int
    decreases j - lo,
{
    if j > lo && uws(s, j - 1) {
        rskip_ws(s, lo, j - 1)
    } else {
        j
    }
}

/// The whitespace-separated tokens of `s` from `i` on, as `[start, end)`
/// spans.
pub open spec fn token_list(s: Seq<u8>, i: int) -> Seq<(int, int)>
    decreases s.len() - i,
{
    let a = skip_ws(s, i);
    if i < 0 || i > s.len() || a >= s.len() {
        Seq::empty()
    } else {
        let b = word_end(s, a);
        proof {
            lemma_skip_ws(s, i);
            lemma_word_end(s, a);
        }
        if b <= i {
            Seq::empty()
        } else {
            seq![(a, b)] + token_list(s, b)
        }
    }
}

/// The `k`-th token of `s`.
pub open spec fn token(s: Seq<u8>, k: int) -> Seq<u8> {
    let t = token_list(s, 0);
    s.subrange(t[k].0, t[k].1)
}

/// `s` with whitespace trimmed from both ends, as `[start, end)`.
pub open spec fn trim_span(s: Seq<u8>) -> (int, int) {
    let a = skip_ws(s, 0);
    (a, rskip_ws(s, a, s.len() as int))
}

/// `s` with whitespace trimmed from both ends.
pub open spec fn trimmed(s: Seq<u8>) -> Seq<u8> {
    s.subrange(trim_span(s).0, trim_span(s).1)
}

pub proof fn lemma_skip_ws(s: Seq<u8>, i: int)
    requires
        0 <= i <= s.len(),
    ensures
        i <= skip_ws(s, i) <= s.len(),
        skip_ws(s, i) < s.len() ==> !uws(s, skip_ws(s, i)),
    decreases s.len() - i,
{
    if i < s.len() && uws(s, i) {
        lemma_skip_ws(s, i + 1);
    }
}

pub proof fn lemma_word_end(s: Seq<u8>, i: int)
    requires
        0 <= i <= s.len(),
    ensures
        i <= word_end(s, i) <= s.len(),
    decreases s.len() - i,
{
    if i < s.len() && !uws(s, i) {
        lemma_word_end(s, i + 1);
    }
}

pub proof fn lemma_rskip_ws(s: Seq<u8>, lo: int, j: int)
    requires
        0 <= lo <= j <= s.len(),
    ensures
        lo <= rskip_ws(s, lo, j) <= j,
    decreases j - lo,
{
    if j > lo && uws(s, j - 1) {
        lemma_rskip_ws(s, lo, j - 1);
    }
}

/// The token spans of `s`, in order.
pub fn tokens(s: &[u8]) -> (spans: Vec<(usize, usize)>)
    ensures
        spans@.len() == token_list(s@, 0).len(),
        forall|k: int|
            0 <= k < spans@.len() ==> (#[trigger] spans@[k]).0 as int == token_list(s@, 0)[k].0
                && spans@[k].1 as int == token_list(s@, 0)[k].1 && spans@[k].0 < spans@[k].1
                <= s@.len(),
{
    let mut spans: Vec<(usize, usize)> = Vec::new();
    let ghost got: Seq<(int, int)> = Seq::empty();
    let n: usize = s.len();
    let mut i: usize = 0;
    loop
        invariant
            n == s@.len(),
            i <= n,
            token_list(s@, 0) == got + token_list(s@, i as int),
            spans@.len() == got.len(),
            forall|k: int|
                0 <= k < spans@.len() ==> (#[trigger] spans@[k]).0 as int == got[k].0
                    && spans@[k].1 as int == got[k].1 && spans@[k].0 < spans@[k].1 <= i,
        decreases n - i,
    {
        let mut a: usize = i;
        proof {
            lemma_skip_ws(s@, i as int);
        }
        while a < n && uws_exec(s, a)
            invariant
                i <= a <= n,
                n == s@.len(),
                skip_ws(s@, i as int) == skip_ws(s@, a as int),
            decreases n - a,
        {
            a = a + 1;
        }
        if a >= n {
            assert(token_list(s@, i as int) =~= Seq::<(int, int)>::empty());
            assert(got + token_list(s@, i as int) =~= got);
            return spans;
        }
        let mut b: usize = a;
        proof {
            lemma_word_end(s@, a as int);
        }
        while b < n && !uws_exec(s, b)
            invariant
                a <= b <= n,
                n == s@.len(),
                word_end(s@, a as int) == word_end(s@, b as int),
            decreases n - b,
        {
            b = b + 1;
        }
        assert(b > a);
        spans.push((a, b));
        proof {
            assert(token_list(s@, i as int) == seq![(a as int, b as int)] + token_list(s@, b as int));
            got = got.push((a as int, b as int));
            assert(got.drop_last() + seq![(a as int, b as int)] + token_list(s@, b as int) =~= got
                + token_list(s@, b as int));
        }
        i = b;
    }
}

/// The trimmed span of `s`.
pub fn trim_fn(s: &[u8]) -> (r: (usize, usize))
    ensures
        r.0 as int == trim_span(s@).0,
        r.1 as int == trim_span(s@).1,
        r.0 <= r.1 <= s@.len(),
{
    let n: usize = s.len();
    let mut a: usize = 0;
    proof {
        lemma_skip_ws(s@, 0);
    }
    while a < n && uws_exec(s, a)
        invariant
            a <= n,
            n == s@.len(),
            skip_ws(s@, 0) == skip_ws(s@, a as int),
        decreases n - a,
    {
        a = a + 1;
    }
    let mut b: usize = n;
    proof {
        lemma_rskip_ws(s@, a as int, n as int);
    }
    while b > a && uws_exec(s, b - 1)
        invariant
            a <= b <= n,
            n == s@.len(),
            rskip_ws(s@, a as int, n as int) == rskip_ws(s@, a as int, b as int),
        decreases b,
    {
        b = b - 1;
    }
    (a, b)
}

// ---------------------------------------------------------------------------
// Decimal numbers
// ---------------------------------------------------------------------------

/// Value of a sequence of decimal digit bytes (most significant first).
/// `s` with whitespace trimmed from both ends, as a slice.
pub fn trim_slice(s: &[u8]) -> (r: &[u8])
    ensures
        r@ == trimmed(s@),
{
    let (a, b) = trim_fn(s);
    vstd::slice::slice_subrange(s, a, b)
}

pub open spec fn digits_value(s: Seq<u8>) -> nat
    decreases s.len(),
{
    if s.len() == 0 {
        0
    } else {
        digits_value(s.drop_last()) * 10 + (s.last() - 0x30) as nat
    }
}

/// Number of leading decimal digit bytes of `s`.
pub open spec fn digit_run(s: Seq<u8>) -> nat
    decreases s.len(),
{
    if s.len() == 0 || !is_digit(s[0]) {
        0
    } else {
        1 + digit_run(s.drop_first())
    }
}

pub proof fn lemma_digit_run(s: Seq<u8>)
    ensures
        digit_run(s) <= s.len(),
        forall|k: int| 0 <= k < digit_run(s) ==> is_digit(#[trigger] s[k]),
        digit_run(s) < s.len() ==> !is_digit(s[digit_run(s) as int]),
    decreases s.len(),
{
    if s.len() > 0 && is_digit(s[0]) {
        lemma_digit_run(s.drop_first());
        assert forall|k: int| 0 <= k < digit_run(s) implies is_digit(#[trigger] s[k]) by {
            if k > 0 {
                assert(s[k] == s.drop_first()[k - 1]);
            }
        }
    }
}

pub proof fn lemma_digit_run_unique(s: Seq<u8>, n: int)
    requires
        0 <= n <= s.len(),
        forall|k: int| 0 <= k < n ==> is_digit(#[trigger] s[k]),
        n < s.len() ==> !is_digit(s[n]),
    ensures
        digit_run(s) == n,
    decreases n,
{
    if n > 0 {
        let r = s.drop_first();
        assert forall|k: int| 0 <= k < n - 1 implies is_digit(#[trigger] r[k]) by {
            assert(r[k] == s[k + 1]);
        }
        lemma_digit_run_unique(r, n - 1);
    }
}

/// The value of the leading digits of `s[from..]`, wrapping modulo 2^64 as an
/// optimized build of `n = n * 10 + d` does, and the index just past them.
pub fn parse_digits_wrapping(s: &[u8], from: usize) -> (r: (u64, usize))
    requires
        from <= s@.len(),
    ensures
        r.1 == from + digit_run(s@.skip(from as int)),
        r.0 as nat == digits_value(s@.subrange(from as int, r.1 as int)) % 0x1_0000_0000_0000_0000,
{
    let mut n: u64 = 0;
    let mut i: usize = from;
    while i < s.len() && 0x30 <= s[i] && s[i] <= 0x39
        invariant
            from <= i <= s@.len(),
            forall|k: int| from <= k < i ==> is_digit(#[trigger] s@[k]),
            n as nat == digits_value(s@.subrange(from as int, i as int)) % 0x1_0000_0000_0000_0000,
        decreases s@.len() - i,
    {
        let d: u8 = s[i] - 0x30;
        let ghost prev = s@.subrange(from as int, i as int);
        assert(s@.subrange(from as int, i + 1).drop_last() =~= prev);
        assert(s@.subrange(from as int, i + 1).last() == s@[i as int]);
        proof {
            lemma_mod_step(digits_value(prev), d as nat, n as nat);
        }
        let w: u64 = n.wrapping_mul(10);
        assert(w as nat == (n as nat * 10) % 0x1_0000_0000_0000_0000);
        n = w.wrapping_add(d as u64);
        assert(n as nat == (w as nat + d as nat) % 0x1_0000_0000_0000_0000);
        i = i + 1;
    }
    proof {
        let t = s@.skip(from as int);
        assert forall|k: int| 0 <= k < i - from implies is_digit(#[trigger] t[k]) by {
            assert(t[k] == s@[from + k]);
        }
        if i < s@.len() {
            assert(t[i - from] == s@[i as int]);
        }
        lemma_digit_run_unique(t, i - from);
    }
    (n, i)
}

proof fn lemma_mod_step(v: nat, d: nat, n: nat)
    requires
        n == v % 0x1_0000_0000_0000_0000,
        d < 10,
    ensures
        ((n * 10) % 0x1_0000_0000_0000_0000 + d) % 0x1_0000_0000_0000_0000 == (v * 10 + d)
            % 0x1_0000_0000_0000_0000,
{
    let m: int = 0x1_0000_0000_0000_0000;
    vstd::arithmetic::div_mod::lemma_mul_mod_noop_left(v as int, 10, m);
    vstd::arithmetic::div_mod::lemma_add_mod_noop((v * 10) as int, d as int, m);
    vstd::arithmetic::div_mod::lemma_mod_twice(n as int * 10, m);
    vstd::arithmetic::div_mod::lemma_add_mod_noop((n as int * 10) % m, d as int, m);
}

/// What `u64::from_str` (or a narrower unsigned type with maximum `max`)
/// gives for `s`: an optional '+', then one or more ASCII digits whose value
/// is at most `max`.
pub open spec fn strip_plus(s: Seq<u8>) -> Seq<u8> {
    if s.len() > 0 && s[0] == 0x2B { s.skip(1) } else { s }
}

pub open spec fn std_uint(s: Seq<u8>, max: nat) -> Option<nat> {
    let d = strip_plus(s);
    if d.len() > 0 && (forall|k: int| 0 <= k < d.len() ==> is_digit(#[trigger] d[k]))
        && digits_value(d) <= max {
        Some(digits_value(d))
    } else {
        None
    }
}

/// A digit string's value is at least that of any prefix.
pub proof fn lemma_digits_value_prefix(s: Seq<u8>, k: int)
    requires
        0 <= k <= s.len(),
        forall|j: int| 0 <= j < s.len() ==> is_digit(#[trigger] s[j]),
    ensures
        digits_value(s) >= digits_value(s.take(k)),
    decreases s.len() - k,
{
    if k == s.len() {
        assert(s.take(k) =~= s);
    } else {
        lemma_digits_value_prefix(s, k + 1);
        assert(s.take(k + 1).drop_last() =~= s.take(k));
        assert(digits_value(s.take(k + 1)) == digits_value(s.take(k)) * 10 + (s.take(k + 1).last()
            - 0x30) as nat);
    }
}

/// `s` parsed as an unsigned decimal the way `from_str` does it, with
/// maximum `max`.
pub fn parse_uint_std(s: &[u8], max: u64) -> (r: Option<u64>)
    ensures
        match r {
            Some(v) => std_uint(s@, max as nat) == Some(v as nat),
            None => std_uint(s@, max as nat) is None,
        },
{
    let start: usize = if s.len() > 0 && s[0] == 0x2B { 1 } else { 0 };
    let ghost d = strip_plus(s@);
    assert(d =~= s@.skip(start as int));
    if start >= s.len() {
        return None;
    }
    let mut v: u64 = 0;
    let mut i: usize = start;
    while i < s.len()
        invariant
            start <= i <= s@.len(),
            d =~= s@.skip(start as int),
            d == strip_plus(s@),
            forall|k: int| start <= k < i ==> is_digit(#[trigger] s@[k]),
            v as nat == digits_value(s@.subrange(start as int, i as int)),
            v <= max,
        decreases s@.len() - i,
    {
        let c: u8 = s[i];
        if !(0x30 <= c && c <= 0x39) {
            assert(!is_digit(d[(i - start) as int]));
            assert(!(forall|k: int| 0 <= k < d.len() ==> is_digit(#[trigger] d[k])));
            assert(std_uint(s@, max as nat) is None);
            return None;
        }
        let dg: u64 = (c - 0x30) as u64;
        assert(s@.subrange(start as int, i + 1).drop_last() =~= s@.subrange(start as int, i as int));
        if dg > max || v > (max - dg) / 10 {
            proof {
                if dg <= max {
                    assert(v * 10 + dg > max) by (nonlinear_arith)
                        requires
                            v > (max - dg) / 10,
                            dg <= max,
                    ;
                }
                let t = s@.subrange(start as int, i + 1);
                if forall|k: int| 0 <= k < d.len() ==> is_digit(#[trigger] d[k]) {
                    lemma_digits_value_prefix(d, (i + 1 - start) as int);
                    assert(d.take((i + 1 - start) as int) =~= t);
                    assert(digits_value(t) == v * 10 + dg);
                    assert(digits_value(d) > max);
                }
                assert(std_uint(s@, max as nat) is None);
            }
            return None;
        }
        assert(v * 10 + dg <= max) by (nonlinear_arith)
            requires
                v <= (max - dg) / 10,
                dg <= max,
        ;
        v = v * 10 + dg;
        i = i + 1;
    }
    assert(s@.subrange(start as int, s@.len() as int) =~= d);
    Some(v)
}

/// Position of the first occurrence of `n` in `h`.
pub closed spec fn first_occ(h: Seq<u8>, n: Seq<u8>) -> Option<int> {
    if seq_contains_sub(h, n) {
        Some(
            choose|i: int| occurs_at(h, n, i) && forall|k: int| 0 <= k < i ==> !occurs_at(h, n, k),
        )
    } else {
        None
    }
}

/// Position of the last occurrence of `n` in `h`.
pub closed spec fn last_occ(h: Seq<u8>, n: Seq<u8>) -> Option<int> {
    if seq_contains_sub(h, n) {
        Some(choose|i: int| occurs_at(h, n, i) && forall|k: int| i < k ==> !occurs_at(h, n, k))
    } else {
        None
    }
}

/// Position of the first occurrence of `n` in `h` (like `str::find`).
pub fn find_first(h: &[u8], n: &[u8]) -> (r: Option<usize>)
    ensures
        match r {
            Some(i) => first_occ(h@, n@) == Some(i as int) && occurs_at(h@, n@, i as int),
            None => first_occ(h@, n@) is None,
        },
{
    let r = find_sub(h, n);
    match r {
        Some(i) => {
            proof {
                assert(occurs_at(h@, n@, i as int));
                let j = choose|j: int|
                    occurs_at(h@, n@, j) && forall|k: int| 0 <= k < j ==> !occurs_at(h@, n@, k);
                assert(occurs_at(h@, n@, j) && forall|k: int| 0 <= k < j ==> !occurs_at(h@, n@, k));
                if j < i {
                    assert(!occurs_at(h@, n@, j));
                }
                if i < j {
                    assert(!occurs_at(h@, n@, i as int));
                }
            }
            Some(i)
        },
        None => None,
    }
}

/// Position of the last occurrence of `n` in `h` (like `str::rfind`).
pub fn find_last(h: &[u8], n: &[u8]) -> (r: Option<usize>)
    ensures
        match r {
            Some(i) => last_occ(h@, n@) == Some(i as int) && occurs_at(h@, n@, i as int),
            None => last_occ(h@, n@) is None,
        },
{
    let r = rfind_sub(h, n);
    match r {
        Some(i) => {
            proof {
                assert(occurs_at(h@, n@, i as int));
                let j = choose|j: int|
                    occurs_at(h@, n@, j) && forall|k: int| j < k ==> !occurs_at(h@, n@, k);
                assert(occurs_at(h@, n@, j) && forall|k: int| j < k ==> !occurs_at(h@, n@, k));
                if j < i {
                    assert(!occurs_at(h@, n@, i as int));
                }
                if i < j {
                    assert(!occurs_at(h@, n@, j));
                }
            }
            Some(i)
        },
        None => None,
    }
}

} // verus!
