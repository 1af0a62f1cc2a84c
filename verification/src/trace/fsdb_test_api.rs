//! The FSDB cache codecs with plain arguments, as the tests exercise them.
use vstd::prelude::*;

use crate::trace::fsdb::{
    decode_timeline, decode_tree as raw_decode_tree, encode_timeline,
    encode_tree as raw_encode_tree, is_ascending, rr_slice, str_views, timeline_bytes,
    timeline_decode, tree_bytes, tree_decode, TreeSnapshot,
};

verus! {

/// Encode a timeline (ascending time points).
pub fn encode(times: &[u64], first_change: Option<u64>) -> (r: Vec<u8>)
    requires
        is_ascending(times@),
    ensures
        r@ == timeline_bytes(times@, first_change),
{
    encode_timeline(times, first_change)
}

/// Decode a timeline; `None` when the fingerprint differs or the blob is
/// damaged.
pub fn decode(buf: &[u8], expect_fp: u64) -> (r: Option<(Vec<u64>, Option<u64>)>)
    ensures
        match r {
            Some((v, fc)) => timeline_decode(buf@, expect_fp) == Some((v@, fc)),
            None => timeline_decode(buf@, expect_fp) is None,
        },
{
    decode_timeline(buf, expect_fp)
}

/// The signal indices worker `offset` of `stride` handles.
pub fn round_robin_slice(n: usize, offset: usize, stride: usize) -> (r: Vec<usize>)
    ensures
        r@.map_values(|x: usize| x as nat) == rr_slice(n as nat, offset as nat, stride as nat),
{
    crate::trace::fsdb::round_robin_slice(n, offset, stride)
}

/// A copy of a list of strings.
fn copy_strings(v: &[String]) -> (r: Vec<String>)
    ensures
        str_views(r@) == v@.map_values(|s: String| s@),
{
    let mut out: Vec<String> = Vec::new();
    let mut i: usize = 0;
    while i < v.len()
        invariant
            i <= v@.len(),
            out@.len() == i,
            forall|j: int| 0 <= j < i ==> out@[j]@ == v@[j]@,
        decreases v@.len() - i,
    {
        out.push(v[i].clone());
        i = i + 1;
    }
    assert(str_views(out@) =~= v@.map_values(|s: String| s@));
    out
}

/// A copy of a list of widths.
fn copy_widths(v: &[usize]) -> (r: Vec<usize>)
    ensures
        r@ == v@,
{
    vstd::slice::slice_to_vec(v)
}

/// Encode a name tree: names with their widths, and the scopes.
pub fn encode_tree(names: &[String], widths: &[usize], scopes: &[String]) -> (r: Vec<u8>)
    ensures
        r@ == tree_bytes(
            names@.map_values(|s: String| s@),
            widths@,
            scopes@.map_values(|s: String| s@),
        ),
{
    let t = TreeSnapshot {
        names: copy_strings(names),
        widths: copy_widths(widths),
        scopes: copy_strings(scopes),
    };
    raw_encode_tree(&t)
}

/// Decode a name tree into (names, widths, scopes); `None` when the
/// fingerprint differs or the blob is damaged.
pub fn decode_tree(buf: &[u8], expect_fp: u64) -> (r: Option<(Vec<String>, Vec<usize>, Vec<String>)>)
    ensures
        match r {
            Some((n, w, s)) => tree_decode(buf@, expect_fp) == Some(
                (str_views(n@), w@, str_views(s@)),
            ),
            None => tree_decode(buf@, expect_fp) is None,
        },
{
    match raw_decode_tree(buf, expect_fp) {
        Some(t) => Some((t.names, t.widths, t.scopes)),
        None => None,
    }
}

} // verus!
