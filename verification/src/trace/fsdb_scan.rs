//! The decisions of an FSDB value scan: which signals it visits, what each
//! event of the reader's merged stream does to the collected state, and
//! the time line the chunks' times make. The reader itself (a vendor
//! library loaded at run time) stays outside.
use vstd::prelude::*;
use crate::trace::fsdb::{lists_view, merge_time_sets, strictly_ascending, union_all};
use crate::trace::trace::{leaf_of, leaf_slice, FindCondition, ScalarValue, ScalarView};
use crate::trace::column::{cond_matches, defined_of, find_cond_matches, opt_view, same_of, sv_is_defined, sv_same};
use crate::text::string_bytes;
use vstd::utf8::encode_utf8;

verus! {

/// Insert `x` into a strictly ascending list unless it is there.
fn insert_unique(v: &mut Vec<u64>, x: u64)
    requires
        strictly_ascending(old(v)@),
    ensures
        strictly_ascending(final(v)@),
        final(v)@.to_set() == old(v)@.to_set().insert(x),
{
    let ghost s0 = v@;
    let mut i: usize = 0;
    while i < v.len() && v[i] < x
        invariant
            i <= v@.len(),
            v@ == s0,
            strictly_ascending(s0),
            forall|k: int| 0 <= k < i ==> s0[k] < x,
        decreases v@.len() - i,
    {
        i = i + 1;
    }
    if i < v.len() && v[i] == x {
        assert(v@ == s0);
        assert(s0[i as int] == x);
        assert(s0.to_set().contains(x));
        assert(v@.to_set() =~= s0.to_set());
        assert(s0.to_set().insert(x) =~= s0.to_set());
        return;
    }
    v.insert(i, x);
    proof {
        assert(v@ == s0.take(i as int).push(x) + s0.skip(i as int));
        assert(v@.to_set() =~= s0.to_set().insert(x)) by {
            assert forall|y: u64| #[trigger] v@.to_set().contains(y) == s0.to_set().insert(x).contains(y) by {
                if v@.contains(y) {
                    let k = choose|k: int| 0 <= k < v@.len() && v@[k] == y;
                    if k < i {
                        assert(s0[k] == y);
                    } else if k > i {
                        assert(s0[k - 1] == y);
                    }
                }
                if s0.contains(y) {
                    let k = choose|k: int| 0 <= k < s0.len() && s0[k] == y;
                    if k < i {
                        assert(v@[k] == y);
                    } else {
                        assert(v@[k + 1] == y);
                    }
                }
                if y == x {
                    assert(v@[i as int] == x);
                }
            }
        }
    }
}

/// Strictly ascending indices.
pub open spec fn strictly_ascending_u(s: Seq<usize>) -> bool {
    forall|i: int, j: int| 0 <= i < j < s.len() ==> s[i] < s[j]
}

/// The signals a scan visits: every one of the `n` for a time line scan,
/// else the wanted ones, ascending and each once.
pub fn scan_targets(n: usize, want: &[usize], want_timeline: bool) -> (r: Vec<usize>)
    ensures
        strictly_ascending_u(r@),
        want_timeline ==> r@ == Seq::new(n as nat, |i: int| i as usize),
        !want_timeline ==> r@.to_set() == want@.to_set(),
{
    let mut out: Vec<usize> = Vec::new();
    if want_timeline {
        let mut i: usize = 0;
        while i < n
            invariant
                i <= n,
                out@ == Seq::new(i as nat, |k: int| k as usize),
            decreases n - i,
        {
            out.push(i);
            assert(out@ =~= Seq::new((i + 1) as nat, |k: int| k as usize));
            i = i + 1;
        }
        return out;
    }
    let mut sorted: Vec<u64> = Vec::new();
    let mut k: usize = 0;
    while k < want.len()
        invariant
            k <= want@.len(),
            strictly_ascending(sorted@),
            forall|y: u64| sorted@.contains(y) <==> exists|j: int| 0 <= j < k && want@[j] as u64 == y,
        decreases want@.len() - k,
    {
        let ghost before = sorted@;
        insert_unique(&mut sorted, want[k] as u64);
        proof {
            assert forall|y: u64| sorted@.contains(y) <==> exists|j: int| 0 <= j < k + 1 && want@[j] as u64 == y by {
                assert(before.to_set().insert(want@[k as int] as u64).contains(y) == sorted@.to_set().contains(y));
                if exists|j: int| 0 <= j < k + 1 && want@[j] as u64 == y {
                    let j = choose|j: int| 0 <= j < k + 1 && want@[j] as u64 == y;
                    if j < k {
                        assert(before.contains(y));
                    }
                }
            }
        }
        k = k + 1;
    }
    let mut i: usize = 0;
    while i < sorted.len()
        invariant
            i <= sorted@.len(),
            out@.len() == i,
            forall|m: int| 0 <= m < i ==> out@[m] as u64 == sorted@[m],
            forall|y: u64| sorted@.contains(y) <==> exists|j: int| 0 <= j < want@.len() && want@[j] as u64 == y,
        decreases sorted@.len() - i,
    {
        let y = sorted[i];
        out.push(y as usize);
        proof {
            assert(sorted@.contains(y));
            let j = choose|j: int| 0 <= j < want@.len() && want@[j] as u64 == y;
            assert(out@[i as int] == want@[j]);
        }
        i = i + 1;
    }
    proof {
        assert forall|a: int, b: int| 0 <= a < b < out@.len() implies out@[a] < out@[b] by {
            assert(sorted@[a] < sorted@[b]);
        }
        assert forall|x: usize| out@.contains(x) <==> want@.contains(x) by {
            if out@.contains(x) {
                let m = choose|m: int| 0 <= m < out@.len() && out@[m] == x;
                assert(sorted@.contains(sorted@[m]));
                let j = choose|j: int| 0 <= j < want@.len() && want@[j] as u64 == sorted@[m];
                assert(want@[j] == x);
            }
            if want@.contains(x) {
                let j = choose|j: int| 0 <= j < want@.len() && want@[j] == x;
                assert(sorted@.contains(x as u64));
                let m = choose|m: int| 0 <= m < sorted@.len() && sorted@[m] == x as u64;
                assert(out@[m] == x);
            }
        }
        assert(out@.to_set() =~= want@.to_set());
    }
    out
}

/// What a scan has collected: the current chunk's times, each signal's
/// value at time 0 (the first one seen), and each signal's (time, value)
/// changes after time 0.
pub struct ScanChunkState {
    pub times: Vec<u64>,
    pub inits: Vec<Option<ScalarValue>>,
    pub raw: Vec<Vec<(u64, ScalarValue)>>,
}

/// The view of a scan state.
pub struct ScanView {
    pub times: Seq<u64>,
    pub inits: Seq<Option<ScalarView>>,
    pub raw: Seq<Seq<(u64, ScalarView)>>,
}

pub open spec fn opt_scalar(o: Option<ScalarValue>) -> Option<ScalarView> {
    match o {
        Some(v) => Some(v@),
        None => None,
    }
}

impl View for ScanChunkState {
    type V = ScanView;

    open spec fn view(&self) -> ScanView {
        ScanView {
            times: self.times@,
            inits: self.inits@.map_values(|o: Option<ScalarValue>| opt_scalar(o)),
            raw: self.raw@.map_values(|l: Vec<(u64, ScalarValue)>| l@.map_values(|p: (u64, ScalarValue)| (p.0, p.1@))),
        }
    }
}

impl ScanChunkState {
    /// Nothing collected yet, for `n` signals.
    pub fn new(n: usize) -> (r: ScanChunkState)
        ensures
            r@.times.len() == 0,
            r@.inits == Seq::new(n as nat, |i: int| None::<ScalarView>),
            r@.raw == Seq::new(n as nat, |i: int| Seq::<(u64, ScalarView)>::empty()),
    {
        let mut inits: Vec<Option<ScalarValue>> = Vec::new();
        let mut raw: Vec<Vec<(u64, ScalarValue)>> = Vec::new();
        let mut i: usize = 0;
        while i < n
            invariant
                i <= n,
                inits@.len() == i,
                raw@.len() == i,
                forall|k: int| 0 <= k < i ==> (#[trigger] inits@[k]) is None,
                forall|k: int| 0 <= k < i ==> (#[trigger] raw@[k])@.len() == 0,
            decreases n - i,
        {
            inits.push(None);
            raw.push(Vec::new());
            i = i + 1;
        }
        let r = ScanChunkState { times: Vec::new(), inits, raw };
        assert(r@.inits =~= Seq::new(n as nat, |i: int| None::<ScalarView>));
        assert(r@.raw =~= Seq::new(n as nat, |i: int| Seq::<(u64, ScalarView)>::empty())) by {
            assert forall|k: int| 0 <= k < n implies r@.raw[k] =~= Seq::<(u64, ScalarView)>::empty() by {
                assert(r.raw@[k]@.len() == 0);
            }
        }
        r
    }

    /// Start the next chunk: its times begin empty; returns the last chunk's.
    pub fn take_times(&mut self) -> (t: Vec<u64>)
        ensures
            t@ == old(self)@.times,
            final(self)@ == (ScanView { times: Seq::empty(), ..old(self)@ }),
    {
        let mut t: Vec<u64> = Vec::new();
        std::mem::swap(&mut t, &mut self.times);
        assert(self@.times =~= Seq::<u64>::empty());
        t
    }
}

/// One event of the reader's stream, at time `t`, for the signal `idx`
/// (`None`: a handle the scan did not ask for, skipped). At time 0 a wanted
/// signal's first value is kept; later, a time line scan records the time
/// unless it repeats the chunk's last, and a wanted signal's change is
/// appended. `v` is the value read, when the signal is wanted.
pub open spec fn scan_step(
    st: ScanView,
    t: u64,
    idx: Option<usize>,
    wanted: bool,
    want_timeline: bool,
    v: Option<ScalarView>,
) -> ScanView {
    match idx {
        None => st,
        Some(i) => if t == 0 {
            if wanted && v is Some && st.inits[i as int] is None {
                ScanView { inits: st.inits.update(i as int, v), ..st }
            } else {
                st
            }
        } else {
            let times = if want_timeline && !(st.times.len() > 0 && st.times.last() == t) {
                st.times.push(t)
            } else {
                st.times
            };
            let raw = if wanted && v is Some {
                st.raw.update(i as int, st.raw[i as int].push((t, v.unwrap())))
            } else {
                st.raw
            };
            ScanView { times, raw, ..st }
        },
    }
}

/// Apply one event of the stream (see `scan_step`).
pub fn scan_event(
    st: &mut ScanChunkState,
    t: u64,
    idx: Option<usize>,
    wanted: bool,
    want_timeline: bool,
    v: Option<ScalarValue>,
)
    requires
        idx matches Some(i) ==> i < old(st).inits@.len() && i < old(st).raw@.len(),
    ensures
        final(st)@ == scan_step(old(st)@, t, idx, wanted, want_timeline, opt_scalar(v)),
{
    let i = match idx {
        None => {
            return;
        },
        Some(i) => i,
    };
    let ghost s0 = st@;
    if t == 0 {
        if wanted && v.is_some() && st.inits[i].is_none() {
            st.inits.set(i, v);
            assert(st@.inits =~= s0.inits.update(i as int, opt_scalar(v)));
        }
        return;
    }
    let n = st.times.len();
    if want_timeline && !(n > 0 && st.times[n - 1] == t) {
        st.times.push(t);
    }
    if wanted {
        match v {
            Some(val) => {
                let ghost vv = val@;
                let ghost raw0 = st.raw@;
                st.raw[i].push((t, val));
                proof {
                    assert(st.raw@[i as int]@ == raw0[i as int]@.push((t, val)));
                    assert(st.raw@[i as int]@.map_values(|p: (u64, ScalarValue)| (p.0, p.1@)) =~= raw0[i as int]@.map_values(
                        |p: (u64, ScalarValue)| (p.0, p.1@),
                    ).push((t, vv)));
                    assert forall|k: int| 0 <= k < st.raw@.len() && k != i implies st.raw@[k] == raw0[k] by {}
                    assert(st@.raw =~= s0.raw.update(i as int, s0.raw[i as int].push((t, vv))));
                }
            },
            None => {},
        }
    }
}

/// A time line scan's event at time `t`, when no value is wanted: a time
/// after 0 is recorded unless it repeats the last one recorded (none
/// recorded counts as `u64::MAX`).
pub open spec fn timeline_step(times: Seq<u64>, t: u64) -> Seq<u64> {
    let last = if times.len() > 0 { times.last() } else { u64::MAX };
    if t > 0 && t != last { times.push(t) } else { times }
}

/// Apply a time line scan's event (see `timeline_step`).
pub fn timeline_event(times: &mut Vec<u64>, t: u64)
    ensures
        final(times)@ == timeline_step(old(times)@, t),
{
    let n = times.len();
    let last: u64 = if n > 0 { times[n - 1] } else { u64::MAX };
    if t > 0 && t != last {
        times.push(t);
    }
}

fn ascending_exec(v: &Vec<u64>) -> (r: bool)
    ensures
        r == strictly_ascending(v@),
{
    let mut i: usize = 1;
    if v.len() == 0 {
        return true;
    }
    while i < v.len()
        invariant
            1 <= i <= v@.len(),
            forall|a: int, b: int| 0 <= a < b < i ==> v@[a] < v@[b],
        decreases v@.len() - i,
    {
        if v[i - 1] >= v[i] {
            return false;
        }
        i = i + 1;
    }
    true
}

/// The scan's time line: every chunk's times, ascending and each once.
pub fn finish_timeline(parts: Vec<Vec<u64>>) -> (r: Vec<u64>)
    ensures
        strictly_ascending(r@),
        r@.to_set() == union_all(lists_view(parts@)),
{
    let ghost goal = union_all(lists_view(parts@));
    let mut fixed: Vec<Vec<u64>> = Vec::new();
    let mut k: usize = 0;
    while k < parts.len()
        invariant
            k <= parts@.len(),
            fixed@.len() == k,
            forall|m: int| 0 <= m < k ==> strictly_ascending(#[trigger] fixed@[m]@),
            forall|m: int| 0 <= m < k ==> (#[trigger] fixed@[m])@.to_set() == parts@[m]@.to_set(),
        decreases parts@.len() - k,
    {
        let p = &parts[k];
        if ascending_exec(p) {
            fixed.push(vstd::slice::slice_to_vec(p.as_slice()));
        } else {
            let mut s: Vec<u64> = Vec::new();
            let mut j: usize = 0;
            assert(s@.to_set() =~= p@.take(0).to_set());
            while j < p.len()
                invariant
                    j <= p@.len(),
                    strictly_ascending(s@),
                    s@.to_set() == p@.take(j as int).to_set(),
                decreases p@.len() - j,
            {
                insert_unique(&mut s, p[j]);
                assert(p@.take(j + 1) =~= p@.take(j as int).push(p@[j as int]));
                proof {
                    p@.take(j as int).lemma_push_to_set_commute(p@[j as int]);
                }
                j = j + 1;
            }
            assert(p@.take(j as int) =~= p@);
            fixed.push(s);
        }
        k = k + 1;
    }
    proof {
        lemma_union_same(lists_view(fixed@), lists_view(parts@));
    }
    merge_time_sets(fixed)
}

proof fn lemma_union_same(a: Seq<Seq<u64>>, b: Seq<Seq<u64>>)
    requires
        a.len() == b.len(),
        forall|m: int| 0 <= m < a.len() ==> (#[trigger] a[m]).to_set() == b[m].to_set(),
    ensures
        union_all(a) == union_all(b),
    decreases a.len(),
{
    if a.len() > 0 {
        lemma_union_same(a.drop_last(), b.drop_last());
        assert(a.last().to_set() == b.last().to_set());
    }
}


/// A signal of an FSDB file: its leaf name, full name and width.
pub struct FsdbSig {
    pub leaf: Vec<u8>,
    pub full: String,
    pub width: usize,
}

/// The signal table of an FSDB file from its full names and widths (as the
/// name tree or its cache gives them): each signal's leaf is what follows
/// its name's last '.', and its width is 1 where the widths run out.
pub fn fsdb_sig_table(names: &Vec<String>, widths: &Vec<usize>) -> (r: Vec<FsdbSig>)
    ensures
        r@.len() == names@.len(),
        forall|i: int| 0 <= i < r@.len() ==> (#[trigger] r@[i]).full@ == names@[i]@ && r@[i].leaf@ == leaf_of(
            encode_utf8(names@[i]@),
        ) && r@[i].width == (if i < widths@.len() { widths@[i] } else { 1 }),
{
    let mut out: Vec<FsdbSig> = Vec::new();
    let mut i: usize = 0;
    while i < names.len()
        invariant
            i <= names@.len(),
            out@.len() == i,
            forall|k: int| 0 <= k < i ==> (#[trigger] out@[k]).full@ == names@[k]@ && out@[k].leaf@ == leaf_of(
                encode_utf8(names@[k]@),
            ) && out@[k].width == (if k < widths@.len() { widths@[k] } else { 1 }),
        decreases names@.len() - i,
    {
        let full_bytes = string_bytes(&names[i]);
        let leaf = vstd::slice::slice_to_vec(leaf_slice(full_bytes.as_slice()));
        let width: usize = if i < widths.len() { widths[i] } else { 1 };
        let full: String = names[i].as_str().to_owned();
        out.push(FsdbSig { leaf, full, width });
        i = i + 1;
    }
    out
}


/// A signal's scanned (time, value) list with writes at one time collapsed,
/// the last one winning.
pub open spec fn collapse_times(list: Seq<(u64, ScalarView)>) -> Seq<(u64, ScalarView)>
    decreases list.len(),
{
    if list.len() == 0 {
        Seq::empty()
    } else {
        let prev = collapse_times(list.drop_last());
        let (t, v) = list.last();
        if prev.len() > 0 && prev.last().0 == t {
            prev.update(prev.len() - 1, (t, v))
        } else {
            prev.push((t, v))
        }
    }
}

/// The change points of a collapsed list: a value that is the same state
/// as the one before it (or as the initial value, for the first) is no
/// change.
pub open spec fn drop_repeats(list: Seq<(u64, ScalarView)>, init: Option<ScalarView>) -> Seq<(u64, ScalarView)>
    decreases list.len(),
{
    if list.len() == 0 {
        Seq::empty()
    } else {
        let prev = drop_repeats(list.drop_last(), init);
        let (t, v) = list.last();
        let before = if prev.len() > 0 { Some(prev.last().1) } else { init };
        if before matches Some(p) && same_of(p, v) {
            prev
        } else {
            prev.push((t, v))
        }
    }
}

pub open spec fn points_of(list: Seq<(u64, ScalarValue)>) -> Seq<(u64, ScalarView)> {
    list.map_values(|p: (u64, ScalarValue)| (p.0, p.1@))
}

fn copy_scalar(v: &ScalarValue) -> (r: ScalarValue)
    ensures
        r@ == v@,
{
    match v {
        ScalarValue::Bit(b) => ScalarValue::Bit(*b),
        ScalarValue::Vector(x) => ScalarValue::Vector(vstd::slice::slice_to_vec(x.as_slice())),
        ScalarValue::Real(r) => ScalarValue::Real(*r),
    }
}

/// A signal's change column from its scanned (time, value) list: writes at
/// one time collapse to the last (see `collapse_times`), then values that
/// do not change the state are dropped (see `drop_repeats`).
pub fn scan_column(list: &Vec<(u64, ScalarValue)>, init: Option<&ScalarValue>) -> (r: Vec<(u64, ScalarValue)>)
    ensures
        points_of(r@) == drop_repeats(collapse_times(points_of(list@)), opt_scalar_ref(init)),
{
    let ghost pl = points_of(list@);
    let mut collapsed: Vec<(u64, ScalarValue)> = Vec::new();
    let mut i: usize = 0;
    while i < list.len()
        invariant
            i <= list@.len(),
            pl == points_of(list@),
            points_of(collapsed@) == collapse_times(pl.take(i as int)),
        decreases list@.len() - i,
    {
        let t = list[i].0;
        let v = copy_scalar(&list[i].1);
        let ghost before = points_of(collapsed@);
        let n = collapsed.len();
        assert(pl.take(i + 1).drop_last() =~= pl.take(i as int));
        assert(pl.take(i + 1).last() == (t, v@));
        if n > 0 && collapsed[n - 1].0 == t {
            collapsed.set(n - 1, (t, v));
            assert(points_of(collapsed@) =~= before.update(n - 1, (t, v@)));
        } else {
            collapsed.push((t, v));
            assert(points_of(collapsed@) =~= before.push((t, v@)));
        }
        i = i + 1;
    }
    assert(pl.take(i as int) =~= pl);
    let ghost cl = points_of(collapsed@);
    let mut out: Vec<(u64, ScalarValue)> = Vec::new();
    let mut k: usize = 0;
    while k < collapsed.len()
        invariant
            k <= collapsed@.len(),
            cl == points_of(collapsed@),
            points_of(out@) == drop_repeats(cl.take(k as int), opt_scalar_ref(init)),
        decreases collapsed@.len() - k,
    {
        let t = collapsed[k].0;
        let v = &collapsed[k].1;
        let ghost before = points_of(out@);
        assert(cl.take(k + 1).drop_last() =~= cl.take(k as int));
        assert(cl.take(k + 1).last() == (t, v@));
        let n = out.len();
        let same = if n > 0 {
            sv_same(&out[n - 1].1, v)
        } else {
            match init {
                Some(p) => sv_same(p, v),
                None => false,
            }
        };
        if !same {
            out.push((t, copy_scalar(v)));
            assert(points_of(out@) =~= before.push((t, v@)));
        }
        k = k + 1;
    }
    assert(cl.take(k as int) =~= cl);
    out
}

pub open spec fn opt_scalar_ref(o: Option<&ScalarValue>) -> Option<ScalarView> {
    match o {
        Some(v) => Some(v@),
        None => None,
    }
}

// ---------------------------------------------------------------------------
// Counting edge matches over a change column
// ---------------------------------------------------------------------------

/// What stands before the first change when counting an edge condition:
/// the value at time zero, or x when there is none. For `Changed`, when
/// there is no defined value at time zero and the first change writes a
/// defined value at the wave's earliest change time, that change has
/// nothing before it (index 0 has no predecessor).
pub open spec fn edge_prev0(
    pts: Seq<(u64, ScalarView)>,
    init: Option<ScalarView>,
    cond: FindCondition,
    global_first: Option<u64>,
) -> Option<ScalarView> {
    let init_defined = match init {
        Some(v) => defined_of(v),
        None => false,
    };
    if cond is Changed && !init_defined && pts.len() > 0 && defined_of(pts[0].1) && global_first
        == Some(pts[0].0) {
        None
    } else {
        Some(
            match init {
                Some(v) => v,
                None => ScalarView::Bit(0x78),
            },
        )
    }
}

/// How many changes of `pts` meet `cond`, each against the change before it
/// (the first against `prev0`).
pub open spec fn edge_count(pts: Seq<(u64, ScalarView)>, prev0: Option<ScalarView>, cond: FindCondition) -> nat
    decreases pts.len(),
{
    if pts.len() == 0 {
        0
    } else {
        let before = if pts.len() == 1 {
            prev0
        } else {
            Some(pts[pts.len() - 2].1)
        };
        edge_count(pts.drop_last(), prev0, cond) + if cond_matches(pts.last().1, before, cond) {
            1nat
        } else {
            0nat
        }
    }
}

/// The number of changes of a signal's change column `pts` (times and
/// values) that meet the edge condition `cond`, given its value at time
/// zero and the wave's earliest change time (see `edge_prev0`).
pub fn count_edge_matches(
    pts: &[(u64, ScalarValue)],
    init: Option<&ScalarValue>,
    cond: &FindCondition,
    global_first: Option<u64>,
) -> (r: usize)
    ensures
        r == edge_count(points_of(pts@), edge_prev0(points_of(pts@), opt_view(init), *cond, global_first), *cond),
{
    let ghost pv = points_of(pts@);
    let ghost p0 = edge_prev0(pv, opt_view(init), *cond, global_first);
    let init_defined = match init {
        Some(v) => sv_is_defined(v),
        None => false,
    };
    let is_changed = match cond {
        FindCondition::Changed => true,
        _ => false,
    };
    let no_pred = is_changed && !init_defined && pts.len() > 0 && sv_is_defined(&pts[0].1) && match global_first {
        Some(t) => t == pts[0].0,
        None => false,
    };
    let x_bit = ScalarValue::Bit(0x78);
    let start: Option<&ScalarValue> = if no_pred {
        None
    } else {
        match init {
            Some(v) => Some(v),
            None => Some(&x_bit),
        }
    };
    assert(opt_view(start) == p0);
    let mut n: usize = 0;
    let mut i: usize = 0;
    proof {
        assert(pv.take(0) =~= Seq::<(u64, ScalarView)>::empty());
    }
    while i < pts.len()
        invariant
            i <= pts@.len(),
            pv == points_of(pts@),
            pv.len() == pts@.len(),
            opt_view(start) == p0,
            n == edge_count(pv.take(i as int), p0, *cond),
            n <= i,
        decreases pts@.len() - i,
    {
        let m = if i == 0 {
            find_cond_matches(&pts[i].1, start, cond)
        } else {
            find_cond_matches(&pts[i].1, Some(&pts[i - 1].1), cond)
        };
        proof {
            let t = pv.take(i + 1);
            assert(t.drop_last() =~= pv.take(i as int));
            assert(t.last() == pv[i as int]);
            if i > 0 {
                assert(t[t.len() - 2] == pv[i - 1]);
            }
        }
        if m {
            n = n + 1;
        }
        i = i + 1;
    }
    assert(pv.take(i as int) =~= pv);
    n
}

} // verus!
