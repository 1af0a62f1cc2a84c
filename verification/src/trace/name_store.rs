//! Name storage for waveform back ends: all names in one contiguous byte
//! arena, and an open-addressing index from 64-bit hashes to name indices.
//!
//! One `String` per signal costs far more than the names themselves on
//! designs with millions of signals; the arena keeps one `(offset, length)`
//! per name, and the index keeps one hash and one slot per entry.
use vstd::arithmetic::power2::pow2;
use vstd::prelude::*;
use vstd::string::StringSliceAdditionalSpecFns;
use vstd::utf8::{decode_utf8, encode_utf8, valid_utf8};

use crate::bytes::append_bytes;
use crate::text::str_from_utf8;

verus! {

// ---------------------------------------------------------------------------
// Arena
// ---------------------------------------------------------------------------

/// Name arena: the names' bytes one after another, and each name's
/// `(offset, length)`.
pub struct NameArena {
    blob: Vec<u8>,
    spans: Vec<(u32, u32)>,
}

/// The bytes of the span `sp` of `blob`.
pub open spec fn span_bytes(blob: Seq<u8>, sp: (u32, u32)) -> Seq<u8> {
    blob.subrange(sp.0 as int, sp.0 + sp.1)
}

impl NameArena {
    /// Every span lies in the arena and holds valid UTF-8; the arena fits
    /// `u32` offsets.
    pub closed spec fn wf(&self) -> bool {
        &&& self.blob@.len() <= u32::MAX
        &&& self.spans@.len() <= u32::MAX
        &&& forall|i: int|
            0 <= i < self.spans@.len() ==> (#[trigger] self.spans@[i]).0 + self.spans@[i].1
                <= self.blob@.len() && valid_utf8(span_bytes(self.blob@, self.spans@[i]))
    }

    /// All the names' bytes.
    pub closed spec fn blob_bytes(&self) -> Seq<u8> {
        self.blob@
    }

    /// The `(offset, length)` of name `i`.
    pub closed spec fn span_of(&self, i: int) -> (u32, u32) {
        self.spans@[i]
    }
}

impl View for NameArena {
    type V = Seq<Seq<char>>;

    /// The names, in the order they were pushed.
    closed spec fn view(&self) -> Seq<Seq<char>> {
        Seq::new(self.spans@.len(), |i: int| decode_utf8(span_bytes(self.blob@, self.spans@[i])))
    }
}

impl NameArena {
    /// An empty arena, with room reserved for `names` names of `bytes` bytes.
    pub fn with_capacity(names: usize, bytes: usize) -> (a: NameArena)
        ensures
            a.wf(),
            a@ == Seq::<Seq<char>>::empty(),
            a.blob_bytes() == Seq::<u8>::empty(),
    {
        let a = NameArena { blob: Vec::with_capacity(bytes), spans: Vec::with_capacity(names) };
        assert(a@ =~= Seq::<Seq<char>>::empty());
        a
    }

    /// Append a name; returns its index.
    pub fn push(&mut self, s: &str) -> (r: u32)
        requires
            old(self).wf(),
            old(self).blob_bytes().len() + s.spec_bytes().len() <= u32::MAX,
            old(self)@.len() < u32::MAX,
        ensures
            final(self).wf(),
            final(self)@ == old(self)@.push(s@),
            r == old(self)@.len(),
            final(self).blob_bytes() == old(self).blob_bytes() + s.spec_bytes(),
    {
        let ghost old_blob = self.blob@;
        let ghost old_names = self@;
        let off = self.blob.len() as u32;
        let b: &[u8] = s.as_bytes();
        let blen = b.len() as u32;
        proof {
            vstd::utf8::encode_utf8_valid_utf8(s@);
            vstd::utf8::encode_utf8_decode_utf8(s@);
        }
        append_bytes(&mut self.blob, b);
        proof {
            assert forall|i: int| 0 <= i < self.spans@.len() implies span_bytes(
                self.blob@,
                #[trigger] self.spans@[i],
            ) == span_bytes(old_blob, self.spans@[i]) by {
                assert(span_bytes(self.blob@, self.spans@[i]) =~= span_bytes(
                    old_blob,
                    self.spans@[i],
                ));
            }
            assert(span_bytes(self.blob@, (off, blen)) =~= s.spec_bytes());
        }
        self.spans.push((off, blen));
        proof {
            assert(self@ =~= old_names.push(s@));
        }
        (self.spans.len() - 1) as u32
    }

    /// The `(offset, length)` of name `i`.
    pub fn span(&self, i: u32) -> (r: (u32, u32))
        requires
            self.wf(),
            i < self@.len(),
        ensures
            r == self.span_of(i as int),
            r.0 + r.1 <= self.blob_bytes().len(),
            span_bytes(self.blob_bytes(), r) == encode_utf8(self@[i as int]),
    {
        proof {
            vstd::utf8::decode_utf8_encode_utf8(span_bytes(self.blob@, self.spans@[i as int]));
        }
        self.spans[i as usize]
    }

    /// The arena's bytes from `off`, `len` of them; empty when they run past
    /// its end.
    pub fn bytes_at(&self, off: u32, len: u32) -> (r: &[u8])
        ensures
            off + len <= self.blob_bytes().len() ==> r@ == span_bytes(
                self.blob_bytes(),
                (off, len),
            ),
            off + len > self.blob_bytes().len() ==> r@ == Seq::<u8>::empty(),
    {
        let end: u64 = off as u64 + len as u64;
        if end <= self.blob.len() as u64 {
            vstd::slice::slice_subrange(self.blob.as_slice(), off as usize, end as usize)
        } else {
            let empty: &[u8] = &[];
            assert(empty@ =~= Seq::<u8>::empty());
            empty
        }
    }

    /// Name `i`.
    pub fn get(&self, i: u32) -> (r: &str)
        requires
            self.wf(),
            i < self@.len(),
        ensures
            r@ == self@[i as int],
    {
        let (off, len) = self.spans[i as usize];
        let a = off as usize;
        let b = (off + len) as usize;
        match str_from_utf8(vstd::slice::slice_subrange(self.blob.as_slice(), a, b)) {
            Some(s) => s,
            None => "",
        }
    }

    /// Name `i`, or `None` past the last name.
    pub fn get_opt(&self, i: u32) -> (r: Option<&str>)
        requires
            self.wf(),
        ensures
            i < self@.len() ==> (r matches Some(s) && s@ == self@[i as int]),
            i >= self@.len() ==> r is None,
    {
        if (i as usize) < self.spans.len() {
            Some(self.get(i))
        } else {
            None
        }
    }

    /// Number of names.
    pub fn len(&self) -> (r: usize)
        ensures
            r == self@.len(),
    {
        self.spans.len()
    }

    /// Bytes the names take (without their spans).
    pub fn blob_len(&self) -> (r: usize)
        ensures
            r == self.blob_bytes().len(),
    {
        self.blob.len()
    }
}

/// Reading back a pushed name gives it; the names before it stay.
pub proof fn lemma_arena_get_after_push(before: Seq<Seq<char>>, after: Seq<Seq<char>>, s: Seq<char>, i: int)
    requires
        after == before.push(s),
        0 <= i <= before.len(),
    ensures
        i == before.len() ==> after[i] == s,
        i < before.len() ==> after[i] == before[i],
        after.len() == before.len() + 1,
{
}


// ---------------------------------------------------------------------------
// Hashes
// ---------------------------------------------------------------------------

/// `a * b` modulo 2^64.
pub open spec fn wmul(a: u64, b: u64) -> u64 {
    ((a as nat * b as nat) % 0x1_0000_0000_0000_0000nat) as u64
}

/// The bit mixer that spreads a hash over its low bits (a slot's position
/// is taken from the low bits).
pub open spec fn mix64_spec(z: u64) -> u64 {
    let z1 = wmul(z ^ (z >> 30u64), 0xbf58_476d_1ce4_e5b9u64);
    let z2 = wmul(z1 ^ (z1 >> 27u64), 0x94d0_49bb_1331_11ebu64);
    z2 ^ (z2 >> 31u64)
}

/// Mix a 64-bit hash so that its low bits depend on all of it.
pub fn mix64(z: u64) -> (r: u64)
    ensures
        r == mix64_spec(z),
{
    let mut z = z;
    z = (z ^ (z >> 30u64)).wrapping_mul(0xbf58_476d_1ce4_e5b9u64);
    z = (z ^ (z >> 27u64)).wrapping_mul(0x94d0_49bb_1331_11ebu64);
    z ^ (z >> 31u64)
}

/// The FNV-1a hash of `b`.
pub open spec fn fnv1a_spec(b: Seq<u8>) -> u64
    decreases b.len(),
{
    if b.len() == 0 {
        0xcbf2_9ce4_8422_2325u64
    } else {
        wmul(fnv1a_spec(b.drop_last()) ^ (b.last() as u64), 0x100_0000_01b3u64)
    }
}

/// FNV-1a of a byte string.
pub fn fnv1a(bytes: &[u8]) -> (r: u64)
    ensures
        r == fnv1a_spec(bytes@),
{
    let mut h: u64 = 0xcbf2_9ce4_8422_2325;
    let mut i: usize = 0;
    while i < bytes.len()
        invariant
            i <= bytes@.len(),
            h == fnv1a_spec(bytes@.take(i as int)),
        decreases bytes@.len() - i,
    {
        proof {
            assert(bytes@.take(i + 1).drop_last() =~= bytes@.take(i as int));
        }
        h = h ^ (bytes[i] as u64);
        h = h.wrapping_mul(0x100_0000_01b3);
        i = i + 1;
    }
    assert(bytes@.take(i as int) =~= bytes@);
    h
}

// ---------------------------------------------------------------------------
// Open-addressing index
// ---------------------------------------------------------------------------

/// A table size: a power of two, at least 16.
pub open spec fn is_table_size(cap: int) -> bool {
    exists|k: nat| 4 <= k <= 58 && pow2(k) == cap
}

/// The slot where the probe for `h` starts.
pub open spec fn home(h: u64, cap: int) -> int {
    (mix64_spec(h) as int) % cap
}

/// How many probe steps lead from slot `a` to slot `b`.
pub open spec fn dist(a: int, b: int, cap: int) -> int {
    if b >= a {
        b - a
    } else {
        b - a + cap
    }
}

/// The slot `d` probe steps after slot `a` (`0 <= d < cap`).
pub open spec fn at_step(a: int, d: int, cap: int) -> int {
    if a + d < cap {
        a + d
    } else {
        a + d - cap
    }
}

/// Number of occupied (non-zero) slots.
pub open spec fn count_occ(s: Seq<u32>) -> nat
    decreases s.len(),
{
    if s.len() == 0 {
        0
    } else {
        count_occ(s.drop_last()) + if s.last() != 0 {
            1nat
        } else {
            0nat
        }
    }
}

/// Every occupied slot is reached from its key's home slot through occupied
/// slots only.
pub open spec fn probe_ok(keys: Seq<u64>, slots: Seq<u32>) -> bool {
    forall|i: int, d: int|
        #![trigger slots[i], at_step(home(keys[i], slots.len() as int), d, slots.len() as int)]
        0 <= i < slots.len() && slots[i] != 0 && 0 <= d < dist(
            home(keys[i], slots.len() as int),
            i,
            slots.len() as int,
        ) ==> slots[at_step(home(keys[i], slots.len() as int), d, slots.len() as int)] != 0
}

/// The `(hash, index)` entries a table holds: an occupied slot holds its
/// key and its slot value minus one.
pub open spec fn table_entries(keys: Seq<u64>, slots: Seq<u32>) -> Set<(u64, u32)> {
    Set::new(
        |e: (u64, u32)|
            exists|i: int|
                0 <= i < slots.len() && #[trigger] slots[i] != 0 && keys[i] == e.0 && slots[i] - 1
                    == e.1,
    )
}

/// The shape of a table: matching lengths, a power-of-two size with its
/// mask, at least one free slot, and every entry reachable by probing.
pub open spec fn table_ok(keys: Seq<u64>, slots: Seq<u32>, mask: int) -> bool {
    &&& keys.len() == slots.len()
    &&& is_table_size(slots.len() as int)
    &&& mask == slots.len() - 1
    &&& slots.len() * 64 <= usize::MAX + 1
    &&& count_occ(slots) < slots.len()
    &&& probe_ok(keys, slots)
}

proof fn lemma_count_le(s: Seq<u32>)
    ensures
        count_occ(s) <= s.len(),
    decreases s.len(),
{
    if s.len() > 0 {
        lemma_count_le(s.drop_last());
    }
}

proof fn lemma_count_free(s: Seq<u32>) -> (e: int)
    requires
        count_occ(s) < s.len(),
    ensures
        0 <= e < s.len(),
        s[e] == 0,
    decreases s.len(),
{
    if s.last() == 0 {
        (s.len() - 1) as int
    } else {
        lemma_count_le(s.drop_last());
        let e = lemma_count_free(s.drop_last());
        e
    }
}

proof fn lemma_count_update(s: Seq<u32>, i: int, v: u32)
    requires
        0 <= i < s.len(),
        s[i] == 0,
        v != 0,
    ensures
        count_occ(s.update(i, v)) == count_occ(s) + 1,
    decreases s.len(),
{
    let t = s.update(i, v);
    if i == s.len() - 1 {
        assert(t.drop_last() =~= s.drop_last());
    } else {
        assert(t.drop_last() =~= s.drop_last().update(i, v));
        lemma_count_update(s.drop_last(), i, v);
    }
}

proof fn lemma_count_zeros(s: Seq<u32>)
    requires
        forall|i: int| 0 <= i < s.len() ==> s[i] == 0,
    ensures
        count_occ(s) == 0,
    decreases s.len(),
{
    if s.len() > 0 {
        lemma_count_zeros(s.drop_last());
    }
}

proof fn lemma_count_prefix(s: Seq<u32>, p: int)
    requires
        0 <= p <= s.len(),
    ensures
        count_occ(s.take(p)) <= count_occ(s),
    decreases s.len() - p,
{
    if p == s.len() {
        assert(s.take(p) =~= s);
    } else {
        assert(s.take(p + 1).drop_last() =~= s.take(p));
        lemma_count_prefix(s, p + 1);
    }
}

/// Filling a free slot at the end of `h`'s probe path keeps every entry
/// reachable and adds the entry.
proof fn lemma_fill_slot(keys: Seq<u64>, slots: Seq<u32>, i: int, h: u64, v: u32)
    requires
        keys.len() == slots.len(),
        probe_ok(keys, slots),
        0 <= i < slots.len(),
        slots[i] == 0,
        v != 0,
        forall|d: int|
            0 <= d < dist(home(h, slots.len() as int), i, slots.len() as int) ==> slots[at_step(
                home(h, slots.len() as int),
                d,
                slots.len() as int,
            )] != 0,
    ensures
        probe_ok(keys.update(i, h), slots.update(i, v)),
        table_entries(keys.update(i, h), slots.update(i, v)) == table_entries(keys, slots).insert(
            (h, (v - 1) as u32),
        ),
        count_occ(slots.update(i, v)) == count_occ(slots) + 1,
{
    let n = slots.len() as int;
    let nk = keys.update(i, h);
    let ns = slots.update(i, v);
    assert forall|a: int, d: int|
        #![trigger ns[a], at_step(home(nk[a], ns.len() as int), d, ns.len() as int)]
        0 <= a < ns.len() && ns[a] != 0 && 0 <= d < dist(home(nk[a], ns.len() as int), a, ns.len() as int)
            implies ns[at_step(home(nk[a], ns.len() as int), d, ns.len() as int)] != 0 by {
        if a == i {
            let q = at_step(home(h, n), d, n);
            assert(slots[q] != 0);
        } else {
            assert(slots[a] != 0);
            assert(slots[at_step(home(keys[a], n), d, n)] != 0);
        }
    }
    let hv = (h, (v - 1) as u32);
    assert forall|e: (u64, u32)|
        table_entries(nk, ns).contains(e) == table_entries(keys, slots).insert(hv).contains(e) by {
        if table_entries(nk, ns).contains(e) {
            let q = choose|q: int|
                0 <= q < ns.len() && #[trigger] ns[q] != 0 && nk[q] == e.0 && ns[q] - 1 == e.1;
            if q != i {
                assert(slots[q] != 0 && keys[q] == e.0 && slots[q] - 1 == e.1);
            }
        }
        if table_entries(keys, slots).insert(hv).contains(e) {
            if e == hv {
                assert(ns[i] != 0 && nk[i] == e.0 && ns[i] - 1 == e.1);
            } else {
                let q = choose|q: int|
                    0 <= q < slots.len() && #[trigger] slots[q] != 0 && keys[q] == e.0 && slots[q] - 1
                        == e.1;
                assert(ns[q] != 0 && nk[q] == e.0 && ns[q] - 1 == e.1);
            }
        }
    }
    assert(table_entries(nk, ns) =~= table_entries(keys, slots).insert(hv));
    lemma_count_update(slots, i, v);
}

/// The entries and the count of a table's first `p + 1` slots, from those of
/// its first `p`.
proof fn lemma_prefix_step(keys: Seq<u64>, slots: Seq<u32>, p: int)
    requires
        keys.len() == slots.len(),
        0 <= p < slots.len(),
    ensures
        table_entries(keys.take(p + 1), slots.take(p + 1)) == (if slots[p] != 0 {
            table_entries(keys.take(p), slots.take(p)).insert((keys[p], (slots[p] - 1) as u32))
        } else {
            table_entries(keys.take(p), slots.take(p))
        }),
        count_occ(slots.take(p + 1)) == count_occ(slots.take(p)) + (if slots[p] != 0 {
            1nat
        } else {
            0nat
        }),
{
    let k1 = keys.take(p + 1);
    let s1 = slots.take(p + 1);
    let k0 = keys.take(p);
    let s0 = slots.take(p);
    assert(s1.drop_last() =~= s0);
    let goal = if slots[p] != 0 {
        table_entries(k0, s0).insert((keys[p], (slots[p] - 1) as u32))
    } else {
        table_entries(k0, s0)
    };
    assert forall|e: (u64, u32)| table_entries(k1, s1).contains(e) == goal.contains(e) by {
        if table_entries(k1, s1).contains(e) {
            let q = choose|q: int|
                0 <= q < s1.len() && #[trigger] s1[q] != 0 && k1[q] == e.0 && s1[q] - 1 == e.1;
            if q < p {
                assert(s0[q] != 0 && k0[q] == e.0 && s0[q] - 1 == e.1);
            }
        }
        if goal.contains(e) {
            if slots[p] != 0 && e == (keys[p], (slots[p] - 1) as u32) {
                assert(s1[p] != 0 && k1[p] == e.0 && s1[p] - 1 == e.1);
            } else {
                let q = choose|q: int|
                    0 <= q < s0.len() && #[trigger] s0[q] != 0 && k0[q] == e.0 && s0[q] - 1 == e.1;
                assert(s1[q] != 0 && k1[q] == e.0 && s1[q] - 1 == e.1);
            }
        }
    }
    assert(table_entries(k1, s1) =~= goal);
}

/// The probe's start slot for `h` in a table of `mask + 1` slots.
fn home_exec(h: u64, mask: usize) -> (i: usize)
    requires
        is_table_size(mask + 1),
    ensures
        i == home(h, mask + 1),
        i <= mask,
{
    let m = mix64(h);
    let r = m & (mask as u64);
    proof {
        let k = choose|k: nat| 4 <= k <= 58 && pow2(k) == mask + 1;
        vstd::bits::lemma_u64_low_bits_mask_is_mod(m, k);
        vstd::arithmetic::power2::lemma2_to64();
        vstd::arithmetic::power2::lemma2_to64_rest();
        vstd::arithmetic::power2::lemma_pow2_strictly_increases(k, 64);
        assert(vstd::bits::low_bits_mask(k) == mask);
    }
    r as usize
}

/// The slot after `i` in a table of `mask + 1` slots.
fn next_exec(i: usize, mask: usize) -> (r: usize)
    requires
        is_table_size(mask + 1),
        i <= mask,
    ensures
        r == at_step(i as int, 1, mask + 1),
{
    proof {
        let k = choose|k: nat| 4 <= k <= 58 && pow2(k) == mask + 1;
        vstd::arithmetic::power2::lemma2_to64();
        vstd::arithmetic::power2::lemma2_to64_rest();
        if k < 58 {
            vstd::arithmetic::power2::lemma_pow2_strictly_increases(k, 58);
        }
        assert(mask + 1 <= 0x400_0000_0000_0000);
    }
    let r = ((i as u64 + 1) & (mask as u64)) as usize;
    proof {
        let k = choose|k: nat| 4 <= k <= 58 && pow2(k) == mask + 1;
        vstd::bits::lemma_u64_low_bits_mask_is_mod((i as u64 + 1) as u64, k);
        vstd::arithmetic::power2::lemma2_to64();
        vstd::arithmetic::power2::lemma2_to64_rest();
        vstd::arithmetic::power2::lemma_pow2_strictly_increases(k, 64);
        assert(vstd::bits::low_bits_mask(k) == mask);
        if i + 1 < mask + 1 {
            vstd::arithmetic::div_mod::lemma_small_mod((i + 1) as nat, (mask + 1) as nat);
        } else {
            vstd::arithmetic::div_mod::lemma_mod_self_0((mask + 1) as int);
        }
    }
    r
}

/// The first free slot on the probe path of `h`.
fn first_free(slots: &Vec<u32>, mask: usize, h: u64) -> (i: usize)
    requires
        is_table_size(mask + 1),
        slots@.len() == mask + 1,
        count_occ(slots@) < slots@.len(),
    ensures
        i < slots@.len(),
        slots@[i as int] == 0,
        forall|d: int|
            0 <= d < dist(home(h, slots@.len() as int), i as int, slots@.len() as int) ==> slots@[at_step(
                home(h, slots@.len() as int),
                d,
                slots@.len() as int,
            )] != 0,
{
    let ghost cap = slots@.len() as int;
    let ghost e = lemma_count_free(slots@);
    let i0 = home_exec(h, mask);
    let mut i = i0;
    let ghost mut steps: int = 0;
    while slots[i] != 0
        invariant
            cap == slots@.len(),
            cap == mask + 1,
            is_table_size(mask + 1),
            0 <= e < cap,
            slots@[e] == 0,
            i0 == home(h, cap),
            i0 < cap,
            i < cap,
            0 <= steps <= dist(i0 as int, e, cap),
            i == at_step(i0 as int, steps, cap),
            forall|d: int| 0 <= d < steps ==> slots@[at_step(i0 as int, d, cap)] != 0,
        decreases dist(i0 as int, e, cap) - steps,
    {
        i = next_exec(i, mask);
        proof {
            steps = steps + 1;
        }
    }
    i
}

/// Open-addressing index from 64-bit hashes to `u32` indices.
#[derive(Clone)]
pub struct OpenIndex {
    keys: Vec<u64>,
    slots: Vec<u32>,
    mask: usize,
    len: usize,
}

/// What an index holds: its `(hash, index)` entries and the number of
/// insertions.
pub struct IndexView {
    pub entries: Set<(u64, u32)>,
    pub len: nat,
}

impl View for OpenIndex {
    type V = IndexView;

    closed spec fn view(&self) -> IndexView {
        IndexView { entries: table_entries(self.keys@, self.slots@), len: self.len as nat }
    }
}

impl OpenIndex {
    /// The table is well formed and its length counts its occupied slots.
    pub closed spec fn wf(&self) -> bool {
        &&& table_ok(self.keys@, self.slots@, self.mask as int)
        &&& self.len == count_occ(self.slots@)
    }

    /// Number of slots.
    pub closed spec fn capacity(&self) -> nat {
        self.slots@.len()
    }

    /// An empty index sized for about `cap_hint` entries (a power of two of
    /// at least one and a half times that, and at least 16 slots).
    pub fn new(cap_hint: usize) -> (r: OpenIndex)
        requires
            cap_hint <= usize::MAX / 256,
        ensures
            r.wf(),
            r@.entries == Set::<(u64, u32)>::empty(),
            r@.len == 0,
            r.capacity() >= cap_hint * 3 / 2 + 16,
            r.capacity() == 16 || r.capacity() / 2 < cap_hint * 3 / 2 + 16,
            is_table_size(r.capacity() as int),
    {
        let want: usize = cap_hint * 3 / 2 + 16;
        let want: usize = if want < 16 { 16 } else { want };
        let mut cap: usize = 16;
        let ghost mut k: nat = 4;
        proof {
            vstd::arithmetic::power2::lemma2_to64();
        vstd::arithmetic::power2::lemma2_to64_rest();
        }
        while cap < want
            invariant
                16 <= cap <= 2 * want,
                cap == 16 || cap / 2 < want,
                16 <= want <= usize::MAX / 256 * 3 / 2 + 16,
                pow2(k) == cap,
                4 <= k,
            decreases usize::MAX - cap,
        {
            proof {
                vstd::arithmetic::power2::lemma_pow2_unfold(k + 1);
            }
            cap = cap * 2;
            proof {
                k = k + 1;
            }
        }
        proof {
            vstd::arithmetic::power2::lemma2_to64();
        vstd::arithmetic::power2::lemma2_to64_rest();
            assert(cap < 0x400_0000_0000_0000) by (nonlinear_arith)
                requires
                    cap <= 2 * want,
                    want <= usize::MAX / 256 * 3 / 2 + 16,
                    usize::MAX <= 0xffff_ffff_ffff_ffff,
            ;
            if k >= 58 {
                if k > 58 {
                    vstd::arithmetic::power2::lemma_pow2_strictly_increases(58, k);
                }
                assert(false);
            }
            assert(is_table_size(cap as int));
            assert(cap * 64 <= usize::MAX + 1) by (nonlinear_arith)
                requires
                    cap <= 2 * want,
                    want <= usize::MAX / 256 * 3 / 2 + 16,
                    usize::MAX >= 0xffff_ffff,
            ;
        }
        let keys: Vec<u64> = vec![0u64; cap];
        let slots: Vec<u32> = vec![0u32; cap];
        let r = OpenIndex { keys, slots, mask: cap - 1, len: 0 };
        proof {
            assert(forall|i: int| 0 <= i < r.slots@.len() ==> r.slots@[i] == 0);
            lemma_count_zeros(r.slots@);
            assert(r@.entries =~= Set::<(u64, u32)>::empty());
        }
        r
    }

    /// The index of an entry with hash `h`, or `None` when there is none.
    pub fn find(&self, h: u64) -> (r: Option<u32>)
        requires
            self.wf(),
        ensures
            match r {
                Some(j) => self@.entries.contains((h, j)),
                None => forall|j: u32| !self@.entries.contains((h, j)),
            },
    {
        let ghost cap = self.slots@.len() as int;
        let ghost e = lemma_count_free(self.slots@);
        let i0 = home_exec(h, self.mask);
        let mut i = i0;
        let ghost mut steps: int = 0;
        loop
            invariant
                self.wf(),
                cap == self.slots@.len(),
                0 <= e < cap,
                self.slots@[e] == 0,
                i0 == home(h, cap),
                i0 < cap,
                i < cap,
                0 <= steps <= dist(i0 as int, e, cap),
                i == at_step(i0 as int, steps, cap),
                forall|d: int|
                    0 <= d < steps ==> self.slots@[at_step(i0 as int, d, cap)] != 0
                        && self.keys@[at_step(i0 as int, d, cap)] != h,
            decreases dist(i0 as int, e, cap) - steps,
        {
            let s = self.slots[i];
            if s == 0 {
                proof {
                    assert forall|j: u32| !self@.entries.contains((h, j)) by {
                        if self@.entries.contains((h, j)) {
                            let p = choose|p: int|
                                0 <= p < self.slots@.len() && #[trigger] self.slots@[p] != 0
                                    && self.keys@[p] == h && self.slots@[p] - 1 == j;
                            let dp = dist(i0 as int, p, cap);
                            assert(at_step(i0 as int, dp, cap) == p);
                            if dp > steps {
                                assert(self.slots@[at_step(
                                    home(self.keys@[p], cap),
                                    steps,
                                    cap,
                                )] != 0);
                            }
                        }
                    }
                }
                return None;
            }
            if self.keys[i] == h {
                proof {
                    assert(self@.entries.contains((h, (s - 1) as u32)));
                }
                return Some(s - 1);
            }
            i = next_exec(i, self.mask);
            proof {
                steps = steps + 1;
            }
        }
    }

    /// The index of an entry with hash `h` that `verify` accepts, or `None`
    /// when `verify` refuses every entry with that hash (a hash may be shared
    /// by several names).
    pub fn find_verified(&self, h: u64, verify: impl Fn(u32) -> bool) -> (r: Option<u32>)
        requires
            self.wf(),
            forall|j: u32| verify.requires((j,)),
        ensures
            match r {
                Some(j) => self@.entries.contains((h, j)) && verify.ensures((j,), true),
                None => forall|j: u32|
                    #[trigger] self@.entries.contains((h, j)) ==> verify.ensures((j,), false),
            },
    {
        let ghost cap = self.slots@.len() as int;
        let ghost e = lemma_count_free(self.slots@);
        let i0 = home_exec(h, self.mask);
        let mut i = i0;
        let ghost mut steps: int = 0;
        loop
            invariant
                self.wf(),
                forall|j: u32| verify.requires((j,)),
                cap == self.slots@.len(),
                0 <= e < cap,
                self.slots@[e] == 0,
                i0 == home(h, cap),
                i0 < cap,
                i < cap,
                0 <= steps <= dist(i0 as int, e, cap),
                i == at_step(i0 as int, steps, cap),
                forall|d: int|
                    0 <= d < steps ==> self.slots@[at_step(i0 as int, d, cap)] != 0 && (self.keys@[at_step(i0 as int, d, cap)] != h
                        || verify.ensures(((self.slots@[at_step(i0 as int, d, cap)] - 1) as u32,), false)),
            decreases dist(i0 as int, e, cap) - steps,
        {
            let s = self.slots[i];
            if s == 0 {
                proof {
                    assert forall|j: u32| #[trigger] self@.entries.contains((h, j)) implies verify.ensures((j,), false) by {
                        let p = choose|p: int|
                            0 <= p < self.slots@.len() && #[trigger] self.slots@[p] != 0
                                && self.keys@[p] == h && self.slots@[p] - 1 == j;
                        let dp = dist(i0 as int, p, cap);
                        assert(at_step(i0 as int, dp, cap) == p);
                        if dp > steps {
                            assert(self.slots@[at_step(home(self.keys@[p], cap), steps, cap)]
                                != 0);
                        }
                    }
                }
                return None;
            }
            if self.keys[i] == h && verify(s - 1) {
                proof {
                    assert(self@.entries.contains((h, (s - 1) as u32)));
                }
                return Some(s - 1);
            }
            i = next_exec(i, self.mask);
            proof {
                steps = steps + 1;
            }
        }
    }

    /// Rebuild the table four times as large, re-hashing each entry from its
    /// index with `rehash`.
    fn grow(&mut self, rehash: impl Fn(u32) -> u64)
        requires
            old(self).wf(),
            old(self).capacity() * 256 <= usize::MAX + 1,
            forall|j: u32| rehash.requires((j,)),
            forall|k: u64, j: u32, r: u64|
                #[trigger] old(self)@.entries.contains((k, j)) && #[trigger] rehash.ensures((j,), r)
                    ==> r == k,
        ensures
            final(self).wf(),
            final(self)@.entries == old(self)@.entries,
            final(self)@.len == old(self)@.len,
            final(self).capacity() == old(self).capacity() * 4,
    {
        let n: usize = self.slots.len();
        let new_cap: usize = if n * 4 < 16 { 16 } else { n * 4 };
        let mut new_slots: Vec<u32> = vec![0u32; new_cap];
        let mut new_keys: Vec<u64> = vec![0u64; new_cap];
        let new_mask: usize = new_cap - 1;
        proof {
            let k = choose|k: nat| 4 <= k <= 58 && pow2(k) == n;
            vstd::arithmetic::power2::lemma2_to64();
            vstd::arithmetic::power2::lemma2_to64_rest();
            vstd::arithmetic::power2::lemma_pow2_adds(k, 2);
            if k > 56 {
                vstd::arithmetic::power2::lemma_pow2_strictly_increases(56, k);
            }
            assert(pow2(k + 2) == new_cap);
            assert(is_table_size(new_cap as int));
            assert(forall|i: int| 0 <= i < new_slots@.len() ==> new_slots@[i] == 0);
            lemma_count_zeros(new_slots@);
            assert(table_entries(new_keys@, new_slots@) =~= table_entries(
                self.keys@.take(0),
                self.slots@.take(0),
            ));
            assert(self.slots@.take(0) =~= Seq::<u32>::empty());
        }
        let mut p: usize = 0;
        while p < n
            invariant
                self.wf(),
                self.keys@ == old(self).keys@,
                self.slots@ == old(self).slots@,
                self.len == old(self).len,
                n == self.slots@.len(),
                n * 4 == new_cap,
                p <= n,
                new_slots@.len() == new_cap,
                new_keys@.len() == new_cap,
                new_mask == new_cap - 1,
                is_table_size(new_cap as int),
                new_cap * 64 <= usize::MAX + 1,
                count_occ(new_slots@) == count_occ(self.slots@.take(p as int)),
                probe_ok(new_keys@, new_slots@),
                table_entries(new_keys@, new_slots@) == table_entries(
                    self.keys@.take(p as int),
                    self.slots@.take(p as int),
                ),
                forall|j: u32| rehash.requires((j,)),
                forall|k: u64, j: u32, r: u64|
                    #[trigger] old(self)@.entries.contains((k, j)) && #[trigger] rehash.ensures(
                        (j,),
                        r,
                    ) ==> r == k,
            decreases n - p,
        {
            proof {
                lemma_prefix_step(self.keys@, self.slots@, p as int);
                lemma_count_prefix(self.slots@, p as int);
            }
            let s = self.slots[p];
            if s != 0 {
                let h = rehash(s - 1);
                proof {
                    assert(self@.entries.contains((self.keys@[p as int], (s - 1) as u32))) by {
                        assert(self.slots@[p as int] != 0);
                    }
                }
                let i = first_free(&new_slots, new_mask, h);
                proof {
                    lemma_fill_slot(new_keys@, new_slots@, i as int, h, s);
                }
                new_keys.set(i, h);
                new_slots.set(i, s);
            }
            p = p + 1;
        }
        proof {
            assert(self.keys@.take(n as int) =~= self.keys@);
            assert(self.slots@.take(n as int) =~= self.slots@);
            lemma_count_le(self.slots@);
        }
        self.keys = new_keys;
        self.slots = new_slots;
        self.mask = new_mask;
    }

    /// Insert the entry `(h, idx)`, growing the table first when it would
    /// pass seven tenths full. `rehash` gives the hash of a stored index: it
    /// must give back, for each entry, the hash it was inserted with.
    pub fn insert(&mut self, h: u64, idx: u32, rehash: impl Fn(u32) -> u64)
        requires
            old(self).wf(),
            idx < u32::MAX,
            old(self)@.len < usize::MAX / 1024,
            forall|j: u32| rehash.requires((j,)),
            forall|k: u64, j: u32, r: u64|
                #[trigger] old(self)@.entries.contains((k, j)) && #[trigger] rehash.ensures((j,), r)
                    ==> r == k,
        ensures
            final(self).wf(),
            final(self)@.entries == old(self)@.entries.insert((h, idx)),
            final(self)@.len == old(self)@.len + 1,
            final(self).capacity() == if (old(self)@.len + 1) * 10 >= old(self).capacity() * 7 {
                old(self).capacity() * 4
            } else {
                old(self).capacity()
            },
    {
        if (self.len + 1) * 10 >= self.slots.len() * 7 {
            proof {
                assert(self.slots@.len() * 256 <= usize::MAX + 1) by (nonlinear_arith)
                    requires
                        (self.len + 1) * 10 >= self.slots@.len() * 7,
                        self.len < usize::MAX / 1024,
                ;
            }
            self.grow(rehash);
        }
        proof {
            lemma_count_le(self.slots@);
        }
        let i = first_free(&self.slots, self.mask, h);
        proof {
            lemma_fill_slot(self.keys@, self.slots@, i as int, h, (idx + 1) as u32);
        }
        self.keys.set(i, h);
        self.slots.set(i, idx + 1);
        self.len = self.len + 1;
    }

    /// Number of insertions.
    pub fn len(&self) -> (r: usize)
        ensures
            r == self@.len,
    {
        self.len
    }

    /// Bytes the slots take.
    pub fn bytes(&self) -> (r: usize)
        requires
            self.wf(),
        ensures
            r == self.capacity() * 12,
    {
        self.keys.len() * 8 + self.slots.len() * 4
    }
}

/// Inserting `(h, idx)` keeps every entry there was and adds `(h, idx)`,
/// and no other entry: a later search for `h` that the caller verifies by
/// index finds it.
pub proof fn lemma_index_insert_keeps(before: IndexView, after: IndexView, h: u64, idx: u32)
    requires
        after.entries == before.entries.insert((h, idx)),
    ensures
        after.entries.contains((h, idx)),
        forall|e: (u64, u32)| before.entries.contains(e) ==> after.entries.contains(e),
        forall|e: (u64, u32)| after.entries.contains(e) ==> e == (h, idx) || before.entries.contains(e),
{
}


/// An index made by `new(hint)` does not grow while it holds fewer than
/// `hint` entries (an insert at `len < hint` keeps the capacity), and its
/// slots take at most `36 * hint + 384` bytes.
pub proof fn lemma_presized_index(hint: nat, cap: nat, len: nat)
    requires
        cap >= hint * 3 / 2 + 16,
        cap == 16 || cap / 2 < hint * 3 / 2 + 16,
        len < hint,
    ensures
        !((len + 1) * 10 >= cap * 7),
        cap * 12 <= 36 * hint + 384,
{
    assert((len + 1) * 10 < cap * 7) by (nonlinear_arith)
        requires
            cap >= hint * 3 / 2 + 16,
            len < hint,
    ;
    assert(cap * 12 <= 36 * hint + 384) by (nonlinear_arith)
        requires
            cap == 16 || cap / 2 < hint * 3 / 2 + 16,
            cap >= 16,
    ;
}

} // verus!
