//! The heap collections: array, dict and struct.
//!
//! An array is a growable sequence of value words with reference semantics. A dict
//! is an insertion-ordered map from text to words: its entries live in one vector,
//! and past a handful of them an open-addressed table maps a key's hash to its
//! position. A struct is a type name and named fields in definition order.

use vstd::arithmetic::power2::*;
use vstd::prelude::*;

use crate::heap::{ObjHeader, ObjKind};
use crate::store::{
    buckets_clear, buckets_new, buckets_resize, buckets_set, buckets_slice, entries_new,
    entries_push, entries_remove, entries_set, entries_slice, words_new, words_pop, words_push,
    words_set, words_slice, Buckets, Entries, Words,
};
use crate::text::str_eq;
#[allow(unused_imports)]
use crate::heap::spec_kind_byte;
#[allow(unused_imports)]
use crate::store::{buckets, entries, entry_views, words};

verus! {

// ── Array ────────────────────────────────────────────────────────────────────

/// A growable array of value words.
pub struct ArrayObj {
    /// Its `len` tracks the number of elements.
    pub header: ObjHeader,
    /// The elements.
    pub data: Words,
}

/// An index past the end of a collection.
#[derive(Debug, Clone, Copy, PartialEq, Eq)]
pub struct OutOfBounds;

impl View for ArrayObj {
    type V = Seq<i64>;

    closed spec fn view(&self) -> Seq<i64> {
        words(self.data)
    }
}

impl ArrayObj {
    /// The header's length is the element count, as far as 32 bits hold it.
    pub open spec fn synced(&self) -> bool {
        self.header.len == self@.len() as u32
    }

    /// Arrays with the same store hold the same elements.
    pub proof fn same_elements(&self, other: &ArrayObj)
        requires
            self.data == other.data,
        ensures
            self@ == other@,
    {
    }

    /// An empty array.
    pub fn new() -> (a: Self)
        ensures
            a@ == Seq::<i64>::empty(),
            a.header.fresh(ObjKind::Array),
            a.synced(),
    {
        ArrayObj { header: ObjHeader::new(ObjKind::Array, 0), data: words_new() }
    }

    /// An array of the given words.
    pub fn from_vec(data: &[i64]) -> (a: Self)
        ensures
            a@ == data@,
            a.header.fresh(ObjKind::Array),
            a.synced(),
    {
        let mut a = ArrayObj::new();
        let mut i: usize = 0;
        while i < data.len()
            invariant
                i <= data@.len(),
                a@ == data@.take(i as int),
                a.header.fresh(ObjKind::Array),
                a.synced(),
            decreases data@.len() - i,
        {
            a.push(data[i]);
            i += 1;
            assert(data@.take(i as int) =~= data@.take(i - 1).push(data@[i - 1]));
        }
        assert(data@.take(i as int) =~= data@);
        a
    }

    /// Append a word.
    pub fn push(&mut self, v: i64)
        ensures
            final(self)@ == old(self)@.push(v),
            final(self).header == old(self).header.with_len((old(self)@.len() + 1) as u32),
            final(self).synced(),
    {
        words_push(&mut self.data, v);
        self.sync_len();
    }

    /// The number of elements.
    pub fn len(&self) -> (n: usize)
        ensures
            n == self@.len(),
    {
        words_slice(&self.data).len()
    }

    /// Whether there are no elements.
    pub fn is_empty(&self) -> (r: bool)
        ensures
            r == (self@.len() == 0),
    {
        self.len() == 0
    }

    /// The element at `i`, if there is one.
    pub fn get(&self, i: usize) -> (r: Option<&i64>)
        ensures
            match r {
                Some(w) => i < self@.len() && *w == self@[i as int],
                None => i >= self@.len(),
            },
    {
        let s = words_slice(&self.data);
        if i < s.len() {
            Some(&s[i])
        } else {
            None
        }
    }

    /// Remove the last element and return it.
    pub fn pop(&mut self) -> (r: Option<i64>)
        ensures
            old(self)@.len() == 0 ==> r is None && final(self)@ == old(self)@
                && final(self).header == old(self).header,
            old(self)@.len() > 0 ==> r == Some(old(self)@.last()) && final(self)@
                == old(self)@.drop_last() && final(self).header == old(self).header.with_len(
                (old(self)@.len() - 1) as u32,
            ),
    {
        let r = words_pop(&mut self.data);
        if r.is_some() {
            self.sync_len();
        }
        r
    }

    /// Overwrite element `i`, or report that there is none.
    pub fn set(&mut self, i: usize, v: i64) -> (r: Result<(), OutOfBounds>)
        ensures
            r is Ok <==> i < old(self)@.len(),
            r is Ok ==> final(self)@ == old(self)@.update(i as int, v),
            r is Err ==> final(self)@ == old(self)@,
            final(self).header == old(self).header,
    {
        if i < self.len() {
            words_set(&mut self.data, i, v);
            Ok(())
        } else {
            Err(OutOfBounds)
        }
    }

    /// The elements, in order.
    pub fn as_slice(&self) -> (r: &[i64])
        ensures
            r@ == self@,
    {
        words_slice(&self.data)
    }

    /// Copy the element count into the header.
    fn sync_len(&mut self)
        ensures
            final(self)@ == old(self)@,
            final(self).header == old(self).header.with_len(old(self)@.len() as u32),
    {
        let n: usize = self.len();
        self.header.len = n as u32;
    }
}

impl Default for ArrayObj {
    /// An empty array.
    fn default() -> (a: Self)
        ensures
            a@ == Seq::<i64>::empty(),
    {
        ArrayObj::new()
    }
}

// ── Entries by key ───────────────────────────────────────────────────────────

/// `k` is the key of entry `i` of `s`.
pub open spec fn key_at(s: Seq<(Seq<char>, i64)>, k: Seq<char>, i: int) -> bool {
    0 <= i < s.len() && s[i].0 == k
}

/// Some entry of `s` has the key `k`.
pub open spec fn has_key(s: Seq<(Seq<char>, i64)>, k: Seq<char>) -> bool {
    exists|i: int| key_at(s, k, i)
}

/// The position of the entry with key `k`.
pub open spec fn key_index(s: Seq<(Seq<char>, i64)>, k: Seq<char>) -> int {
    choose|i: int| key_at(s, k, i)
}

/// No key occurs twice.
pub open spec fn unique_keys(s: Seq<(Seq<char>, i64)>) -> bool {
    forall|i: int, j: int| 0 <= i < s.len() && 0 <= j < s.len() && s[i].0 == s[j].0 ==> i == j
}

/// The word under `k`, if there is one.
pub open spec fn lookup(s: Seq<(Seq<char>, i64)>, k: Seq<char>) -> Option<i64> {
    if has_key(s, k) {
        Some(s[key_index(s, k)].1)
    } else {
        None
    }
}

/// `s` with `k` set to `v`: in place when the key is there, else appended.
pub open spec fn put(s: Seq<(Seq<char>, i64)>, k: Seq<char>, v: i64) -> Seq<(Seq<char>, i64)> {
    if has_key(s, k) {
        s.update(key_index(s, k), (k, v))
    } else {
        s.push((k, v))
    }
}

/// `s` without the entry under `k`, the others in their order.
pub open spec fn without(s: Seq<(Seq<char>, i64)>, k: Seq<char>) -> Seq<(Seq<char>, i64)> {
    if has_key(s, k) {
        s.remove(key_index(s, k))
    } else {
        s
    }
}

/// Under unique keys the position of a key is the only one that has it.
proof fn key_index_is(s: Seq<(Seq<char>, i64)>, k: Seq<char>, i: int)
    requires
        unique_keys(s),
        key_at(s, k, i),
    ensures
        has_key(s, k),
        key_index(s, k) == i,
{
    assert(key_at(s, k, key_index(s, k)));
}

/// Setting a key keeps keys unique.
pub proof fn put_keeps_unique(s: Seq<(Seq<char>, i64)>, k: Seq<char>, v: i64)
    requires
        unique_keys(s),
    ensures
        unique_keys(put(s, k, v)),
{
    let t = put(s, k, v);
    if has_key(s, k) {
        let p = key_index(s, k);
        assert(key_at(s, k, p));
        assert forall|i: int, j: int|
            0 <= i < t.len() && 0 <= j < t.len() && t[i].0 == t[j].0 implies i == j by {
            assert(s[i].0 == t[i].0);
            assert(s[j].0 == t[j].0);
        }
    } else {
        assert forall|i: int, j: int|
            0 <= i < t.len() && 0 <= j < t.len() && t[i].0 == t[j].0 implies i == j by {
            if i < s.len() && j == s.len() {
                assert(key_at(s, k, i));
            }
            if j < s.len() && i == s.len() {
                assert(key_at(s, k, j));
            }
        }
    }
}

/// A read after a write sees the write, and every other key reads as before.
pub proof fn lookup_after_put(s: Seq<(Seq<char>, i64)>, k: Seq<char>, v: i64, other: Seq<char>)
    requires
        unique_keys(s),
    ensures
        lookup(put(s, k, v), k) == Some(v),
        other != k ==> lookup(put(s, k, v), other) == lookup(s, other),
{
    let t = put(s, k, v);
    put_keeps_unique(s, k, v);
    if has_key(s, k) {
        let p = key_index(s, k);
        assert(key_at(s, k, p));
        key_index_is(t, k, p);
    } else {
        key_index_is(t, k, s.len() as int);
    }
    if other != k {
        if has_key(s, other) {
            let p = key_index(s, other);
            assert(key_at(s, other, p));
            assert(key_at(t, other, p)) by {
                if has_key(s, k) {
                    assert(key_at(s, k, key_index(s, k)));
                }
            }
            key_index_is(t, other, p);
        } else if has_key(t, other) {
            let p = key_index(t, other);
            assert(key_at(t, other, p));
            if p < s.len() {
                if has_key(s, k) {
                    assert(key_at(s, k, key_index(s, k)));
                }
                assert(key_at(s, other, p));
            }
        }
    }
}

/// Removing a key keeps keys unique; the key is gone and every other reads as before.
pub proof fn lookup_after_remove(s: Seq<(Seq<char>, i64)>, k: Seq<char>, other: Seq<char>)
    requires
        unique_keys(s),
    ensures
        unique_keys(without(s, k)),
        lookup(without(s, k), k) is None,
        other != k ==> lookup(without(s, k), other) == lookup(s, other),
{
    if has_key(s, k) {
        let p = key_index(s, k);
        assert(key_at(s, k, p));
        let t = s.remove(p);
        assert forall|i: int| 0 <= i < t.len() implies #[trigger] t[i] == s[if i < p {
            i
        } else {
            i + 1
        }] by {}
        assert forall|i: int, j: int|
            0 <= i < t.len() && 0 <= j < t.len() && t[i].0 == t[j].0 implies i == j by {}
        if has_key(t, k) {
            let q = key_index(t, k);
            assert(key_at(t, k, q));
            assert(key_at(s, k, if q < p { q } else { q + 1 }));
        }
        if other != k {
            if has_key(s, other) {
                let q = key_index(s, other);
                assert(key_at(s, other, q));
                let r = if q < p { q } else { q - 1 };
                assert(key_at(t, other, r));
                key_index_is(t, other, r);
            } else if has_key(t, other) {
                let q = key_index(t, other);
                assert(key_at(t, other, q));
                assert(key_at(s, other, if q < p { q } else { q + 1 }));
            }
        }
    }
}

// ── Dict ─────────────────────────────────────────────────────────────────────

/// Entry count up to which a scan is used and no index is built.
pub const DICT_SCAN_MAX: usize = 8;

/// A free bucket in the index.
const EMPTY_SLOT: u32 = 0xffff_ffff;

/// The most entries a dict holds: positions are 32 bits, one of them reserved, and
/// the index must not outgrow the address space.
pub open spec fn dict_max() -> int {
    if usize::MAX / 4 < 0xffff_fffe {
        usize::MAX as int / 4
    } else {
        0xffff_fffe
    }
}

/// The FNV-1a hash of a byte sequence.
pub open spec fn fnv1a(bytes: Seq<u8>) -> u64
    decreases bytes.len(),
{
    if bytes.len() == 0 {
        0xcbf2_9ce4_8422_2325
    } else {
        (fnv1a(bytes.drop_last()) ^ (bytes.last() as u64)).wrapping_mul(0x0100_0000_01b3)
    }
}

/// The hash of a key: FNV-1a over its UTF-8 bytes.
pub fn hash_key(key: &str) -> (h: u64)
    ensures
        h == fnv1a(vstd::utf8::encode_utf8(key@)),
{
    let bytes = key.as_bytes();
    let mut h: u64 = 0xcbf2_9ce4_8422_2325;
    let mut i: usize = 0;
    while i < bytes.len()
        invariant
            i <= bytes@.len(),
            h == fnv1a(bytes@.take(i as int)),
        decreases bytes@.len() - i,
    {
        h = h ^ (bytes[i] as u64);
        h = h.wrapping_mul(0x0100_0000_01b3);
        i += 1;
        assert(bytes@.take(i as int).drop_last() =~= bytes@.take(i - 1));
    }
    assert(bytes@.take(i as int) =~= bytes@);
    h
}

/// The bucket a key is first looked for in, of `cap` buckets.
spec fn home(k: Seq<char>, cap: int) -> int {
    (fnv1a(vstd::utf8::encode_utf8(k)) as int) % cap
}

/// The bucket `t` steps after bucket `h`, of `cap` buckets in a ring.
spec fn step(h: int, t: int, cap: int) -> int {
    if h + t < cap {
        h + t
    } else {
        h + t - cap
    }
}

/// Entry `p` with key `k` is found `t` steps from its home, over full buckets.
spec fn reached(index: Seq<u32>, k: Seq<char>, p: int, t: int) -> bool {
    let cap = index.len() as int;
    &&& 0 <= t < cap
    &&& index[step(home(k, cap), t, cap)] == p
    &&& forall|s: int|
        0 <= s < t ==> #[trigger] index[step(home(k, cap), s, cap)] != EMPTY_SLOT
}

/// Entry `p` with key `k` is found from its home, over full buckets.
spec fn found(index: Seq<u32>, k: Seq<char>, p: int) -> bool {
    exists|t: int| reached(index, k, p, t)
}

/// The first `n` entries of `s` are all found in the table, each in one bucket, and
/// the table holds nothing else.
spec fn table_holds(index: Seq<u32>, s: Seq<(Seq<char>, i64)>, n: int) -> bool {
    &&& forall|b: int| 0 <= b < index.len() ==> #[trigger] index[b] == EMPTY_SLOT || index[b] < n
    &&& forall|b: int, c: int|
        0 <= b < index.len() && 0 <= c < index.len() && #[trigger] index[b] == #[trigger] index[c]
            && index[b] != EMPTY_SLOT ==> b == c
    &&& forall|p: int| 0 <= p < n ==> #[trigger] found(index, s[p].0, p)
}

/// A table of more buckets than entries has a free bucket.
proof fn has_free_bucket(index: Seq<u32>, s: Seq<(Seq<char>, i64)>, n: int)
    requires
        table_holds(index, s, n),
        0 <= n < index.len(),
    ensures
        exists|b: int| 0 <= b < index.len() && #[trigger] index[b] == EMPTY_SLOT,
{
    if forall|b: int| 0 <= b < index.len() ==> #[trigger] index[b] != EMPTY_SLOT {
        let all = Set::new(|b: int| 0 <= b < index.len());
        vstd::set_lib::lemma_int_range(0, index.len() as int);
        assert(all =~= vstd::set_lib::set_int_range(0, index.len() as int));
        let f = |b: int| index[b] as int;
        let image = all.map(f);
        assert(vstd::relations::injective_on(f, all)) by {
            assert forall|x1: int, x2: int|
                #![trigger f(x1), f(x2)]
                all.contains(x1) && all.contains(x2) && f(x1) == f(x2) implies x1 == x2 by {
                assert(index[x1] == index[x2]);
            }
        }
        vstd::set_lib::lemma_map_size(all, image, f);
        vstd::set_lib::lemma_int_range(0, n);
        assert forall|v: int| image.contains(v) implies vstd::set_lib::set_int_range(
            0,
            n,
        ).contains(v) by {
            let b = choose|b: int| all.contains(b) && v == f(b);
            assert(index[b] != EMPTY_SLOT);
        }
        vstd::set_lib::lemma_len_subset(image, vstd::set_lib::set_int_range(0, n));
        assert(false);
    }
}

/// Writing entry `n` into the first free bucket of its run extends the table.
proof fn table_grows(
    index: Seq<u32>,
    s: Seq<(Seq<char>, i64)>,
    n: int,
    t: int,
    after: Seq<u32>,
)
    requires
        table_holds(index, s, n),
        0 <= n < s.len(),
        n < EMPTY_SLOT,
        index.len() > 0,
        0 <= t < index.len(),
        ({
            let cap = index.len() as int;
            let b = step(home(s[n].0, cap), t, cap);
            &&& index[b] == EMPTY_SLOT
            &&& forall|u: int|
                0 <= u < t ==> #[trigger] index[step(home(s[n].0, cap), u, cap)] != EMPTY_SLOT
            &&& after == index.update(b, n as u32)
        }),
    ensures
        table_holds(after, s, n + 1),
{
    let cap = index.len() as int;
    let h = home(s[n].0, cap);
    vstd::arithmetic::div_mod::lemma_mod_bound(
        fnv1a(vstd::utf8::encode_utf8(s[n].0)) as int,
        cap,
    );
    let b = step(h, t, cap);
    assert(after.len() == cap);
    assert forall|p: int| 0 <= p < n + 1 implies #[trigger] found(after, s[p].0, p) by {
        if p == n {
            assert(reached(after, s[n].0, n, t)) by {
                assert forall|u: int| 0 <= u < t implies #[trigger] after[step(h, u, cap)]
                    != EMPTY_SLOT by {
                    assert(index[step(h, u, cap)] != EMPTY_SLOT);
                }
            }
        } else {
            assert(found(index, s[p].0, p));
            let u = choose|u: int| reached(index, s[p].0, p, u);
            let g = home(s[p].0, cap);
            vstd::arithmetic::div_mod::lemma_mod_bound(
                fnv1a(vstd::utf8::encode_utf8(s[p].0)) as int,
                cap,
            );
            assert(reached(after, s[p].0, p, u)) by {
                assert(step(g, u, cap) != b);
                assert forall|v: int| 0 <= v < u implies #[trigger] after[step(g, v, cap)]
                    != EMPTY_SLOT by {
                    assert(index[step(g, v, cap)] != EMPTY_SLOT);
                }
            }
        }
    }
    assert forall|x: int, y: int|
        0 <= x < after.len() && 0 <= y < after.len() && #[trigger] after[x] == #[trigger] after[y]
            && after[x] != EMPTY_SLOT implies x == y by {
        if x != b && y != b {
            assert(index[x] == index[y]);
        } else if x != b {
            assert(index[x] == EMPTY_SLOT || index[x] < n);
        } else if y != b {
            assert(index[y] == EMPTY_SLOT || index[y] < n);
        }
    }
    assert forall|x: int| 0 <= x < after.len() implies #[trigger] after[x] == EMPTY_SLOT || after[x]
        < n + 1 by {
        if x != b {
            assert(index[x] == EMPTY_SLOT || index[x] < n);
        }
    }
}

/// An insertion-ordered dict from text to value words.
pub struct DictObj {
    /// Its `len` tracks the number of entries.
    pub header: ObjHeader,
    /// The entries, in insertion order.
    pub slots: Entries,
    /// Positions in `slots` by hash, or empty while the dict is scanned.
    pub index: Buckets,
}

impl View for DictObj {
    type V = Seq<(Seq<char>, i64)>;

    closed spec fn view(&self) -> Seq<(Seq<char>, i64)> {
        entries(self.slots)
    }
}

/// The smallest power of two that is at least `n`.
fn next_power_of_two(n: usize) -> (r: usize)
    requires
        1 <= n,
        2 * n <= usize::MAX,
    ensures
        n <= r < 2 * n,
        exists|k: nat| r == #[trigger] pow2(k),
{
    let mut r: usize = 1;
    let ghost mut k: nat = 0;
    proof {
        lemma2_to64();
    }
    while r < n
        invariant
            1 <= r < 2 * n,
            2 * n <= usize::MAX,
            r == pow2(k),
        decreases 2 * n - r,
    {
        proof {
            lemma_pow2_unfold(k + 1);
            k = k + 1;
        }
        r = r * 2;
    }
    r
}

impl DictObj {
    /// Keys are unique, the header's length is the entry count, and the index, when
    /// there is one, finds every entry and has room to spare.
    pub closed spec fn wf(&self) -> bool {
        let s = entries(self.slots);
        let ix = buckets(self.index);
        &&& unique_keys(s)
        &&& s.len() <= dict_max()
        &&& self.header.len == s.len() as u32
        &&& self.header.kind == spec_kind_byte(ObjKind::Dict)
        &&& ix.len() == 0 ==> s.len() <= DICT_SCAN_MAX
        &&& ix.len() > 0 ==> {
            &&& table_holds(ix, s, s.len() as int)
            &&& 2 * s.len() <= ix.len()
        }
    }

    /// What `wf` says of the entries.
    pub proof fn wf_entries(&self)
        requires
            self.wf(),
        ensures
            unique_keys(self@),
            self@.len() <= dict_max(),
            self.header.len == self@.len(),
            self.header.kind == spec_kind_byte(ObjKind::Dict),
    {
    }

    /// A dict whose header differs only in count, color or flags is as well formed.
    pub proof fn wf_same_entries(&self, other: &DictObj)
        requires
            self.wf(),
            other.slots == self.slots,
            other.index == self.index,
            other.header.len == self.header.len,
            other.header.kind == self.header.kind,
        ensures
            other.wf(),
            other@ == self@,
    {
    }

    /// Dicts with the same store hold the same entries.
    pub proof fn same_slots(&self, other: &DictObj)
        requires
            self.slots == other.slots,
        ensures
            self@ == other@,
    {
    }

    /// An empty dict.
    pub fn new() -> (d: Self)
        ensures
            d@ == Seq::<(Seq<char>, i64)>::empty(),
            d.wf(),
            d.header.fresh(ObjKind::Dict),
    {
        DictObj {
            header: ObjHeader::new(ObjKind::Dict, 0),
            slots: entries_new(),
            index: buckets_new(),
        }
    }

    /// The position of `key` among the entries.
    fn find(&self, key: &str) -> (r: Option<usize>)
        requires
            self.wf(),
        ensures
            match r {
                Some(i) => key_at(self@, key@, i as int),
                None => !has_key(self@, key@),
            },
    {
        let slots = entries_slice(&self.slots);
        let index = buckets_slice(&self.index);
        if index.len() == 0 {
            let mut i: usize = 0;
            while i < slots.len()
                invariant
                    i <= slots@.len(),
                    entry_views(slots@) == self@,
                    forall|j: int| 0 <= j < i ==> self@[j].0 != key@,
                decreases slots@.len() - i,
            {
                assert(entry_views(slots@)[i as int].0 == slots@[i as int].0@);
                if str_eq(slots[i].0.as_str(), key) {
                    assert(key_at(self@, key@, i as int));
                    return Some(i);
                }
                i += 1;
            }
            assert(slots@.len() == self@.len());
            return None;
        }
        let cap: usize = index.len();
        let h: usize = (hash_key(key) % (cap as u64)) as usize;
        let ghost free = choose|b: int|
            0 <= b < index@.len() && #[trigger] index@[b] == EMPTY_SLOT;
        proof {
            has_free_bucket(index@, self@, self@.len() as int);
        }
        let mut i: usize = h;
        let ghost mut t: int = 0;
        loop
            invariant
                self.wf(),
                index@ == buckets(self.index),
                entry_views(slots@) == self@,
                cap == index@.len(),
                cap > 0,
                h == home(key@, cap as int),
                h < cap,
                0 <= free < cap,
                index@[free] == EMPTY_SLOT,
                0 <= t < cap,
                i == step(h as int, t, cap as int),
                forall|u: int|
                    0 <= u < t ==> #[trigger] index@[step(h as int, u, cap as int)] != EMPTY_SLOT
                        && self@[index@[step(h as int, u, cap as int)] as int].0 != key@,
            decreases cap - t,
        {
            let slot: u32 = index[i];
            if slot == EMPTY_SLOT {
                proof {
                    if has_key(self@, key@) {
                        let p = key_index(self@, key@);
                        assert(key_at(self@, key@, p));
                        assert(found(index@, self@[p].0, p));
                        let u = choose|u: int| reached(index@, self@[p].0, p, u);
                        assert(reached(index@, self@[p].0, p, u));
                        assert(u != t);
                        if u > t {
                            assert(index@[step(h as int, t, cap as int)] != EMPTY_SLOT);
                        }
                    }
                }
                return None;
            }
            assert(index@[i as int] < self@.len());
            assert(entry_views(slots@)[slot as int].0 == slots@[slot as int].0@);
            if str_eq(slots[slot as usize].0.as_str(), key) {
                assert(key_at(self@, key@, slot as int));
                return Some(slot as usize);
            }
            proof {
                let free_at = if free >= h {
                    free - h
                } else {
                    free - h + cap
                };
                assert(step(h as int, free_at, cap as int) == free);
                if t + 1 >= cap {
                    assert(free_at <= t);
                    if free_at < t {
                        assert(index@[step(h as int, free_at, cap as int)] != EMPTY_SLOT);
                    }
                    assert(false);
                }
                t = t + 1;
            }
            i = if i + 1 < cap {
                i + 1
            } else {
                0
            };
        }
    }

    /// Put the entry at `pos` into the first free bucket of its run.
    fn place(index: &mut Buckets, slots: &Entries, pos: usize)
        requires
            table_holds(buckets(*old(index)), entries(*slots), pos as int),
            pos < entries(*slots).len(),
            pos < buckets(*old(index)).len(),
            pos < EMPTY_SLOT,
        ensures
            table_holds(buckets(*final(index)), entries(*slots), pos + 1),
            buckets(*final(index)).len() == buckets(*old(index)).len(),
    {
        let ghost before = buckets(*index);
        let ghost s = entries(*slots);
        let cap: usize = buckets_slice(index).len();
        let entry = entries_slice(slots);
        assert(entry_views(entry@)[pos as int].0 == entry@[pos as int].0@);
        let h: usize = (hash_key(entry[pos].0.as_str()) % (cap as u64)) as usize;
        let ghost free = choose|b: int| 0 <= b < before.len() && #[trigger] before[b] == EMPTY_SLOT;
        proof {
            has_free_bucket(before, s, pos as int);
        }
        let mut i: usize = h;
        let ghost mut t: int = 0;
        while buckets_slice(index)[i] != EMPTY_SLOT
            invariant
                buckets(*index) == before,
                cap == before.len(),
                cap > 0,
                h < cap,
                0 <= free < cap,
                before[free] == EMPTY_SLOT,
                0 <= t < cap,
                i == step(h as int, t, cap as int),
                forall|u: int|
                    0 <= u < t ==> #[trigger] before[step(h as int, u, cap as int)] != EMPTY_SLOT,
            decreases cap - t,
        {
            proof {
                let free_at = if free >= h {
                    free - h
                } else {
                    free - h + cap
                };
                assert(step(h as int, free_at, cap as int) == free);
                if t + 1 >= cap {
                    if free_at < t {
                        assert(before[step(h as int, free_at, cap as int)] != EMPTY_SLOT);
                    }
                    assert(false);
                }
                t = t + 1;
            }
            i = if i + 1 < cap {
                i + 1
            } else {
                0
            };
        }
        buckets_set(index, i, pos as u32);
        proof {
            table_grows(before, s, pos as int, t, buckets(*index));
        }
    }

    /// Rebuild the index from the entries, sized for their count.
    fn reindex(&mut self)
        requires
            unique_keys(old(self)@),
            old(self)@.len() <= dict_max(),
            old(self).header.len == old(self)@.len() as u32,
            old(self).header.kind == spec_kind_byte(ObjKind::Dict),
        ensures
            final(self).wf(),
            final(self)@ == old(self)@,
            final(self).header == old(self).header,
    {
        let n: usize = entries_slice(&self.slots).len();
        
        buckets_clear(&mut self.index);
        if n <= DICT_SCAN_MAX {
            return;
        }
        let cap: usize = next_power_of_two(n * 2);
        buckets_resize(&mut self.index, cap, EMPTY_SLOT);
        let mut pos: usize = 0;
        while pos < n
            invariant
                n == entries(self.slots).len(),
                n <= dict_max(),
                2 * n <= buckets(self.index).len(),
                pos <= n,
                entries(self.slots) == old(self)@,
                self.header == old(self).header,
                table_holds(buckets(self.index), entries(self.slots), pos as int),
            decreases n - pos,
        {
            DictObj::place(&mut self.index, &self.slots, pos);
            pos += 1;
        }
    }

    /// Record an entry just appended, growing the index when it is filling up.
    fn index_appended(&mut self)
        requires
            unique_keys(old(self)@),
            0 < old(self)@.len() <= dict_max(),
            old(self).header.kind == spec_kind_byte(ObjKind::Dict),
            buckets(old(self).index).len() > 0 ==> {
                &&& table_holds(buckets(old(self).index), old(self)@, old(self)@.len() - 1)
                &&& 2 * (old(self)@.len() - 1) <= buckets(old(self).index).len()
            },
        ensures
            final(self).wf(),
            final(self)@ == old(self)@,
            final(self).header == old(self).header.with_len(old(self)@.len() as u32),
    {
        self.sync_len();
        let n: usize = self.len();
        let cap: usize = buckets_slice(&self.index).len();
        if cap == 0 || n * 2 > cap {
            self.reindex();
            return;
        }
        DictObj::place(&mut self.index, &self.slots, n - 1);
    }

    /// The number of entries.
    pub fn len(&self) -> (n: usize)
        ensures
            n == self@.len(),
    {
        let s = entries_slice(&self.slots);
        assert(entry_views(s@).len() == s@.len());
        s.len()
    }

    /// Whether there are no entries.
    pub fn is_empty(&self) -> (r: bool)
        ensures
            r == (self@.len() == 0),
    {
        self.len() == 0
    }

    /// Set `key` to `val`: in place when the key is there, else appended.
    pub fn set(&mut self, key: &str, val: i64)
        requires
            old(self).wf(),
            old(self)@.len() < dict_max(),
        ensures
            final(self).wf(),
            final(self)@ == put(old(self)@, key@, val),
            final(self).header == old(self).header.with_len(final(self)@.len() as u32),
    {
        self.insert(key, val);
    }

    /// Set `key` to `val` and return the word it replaced.
    pub fn insert(&mut self, key: &str, val: i64) -> (r: Option<i64>)
        requires
            old(self).wf(),
            old(self)@.len() < dict_max(),
        ensures
            final(self).wf(),
            final(self)@ == put(old(self)@, key@, val),
            final(self).header == old(self).header.with_len(final(self)@.len() as u32),
            r == lookup(old(self)@, key@),
    {
        match self.find(key) {
            Some(i) => {
                proof {
                    key_index_is(self@, key@, i as int);
                    put_keeps_unique(self@, key@, val);
                }
                let before: i64 = self.word_at(i);
                entries_set(&mut self.slots, i, val);
                proof {
                    let s = old(self)@;
                    let t = self@;
                    let ix = buckets(self.index);
                    assert(t =~= put(s, key@, val));
                    if ix.len() > 0 {
                        assert forall|p: int| 0 <= p < t.len() implies #[trigger] found(
                            ix,
                            t[p].0,
                            p,
                        ) by {
                            assert(found(ix, s[p].0, p));
                        }
                    }
                }
                Some(before)
            },
            None => {
                proof {
                    put_keeps_unique(self@, key@, val);
                }
                entries_push(&mut self.slots, key.to_owned(), val);
                proof {
                    let s = old(self)@;
                    let t = self@;
                    let ix = buckets(self.index);
                    if ix.len() > 0 {
                        assert forall|p: int| 0 <= p < t.len() - 1 implies #[trigger] found(
                            ix,
                            t[p].0,
                            p,
                        ) by {
                            assert(found(ix, s[p].0, p));
                        }
                    }
                }
                self.index_appended();
                None
            },
        }
    }

    /// The word of entry `i`.
    fn word_at(&self, i: usize) -> (w: i64)
        requires
            i < self@.len(),
        ensures
            w == self@[i as int].1,
    {
        let s = entries_slice(&self.slots);
        assert(entry_views(s@)[i as int].1 == s@[i as int].1);
        s[i].1
    }

    /// The word under `key`.
    pub fn get(&self, key: &str) -> (r: Option<&i64>)
        requires
            self.wf(),
        ensures
            match r {
                Some(w) => lookup(self@, key@) == Some(*w),
                None => lookup(self@, key@) is None,
            },
    {
        match self.find(key) {
            Some(i) => {
                proof {
                    key_index_is(self@, key@, i as int);
                }
                let s = entries_slice(&self.slots);
                assert(entry_views(s@)[i as int].1 == s@[i as int].1);
                Some(&s[i].1)
            },
            None => None,
        }
    }

    /// Whether `key` is present.
    pub fn contains(&self, key: &str) -> (r: bool)
        requires
            self.wf(),
        ensures
            r == has_key(self@, key@),
    {
        self.find(key).is_some()
    }

    /// Whether `key` is present.
    pub fn contains_key(&self, key: &str) -> (r: bool)
        requires
            self.wf(),
        ensures
            r == has_key(self@, key@),
    {
        self.contains(key)
    }

    /// Remove `key` and return its word; the other entries keep their order.
    pub fn remove(&mut self, key: &str) -> (r: Option<i64>)
        requires
            old(self).wf(),
        ensures
            final(self).wf(),
            final(self)@ == without(old(self)@, key@),
            final(self).header == old(self).header.with_len(final(self)@.len() as u32),
            r == lookup(old(self)@, key@),
    {
        match self.find(key) {
            Some(i) => {
                proof {
                    key_index_is(self@, key@, i as int);
                    lookup_after_remove(self@, key@, key@);
                }
                let (_, v) = entries_remove(&mut self.slots, i);
                self.sync_len();
                self.reindex();
                Some(v)
            },
            None => None,
        }
    }

    /// A copy with a fresh header; the words are shared.
    pub fn value_copy(&self) -> (d: DictObj)
        requires
            self.wf(),
        ensures
            d.wf(),
            d@ == self@,
            d.header.fresh(ObjKind::Dict),
    {
        let s = entries_slice(&self.slots);
        let mut d = DictObj::new();
        let mut i: usize = 0;
        while i < s.len()
            invariant
                i <= s@.len(),
                entry_views(s@) == self@,
                entries(d.slots) == self@.take(i as int),
                d.header.fresh(ObjKind::Dict),
            decreases s@.len() - i,
        {
            assert(entry_views(s@)[i as int] == (s@[i as int].0@, s@[i as int].1));
            entries_push(&mut d.slots, s[i].0.clone(), s[i].1);
            i += 1;
            assert(self@.take(i as int) =~= self@.take(i - 1).push(self@[i - 1]));
        }
        assert(entry_views(s@).len() == s@.len());
        assert(self@.take(i as int) =~= self@);
        d.sync_len();
        d.reindex();
        d
    }

    /// The entries, in insertion order.
    pub fn entries(&self) -> (r: &[(String, i64)])
        ensures
            entry_views(r@) == self@,
    {
        entries_slice(&self.slots)
    }

    /// Copy the entry count into the header.
    fn sync_len(&mut self)
        ensures
            final(self).slots == old(self).slots,
            final(self).index == old(self).index,
            final(self).header == old(self).header.with_len(old(self)@.len() as u32),
    {
        let n: usize = self.len();
        self.header.len = n as u32;
    }

    /// The keys, in insertion order.
    pub fn keys(&self) -> (r: Vec<String>)
        ensures
            crate::text::texts(r@) == self@.map_values(|e: (Seq<char>, i64)| e.0),
    {
        let s = entries_slice(&self.slots);
        let mut r: Vec<String> = Vec::new();
        let mut i: usize = 0;
        while i < s.len()
            invariant
                i <= s@.len(),
                entry_views(s@) == self@,
                r@.len() == i,
                forall|j: int| 0 <= j < i ==> #[trigger] r@[j]@ == self@[j].0,
            decreases s@.len() - i,
        {
            assert(entry_views(s@)[i as int].0 == s@[i as int].0@);
            r.push(s[i].0.clone());
            i += 1;
        }
        assert(entry_views(s@).len() == s@.len());
        assert(crate::text::texts(r@) =~= self@.map_values(|e: (Seq<char>, i64)| e.0));
        r
    }

    /// The words, in insertion order.
    pub fn values(&self) -> (r: Vec<i64>)
        ensures
            r@ == self@.map_values(|e: (Seq<char>, i64)| e.1),
    {
        let s = entries_slice(&self.slots);
        let mut r: Vec<i64> = Vec::new();
        let mut i: usize = 0;
        while i < s.len()
            invariant
                i <= s@.len(),
                entry_views(s@) == self@,
                r@.len() == i,
                forall|j: int| 0 <= j < i ==> #[trigger] r@[j] == self@[j].1,
            decreases s@.len() - i,
        {
            assert(entry_views(s@)[i as int].1 == s@[i as int].1);
            r.push(s[i].1);
            i += 1;
        }
        assert(entry_views(s@).len() == s@.len());
        assert(r@ =~= self@.map_values(|e: (Seq<char>, i64)| e.1));
        r
    }
}

impl Default for DictObj {
    /// An empty dict.
    fn default() -> (d: Self)
        ensures
            d@ == Seq::<(Seq<char>, i64)>::empty(),
            d.wf(),
    {
        DictObj::new()
    }
}

// ── Struct ───────────────────────────────────────────────────────────────────

/// A struct instance: a type name and named fields in definition order.
pub struct StructObj {
    /// Its `len` tracks the number of fields.
    pub header: ObjHeader,
    /// The name of its type.
    pub struct_name: String,
    /// The fields, in definition order.
    pub slots: Entries,
}

impl View for StructObj {
    type V = Seq<(Seq<char>, i64)>;

    closed spec fn view(&self) -> Seq<(Seq<char>, i64)> {
        entries(self.slots)
    }
}

impl StructObj {
    /// Field names are unique and the header's length is the field count.
    pub open spec fn wf(&self) -> bool {
        &&& unique_keys(self@)
        &&& self.header.len == self@.len() as u32
        &&& self.header.kind == spec_kind_byte(ObjKind::Struct)
    }

    /// Structs with the same store hold the same fields.
    pub proof fn same_fields(&self, other: &StructObj)
        requires
            self.slots == other.slots,
        ensures
            self@ == other@,
    {
    }

    /// A struct of the given type with no fields yet.
    pub fn new(struct_name: &str) -> (s: Self)
        ensures
            s@ == Seq::<(Seq<char>, i64)>::empty(),
            s.struct_name@ == struct_name@,
            s.wf(),
            s.header.fresh(ObjKind::Struct),
    {
        StructObj {
            header: ObjHeader::new(ObjKind::Struct, 0),
            struct_name: struct_name.to_owned(),
            slots: entries_new(),
        }
    }

    /// The name of its type.
    pub fn struct_name(&self) -> (r: &str)
        ensures
            r@ == self.struct_name@,
    {
        self.struct_name.as_str()
    }

    /// The number of fields.
    pub fn len(&self) -> (n: usize)
        ensures
            n == self@.len(),
    {
        let s = entries_slice(&self.slots);
        assert(entry_views(s@).len() == s@.len());
        s.len()
    }

    /// Whether there are no fields.
    pub fn is_empty(&self) -> (r: bool)
        ensures
            r == (self@.len() == 0),
    {
        self.len() == 0
    }

    /// The position of a field.
    fn find(&self, field: &str) -> (r: Option<usize>)
        ensures
            match r {
                Some(i) => key_at(self@, field@, i as int),
                None => !has_key(self@, field@),
            },
    {
        let slots = entries_slice(&self.slots);
        let mut i: usize = 0;
        while i < slots.len()
            invariant
                i <= slots@.len(),
                entry_views(slots@) == self@,
                forall|j: int| 0 <= j < i ==> self@[j].0 != field@,
            decreases slots@.len() - i,
        {
            assert(entry_views(slots@)[i as int].0 == slots@[i as int].0@);
            if str_eq(slots[i].0.as_str(), field) {
                assert(key_at(self@, field@, i as int));
                return Some(i);
            }
            i += 1;
        }
        assert(slots@.len() == self@.len());
        None
    }

    /// Set a field: in place when it is there, else appended.
    pub fn set_field(&mut self, field: &str, val: i64)
        requires
            old(self).wf(),
        ensures
            final(self).wf(),
            final(self)@ == put(old(self)@, field@, val),
            final(self).struct_name == old(self).struct_name,
            final(self).header == old(self).header.with_len(final(self)@.len() as u32),
    {
        proof {
            put_keeps_unique(self@, field@, val);
        }
        match self.find(field) {
            Some(i) => {
                proof {
                    key_index_is(self@, field@, i as int);
                }
                entries_set(&mut self.slots, i, val);
            },
            None => {
                entries_push(&mut self.slots, field.to_owned(), val);
                self.sync_len();
            },
        }
    }

    /// The word of a field.
    pub fn get_field(&self, field: &str) -> (r: Option<&i64>)
        requires
            self.wf(),
        ensures
            match r {
                Some(w) => lookup(self@, field@) == Some(*w),
                None => lookup(self@, field@) is None,
            },
    {
        match self.find(field) {
            Some(i) => {
                proof {
                    key_index_is(self@, field@, i as int);
                }
                let s = entries_slice(&self.slots);
                assert(entry_views(s@)[i as int].1 == s@[i as int].1);
                Some(&s[i].1)
            },
            None => None,
        }
    }

    /// The fields, in definition order.
    pub fn fields(&self) -> (r: &[(String, i64)])
        ensures
            entry_views(r@) == self@,
    {
        entries_slice(&self.slots)
    }

    /// The words, in definition order.
    pub fn values(&self) -> (r: Vec<i64>)
        ensures
            r@ == self@.map_values(|e: (Seq<char>, i64)| e.1),
    {
        let s = entries_slice(&self.slots);
        let mut r: Vec<i64> = Vec::new();
        let mut i: usize = 0;
        while i < s.len()
            invariant
                i <= s@.len(),
                entry_views(s@) == self@,
                r@.len() == i,
                forall|j: int| 0 <= j < i ==> #[trigger] r@[j] == self@[j].1,
            decreases s@.len() - i,
        {
            assert(entry_views(s@)[i as int].1 == s@[i as int].1);
            r.push(s[i].1);
            i += 1;
        }
        assert(entry_views(s@).len() == s@.len());
        assert(r@ =~= self@.map_values(|e: (Seq<char>, i64)| e.1));
        r
    }

    /// Copy the field count into the header.
    fn sync_len(&mut self)
        ensures
            final(self).slots == old(self).slots,
            final(self).struct_name == old(self).struct_name,
            final(self).header == old(self).header.with_len(old(self)@.len() as u32),
    {
        let n: usize = self.len();
        self.header.len = n as u32;
    }
}

// ── Laws ─────────────────────────────────────────────────────────────────────

/// A key that is there reads as its entry says.
pub proof fn entries_are_found(s: Seq<(Seq<char>, i64)>, i: int)
    requires
        unique_keys(s),
        0 <= i < s.len(),
    ensures
        lookup(s, s[i].0) == Some(s[i].1),
{
    assert(key_at(s, s[i].0, i));
    key_index_is(s, s[i].0, i);
}

/// A key that is not there reads as nothing, and removing it changes nothing.
pub proof fn absent_keys_are_not_found(s: Seq<(Seq<char>, i64)>, k: Seq<char>)
    requires
        forall|i: int| 0 <= i < s.len() ==> (#[trigger] s[i]).0 != k,
    ensures
        lookup(s, k) is None,
        without(s, k) == s,
{
    if has_key(s, k) {
        let i = key_index(s, k);
        assert(key_at(s, k, i));
        assert(s[i].0 == k);
    }
}

/// Setting a key that is there changes its value in place, and a new key goes behind all
/// others.
pub proof fn keys_keep_their_places(s: Seq<(Seq<char>, i64)>, i: int, k: Seq<char>, v: i64)
    requires
        unique_keys(s),
    ensures
        0 <= i < s.len() ==> put(s, s[i].0, v) == s.update(i, (s[i].0, v)),
        (forall|j: int| 0 <= j < s.len() ==> (#[trigger] s[j]).0 != k) ==> put(s, k, v) == s.push(
            (k, v),
        ),
{
    if 0 <= i < s.len() {
        assert(key_at(s, s[i].0, i));
    key_index_is(s, s[i].0, i);
    }
    if forall|j: int| 0 <= j < s.len() ==> (#[trigger] s[j]).0 != k {
        absent_keys_are_not_found(s, k);
    }
}

/// Removing a key takes out its entry, and the others keep their order.
pub proof fn removing_closes_the_gap(s: Seq<(Seq<char>, i64)>, i: int)
    requires
        unique_keys(s),
        0 <= i < s.len(),
    ensures
        without(s, s[i].0) == s.take(i) + s.skip(i + 1),
{
    assert(key_at(s, s[i].0, i));
    key_index_is(s, s[i].0, i);
    assert(s.remove(i) =~= s.take(i) + s.skip(i + 1));
}

} // verus!
