//! The growable backing stores of the collections.
//!
//! Arrays, dicts and structs keep their elements in `allocator_api2`'s `Vec`. Verus
//! does not read that crate, so each method used is declared here with what it does
//! to the contents. Running out of memory is outside these contracts.

use vstd::prelude::*;

verus! {

/// A store of value words: an `allocator_api2` `Vec`.
#[verifier::external_body]
pub struct Words {
    v: allocator_api2::vec::Vec<i64>,
}

/// A store of keyed value words: an `allocator_api2` `Vec`.
#[verifier::external_body]
pub struct Entries {
    v: allocator_api2::vec::Vec<(String, i64)>,
}

/// A store of bucket numbers: an `allocator_api2` `Vec`.
#[verifier::external_body]
pub struct Buckets {
    v: allocator_api2::vec::Vec<u32>,
}

/// The words a store of words holds.
pub uninterp spec fn words(v: Words) -> Seq<i64>;

/// The key and word of each entry a store of entries holds.
pub uninterp spec fn entries(v: Entries) -> Seq<(Seq<char>, i64)>;

/// The numbers a store of bucket numbers holds.
pub uninterp spec fn buckets(v: Buckets) -> Seq<u32>;

/// The keys and words of a sequence of entries.
pub open spec fn entry_views(s: Seq<(String, i64)>) -> Seq<(Seq<char>, i64)> {
    Seq::new(s.len(), |i: int| (s[i].0@, s[i].1))
}

/// `Vec::new` makes an empty store.
#[verifier::external_body]
pub(crate) fn words_new() -> (v: Words)
    ensures
        words(v) == Seq::<i64>::empty(),
{
    Words { v: allocator_api2::vec::Vec::new() }
}

/// `Vec::push` appends at the end.
#[verifier::external_body]
pub(crate) fn words_push(v: &mut Words, w: i64)
    ensures
        words(*final(v)) == words(*old(v)).push(w),
{
    v.v.push(w)
}

/// `Vec::pop` removes the last word and returns it; an empty store stays empty.
#[verifier::external_body]
pub(crate) fn words_pop(v: &mut Words) -> (r: Option<i64>)
    ensures
        words(*old(v)).len() == 0 ==> r is None && words(*final(v)) == words(*old(v)),
        words(*old(v)).len() > 0 ==> r == Some(words(*old(v)).last()) && words(*final(v))
            == words(*old(v)).drop_last(),
{
    v.v.pop()
}

/// Indexing for writing (`IndexMut`) replaces one word.
#[verifier::external_body]
pub(crate) fn words_set(v: &mut Words, i: usize, w: i64)
    requires
        i < words(*old(v)).len(),
    ensures
        words(*final(v)) == words(*old(v)).update(i as int, w),
{
    v.v[i] = w;
}

/// `Vec::as_slice` is the whole content, in order.
#[verifier::external_body]
pub(crate) fn words_slice(v: &Words) -> (r: &[i64])
    ensures
        r@ == words(*v),
{
    v.v.as_slice()
}

/// `Vec::new` makes an empty store.
#[verifier::external_body]
pub(crate) fn entries_new() -> (v: Entries)
    ensures
        entries(v) == Seq::<(Seq<char>, i64)>::empty(),
{
    Entries { v: allocator_api2::vec::Vec::new() }
}

/// `Vec::push` appends at the end.
#[verifier::external_body]
pub(crate) fn entries_push(v: &mut Entries, key: String, w: i64)
    ensures
        entries(*final(v)) == entries(*old(v)).push((key@, w)),
{
    v.v.push((key, w))
}

/// `Vec::remove` takes one entry out and shifts the later ones down.
#[verifier::external_body]
pub(crate) fn entries_remove(v: &mut Entries, i: usize) -> (r: (
    String,
    i64,
))
    requires
        i < entries(*old(v)).len(),
    ensures
        (r.0@, r.1) == entries(*old(v))[i as int],
        entries(*final(v)) == entries(*old(v)).remove(i as int),
{
    v.v.remove(i)
}

/// Indexing for writing (`IndexMut`) replaces the word of one entry.
#[verifier::external_body]
pub(crate) fn entries_set(v: &mut Entries, i: usize, w: i64)
    requires
        i < entries(*old(v)).len(),
    ensures
        entries(*final(v)) == entries(*old(v)).update(i as int, (entries(*old(v))[i as int].0, w)),
{
    v.v[i].1 = w;
}

/// `Vec::as_slice` is the whole content, in order.
#[verifier::external_body]
pub(crate) fn entries_slice(v: &Entries) -> (r: &[(String, i64)])
    ensures
        entry_views(r@) == entries(*v),
{
    v.v.as_slice()
}

/// `Vec::new` makes an empty store.
#[verifier::external_body]
pub(crate) fn buckets_new() -> (v: Buckets)
    ensures
        buckets(v) == Seq::<u32>::empty(),
{
    Buckets { v: allocator_api2::vec::Vec::new() }
}

/// `Vec::clear` removes every element.
#[verifier::external_body]
pub(crate) fn buckets_clear(v: &mut Buckets)
    ensures
        buckets(*final(v)) == Seq::<u32>::empty(),
{
    v.v.clear()
}

/// `Vec::resize` cuts the store to `n` elements, or fills it up to `n` with `x`.
#[verifier::external_body]
pub(crate) fn buckets_resize(v: &mut Buckets, n: usize, x: u32)
    ensures
        buckets(*final(v)) == Seq::new(
            n as nat,
            |i: int| if i < buckets(*old(v)).len() { buckets(*old(v))[i] } else { x },
        ),
{
    v.v.resize(n, x)
}

/// Indexing for writing (`IndexMut`) replaces one element.
#[verifier::external_body]
pub(crate) fn buckets_set(v: &mut Buckets, i: usize, x: u32)
    requires
        i < buckets(*old(v)).len(),
    ensures
        buckets(*final(v)) == buckets(*old(v)).update(i as int, x),
{
    v.v[i] = x;
}

/// `Vec::as_slice` is the whole content, in order.
#[verifier::external_body]
pub(crate) fn buckets_slice(v: &Buckets) -> (r: &[u32])
    ensures
        r@ == buckets(*v),
{
    v.v.as_slice()
}

} // verus!
