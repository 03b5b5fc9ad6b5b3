//! Sorting entries by key.

use vstd::prelude::*;

use crate::text::str_less;
#[allow(unused_imports)]
use crate::text::{lex_irreflexive, lex_le, lex_less, lex_total, lex_transitive};

verus! {

/// The texts of the keys, with the values.
pub open spec fn keyed<T>(s: Seq<(String, T)>) -> Seq<(Seq<char>, T)> {
    Seq::new(s.len(), |i: int| (s[i].0@, s[i].1))
}

/// Where an entry with key `k` goes among sorted entries: behind the last whose key
/// does not come after `k`.
pub open spec fn slot_for<T>(s: Seq<(Seq<char>, T)>, k: Seq<char>) -> int
    decreases s.len(),
{
    if s.len() > 0 && lex_less(k, s.last().0) {
        slot_for(s.drop_last(), k)
    } else {
        s.len() as int
    }
}

/// The entries in ascending order of key; entries with the same key keep their order.
pub open spec fn by_key<T>(s: Seq<(Seq<char>, T)>) -> Seq<(Seq<char>, T)>
    decreases s.len(),
{
    if s.len() == 0 {
        seq![]
    } else {
        let t = by_key(s.drop_last());
        t.insert(slot_for(t, s.last().0), s.last())
    }
}

/// The keys ascend.
pub open spec fn keys_ascend<T>(s: Seq<(Seq<char>, T)>) -> bool {
    forall|i: int, j: int| 0 <= i <= j < s.len() ==> lex_le(#[trigger] s[i].0, #[trigger] s[j].0)
}

/// A slot lies within the entries.
proof fn slot_in_range<T>(s: Seq<(Seq<char>, T)>, k: Seq<char>)
    ensures
        0 <= slot_for(s, k) <= s.len(),
    decreases s.len(),
{
    if s.len() > 0 && lex_less(k, s.last().0) {
        slot_in_range(s.drop_last(), k);
    }
}

/// Everything before the slot is at most `k`, everything behind it is above.
proof fn slot_splits<T>(s: Seq<(Seq<char>, T)>, k: Seq<char>)
    requires
        keys_ascend(s),
    ensures
        0 <= slot_for(s, k) <= s.len(),
        forall|i: int| 0 <= i < slot_for(s, k) ==> lex_le(#[trigger] s[i].0, k),
        forall|i: int| slot_for(s, k) <= i < s.len() ==> lex_less(k, #[trigger] s[i].0),
    decreases s.len(),
{
    if s.len() > 0 {
        let r = s.drop_last();
        if lex_less(k, s.last().0) {
            assert forall|i: int, j: int| 0 <= i <= j < r.len() implies lex_le(
                #[trigger] r[i].0,
                #[trigger] r[j].0,
            ) by {
                assert(lex_le(s[i].0, s[j].0));
            }
            slot_splits(r, k);
            assert forall|i: int| 0 <= i < slot_for(s, k) implies lex_le(
                #[trigger] s[i].0,
                k,
            ) by {
                assert(lex_le(r[i].0, k));
            }
            assert forall|i: int| slot_for(s, k) <= i < s.len() implies lex_less(
                k,
                #[trigger] s[i].0,
            ) by {
                if i < r.len() {
                    assert(lex_less(k, r[i].0));
                }
            }
        } else {
            lex_total(k, s.last().0);
            assert forall|i: int| 0 <= i < slot_for(s, k) implies lex_le(
                #[trigger] s[i].0,
                k,
            ) by {
                assert(lex_le(s[i].0, s[s.len() - 1].0));
                if s[i].0 != s.last().0 && s.last().0 != k {
                    lex_transitive(s[i].0, s.last().0, k);
                }
            }
        }
    }
}

/// Sorting gives ascending keys and keeps exactly the entries.
pub proof fn sorting_sorts<T>(s: Seq<(Seq<char>, T)>)
    ensures
        keys_ascend(by_key(s)),
        by_key(s).to_multiset() == s.to_multiset(),
        by_key(s).len() == s.len(),
    decreases s.len(),
{
    if s.len() > 0 {
        let r = s.drop_last();
        let t = by_key(r);
        let x = s.last();
        let p = slot_for(t, x.0);
        sorting_sorts(r);
        slot_splits(t, x.0);
        let u = t.insert(p, x);
        assert forall|i: int, j: int| 0 <= i <= j < u.len() implies lex_le(
            #[trigger] u[i].0,
            #[trigger] u[j].0,
        ) by {
            let a = if i < p { i } else { i - 1 };
            let b = if j < p { j } else { j - 1 };
            if i != p && j != p {
                assert(lex_le(t[a].0, t[b].0));
            } else if i == p && j != p {
                assert(lex_less(x.0, t[b].0));
            } else if i != p && j == p {
                assert(lex_le(t[a].0, x.0));
            }
        }
        vstd::seq_lib::to_multiset_insert(t, p, x);
        assert(s =~= r.push(x));
        vstd::seq_lib::to_multiset_build(r, x);
        assert(u.to_multiset() =~= s.to_multiset());
    } else {
        assert(by_key(s) =~= s);
    }
}

/// Sorted entries with one more in its slot.
pub open spec fn inserted<T>(s: Seq<(Seq<char>, T)>, x: (Seq<char>, T)) -> Seq<(Seq<char>, T)> {
    s.insert(slot_for(s, x.0), x)
}

/// An entry goes behind the last, or among those before it.
proof fn inserted_is<T>(s: Seq<(Seq<char>, T)>, x: (Seq<char>, T))
    ensures
        s.len() > 0 && lex_less(x.0, s.last().0) ==> inserted(s, x) == inserted(
            s.drop_last(),
            x,
        ).push(s.last()),
        s.len() == 0 || !lex_less(x.0, s.last().0) ==> inserted(s, x) == s.push(x),
{
    if s.len() > 0 && lex_less(x.0, s.last().0) {
        let r = s.drop_last();
        slot_in_range(r, x.0);
        assert(inserted(s, x) =~= inserted(r, x).push(s.last()));
    } else {
        assert(inserted(s, x) =~= s.push(x));
    }
}

/// Two runs of entries merged: the later key last, and of equal keys the one of the first
/// run first.
spec fn merged<T>(a: Seq<(Seq<char>, T)>, b: Seq<(Seq<char>, T)>) -> Seq<(Seq<char>, T)>
    decreases a.len() + b.len(),
{
    if a.len() == 0 {
        b
    } else if b.len() == 0 {
        a
    } else if lex_less(b.last().0, a.last().0) {
        merged(a.drop_last(), b).push(a.last())
    } else {
        merged(a, b.drop_last()).push(b.last())
    }
}

/// An entry behind two merged runs is one behind the second of them.
proof fn merging_inserts<T>(
    a: Seq<(Seq<char>, T)>,
    b: Seq<(Seq<char>, T)>,
    x: (Seq<char>, T),
)
    ensures
        inserted(merged(a, b), x) == merged(a, inserted(b, x)),
    decreases a.len() + b.len(),
{
    inserted_is(b, x);
    inserted_is(merged(a, b), x);
    let bx = inserted(b, x);
    if a.len() == 0 {
    } else if b.len() == 0 {
        assert(bx.drop_last() =~= b);
        inserted_is(a, x);
        if lex_less(x.0, a.last().0) {
            assert(b =~= seq![]);
            merging_inserts(a.drop_last(), b, x);
            assert(merged(a.drop_last(), b) =~= a.drop_last());
        }
    } else if lex_less(b.last().0, a.last().0) {
        let m = merged(a.drop_last(), b);
        assert(merged(a, b).drop_last() =~= m);
        if lex_less(x.0, a.last().0) {
            merging_inserts(a.drop_last(), b, x);
        } else {
            lex_total(x.0, a.last().0);
            if lex_less(x.0, b.last().0) {
                lex_transitive(x.0, b.last().0, a.last().0);
            }
            assert(bx.drop_last() =~= b);
        }
    } else {
        let m = merged(a, b.drop_last());
        assert(merged(a, b).drop_last() =~= m);
        if lex_less(x.0, b.last().0) {
            merging_inserts(a, b.drop_last(), x);
            assert(bx.drop_last() =~= inserted(b.drop_last(), x));
        } else {
            if lex_less(x.0, a.last().0) {
                lex_total(x.0, b.last().0);
                if x.0 != b.last().0 {
                    lex_transitive(b.last().0, x.0, a.last().0);
                }
            }
            assert(bx.drop_last() =~= b);
        }
    }
}

/// Merging two sorted halves sorts the whole.
proof fn merging_sorts<T>(a: Seq<(Seq<char>, T)>, b: Seq<(Seq<char>, T)>)
    ensures
        by_key(a + b) == merged(by_key(a), by_key(b)),
    decreases b.len(),
{
    if b.len() == 0 {
        assert(a + b =~= a);
        if by_key(a).len() == 0 {
            assert(by_key(a) =~= seq![]);
        }
    } else {
        merging_sorts(a, b.drop_last());
        assert((a + b).drop_last() =~= a + b.drop_last());
        merging_inserts(by_key(a), by_key(b.drop_last()), b.last());
    }
}

/// The last entry of a list, taken off it.
proof fn keyed_pops<T>(s: Seq<(String, T)>)
    requires
        s.len() > 0,
    ensures
        keyed(s.drop_last()) == keyed(s).drop_last(),
        keyed(s).last() == (s.last().0@, s.last().1),
{
    assert(keyed(s.drop_last()) =~= keyed(s).drop_last());
}

/// Merge two runs of entries.
fn merge<T>(first: Vec<(String, T)>, second: Vec<(String, T)>) -> (r: Vec<(String, T)>)
    ensures
        keyed(r@) == merged(keyed(first@), keyed(second@)),
{
    let mut a: Vec<(String, T)> = first;
    let mut b: Vec<(String, T)> = second;
    let ghost all = merged(keyed(a@), keyed(b@));
    let mut back: Vec<(String, T)> = Vec::new();
    assert(all + keyed(back@).reverse() =~= all);
    while a.len() > 0 || b.len() > 0
        invariant
            merged(keyed(a@), keyed(b@)) + keyed(back@).reverse() == all,
        decreases a@.len() + b@.len(),
    {
        let ghost done = back@;
        let ghost left = merged(keyed(a@), keyed(b@));
        let ghost x = keyed(a@);
        let ghost y = keyed(b@);
        proof {
            if a@.len() > 0 {
                keyed_pops(a@);
            }
            if b@.len() > 0 {
                keyed_pops(b@);
            }
        }
        let from_first: bool = if a.len() == 0 {
            false
        } else if b.len() == 0 {
            true
        } else {
            str_less(b[b.len() - 1].0.as_str(), a[a.len() - 1].0.as_str())
        };
        let e: Option<(String, T)> = if from_first {
            a.pop()
        } else {
            b.pop()
        };
        match e {
            Some(e) => {
                let ghost k = (e.0@, e.1);
                back.push(e);
                proof {
                    assert(keyed(back@) =~= keyed(done).push(k));
                    assert(keyed(back@).reverse() =~= seq![k] + keyed(done).reverse());
                    merged_pops(x, y, from_first);
                    assert(left =~= merged(keyed(a@), keyed(b@)).push(k));
                    assert(merged(keyed(a@), keyed(b@)) + keyed(back@).reverse() =~= left
                        + keyed(done).reverse());
                }
            },
            None => {},
        }
    }
    assert(keyed(a@) =~= seq![]);
    assert(keyed(b@) =~= seq![]);
    assert(keyed(back@).reverse() =~= all);
    let mut out: Vec<(String, T)> = Vec::new();
    assert(keyed(out@) + keyed(back@).reverse() =~= all);
    while back.len() > 0
        invariant
            keyed(out@) + keyed(back@).reverse() == all,
        decreases back@.len(),
    {
        let ghost rest = keyed(back@);
        let ghost done = keyed(out@);
        proof {
            keyed_pops(back@);
        }
        match back.pop() {
            Some(e) => {
                let ghost k = (e.0@, e.1);
                out.push(e);
                proof {
                    assert(keyed(out@) =~= done.push(k));
                    assert(rest.reverse() =~= seq![k] + rest.drop_last().reverse());
                    assert(keyed(out@) + keyed(back@).reverse() =~= done + rest.reverse());
                }
            },
            None => {},
        }
    }
    assert(keyed(back@).reverse() =~= seq![]);
    assert(keyed(out@) + keyed(back@).reverse() =~= keyed(out@));
    out
}

/// What is last of two merged runs, and what is left of them.
proof fn merged_pops<T>(a: Seq<(Seq<char>, T)>, b: Seq<(Seq<char>, T)>, from_first: bool)
    requires
        a.len() > 0 || b.len() > 0,
        from_first == (a.len() > 0 && (b.len() == 0 || lex_less(b.last().0, a.last().0))),
    ensures
        from_first ==> merged(a, b) == merged(a.drop_last(), b).push(a.last()),
        !from_first ==> merged(a, b) == merged(a, b.drop_last()).push(b.last()),
{
    if b.len() == 0 {
        assert(b =~= seq![]);
        assert(merged(a.drop_last(), b) =~= a.drop_last());
        assert(a.drop_last().push(a.last()) =~= a);
    } else if a.len() == 0 {
        assert(b.drop_last().push(b.last()) =~= b);
    }
}

/// Sort entries by key, ascending; entries with the same key keep their order.
pub fn sort_by_key<T>(v: Vec<(String, T)>) -> (r: Vec<(String, T)>)
    ensures
        keyed(r@) == by_key(keyed(v@)),
    decreases v@.len(),
{
    let ghost s = keyed(v@);
    let n: usize = v.len();
    if n < 2 {
        proof {
            if n == 1 {
                assert(s.drop_last() =~= seq![]);
                let none = by_key(s.drop_last());
                assert(none =~= seq![]);
                assert(none.insert(slot_for(none, s.last().0), s.last()) =~= s);
            } else {
                assert(by_key(s) =~= s);
            }
        }
        return v;
    }
    let mut first: Vec<(String, T)> = v;
    let second: Vec<(String, T)> = first.split_off(n / 2);
    proof {
        merging_sorts(keyed(first@), keyed(second@));
        assert(keyed(first@) + keyed(second@) =~= s);
    }
    merge(sort_by_key(first), sort_by_key(second))
}

// ── Laws ─────────────────────────────────────────────────────────────────────

/// No two entries share a key.
pub open spec fn distinct_keys<T>(s: Seq<(Seq<char>, T)>) -> bool {
    forall|i: int, j: int|
        0 <= i < j < s.len() ==> (#[trigger] s[i]).0 != (#[trigger] s[j]).0
}

/// The keys ascend, and none occurs twice.
pub open spec fn keys_climb<T>(s: Seq<(Seq<char>, T)>) -> bool {
    forall|i: int, j: int|
        0 <= i < j < s.len() ==> lex_less((#[trigger] s[i]).0, (#[trigger] s[j]).0)
}

/// Every entry occurs in a rearrangement as often as in the entries.
proof fn rearranged_has<T>(s: Seq<(Seq<char>, T)>, t: Seq<(Seq<char>, T)>, i: int) -> (j: int)
    requires
        s.to_multiset() == t.to_multiset(),
        0 <= i < s.len(),
    ensures
        0 <= j < t.len(),
        t[j] == s[i],
{
    vstd::seq_lib::to_multiset_contains(s, s[i]);
    vstd::seq_lib::to_multiset_contains(t, s[i]);
    assert(s.contains(s[i]));
    assert(t.contains(s[i]));
    t.index_of(s[i])
}

/// A rearrangement of entries with distinct keys has distinct keys.
proof fn rearranged_distinct<T>(s: Seq<(Seq<char>, T)>, t: Seq<(Seq<char>, T)>)
    requires
        distinct_keys(s),
        s.to_multiset() == t.to_multiset(),
    ensures
        distinct_keys(t),
{
    assert(s.no_duplicates()) by {
        assert forall|i: int, j: int| 0 <= i < s.len() && 0 <= j < s.len() && i != j implies s[i]
            != s[j] by {
            if i < j {
                assert(s[i].0 != s[j].0);
            } else {
                assert(s[j].0 != s[i].0);
            }
        }
    }
    s.lemma_multiset_has_no_duplicates();
    t.lemma_multiset_has_no_duplicates_conv();
    assert forall|i: int, j: int| 0 <= i < j < t.len() implies (#[trigger] t[i]).0 != (
    #[trigger] t[j]).0 by {
        let a = rearranged_has(t, s, i);
        let b = rearranged_has(t, s, j);
        assert(t[i] != t[j]);
        if a < b {
            assert(s[a].0 != s[b].0);
        } else if b < a {
            assert(s[b].0 != s[a].0);
        }
    }
}

/// Two rearrangements with ascending, distinct keys are the same.
proof fn ascending_is_unique<T>(s: Seq<(Seq<char>, T)>, t: Seq<(Seq<char>, T)>)
    requires
        keys_ascend(s),
        keys_ascend(t),
        distinct_keys(s),
        distinct_keys(t),
        s.to_multiset() == t.to_multiset(),
    ensures
        s == t,
    decreases s.len(),
{
    vstd::seq_lib::to_multiset_len(s);
    vstd::seq_lib::to_multiset_len(t);
    if s.len() == 0 {
        assert(s =~= t);
    } else {
        let n = s.len() - 1;
        let a = rearranged_has(s, t, n);
        let b = rearranged_has(t, s, n);
        assert(lex_le(t[a].0, t[n].0));
        assert(lex_le(s[b].0, s[n].0));
        if s[n] != t[n] {
            assert(s[b].0 != s[n].0);
            lex_transitive(s[n].0, t[n].0, s[n].0);
            lex_irreflexive(s[n].0);
        }
        let u = s.drop_last();
        let v = t.drop_last();
        vstd::seq_lib::to_multiset_build(u, s[n]);
        vstd::seq_lib::to_multiset_build(v, t[n]);
        assert(u.push(s[n]) =~= s);
        assert(v.push(t[n]) =~= t);
        assert(u.to_multiset() =~= s.to_multiset().remove(s[n]));
        assert(v.to_multiset() =~= t.to_multiset().remove(t[n]));
        assert forall|i: int, j: int| 0 <= i <= j < u.len() implies lex_le(
            #[trigger] u[i].0,
            #[trigger] u[j].0,
        ) by {
            assert(lex_le(s[i].0, s[j].0));
        }
        assert forall|i: int, j: int| 0 <= i <= j < v.len() implies lex_le(
            #[trigger] v[i].0,
            #[trigger] v[j].0,
        ) by {
            assert(lex_le(t[i].0, t[j].0));
        }
        assert forall|i: int, j: int| 0 <= i < j < u.len() implies (#[trigger] u[i]).0 != (
        #[trigger] u[j]).0 by {
            assert(s[i].0 != s[j].0);
        }
        assert forall|i: int, j: int| 0 <= i < j < v.len() implies (#[trigger] v[i]).0 != (
        #[trigger] v[j]).0 by {
            assert(t[i].0 != t[j].0);
        }
        ascending_is_unique(u, v);
        assert(s =~= t);
    }
}

/// Sorting entries with distinct keys makes the keys ascend strictly.
pub proof fn distinct_keys_climb<T>(s: Seq<(Seq<char>, T)>)
    requires
        distinct_keys(s),
    ensures
        keys_climb(by_key(s)),
{
    sorting_sorts(s);
    let t = by_key(s);
    rearranged_distinct(s, t);
    assert forall|i: int, j: int| 0 <= i < j < t.len() implies lex_less(
        (#[trigger] t[i]).0,
        (#[trigger] t[j]).0,
    ) by {
        assert(lex_le(t[i].0, t[j].0));
    }
}

/// Where keys are distinct, the order in which entries come does not matter to the
/// sorted ones.
pub proof fn sorting_forgets_the_order<T>(s: Seq<(Seq<char>, T)>, t: Seq<(Seq<char>, T)>)
    requires
        distinct_keys(s),
        s.to_multiset() == t.to_multiset(),
    ensures
        by_key(s) == by_key(t),
{
    sorting_sorts(s);
    sorting_sorts(t);
    rearranged_distinct(s, by_key(s));
    rearranged_distinct(s, by_key(t));
    ascending_is_unique(by_key(s), by_key(t));
}

/// Entries whose keys do not descend stay as they are: those with equal keys keep their
/// order.
pub proof fn sorting_keeps_the_sorted<T>(s: Seq<(Seq<char>, T)>)
    requires
        forall|i: int| 0 < i < s.len() ==> !lex_less((#[trigger] s[i]).0, s[i - 1].0),
    ensures
        by_key(s) == s,
    decreases s.len(),
{
    if s.len() > 0 {
        let t = s.drop_last();
        assert forall|i: int| 0 < i < t.len() implies !lex_less(
            (#[trigger] t[i]).0,
            t[i - 1].0,
        ) by {
            assert(t[i] == s[i]);
            assert(t[i - 1] == s[i - 1]);
        }
        sorting_keeps_the_sorted(t);
        if t.len() > 0 {
            let n = s.len() - 1;
            assert(!lex_less(s[n].0, s[n - 1].0));
            assert(t.last() == s[n - 1]);
        }
        assert(slot_for(t, s.last().0) == t.len());
        assert(t.insert(t.len() as int, s.last()) =~= s);
    } else {
        assert(by_key(s) =~= s);
    }
}

} // verus!
