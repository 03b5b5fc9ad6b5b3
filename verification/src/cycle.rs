//! Telling whether a value contains itself.
//!
//! Rendering and writing follow the words of arrays and dicts to their end, which a value
//! that contains itself does not have.

use vstd::prelude::*;

use crate::gc::Heap;
use crate::obj::{Cell, Obj};
use crate::value::JadeValue;
#[allow(unused_imports)]
use crate::gc::points_at;
#[allow(unused_imports)]
use crate::jsonf::{acyclic, nests_within};
#[allow(unused_imports)]
use crate::store::entry_views;

verus! {

/// The word is known to come to an end: it is no array or dict, or one that is marked.
spec fn word_ends(cells: Seq<Cell>, ends: Seq<bool>, w: i64) -> bool {
    let i = points_at(w);
    if 0 <= i < cells.len() && (cells[i] matches Cell::Obj(Obj::Array(_)) || cells[i]
        matches Cell::Obj(Obj::Dict(_))) {
        ends[i]
    } else {
        true
    }
}

/// Every word in the cell is known to come to an end.
spec fn cell_ends(cells: Seq<Cell>, ends: Seq<bool>, i: int) -> bool {
    match cells[i] {
        Cell::Obj(Obj::Array(a)) => forall|k: int|
            0 <= k < a@.len() ==> word_ends(cells, ends, #[trigger] a@[k]),
        Cell::Obj(Obj::Dict(e)) => forall|k: int|
            0 <= k < e@.len() ==> word_ends(cells, ends, (#[trigger] e@[k]).1),
        _ => true,
    }
}

/// What is marked nests no deeper than `d`.
spec fn marks_nest(cells: Seq<Cell>, ends: Seq<bool>, d: nat) -> bool {
    forall|w: i64|
        0 <= points_at(w) < cells.len() && ends[points_at(w)] ==> #[trigger] nests_within(
            cells,
            w,
            d,
        )
}

/// What nests within a depth nests within a larger one.
proof fn deeper(cells: Seq<Cell>, w: i64, d: nat)
    requires
        nests_within(cells, w, d),
    ensures
        nests_within(cells, w, d + 1),
    decreases d,
{
    let i = points_at(w);
    if 0 <= i < cells.len() && cells[i] is Obj {
        match cells[i]->Obj_0 {
            Obj::Array(a) => {
                assert forall|k: int| 0 <= k < a@.len() implies nests_within(
                    cells,
                    #[trigger] a@[k],
                    d,
                ) by {
                    let b = cells[i]->Obj_0->Array_0;
                    assert(nests_within(cells, b@[k], (d - 1) as nat));
                    deeper(cells, a@[k], (d - 1) as nat);
                }
            },
            Obj::Dict(e) => {
                assert forall|k: int| 0 <= k < e@.len() implies nests_within(
                    cells,
                    (#[trigger] e@[k]).1,
                    d,
                ) by {
                    let f = cells[i]->Obj_0->Dict_0;
                    assert(nests_within(cells, f@[k].1, (d - 1) as nat));
                    deeper(cells, e@[k].1, (d - 1) as nat);
                }
            },
            _ => {},
        }
    }
}

/// A word that is known to end nests within the depth of the marks.
proof fn ended_nests(cells: Seq<Cell>, ends: Seq<bool>, w: i64, d: nat)
    requires
        ends.len() == cells.len(),
        marks_nest(cells, ends, d),
        word_ends(cells, ends, w),
    ensures
        nests_within(cells, w, d),
{
    let i = points_at(w);
    if 0 <= i < cells.len() && ends[i] {
        assert(nests_within(cells, w, d));
    }
}

/// Marking a cell whose words all end keeps the marks sound, one level deeper.
proof fn marking(cells: Seq<Cell>, ends: Seq<bool>, i: int, d: nat)
    requires
        ends.len() == cells.len(),
        0 <= i < cells.len(),
        marks_nest(cells, ends, d),
        cell_ends(cells, ends, i),
    ensures
        marks_nest(cells, ends.update(i, true), d + 1),
{
    let marked = ends.update(i, true);
    assert forall|w: i64|
        0 <= points_at(w) < cells.len() && marked[points_at(w)] implies #[trigger] nests_within(
        cells,
        w,
        d + 1,
    ) by {
        if points_at(w) == i {
            match cells[i] {
                Cell::Obj(Obj::Array(a)) => {
                    assert forall|k: int| 0 <= k < a@.len() implies nests_within(
                        cells,
                        #[trigger] a@[k],
                        d,
                    ) by {
                        ended_nests(cells, ends, a@[k], d);
                    }
                },
                Cell::Obj(Obj::Dict(e)) => {
                    assert forall|k: int| 0 <= k < e@.len() implies nests_within(
                        cells,
                        (#[trigger] e@[k]).1,
                        d,
                    ) by {
                        ended_nests(cells, ends, e@[k].1, d);
                    }
                },
                _ => {},
            }
        } else {
            assert(nests_within(cells, w, d));
            deeper(cells, w, d);
        }
    }
}

/// No cell is left to mark.
spec fn settled(cells: Seq<Cell>, ends: Seq<bool>) -> bool {
    forall|i: int| 0 <= i < cells.len() && !#[trigger] ends[i] ==> !cell_ends(cells, ends, i)
}

/// Where no cell is left to mark, what is not marked nests within no depth.
proof fn unmarked_never_ends(cells: Seq<Cell>, ends: Seq<bool>, w: i64, d: nat)
    requires
        ends.len() == cells.len(),
        settled(cells, ends),
        !word_ends(cells, ends, w),
    ensures
        !nests_within(cells, w, d),
    decreases d,
{
    let i = points_at(w);
    assert(!cell_ends(cells, ends, i));
    if d > 0 && nests_within(cells, w, d) {
        match cells[i]->Obj_0 {
            Obj::Array(a) => {
                let k = choose|k: int|
                    0 <= k < a@.len() && !word_ends(cells, ends, #[trigger] a@[k]);
                assert(nests_within(cells, a@[k], (d - 1) as nat));
                unmarked_never_ends(cells, ends, a@[k], (d - 1) as nat);
            },
            Obj::Dict(e) => {
                let k = choose|k: int|
                    0 <= k < e@.len() && !word_ends(cells, ends, (#[trigger] e@[k]).1);
                assert(nests_within(cells, e@[k].1, (d - 1) as nat));
                unmarked_never_ends(cells, ends, e@[k].1, (d - 1) as nat);
            },
            _ => {},
        }
    }
}

/// How many cells are not marked.
spec fn unmarked(ends: Seq<bool>) -> nat
    decreases ends.len(),
{
    if ends.len() == 0 {
        0
    } else {
        unmarked(ends.drop_last()) + (if ends.last() {
            0nat
        } else {
            1
        })
    }
}

/// One mark more leaves one cell fewer.
proof fn mark_counts(ends: Seq<bool>, i: int)
    requires
        0 <= i < ends.len(),
        !ends[i],
    ensures
        unmarked(ends.update(i, true)) + 1 == unmarked(ends),
    decreases ends.len(),
{
    let u = ends.update(i, true);
    if i == ends.len() - 1 {
        assert(u.drop_last() =~= ends.drop_last());
    } else {
        mark_counts(ends.drop_last(), i);
        assert(u.drop_last() =~= ends.drop_last().update(i, true));
    }
}

/// Whether a word is known to come to an end.
fn ends_at(h: &Heap, ends: &Vec<bool>, w: i64) -> (r: bool)
    requires
        ends@.len() == h.cells@.len(),
    ensures
        r == word_ends(h.cells@, ends@, w),
{
    match h.object(w) {
        Some(Obj::Array(_)) | Some(Obj::Dict(_)) => {
            let v = JadeValue::from_word(w);
            let n: usize = h.cells.len();
            assert(points_at(w) < n);
            ends[(v.as_ptr() / 8 - 1) as usize]
        },
        _ => true,
    }
}

/// Whether every word in a cell is known to come to an end.
fn all_end(h: &Heap, ends: &Vec<bool>, i: usize) -> (r: bool)
    requires
        ends@.len() == h.cells@.len(),
        i < h.cells@.len(),
    ensures
        r == cell_ends(h.cells@, ends@, i as int),
{
    match &h.cells[i] {
        Cell::Obj(Obj::Array(a)) => {
            let s = a.as_slice();
            let mut k: usize = 0;
            while k < s.len()
                invariant
                    k <= s@.len(),
                    s@ == a@,
                    i < h.cells@.len(),
                    h.cells@[i as int] == Cell::Obj(Obj::Array(*a)),
                    ends@.len() == h.cells@.len(),
                    forall|j: int|
                        0 <= j < k ==> word_ends(h.cells@, ends@, #[trigger] a@[j]),
                decreases s@.len() - k,
            {
                if !ends_at(h, ends, s[k]) {
                    assert(!cell_ends(h.cells@, ends@, i as int)) by {
                        let b = h.cells@[i as int]->Obj_0->Array_0;
                        assert(!word_ends(h.cells@, ends@, b@[k as int]));
                    }
                    return false;
                }
                k += 1;
            }
            true
        },
        Cell::Obj(Obj::Dict(e)) => {
            let s = e.entries();
            let mut k: usize = 0;
            while k < s.len()
                invariant
                    k <= s@.len(),
                    entry_views(s@) == e@,
                    i < h.cells@.len(),
                    h.cells@[i as int] == Cell::Obj(Obj::Dict(*e)),
                    ends@.len() == h.cells@.len(),
                    forall|j: int|
                        0 <= j < k ==> word_ends(h.cells@, ends@, (#[trigger] e@[j]).1),
                decreases s@.len() - k,
            {
                assert(entry_views(s@)[k as int].1 == s@[k as int].1);
                if !ends_at(h, ends, s[k].1) {
                    assert(!cell_ends(h.cells@, ends@, i as int)) by {
                        let f = h.cells@[i as int]->Obj_0->Dict_0;
                        assert(!word_ends(h.cells@, ends@, f@[k as int].1));
                    }
                    return false;
                }
                k += 1;
            }
            assert(entry_views(s@).len() == s@.len());
            true
        },
        _ => true,
    }
}

/// Whether the arrays and dicts reached from a word come to an end: the value does not
/// contain itself.
pub fn is_acyclic(h: &Heap, w: i64) -> (r: bool)
    ensures
        r == acyclic(h.cells@, w),
{
    let n: usize = h.cells.len();
    let ghost cells = h.cells@;
    let mut ends: Vec<bool> = Vec::new();
    ends.resize(n, false);
    let ghost mut d: nat = 0;
    let mut changed: bool = true;
    while changed
        invariant
            n == h.cells@.len(),
            cells == h.cells@,
            ends@.len() == n,
            marks_nest(cells, ends@, d),
            !changed ==> settled(cells, ends@),
        decreases unmarked(ends@) + (if changed { 1nat } else { 0 }),
    {
        changed = false;
        let ghost before = ends@;
        let mut i: usize = 0;
        while i < n
            invariant
                i <= n,
                n == h.cells@.len(),
                cells == h.cells@,
                ends@.len() == n,
                marks_nest(cells, ends@, d),
                !changed ==> ends@ == before,
                changed ==> unmarked(ends@) < unmarked(before),
                !changed ==> forall|j: int|
                    0 <= j < i && !#[trigger] ends@[j] ==> !cell_ends(cells, ends@, j),
            decreases n - i,
        {
            if !ends[i] && all_end(h, &ends, i) {
                proof {
                    marking(cells, ends@, i as int, d);
                    mark_counts(ends@, i as int);
                    d = d + 1;
                }
                ends.set(i, true);
                changed = true;
            }
            i += 1;
        }
    }
    let r: bool = ends_at(h, &ends, w);
    proof {
        if r {
            ended_nests(cells, ends@, w, d);
        } else {
            assert forall|d: nat| !nests_within(cells, w, d) by {
                unmarked_never_ends(cells, ends@, w, d);
            }
        }
    }
    r
}

} // verus!
