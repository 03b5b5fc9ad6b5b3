//! The heap and its reference counting.
//!
//! An address is eight times a cell number, so its low bits are free for the value
//! tag. Dropping the last reference to an object reclaims it and drops the references
//! it owned in turn. A cycle keeps its counts up and survives.

use vstd::prelude::*;

use crate::obj::{Cell, Obj};
use crate::string::TaggedStr;
use crate::text::int_text;
use crate::value::JadeValue;
#[allow(unused_imports)]
use crate::heap::{spec_color_byte, Color};
#[allow(unused_imports)]
use crate::text::decimal;
#[allow(unused_imports)]
use crate::value::{decode, Val};

verus! {

/// The heap: its cells, how many objects are live, and whether counting is on.
pub struct Heap {
    /// The cells, by number.
    pub cells: Vec<Cell>,
    /// Objects allocated and not reclaimed.
    pub live: i64,
    /// Whether containers retain what they reference.
    pub rc_on: bool,
}

// ── Addresses ────────────────────────────────────────────────────────────────

/// The address of cell `i`.
pub open spec fn addr_of(i: int) -> int {
    8 * (i + 1)
}

/// The cell number of an address; negative for the null address.
pub open spec fn cell_of(addr: int) -> int {
    addr / 8 - 1
}

/// The most cells a heap has: every address is a word.
pub const MAX_CELLS: u64 = 0x0fff_ffff_ffff_ffff;

// ── Counting, as a specification ─────────────────────────────────────────────

/// The number of objects among `cells`.
pub open spec fn count_objs(cells: Seq<Cell>) -> nat
    decreases cells.len(),
{
    if cells.len() == 0 {
        0
    } else {
        count_objs(cells.drop_last()) + (if cells.last() is Obj {
            1nat
        } else {
            0
        })
    }
}

/// The cell an object word points at; -1 for any other word and for null.
pub open spec fn points_at(w: i64) -> int {
    match decode(w as u64) {
        Val::Ptr(a) => if a >= 8 {
            cell_of(a as int)
        } else {
            -1
        },
        _ => -1,
    }
}

/// The counted object a word points at, by cell number.
pub open spec fn target(cells: Seq<Cell>, w: i64) -> Option<int> {
    let i = points_at(w);
    if 0 <= i < cells.len() && cells[i] is Obj && cells[i]->Obj_0.spec_counted() {
        Some(i)
    } else {
        None
    }
}

/// An object with one reference fewer.
pub open spec fn released(o: Obj) -> Obj {
    o.with_hdr(o.hdr().with_rc((o.hdr().rc - 1) as u32))
}

/// An object with one reference more.
pub open spec fn retained(o: Obj) -> Obj {
    o.with_hdr(
        o.hdr().with_rc(o.hdr().rc.wrapping_add(1)).with_color(spec_color_byte(Color::Black)),
    )
}

/// The cells after the references `pending` are dropped, the last one first. An
/// object whose last reference goes is reclaimed, and the references it owned are
/// dropped next, in order.
pub open spec fn release(cells: Seq<Cell>, pending: Seq<i64>) -> Seq<Cell>
    decreases count_objs(cells), pending.len(),
{
    if pending.len() == 0 {
        cells
    } else {
        let rest = pending.drop_last();
        match target(cells, pending.last()) {
            None => release(cells, rest),
            Some(i) => {
                let o = cells[i]->Obj_0;
                if o.hdr().rc <= 1 {
                    proof {
                        count_after_update(cells, i, Cell::Free);
                    }
                    release(cells.update(i, Cell::Free), rest + o.kids().reverse())
                } else {
                    proof {
                        count_after_update(cells, i, Cell::Obj(released(o)));
                    }
                    release(cells.update(i, Cell::Obj(released(o))), rest)
                }
            },
        }
    }
}

/// The cells after one more reference to each of the first `n` words is taken.
pub open spec fn retain_all(cells: Seq<Cell>, ws: Seq<i64>, n: nat) -> Seq<Cell>
    decreases n,
{
    if n == 0 {
        cells
    } else {
        let before = retain_all(cells, ws, (n - 1) as nat);
        match target(before, ws[n - 1]) {
            Some(i) => before.update(i, Cell::Obj(retained(before[i]->Obj_0))),
            None => before,
        }
    }
}

/// The counts of all objects leave room for `n` more references.
pub open spec fn counts_leave(cells: Seq<Cell>, n: int) -> bool {
    forall|i: int|
        0 <= i < cells.len() && #[trigger] cells[i] is Obj ==> cells[i]->Obj_0.hdr().rc + n
            <= u32::MAX
}

/// Every string and object from cell `from` on is new: held once, and its header as its
/// kind begins with.
pub open spec fn fresh_from(cells: Seq<Cell>, from: int) -> bool {
    forall|i: int|
        from <= i < cells.len() ==> match #[trigger] cells[i] {
            Cell::Obj(o) => o.hdr().fresh(o.spec_kind()),
            Cell::Str(s) => s.rc == 1,
            _ => true,
        }
}

/// Replacing one cell changes the object count by what it was and what it becomes.
pub proof fn count_after_update(cells: Seq<Cell>, i: int, c: Cell)
    requires
        0 <= i < cells.len(),
    ensures
        count_objs(cells.update(i, c)) + (if cells[i] is Obj {
            1nat
        } else {
            0
        }) == count_objs(cells) + (if c is Obj {
            1nat
        } else {
            0
        }),
    decreases cells.len(),
{
    let u = cells.update(i, c);
    if i == cells.len() - 1 {
        assert(u.drop_last() =~= cells.drop_last());
    } else {
        count_after_update(cells.drop_last(), i, c);
        assert(u.drop_last() =~= cells.drop_last().update(i, c));
    }
}

/// Putting one well-formed object in another's place keeps the cells well formed, and
/// the count.
pub proof fn edit_keeps_cells(cells: Seq<Cell>, i: int, o: Obj)
    requires
        cells_wf(cells),
        0 <= i < cells.len(),
        cells[i] is Obj,
        o.wf(),
        o.spec_counted() ==> o.hdr().rc > 0,
    ensures
        cells_wf(cells.update(i, Cell::Obj(o))),
        count_objs(cells.update(i, Cell::Obj(o))) == count_objs(cells),
{
    count_after_update(cells, i, Cell::Obj(o));
}

/// The count is at most the number of cells.
proof fn count_bounded(cells: Seq<Cell>)
    ensures
        count_objs(cells) <= cells.len(),
    decreases cells.len(),
{
    if cells.len() > 0 {
        count_bounded(cells.drop_last());
    }
}

// ── The heap ─────────────────────────────────────────────────────────────────

/// Every string and every object's payload is well formed, and every counted object is
/// referenced.
pub open spec fn cells_wf(cells: Seq<Cell>) -> bool {
    forall|i: int|
        0 <= i < cells.len() ==> match #[trigger] cells[i] {
            Cell::Obj(o) => o.wf() && (o.spec_counted() ==> o.hdr().rc > 0),
            Cell::Str(s) => s.wf(),
            _ => true,
        }
}

impl Heap {
    /// The live count is the number of objects, and the cells are well formed.
    pub open spec fn wf(&self) -> bool {
        &&& cells_wf(self.cells@)
        &&& self.cells@.len() <= MAX_CELLS
        &&& self.live == count_objs(self.cells@)
    }

    /// An empty heap, counting off.
    pub fn new() -> (h: Self)
        ensures
            h.wf(),
            h.cells@.len() == 0,
            h.live == 0,
            !h.rc_on,
    {
        Heap { cells: Vec::new(), live: 0, rc_on: false }
    }

    /// Put a cell at the end and return its address.
    fn place(&mut self, c: Cell) -> (addr: u64)
        requires
            old(self).cells@.len() < MAX_CELLS,
        ensures
            addr == addr_of(old(self).cells@.len() as int),
            final(self).cells@ == old(self).cells@.push(c),
            final(self).live == old(self).live,
            final(self).rc_on == old(self).rc_on,
    {
        let i: usize = self.cells.len();
        self.cells.push(c);
        8 * (i as u64 + 1)
    }

    /// Allocate an object and count it live. The word points at it.
    pub fn leak_obj(&mut self, obj: Obj) -> (w: i64)
        requires
            old(self).wf(),
            old(self).cells@.len() < MAX_CELLS,
            obj.wf(),
            obj.spec_counted() ==> obj.hdr().rc > 0,
        ensures
            final(self).wf(),
            final(self).cells@ == old(self).cells@.push(Cell::Obj(obj)),
            final(self).live == old(self).live + 1,
            final(self).rc_on == old(self).rc_on,
            decode(w as u64) == Val::Ptr(addr_of(old(self).cells@.len() as int) as u64),
            points_at(w) == old(self).cells@.len(),
    {
        proof {
            count_bounded(self.cells@);
        }
        let addr: u64 = self.place(Cell::Obj(obj));
        self.live = self.live + 1;
        proof {
            assert(self.cells@.drop_last() =~= old(self).cells@);
        }
        let v = JadeValue::from_ptr(addr);
        let w: i64 = v.word();
        proof {
            word_roundtrip(addr);
        }
        w
    }

    /// Allocate a string. The word points at it.
    pub fn new_str(&mut self, s: TaggedStr) -> (w: i64)
        requires
            s.wf(),
            old(self).wf(),
            old(self).cells@.len() < MAX_CELLS,
        ensures
            final(self).wf(),
            final(self).cells@ == old(self).cells@.push(Cell::Str(s)),
            final(self).live == old(self).live,
            final(self).rc_on == old(self).rc_on,
            decode(w as u64) == Val::Str(addr_of(old(self).cells@.len() as int) as u64),
    {
        let addr: u64 = self.place(Cell::Str(s));
        proof {
            assert(self.cells@.drop_last() =~= old(self).cells@);
        }
        let v = JadeValue::from_str_ptr(addr);
        proof {
            word_roundtrip(v.bits);
        }
        v.word()
    }

    /// Box a float, by its bit pattern. The word points at it.
    pub fn box_float(&mut self, bits: u64) -> (w: i64)
        requires
            old(self).wf(),
            old(self).cells@.len() < MAX_CELLS,
        ensures
            final(self).wf(),
            final(self).cells@ == old(self).cells@.push(Cell::Float(bits)),
            final(self).live == old(self).live,
            final(self).rc_on == old(self).rc_on,
            decode(w as u64) == Val::Float(addr_of(old(self).cells@.len() as int) as u64),
    {
        let addr: u64 = self.place(Cell::Float(bits));
        proof {
            assert(self.cells@.drop_last() =~= old(self).cells@);
        }
        let v = JadeValue::from_float_ptr(addr);
        proof {
            word_roundtrip(v.bits);
        }
        v.word()
    }

    /// The number of live objects.
    pub fn jrt_heap_live_count(&self) -> (n: i64)
        ensures
            n == self.live,
    {
        self.live
    }

    /// What is said of the heap when a program ends.
    pub fn jrt_heap_report(&self) -> (s: String)
        ensures
            s@ == "jade-heap: "@ + decimal(self.live as int) + " live object(s) at exit"@,
    {
        let mut s = "jade-heap: ".to_owned();
        let digits = int_text(self.live);
        s.append(digits.as_str());
        s.append(" live object(s) at exit");
        s
    }

    /// Turn counting on.
    pub fn jrt_rc_enable(&mut self)
        ensures
            final(self).cells@ == old(self).cells@,
            final(self).live == old(self).live,
            final(self).rc_on,
    {
        self.rc_on = true;
    }

    /// Whether counting is on.
    pub fn rc_active(&self) -> (r: bool)
        ensures
            r == self.rc_on,
    {
        self.rc_on
    }

    /// The cell number a word points at, for an object word in range.
    fn cell_index(&self, w: i64) -> (r: Option<usize>)
        ensures
            match r {
                Some(i) => i < self.cells@.len() && i == points_at(w),
                None => !(0 <= points_at(w) < self.cells@.len()),
            },
    {
        let v = JadeValue::from_word(w);
        if !v.is_ptr() {
            return None;
        }
        let addr: u64 = v.as_ptr();
        if addr < 8 {
            return None;
        }
        let i: u64 = addr / 8 - 1;
        if i < self.cells.len() as u64 {
            Some(i as usize)
        } else {
            None
        }
    }

    /// The object a word points at.
    pub fn object(&self, w: i64) -> (r: Option<&Obj>)
        ensures
            match r {
                Some(o) => 0 <= points_at(w) < self.cells@.len() && self.cells@[points_at(w)]
                    == Cell::Obj(*o),
                None => !(0 <= points_at(w) < self.cells@.len() && self.cells@[points_at(
                    w,
                )] is Obj),
            },
    {
        match self.cell_index(w) {
            Some(i) => match &self.cells[i] {
                Cell::Obj(o) => Some(o),
                _ => None,
            },
            None => None,
        }
    }

    /// Whether the counts of all objects leave room for `n` more references.
    pub fn counts_allow(&self, n: u32) -> (r: bool)
        ensures
            r == counts_leave(self.cells@, n as int),
    {
        let mut i: usize = 0;
        while i < self.cells.len()
            invariant
                i <= self.cells@.len(),
                forall|k: int|
                    0 <= k < i && #[trigger] self.cells@[k] is Obj ==> self.cells@[k]->Obj_0.hdr().rc
                        + n <= u32::MAX,
            decreases self.cells@.len() - i,
        {
            match &self.cells[i] {
                Cell::Obj(o) => {
                    if o.header().rc() > u32::MAX - n {
                        assert(self.cells@[i as int] is Obj);
                        return false;
                    }
                },
                _ => {},
            }
            i += 1;
        }
        true
    }

    /// Take a reference to the object a word points at. Any other word, and an object
    /// that is not counted, is left alone.
    pub fn jrt_incref(&mut self, w: i64)
        requires
            old(self).wf(),
            target(old(self).cells@, w) matches Some(i) ==> old(self).cells@[i]->Obj_0.hdr().rc
                < u32::MAX,
        ensures
            final(self).wf(),
            final(self).live == old(self).live,
            final(self).rc_on == old(self).rc_on,
            final(self).cells@ == (match target(old(self).cells@, w) {
                Some(i) => old(self).cells@.update(
                    i,
                    Cell::Obj(retained(old(self).cells@[i]->Obj_0)),
                ),
                None => old(self).cells@,
            }),
    {
        let ghost before = self.cells@;
        let i: usize = match self.cell_index(w) {
            Some(i) => i,
            None => {
                return;
            },
        };
        let counted: bool = match &self.cells[i] {
            Cell::Obj(o) => o.is_collection(),
            _ => false,
        };
        if !counted {
            return;
        }
        let mut c: Cell = Cell::Free;
        core::mem::swap(&mut c, &mut self.cells[i]);
        match c {
            Cell::Obj(mut o) => {
                o.incref();
                self.cells[i] = Cell::Obj(o);
            },
            _ => {},
        }
        proof {
            let o = before[i as int]->Obj_0;
            assert(self.cells@ =~= before.update(i as int, Cell::Obj(retained(o))));
            count_after_update(before, i as int, Cell::Obj(retained(o)));
        }
    }

    /// Drop a reference to the object a word points at; dropping the last one reclaims
    /// the object and drops every reference it owned.
    pub fn jrt_decref(&mut self, w: i64)
        requires
            old(self).wf(),
        ensures
            final(self).wf(),
            final(self).rc_on == old(self).rc_on,
            final(self).cells@ == release(old(self).cells@, seq![w]),
            final(self).live == count_objs(release(old(self).cells@, seq![w])),
    {
        let mut pending: Vec<i64> = Vec::new();
        pending.push(w);
        assert(pending@ =~= seq![w]);
        while pending.len() > 0
            invariant
                self.wf(),
                self.rc_on == old(self).rc_on,
                release(self.cells@, pending@) == release(old(self).cells@, seq![w]),
            decreases count_objs(self.cells@), pending@.len(),
        {
            let ghost cells0 = self.cells@;
            let ghost pending0 = pending@;
            let x: i64 = match pending.pop() {
                Some(x) => x,
                None => {
                    return;
                },
            };
            assert(pending@ =~= pending0.drop_last());
            let i: usize = match self.cell_index(x) {
                Some(i) => i,
                None => {
                    continue;
                },
            };
            let counted: bool = match &self.cells[i] {
                Cell::Obj(o) => o.is_collection(),
                _ => false,
            };
            if !counted {
                continue;
            }
            let mut c: Cell = Cell::Free;
            core::mem::swap(&mut c, &mut self.cells[i]);
            assert(self.cells@ =~= cells0.update(i as int, Cell::Free));
            match c {
                Cell::Obj(mut o) => {
                    let ghost o0 = o;
                    if o.decref() {
                        let kids = o.owned();
                        proof {
                            count_after_update(cells0, i as int, Cell::Free);
                            count_bounded(cells0);
                        }
                        self.live = self.live - 1;
                        let mut k: usize = kids.len();
                        while k > 0
                            invariant
                                k <= kids@.len(),
                                pending@ == pending0.drop_last() + kids@.skip(k as int).reverse(),
                            decreases k,
                        {
                            k -= 1;
                            pending.push(kids[k]);
                            assert(kids@.skip(k as int).reverse() =~= kids@.skip(
                                k + 1,
                            ).reverse().push(kids@[k as int]));
                        }
                        assert(kids@.skip(0) =~= kids@);
                    } else {
                        self.cells[i] = Cell::Obj(o);
                        proof {
                            assert(self.cells@ =~= cells0.update(
                                i as int,
                                Cell::Obj(released(o0)),
                            ));
                            count_after_update(cells0, i as int, Cell::Obj(released(o0)));
                        }
                    }
                },
                _ => {},
            }
        }
        assert(pending@ =~= seq![]);
    }

    /// Retain a word on behalf of a container that now references it, when counting is
    /// on.
    pub fn retain(&mut self, w: i64)
        requires
            old(self).wf(),
            target(old(self).cells@, w) matches Some(i) ==> old(self).cells@[i]->Obj_0.hdr().rc
                < u32::MAX,
        ensures
            final(self).wf(),
            final(self).live == old(self).live,
            final(self).rc_on == old(self).rc_on,
            !old(self).rc_on ==> final(self).cells@ == old(self).cells@,
            old(self).rc_on ==> final(self).cells@ == (match target(old(self).cells@, w) {
                Some(i) => old(self).cells@.update(
                    i,
                    Cell::Obj(retained(old(self).cells@[i]->Obj_0)),
                ),
                None => old(self).cells@,
            }),
    {
        if self.rc_active() {
            self.jrt_incref(w);
        }
    }

    /// Take a reference to each of some words, in turn.
    pub fn incref_all(&mut self, ws: &[i64])
        requires
            old(self).wf(),
            counts_leave(old(self).cells@, ws@.len() as int),
        ensures
            final(self).wf(),
            final(self).live == old(self).live,
            final(self).rc_on == old(self).rc_on,
            final(self).cells@ == retain_all(old(self).cells@, ws@, ws@.len()),
            final(self).cells@.len() == old(self).cells@.len(),
    {
        let mut i: usize = 0;
        while i < ws.len()
            invariant
                i <= ws@.len(),
                self.wf(),
                self.live == old(self).live,
                self.rc_on == old(self).rc_on,
                self.cells@ == retain_all(old(self).cells@, ws@, i as nat),
                self.cells@.len() == old(self).cells@.len(),
                counts_leave(self.cells@, ws@.len() - i),
            decreases ws@.len() - i,
        {
            let w: i64 = ws[i];
            let ghost before = self.cells@;
            self.jrt_incref(w);
            proof {
                assert forall|k: int| 0 <= k < self.cells@.len() && #[trigger] self.cells@[k] is Obj
                    implies self.cells@[k]->Obj_0.hdr().rc + (ws@.len() - i - 1) <= u32::MAX by {
                    assert(before[k] is Obj);
                    if target(before, w) == Some(k) {
                        let o = before[k]->Obj_0;
                        assert(retained(o).hdr().rc == o.hdr().rc + 1);
                    }
                }
            }
            i += 1;
        }
    }

    /// Drop the reference a slot held before `new` overwrote it; nothing when it is
    /// the same word.
    pub fn jrt_rc_replace(&mut self, old_word: i64, new_word: i64)
        requires
            old(self).wf(),
        ensures
            final(self).wf(),
            final(self).rc_on == old(self).rc_on,
            final(self).cells@ == (if old_word == new_word {
                old(self).cells@
            } else {
                release(old(self).cells@, seq![old_word])
            }),
    {
        if old_word != new_word {
            self.jrt_decref(old_word);
        }
    }
}

// ── Laws ─────────────────────────────────────────────────────────────────────

/// How many of the words in `s` point at cell `i`.
pub open spec fn occ(s: Seq<i64>, i: int) -> nat
    decreases s.len(),
{
    if s.len() == 0 {
        0
    } else {
        occ(s.drop_last(), i) + (if points_at(s.last()) == i {
            1nat
        } else {
            0
        })
    }
}

/// The words a cell owns a reference to.
pub open spec fn cell_kids(c: Cell) -> Seq<i64> {
    match c {
        Cell::Obj(o) => o.kids(),
        _ => seq![],
    }
}

/// How many references to cell `i` the objects among `cells` own.
pub open spec fn refs(cells: Seq<Cell>, i: int) -> nat
    decreases cells.len(),
{
    if cells.len() == 0 {
        0
    } else {
        refs(cells.drop_last(), i) + occ(cell_kids(cells.last()), i)
    }
}

/// The counts are right: a counted object's count is the references held from outside
/// the heap (`ext`), those about to be dropped (`pending`), and those other objects
/// own. And nothing dangles: whatever is referenced is an object.
pub open spec fn sound(cells: Seq<Cell>, pending: Seq<i64>, ext: spec_fn(int) -> nat) -> bool {
    &&& cells_wf(cells)
    &&& forall|i: int|
        0 <= i < cells.len() && #[trigger] cells[i] is Obj && cells[i]->Obj_0.spec_counted()
            ==> cells[i]->Obj_0.hdr().rc == ext(i) + occ(pending, i) + refs(cells, i)
    &&& forall|i: int|
        i >= 0 && #[trigger] occ(pending, i) + refs(cells, i) > 0 ==> i < cells.len()
            && cells[i] is Obj
}

/// Appending adds up.
proof fn occ_concat(a: Seq<i64>, b: Seq<i64>, i: int)
    ensures
        occ(a + b, i) == occ(a, i) + occ(b, i),
    decreases b.len(),
{
    if b.len() == 0 {
        assert(a + b =~= a);
    } else {
        occ_concat(a, b.drop_last(), i);
        assert((a + b).drop_last() =~= a + b.drop_last());
    }
}

/// Order does not matter.
proof fn occ_reverse(a: Seq<i64>, i: int)
    ensures
        occ(a.reverse(), i) == occ(a, i),
    decreases a.len(),
{
    if a.len() == 0 {
        assert(a.reverse() =~= a);
    } else {
        let r = a.drop_last();
        occ_reverse(r, i);
        assert(a.reverse() =~= seq![a.last()] + r.reverse());
        occ_concat(seq![a.last()], r.reverse(), i);
        assert(seq![a.last()].drop_last() =~= seq![]);
        reveal_with_fuel(occ, 2);
    }
}

/// Replacing a cell changes the reference counts by what it owned and owns now.
proof fn refs_after_update(cells: Seq<Cell>, k: int, c: Cell, i: int)
    requires
        0 <= k < cells.len(),
    ensures
        refs(cells.update(k, c), i) + occ(cell_kids(cells[k]), i) == refs(cells, i) + occ(
            cell_kids(c),
            i,
        ),
    decreases cells.len(),
{
    let u = cells.update(k, c);
    if k == cells.len() - 1 {
        assert(u.drop_last() =~= cells.drop_last());
    } else {
        refs_after_update(cells.drop_last(), k, c, i);
        assert(u.drop_last() =~= cells.drop_last().update(k, c));
    }
}

/// One more or one fewer reference does not change what an object owns.
proof fn count_keeps_kids(o: Obj)
    requires
        o.wf(),
    ensures
        released(o).kids() == o.kids(),
        released(o).wf(),
        released(o).spec_counted() == o.spec_counted(),
        released(o).hdr() == o.hdr().with_rc((o.hdr().rc - 1) as u32),
{
    released(o).hdr_only(&o);
}

/// Dropping references keeps every count right and leaves nothing dangling. In
/// particular no reference is ever followed to a reclaimed object.
pub proof fn release_keeps_counts(cells: Seq<Cell>, pending: Seq<i64>, ext: spec_fn(int) -> nat)
    requires
        sound(cells, pending, ext),
    ensures
        sound(release(cells, pending), seq![], ext),
        release(cells, pending).len() == cells.len(),
    decreases count_objs(cells), pending.len(),
{
    if pending.len() == 0 {
        assert(pending =~= seq![]);
        return_sound(cells, pending, ext);
    } else {
        let w = pending.last();
        let rest = pending.drop_last();
        match target(cells, w) {
            None => {
                assert(sound(cells, rest, ext)) by {
                    assert forall|i: int|
                        0 <= i < cells.len() && #[trigger] cells[i] is Obj
                            && cells[i]->Obj_0.spec_counted() implies cells[i]->Obj_0.hdr().rc
                        == ext(i) + occ(rest, i) + refs(cells, i) by {
                        assert(points_at(w) != i);
                    }
                    assert forall|i: int|
                        i >= 0 && #[trigger] occ(rest, i) + refs(cells, i) > 0 implies i
                        < cells.len() && cells[i] is Obj by {
                        assert(occ(pending, i) + refs(cells, i) > 0);
                    }
                }
                release_keeps_counts(cells, rest, ext);
            },
            Some(k) => {
                let o = cells[k]->Obj_0;
                count_keeps_kids(o);
                if o.hdr().rc <= 1 {
                    let after = cells.update(k, Cell::Free);
                    let pend = rest + o.kids().reverse();
                    count_after_update(cells, k, Cell::Free);
                    assert forall|i: int|
                        occ(pend, i) + refs(after, i) == #[trigger] occ(rest, i) + refs(
                            cells,
                            i,
                        ) by {
                        occ_concat(rest, o.kids().reverse(), i);
                        occ_reverse(o.kids(), i);
                        refs_after_update(cells, k, Cell::Free, i);
                    }
                    assert(sound(after, pend, ext)) by {
                        assert forall|i: int|
                            0 <= i < after.len() && #[trigger] after[i] is Obj
                                && after[i]->Obj_0.spec_counted() implies after[i]->Obj_0.hdr().rc
                            == ext(i) + occ(pend, i) + refs(after, i) by {
                            assert(i != k);
                            assert(cells[i] == after[i]);
                            assert(occ(rest, i) == occ(pending, i));
                        }
                        assert forall|i: int|
                            i >= 0 && #[trigger] occ(pend, i) + refs(after, i) > 0 implies i
                            < after.len() && after[i] is Obj by {
                            assert(occ(rest, i) + refs(cells, i) > 0);
                            assert(occ(pending, i) + refs(cells, i) > 0);
                            if i == k {
                                assert(cells[k]->Obj_0.hdr().rc == ext(k) + occ(pending, k)
                                    + refs(cells, k));
                                assert(occ(pending, k) == occ(rest, k) + 1);
                                assert(false);
                            }
                        }
                    }
                    release_keeps_counts(after, pend, ext);
                } else {
                    let after = cells.update(k, Cell::Obj(released(o)));
                    count_after_update(cells, k, Cell::Obj(released(o)));
                    assert forall|i: int| #[trigger] refs(after, i) == refs(cells, i) by {
                        refs_after_update(cells, k, Cell::Obj(released(o)), i);
                    }
                    assert(sound(after, rest, ext)) by {
                        assert forall|i: int|
                            0 <= i < after.len() && #[trigger] after[i] is Obj
                                && after[i]->Obj_0.spec_counted() implies after[i]->Obj_0.hdr().rc
                            == ext(i) + occ(rest, i) + refs(after, i) by {
                            assert(cells[i] is Obj);
                        }
                        assert forall|i: int|
                            i >= 0 && #[trigger] occ(rest, i) + refs(after, i) > 0 implies i
                            < after.len() && after[i] is Obj by {
                            assert(occ(pending, i) + refs(cells, i) > 0);
                        }
                    }
                    release_keeps_counts(after, rest, ext);
                }
            },
        }
    }
}

/// With nothing pending, soundness is soundness.
proof fn return_sound(cells: Seq<Cell>, pending: Seq<i64>, ext: spec_fn(int) -> nat)
    requires
        sound(cells, pending, ext),
        pending == Seq::<i64>::empty(),
    ensures
        sound(cells, seq![], ext),
{
    assert(pending =~= seq![]);
}

/// An object held from outside the heap survives any release, with its payload as it
/// was.
pub proof fn held_objects_survive(
    cells: Seq<Cell>,
    pending: Seq<i64>,
    ext: spec_fn(int) -> nat,
    i: int,
)
    requires
        sound(cells, pending, ext),
        0 <= i < cells.len(),
        cells[i] is Obj,
        ext(i) > 0,
    ensures
        release(cells, pending).len() == cells.len(),
        release(cells, pending)[i] is Obj,
        release(cells, pending)[i]->Obj_0.kids() == cells[i]->Obj_0.kids(),
    decreases count_objs(cells), pending.len(),
{
    if pending.len() > 0 {
        let w = pending.last();
        let rest = pending.drop_last();
        match target(cells, w) {
            None => {
                assert(sound(cells, rest, ext)) by {
                    assert forall|j: int|
                        0 <= j < cells.len() && #[trigger] cells[j] is Obj
                            && cells[j]->Obj_0.spec_counted() implies cells[j]->Obj_0.hdr().rc
                        == ext(j) + occ(rest, j) + refs(cells, j) by {
                        assert(points_at(w) != j);
                    }
                    assert forall|j: int|
                        j >= 0 && #[trigger] occ(rest, j) + refs(cells, j) > 0 implies j
                        < cells.len() && cells[j] is Obj by {
                        assert(occ(pending, j) + refs(cells, j) > 0);
                    }
                }
                held_objects_survive(cells, rest, ext, i);
            },
            Some(k) => {
                let o = cells[k]->Obj_0;
                count_keeps_kids(o);
                if o.hdr().rc <= 1 {
                    let after = cells.update(k, Cell::Free);
                    let pend = rest + o.kids().reverse();
                    count_after_update(cells, k, Cell::Free);
                    assert(occ(pending, k) >= 1);
                    assert(i != k);
                    assert forall|j: int|
                        occ(pend, j) + refs(after, j) == #[trigger] occ(rest, j) + refs(
                            cells,
                            j,
                        ) by {
                        occ_concat(rest, o.kids().reverse(), j);
                        occ_reverse(o.kids(), j);
                        refs_after_update(cells, k, Cell::Free, j);
                    }
                    assert(sound(after, pend, ext)) by {
                        assert forall|j: int|
                            0 <= j < after.len() && #[trigger] after[j] is Obj
                                && after[j]->Obj_0.spec_counted() implies after[j]->Obj_0.hdr().rc
                            == ext(j) + occ(pend, j) + refs(after, j) by {
                            assert(j != k);
                            assert(cells[j] == after[j]);
                            assert(occ(rest, j) == occ(pending, j));
                        }
                        assert forall|j: int|
                            j >= 0 && #[trigger] occ(pend, j) + refs(after, j) > 0 implies j
                            < after.len() && after[j] is Obj by {
                            assert(occ(rest, j) + refs(cells, j) > 0);
                            assert(occ(pending, j) + refs(cells, j) > 0);
                            if j == k {
                                assert(occ(pending, k) == occ(rest, k) + 1);
                                assert(false);
                            }
                        }
                    }
                    held_objects_survive(after, pend, ext, i);
                } else {
                    let after = cells.update(k, Cell::Obj(released(o)));
                    count_after_update(cells, k, Cell::Obj(released(o)));
                    assert forall|j: int| #[trigger] refs(after, j) == refs(cells, j) by {
                        refs_after_update(cells, k, Cell::Obj(released(o)), j);
                    }
                    assert(sound(after, rest, ext)) by {
                        assert forall|j: int|
                            0 <= j < after.len() && #[trigger] after[j] is Obj
                                && after[j]->Obj_0.spec_counted() implies after[j]->Obj_0.hdr().rc
                            == ext(j) + occ(rest, j) + refs(after, j) by {
                            assert(cells[j] is Obj);
                        }
                        assert forall|j: int|
                            j >= 0 && #[trigger] occ(rest, j) + refs(after, j) > 0 implies j
                            < after.len() && after[j] is Obj by {
                            assert(occ(pending, j) + refs(cells, j) > 0);
                        }
                    }
                    held_objects_survive(after, rest, ext, i);
                }
            },
        }
    }
}

/// Dropping a reference reclaims the object exactly when it was the last one.
pub proof fn last_reference_reclaims(cells: Seq<Cell>, w: i64)
    requires
        cells_wf(cells),
        target(cells, w) is Some,
    ensures
        ({
            let i = target(cells, w)->Some_0;
            let o = cells[i]->Obj_0;
            o.hdr().rc > 1 ==> release(cells, seq![w]) == cells.update(i, Cell::Obj(released(o)))
        }),
        ({
            let i = target(cells, w)->Some_0;
            let o = cells[i]->Obj_0;
            o.hdr().rc == 1 ==> release(cells, seq![w]) == release(
                cells.update(i, Cell::Free),
                o.kids().reverse(),
            )
        }),
{
    let i = target(cells, w)->Some_0;
    let o = cells[i]->Obj_0;
    let p = seq![w];
    assert(p.drop_last() =~= seq![]);
    assert(p.last() == w);
    if o.hdr().rc > 1 {
        let after = cells.update(i, Cell::Obj(released(o)));
        assert(release(after, p.drop_last()) == after);
    } else {
        assert(p.drop_last() + o.kids().reverse() =~= o.kids().reverse());
    }
}

/// Taking a reference and dropping it again reclaims nothing and leaves every count as
/// it was.
pub proof fn retain_then_release(cells: Seq<Cell>, w: i64)
    requires
        cells_wf(cells),
        target(cells, w) is Some,
        cells[target(cells, w)->Some_0]->Obj_0.hdr().rc < u32::MAX,
    ensures
        ({
            let i = target(cells, w)->Some_0;
            let o = cells[i]->Obj_0;
            let up = cells.update(i, Cell::Obj(retained(o)));
            release(up, seq![w]) == cells.update(
                i,
                Cell::Obj(o.with_hdr(o.hdr().with_color(spec_color_byte(Color::Black)))),
            )
        }),
{
    let i = target(cells, w)->Some_0;
    let o = cells[i]->Obj_0;
    let up = cells.update(i, Cell::Obj(retained(o)));
    retained(o).hdr_only(&o);
    assert(retained(o).hdr().rc == o.hdr().rc + 1);
    assert(target(up, w) == Some(i));
    assert(cells_wf(up));
    last_reference_reclaims(up, w);
    assert(release(up, seq![w]) =~= cells.update(
        i,
        Cell::Obj(o.with_hdr(o.hdr().with_color(spec_color_byte(Color::Black)))),
    ));
}

/// A word survives the trip through its signed form.
pub proof fn word_roundtrip(bits: u64)
    ensures
        (bits as i64) as u64 == bits,
{
    assert((bits as i64) as u64 == bits) by (bit_vector);
}

/// Taking a reference counts one more and dropping one counts one less; neither touches
/// what the object holds.
pub proof fn counting_touches_the_count_alone(o: Obj)
    ensures
        o.hdr().rc < u32::MAX ==> retained(o).hdr().rc == o.hdr().rc + 1,
        o.hdr().rc > 0 ==> released(o).hdr().rc == o.hdr().rc - 1,
        retained(o).kids() == o.kids(),
        released(o).kids() == o.kids(),
        retained(o).hdr().len == o.hdr().len,
        released(o).hdr().len == o.hdr().len,
        retained(o).spec_kind() == o.spec_kind(),
        released(o).spec_kind() == o.spec_kind(),
        retained(o).spec_counted() == o.spec_counted(),
        released(o).spec_counted() == o.spec_counted(),
{
    match o {
        Obj::Array(a) => {
            a.same_elements(&retained(o)->Array_0);
            a.same_elements(&released(o)->Array_0);
        },
        Obj::Dict(a) => {
            a.same_slots(&retained(o)->Dict_0);
            a.same_slots(&released(o)->Dict_0);
        },
        Obj::Struct(a) => {
            a.same_fields(&retained(o)->Struct_0);
            a.same_fields(&released(o)->Struct_0);
        },
        _ => {},
    }
    assert(retained(o).kids() =~= o.kids());
    assert(released(o).kids() =~= o.kids());
}

/// Taking a reference for each of some words counts each object once for every word that
/// points at it, and leaves what is not counted alone.
pub proof fn every_word_counts_once(cells: Seq<Cell>, ws: Seq<i64>, n: nat, i: int)
    requires
        n <= ws.len(),
        counts_leave(cells, n as int),
        0 <= i < cells.len(),
    ensures
        retain_all(cells, ws, n).len() == cells.len(),
        cells[i] is Obj && cells[i]->Obj_0.spec_counted() ==> {
            &&& retain_all(cells, ws, n)[i] is Obj
            &&& retain_all(cells, ws, n)[i]->Obj_0.spec_counted()
            &&& retain_all(cells, ws, n)[i]->Obj_0.hdr().rc == cells[i]->Obj_0.hdr().rc + occ(
                ws.take(n as int),
                i,
            )
            &&& retain_all(cells, ws, n)[i]->Obj_0.kids() == cells[i]->Obj_0.kids()
        },
        !(cells[i] is Obj && cells[i]->Obj_0.spec_counted()) ==> retain_all(cells, ws, n)[i]
            == cells[i],
        occ(ws.take(n as int), i) <= n,
    decreases n,
{
    if n > 0 {
        let m = (n - 1) as nat;
        assert(counts_leave(cells, m as int)) by {
            assert forall|j: int| 0 <= j < cells.len() && #[trigger] cells[j] is Obj implies cells[
                j
            ]->Obj_0.hdr().rc + m <= u32::MAX by {
                assert(cells[j]->Obj_0.hdr().rc + n <= u32::MAX);
            }
        }
        every_word_counts_once(cells, ws, m, i);
        let before = retain_all(cells, ws, m);
        assert(ws.take(n as int).drop_last() =~= ws.take(m as int));
        assert(ws.take(n as int).last() == ws[m as int]);
        if let Some(t) = target(before, ws[m as int]) {
            counting_touches_the_count_alone(before[t]->Obj_0);
            if t == i && cells[i] is Obj {
                assert(cells[i]->Obj_0.hdr().rc + n <= u32::MAX);
            }
        }
    }
}

/// Addresses and cells number each other: the first cell lies at eight, and each further
/// one eight behind.
pub proof fn addresses_number_the_cells(i: int)
    ensures
        cell_of(addr_of(i)) == i,
        addr_of(0) == 8,
        addr_of(i + 1) == addr_of(i) + 8,
{
}

} // verus!
