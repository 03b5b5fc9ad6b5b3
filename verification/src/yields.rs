//! Generator buffers.
//!
//! A generator fills a buffer and hands it back. The buffers of running generators form
//! a stack, so each value lands in the buffer of the function that yields it. A buffer
//! is an ordinary array.

use vstd::prelude::*;

use crate::ffi_coll::{jrt_karr_new, jrt_karr_push};
use crate::gc::Heap;
use crate::value::JadeValue;
#[allow(unused_imports)]
use crate::ffi_coll::{array_at, array_becomes, can_hold, held};
#[allow(unused_imports)]
use crate::gc::{points_at, word_roundtrip, MAX_CELLS};
#[allow(unused_imports)]
use crate::jsonf::extends;
#[allow(unused_imports)]
use crate::obj::Cell;
#[allow(unused_imports)]
use crate::value::{decode, Val};
#[allow(unused_imports)]
use crate::ffi_coll::new_header;

verus! {

/// The buffers of the generators that are running, the innermost last.
pub struct YieldStack {
    /// The words of the buffers.
    pub frames: Vec<i64>,
}

impl YieldStack {
    /// Every frame is an array.
    pub open spec fn wf(&self, cells: Seq<Cell>) -> bool {
        forall|i: int|
            0 <= i < self.frames@.len() ==> array_at(cells, #[trigger] self.frames@[i]) is Some
    }

    /// No generator is running.
    pub fn new() -> (s: Self)
        ensures
            s.frames@ == Seq::<i64>::empty(),
    {
        YieldStack { frames: Vec::new() }
    }

    /// Begin a generator: an empty buffer on top.
    pub fn jrt_yield_push(&mut self, h: &mut Heap)
        requires
            old(h).wf(),
            old(h).cells@.len() < MAX_CELLS,
            old(self).wf(old(h).cells@),
        ensures
            final(h).wf(),
            final(h).rc_on == old(h).rc_on,
            final(self).wf(final(h).cells@),
            extends(old(h).cells@, final(h).cells@),
            final(h).cells@.len() == old(h).cells@.len() + 1,
            final(self).frames@.drop_last() == old(self).frames@,
            final(self).frames@.len() == old(self).frames@.len() + 1,
            points_at(final(self).frames@.last()) == old(h).cells@.len(),
            array_at(final(h).cells@, final(self).frames@.last()) matches Some(a) && a@ == Seq::<
                i64,
            >::empty() && new_header(a),
    {
        let w: i64 = jrt_karr_new(h);
        self.frames.push(w);
        assert(self.frames@.drop_last() =~= old(self).frames@);
        assert forall|i: int| 0 <= i < self.frames@.len() implies array_at(
            h.cells@,
            #[trigger] self.frames@[i],
        ) is Some by {
            if i < old(self).frames@.len() {
                assert(array_at(old(h).cells@, old(self).frames@[i]) is Some);
            }
        }
    }

    /// Yield a value: append it to the innermost buffer, which takes a reference to it.
    /// Without a generator nothing happens.
    pub fn jrt_yield_append(&self, h: &mut Heap, val: i64)
        requires
            old(h).wf(),
            self.wf(old(h).cells@),
            can_hold(old(h).cells@, val),
        ensures
            final(h).wf(),
            final(h).rc_on == old(h).rc_on,
            self.frames@.len() == 0 ==> final(h).cells@ == old(h).cells@,
            self.frames@.len() > 0 ==> array_becomes(
                held(old(h).cells@, old(h).rc_on, val),
                final(h).cells@,
                self.frames@.last(),
                array_at(old(h).cells@, self.frames@.last())->Some_0@.push(val),
            ),
    {
        let n: usize = self.frames.len();
        if n > 0 {
            jrt_karr_push(h, self.frames[n - 1], val);
        }
    }

    /// End the innermost generator: its buffer, or nil when none is running.
    pub fn jrt_yield_pop(&mut self) -> (w: i64)
        ensures
            old(self).frames@.len() > 0 ==> w == old(self).frames@.last() && final(self).frames@
                == old(self).frames@.drop_last(),
            old(self).frames@.len() == 0 ==> decode(w as u64) == Val::Nil && final(self).frames@
                == old(self).frames@,
    {
        match self.frames.pop() {
            Some(w) => w,
            None => {
                let v = JadeValue::nil();
                proof {
                    word_roundtrip(v.bits);
                }
                v.word()
            },
        }
    }

    /// How many generators are running.
    pub fn jrt_yield_depth(&self) -> (n: usize)
        ensures
            n == self.frames@.len(),
    {
        self.frames.len()
    }

    /// Drop every frame above a depth. A body that raises leaves its frames behind; what
    /// runs next must not yield into them.
    pub fn jrt_yield_truncate(&mut self, depth: usize)
        ensures
            final(self).frames@ == (if depth < old(self).frames@.len() {
                old(self).frames@.take(depth as int)
            } else {
                old(self).frames@
            }),
    {
        while self.frames.len() > depth
            invariant
                self.frames@.len() <= old(self).frames@.len(),
                self.frames@ == old(self).frames@.take(self.frames@.len() as int),
                depth < old(self).frames@.len() ==> self.frames@.len() >= depth,
                depth >= old(self).frames@.len() ==> self.frames@.len() == old(
                    self,
                ).frames@.len(),
            decreases self.frames@.len(),
        {
            let _ = self.frames.pop();
        }
        assert(self.frames@ =~= if depth < old(self).frames@.len() {
            old(self).frames@.take(depth as int)
        } else {
            old(self).frames@
        });
    }
}

} // verus!
