//! A bump arena: chunks in which a cursor advances, marks of the cursor, and rolling
//! back to a mark.
//!
//! Chunks are known by address and size; the memory itself is the caller's.

use vstd::prelude::*;

verus! {

/// The default size of a chunk.
pub const CHUNK: usize = 65_536;

/// A chunk of memory.
#[derive(Debug, Clone, Copy, PartialEq, Eq, Structural)]
pub struct Chunk {
    /// Where it begins.
    pub base: usize,
    /// How large it is.
    pub cap: usize,
}

/// A saved cursor.
#[derive(Debug, Clone, Copy, PartialEq, Eq, Structural)]
pub struct Mark {
    /// The chunk the cursor is in.
    pub cur: usize,
    /// How far into it.
    pub pos: usize,
}

/// An arena.
pub struct ArenaState {
    /// The chunks.
    pub chunks: Vec<Chunk>,
    /// The chunk the cursor is in.
    pub cur: usize,
    /// How far into it.
    pub pos: usize,
}

/// The first multiple of `align` at or behind `x`.
pub open spec fn aligned_up(x: int, align: int) -> int {
    (x + align - 1) / align * align
}

/// The request fits into the chunk behind `pos`.
pub open spec fn fits(c: Chunk, pos: int, size: int, align: int) -> bool {
    aligned_up(c.base + pos, align) + size <= c.base + c.cap
}

/// The chunk that serves a request, from `i` on: the first it fits into, behind the
/// cursor in the cursor's own chunk and from the start of a later one.
pub open spec fn serving(
    chunks: Seq<Chunk>,
    cur: int,
    pos: int,
    size: int,
    align: int,
    i: int,
) -> Option<int>
    decreases chunks.len() - i,
{
    if i < 0 || i >= chunks.len() {
        None
    } else if fits(
        chunks[i],
        if i == cur {
            pos
        } else {
            0
        },
        size,
        align,
    ) {
        Some(i)
    } else {
        serving(chunks, cur, pos, size, align, i + 1)
    }
}

/// What is aligned up is a multiple, not below, and less than one multiple above.
proof fn aligned_up_near(x: int, align: int)
    requires
        align > 0,
    ensures
        x <= aligned_up(x, align) < x + align,
        aligned_up(x, align) % align == 0,
{
    let q = (x + align - 1) / align;
    let r = (x + align - 1) % align;
    vstd::arithmetic::div_mod::lemma_fundamental_div_mod(x + align - 1, align);
    assert(q * align == align * q) by (nonlinear_arith);
    vstd::arithmetic::div_mod::lemma_mod_multiples_basic(q, align);
}

impl ArenaState {
    /// The cursor lies in a chunk, and no chunk reaches past the end of memory.
    pub open spec fn wf(&self) -> bool {
        &&& forall|i: int|
            0 <= i < self.chunks@.len() ==> (#[trigger] self.chunks@[i]).base
                + self.chunks@[i].cap <= usize::MAX
        &&& self.chunks@.len() == 0 ==> self.cur == 0 && self.pos == 0
        &&& self.chunks@.len() > 0 ==> self.cur < self.chunks@.len() && self.pos
            <= self.chunks@[self.cur as int].cap
    }

    /// An arena without chunks.
    pub fn new() -> (a: Self)
        ensures
            a.wf(),
            a.chunks@.len() == 0,
    {
        ArenaState { chunks: Vec::new(), cur: 0, pos: 0 }
    }

    /// Advance the cursor past `size` bytes aligned to `align`, and say where they are.
    /// There is none when no chunk from the cursor on holds them: a chunk of
    /// [`chunk_for`] bytes is needed first.
    pub fn bump(&mut self, size: usize, align: usize) -> (r: Option<usize>)
        requires
            old(self).wf(),
            align > 0,
        ensures
            final(self).wf(),
            final(self).chunks@ == old(self).chunks@,
            match serving(
                old(self).chunks@,
                old(self).cur as int,
                old(self).pos as int,
                size as int,
                align as int,
                old(self).cur as int,
            ) {
                Some(i) => {
                    let c = old(self).chunks@[i];
                    let from = if i == old(self).cur {
                        old(self).pos as int
                    } else {
                        0
                    };
                    &&& r matches Some(a) && a == aligned_up(c.base + from, align as int)
                    &&& r->Some_0 % align == 0
                    &&& c.base + from <= r->Some_0
                    &&& r->Some_0 + size <= c.base + c.cap
                    &&& final(self).cur == i
                    &&& final(self).pos == r->Some_0 + size - c.base
                },
                None => r is None && final(self).cur == old(self).cur && final(self).pos
                    == old(self).pos,
            },
    {
        let n: usize = self.chunks.len();
        let mut i: usize = self.cur;
        while i < n
            invariant
                n == self.chunks@.len(),
                self.cur <= i <= n || n == 0,
                n == 0 ==> i == 0,
                self.wf(),
                *self == *old(self),
                align > 0,
                serving(
                    self.chunks@,
                    self.cur as int,
                    self.pos as int,
                    size as int,
                    align as int,
                    i as int,
                ) == serving(
                    self.chunks@,
                    self.cur as int,
                    self.pos as int,
                    size as int,
                    align as int,
                    self.cur as int,
                ),
            decreases n - i,
        {
            let c = self.chunks[i];
            let from: usize = if i == self.cur {
                self.pos
            } else {
                0
            };
            let x: u128 = c.base as u128 + from as u128;
            let al: u128 = align as u128;
            proof {
                aligned_up_near(x as int, align as int);
            }
            let aligned: u128 = (x + al - 1) / al * al;
            if aligned + size as u128 <= c.base as u128 + c.cap as u128 {
                self.cur = i;
                self.pos = (aligned + size as u128 - c.base as u128) as usize;
                return Some(aligned as usize);
            }
            i += 1;
        }
        None
    }

    /// Add a chunk, and move the cursor to its start.
    pub fn push_chunk(&mut self, base: usize, cap: usize)
        requires
            old(self).wf(),
            base + cap <= usize::MAX,
        ensures
            final(self).wf(),
            final(self).chunks@ == old(self).chunks@.push(Chunk { base, cap }),
            final(self).cur == old(self).chunks@.len(),
            final(self).pos == 0,
    {
        self.cur = self.chunks.len();
        self.pos = 0;
        self.chunks.push(Chunk { base, cap });
    }

    /// The cursor.
    pub fn mark(&self) -> (m: Mark)
        ensures
            m.cur == self.cur,
            m.pos == self.pos,
    {
        Mark { cur: self.cur, pos: self.pos }
    }

    /// Roll the cursor back to a mark. The chunks stay for reuse.
    pub fn reset(&mut self, m: Mark)
        requires
            old(self).wf(),
            old(self).chunks@.len() > 0 ==> m.cur < old(self).chunks@.len() && m.pos
                <= old(self).chunks@[m.cur as int].cap,
            old(self).chunks@.len() == 0 ==> m.cur == 0 && m.pos == 0,
        ensures
            final(self).wf(),
            final(self).chunks@ == old(self).chunks@,
            final(self).cur == m.cur,
            final(self).pos == m.pos,
    {
        self.cur = m.cur;
        self.pos = m.pos;
    }
}

/// The size of the chunk that a request needs: the default, or more for a large one.
pub fn chunk_for(size: usize, align: usize) -> (r: usize)
    requires
        size + align <= usize::MAX,
    ensures
        r == if size + align > CHUNK {
            size + align
        } else {
            CHUNK as int
        },
{
    if size + align > CHUNK {
        size + align
    } else {
        CHUNK
    }
}

// ── Laws ─────────────────────────────────────────────────────────────────────

/// A chunk of the size a request needs serves it, wherever the chunk is.
pub proof fn a_new_chunk_serves(base: usize, cap: usize, size: int, align: int)
    requires
        align > 0,
        size >= 0,
        cap >= size + align,
    ensures
        fits(Chunk { base, cap }, 0, size, align),
{
    aligned_up_near(base as int, align);
}

/// The cursor `(c, p)` is at or behind `(a, b)`.
pub open spec fn behind(c: int, p: int, a: int, b: int) -> bool {
    a < c || (a == c && b <= p)
}

/// What serves a request lies at or behind the cursor: nothing handed out before, since
/// a mark or before it, is handed out again until the arena is rolled back.
pub proof fn bumps_move_forward(
    chunks: Seq<Chunk>,
    cur: int,
    pos: int,
    size: int,
    align: int,
    i: int,
)
    requires
        0 <= cur <= i,
        0 <= pos,
        0 <= size,
        align > 0,
    ensures
        serving(chunks, cur, pos, size, align, i) matches Some(k) ==> {
            let from = if k == cur {
                pos
            } else {
                0
            };
            let start = aligned_up(chunks[k].base + from, align) - chunks[k].base;
            &&& i <= k < chunks.len()
            &&& behind(k, start, cur, pos)
            &&& behind(k, start + size, k, start)
        },
    decreases chunks.len() - i,
{
    if i < chunks.len() {
        aligned_up_near(
            chunks[i].base + if i == cur {
                pos
            } else {
                0
            },
            align,
        );
        bumps_move_forward(chunks, cur, pos, size, align, i + 1);
    }
}

/// Aligning moves an address up to the next multiple, and no further.
pub proof fn alignment_is_the_next_multiple(x: int, align: int)
    requires
        align > 0,
    ensures
        aligned_up(x, align) % align == 0,
        x <= aligned_up(x, align) < x + align,
{
    let y = x + align - 1;
    vstd::arithmetic::div_mod::lemma_fundamental_div_mod(y, align);
    vstd::arithmetic::div_mod::lemma_mod_bound(y, align);
    let q = y / align;
    assert(q * align == align * q) by (nonlinear_arith);
    vstd::arithmetic::div_mod::lemma_mod_multiples_basic(q, align);
}

/// A request is served by the first chunk from the cursor on that has room for it, and by
/// none only where none has.
pub proof fn the_first_with_room_serves(
    chunks: Seq<Chunk>,
    cur: int,
    pos: int,
    size: int,
    align: int,
    i: int,
    k: int,
)
    requires
        0 <= cur <= i <= k < chunks.len(),
        aligned_up(
            chunks[k].base + if k == cur {
                pos
            } else {
                0
            },
            align,
        ) + size <= chunks[k].base + chunks[k].cap,
        forall|j: int|
            i <= j < k ==> aligned_up(
                (#[trigger] chunks[j]).base + if j == cur {
                    pos
                } else {
                    0
                },
                align,
            ) + size > chunks[j].base + chunks[j].cap,
    ensures
        serving(chunks, cur, pos, size, align, i) == Some(k),
    decreases k - i,
{
    if i < k {
        assert(aligned_up(
            chunks[i].base + if i == cur {
                pos
            } else {
                0
            },
            align,
        ) + size > chunks[i].base + chunks[i].cap);
        the_first_with_room_serves(chunks, cur, pos, size, align, i + 1, k);
    }
}

} // verus!
