//! Segregated free lists: which freed block serves a request, and which requests the
//! system serves.
//!
//! Requests fall into classes of block sizes that are powers of two from 8 to 4096. A
//! freed block goes back to its class, and the last one freed is the first reused.
//! Larger and over-aligned requests are the system's. Blocks are known by address; the
//! memory itself is the caller's.

use vstd::prelude::*;

verus! {

/// How many classes there are.
pub const NUM_CLASSES: usize = 10;

/// The largest block that is pooled.
pub const MAX_POOLED: usize = 4096;

/// The block size of a class.
pub open spec fn block_size(idx: int) -> int
    decreases idx,
{
    if idx <= 0 {
        8
    } else {
        2 * block_size(idx - 1)
    }
}

/// The block sizes.
proof fn block_sizes()
    ensures
        block_size(0) == 8,
        block_size(1) == 16,
        block_size(2) == 32,
        block_size(3) == 64,
        block_size(4) == 128,
        block_size(5) == 256,
        block_size(6) == 512,
        block_size(7) == 1024,
        block_size(8) == 2048,
        block_size(9) == 4096,
{
    reveal_with_fuel(block_size, 10);
}

/// `idx` is the class with the smallest blocks that hold `size` bytes.
pub open spec fn is_class(size: int, idx: int) -> bool {
    &&& 0 <= idx < NUM_CLASSES
    &&& size <= block_size(idx)
    &&& forall|j: int| 0 <= j < idx ==> #[trigger] block_size(j) < size
}

/// The class that serves a request, if one does: its blocks hold the size, and are
/// aligned to their own size.
pub open spec fn served_by(size: int, align: int, idx: Option<int>) -> bool {
    match idx {
        Some(i) => is_class(size, i) && align <= block_size(i),
        None => size > MAX_POOLED || exists|i: int| #[trigger]
            is_class(size, i) && align > block_size(i),
    }
}

/// The class with the smallest blocks that hold `size` bytes.
pub fn class_index(size: usize) -> (r: Option<usize>)
    ensures
        match r {
            Some(i) => is_class(size as int, i as int),
            None => size > MAX_POOLED,
        },
{
    proof {
        block_sizes();
    }
    if size > MAX_POOLED {
        return None;
    }
    let mut idx: usize = 0;
    let mut block: usize = 8;
    while block < size
        invariant
            idx < NUM_CLASSES,
            block == block_size(idx as int),
            block <= 4096,
            size <= 4096,
            block_size(9) == 4096,
            forall|j: int| 0 <= j < idx ==> #[trigger] block_size(j) < size,
        decreases NUM_CLASSES - idx,
    {
        assert(idx < 9);
        idx += 1;
        block = block * 2;
        proof {
            block_sizes();
        }
    }
    Some(idx)
}

/// The block size of a class.
pub fn class_size(idx: usize) -> (r: usize)
    requires
        idx < NUM_CLASSES,
    ensures
        r == block_size(idx as int),
{
    let mut block: usize = 8;
    let mut i: usize = 0;
    while i < idx
        invariant
            i <= idx < NUM_CLASSES,
            block == block_size(i as int),
            block <= 4096,
        decreases idx - i,
    {
        i += 1;
        block = block * 2;
        proof {
            block_sizes();
        }
    }
    block
}

/// The class that serves a request; none for the system.
pub fn pooled_class(size: usize, align: usize) -> (r: Option<usize>)
    ensures
        served_by(
            size as int,
            align as int,
            match r {
                Some(i) => Some(i as int),
                None => None,
            },
        ),
{
    match class_index(size) {
        Some(idx) => {
            if align <= class_size(idx) {
                Some(idx)
            } else {
                assert(is_class(size as int, idx as int));
                None
            }
        },
        None => None,
    }
}

/// Where a block comes from.
#[derive(Debug, Clone, Copy, PartialEq, Eq, Structural)]
pub enum Source {
    /// A freed block, by address.
    Reused(usize),
    /// The system, with this size and alignment.
    System(usize, usize),
}

/// What resizing a block does.
#[derive(Debug, Clone, Copy, PartialEq, Eq, Structural)]
pub enum Resize {
    /// The block already fits.
    InPlace,
    /// A new block, into which so many bytes are copied; the old one is freed.
    Move(Source, usize),
}

/// The free lists.
pub struct Pool {
    /// The freed blocks of each class, the last one freed last.
    pub free: Vec<Vec<usize>>,
}

/// Serving a request of a class, or of none, from the lists `before` gives `r` and
/// leaves `after`.
pub open spec fn allocates(
    before: Seq<Seq<usize>>,
    after: Seq<Seq<usize>>,
    c: Option<int>,
    size: usize,
    align: usize,
    r: Source,
) -> bool {
    match c {
        Some(i) => if before[i].len() > 0 {
            r == Source::Reused(before[i].last()) && after == before.update(
                i,
                before[i].drop_last(),
            )
        } else {
            r == Source::System(block_size(i) as usize, block_size(i) as usize) && after == before
        },
        None => r == Source::System(size, align) && after == before,
    }
}

/// Taking back a block of a class, or of none, leaves `after`.
pub open spec fn frees(
    before: Seq<Seq<usize>>,
    after: Seq<Seq<usize>>,
    c: Option<int>,
    ptr: usize,
    pooled: bool,
) -> bool {
    match c {
        Some(i) => pooled && after == before.update(i, before[i].push(ptr)),
        None => !pooled && after == before,
    }
}

/// A class as mathematics.
pub open spec fn class_view(c: Option<usize>) -> Option<int> {
    match c {
        Some(i) => Some(i as int),
        None => None,
    }
}

impl View for Pool {
    type V = Seq<Seq<usize>>;

    open spec fn view(&self) -> Seq<Seq<usize>> {
        Seq::new(self.free@.len(), |i: int| self.free@[i]@)
    }
}

impl Pool {
    /// There is a list for each class.
    pub open spec fn wf(&self) -> bool {
        self.free@.len() == NUM_CLASSES
    }

    /// A pool in which nothing was freed.
    pub fn new() -> (p: Self)
        ensures
            p.wf(),
            forall|i: int| 0 <= i < NUM_CLASSES ==> #[trigger] p@[i] == Seq::<usize>::empty(),
    {
        let mut free: Vec<Vec<usize>> = Vec::new();
        let mut i: usize = 0;
        while i < NUM_CLASSES
            invariant
                i <= NUM_CLASSES,
                free@.len() == i,
                forall|k: int| 0 <= k < i ==> (#[trigger] free@[k])@ == Seq::<usize>::empty(),
            decreases NUM_CLASSES - i,
        {
            free.push(Vec::new());
            i += 1;
        }
        Pool { free }
    }

    /// Serve a request: with the last freed block of its class when there is one, else
    /// from the system, a whole block of the class where there is a class.
    pub fn allocate(&mut self, size: usize, align: usize) -> (r: Source)
        requires
            old(self).wf(),
        ensures
            final(self).wf(),
            exists|c: Option<int>| #[trigger]
                served_by(size as int, align as int, c) && allocates(
                    old(self)@,
                    final(self)@,
                    c,
                    size,
                    align,
                    r,
                ),
    {
        let class = pooled_class(size, align);
        let ghost c = class_view(class);
        let ghost before = self@;
        assert(served_by(size as int, align as int, c));
        match class {
            Some(idx) => {
                proof {
                    block_sizes();
                }
                match self.free[idx].pop() {
                    Some(p) => {
                        assert(self@ =~= before.update(
                            idx as int,
                            before[idx as int].drop_last(),
                        ));
                        Source::Reused(p)
                    },
                    None => {
                        assert(self@ =~= before);
                        let b: usize = class_size(idx);
                        Source::System(b, b)
                    },
                }
            },
            None => Source::System(size, align),
        }
    }

    /// Take a block back: into the list of its class, or, for `false`, it is the
    /// system's. The size and the alignment are those it was asked for with.
    pub fn dealloc(&mut self, ptr: usize, size: usize, align: usize) -> (pooled: bool)
        requires
            old(self).wf(),
        ensures
            final(self).wf(),
            exists|c: Option<int>| #[trigger]
                served_by(size as int, align as int, c) && frees(
                    old(self)@,
                    final(self)@,
                    c,
                    ptr,
                    pooled,
                ),
    {
        let class = pooled_class(size, align);
        let ghost c = class_view(class);
        let ghost before = self@;
        assert(served_by(size as int, align as int, c));
        match class {
            Some(idx) => {
                self.free[idx].push(ptr);
                assert(self@ =~= before.update(idx as int, before[idx as int].push(ptr)));
                true
            },
            None => false,
        }
    }

    /// Resize a block: in place when both sizes fall into one class, else into a new
    /// block, and the old one is taken back.
    pub fn realloc(&mut self, ptr: usize, old_size: usize, align: usize, new_size: usize) -> (r:
        Resize)
        requires
            old(self).wf(),
        ensures
            final(self).wf(),
            exists|a: Option<int>, b: Option<int>| #[trigger]
                served_by(old_size as int, align as int, a) && #[trigger] served_by(
                    new_size as int,
                    align as int,
                    b,
                ) && if a is Some && a == b {
                    r == Resize::InPlace && final(self)@ == old(self)@
                } else {
                    exists|mid: Seq<Seq<usize>>, source: Source, pooled: bool|
                        {
                            &&& #[trigger] allocates(
                                old(self)@,
                                mid,
                                b,
                                new_size,
                                align,
                                source,
                            )
                            &&& #[trigger] frees(mid, final(self)@, a, ptr, pooled)
                            &&& r == Resize::Move(
                                source,
                                if old_size < new_size {
                                    old_size
                                } else {
                                    new_size
                                },
                            )
                        }
                },
    {
        let a = pooled_class(old_size, align);
        let b = pooled_class(new_size, align);
        let ghost av = class_view(a);
        let ghost bv = class_view(b);
        assert(served_by(old_size as int, align as int, av));
        assert(served_by(new_size as int, align as int, bv));
        if let (Some(x), Some(y)) = (a, b) {
            if x == y {
                return Resize::InPlace;
            }
        }
        let ghost before = self@;
        let source = self.allocate(new_size, align);
        let ghost mid = self@;
        let pooled: bool = self.dealloc(ptr, old_size, align);
        proof {
            let c = choose|c: Option<int>| #[trigger]
                served_by(new_size as int, align as int, c) && allocates(
                    before,
                    mid,
                    c,
                    new_size,
                    align,
                    source,
                );
            classes_are_unique(new_size as int, align as int, c, bv);
            let d = choose|d: Option<int>| #[trigger]
                served_by(old_size as int, align as int, d) && frees(mid, self@, d, ptr, pooled);
            classes_are_unique(old_size as int, align as int, d, av);
            assert(allocates(before, mid, bv, new_size, align, source));
            assert(frees(mid, self@, av, ptr, pooled));
        }
        let n: usize = if old_size < new_size {
            old_size
        } else {
            new_size
        };
        Resize::Move(source, n)
    }
}

/// A request has one class, or none: taking a block back finds the list that handing it
/// out looked in.
pub proof fn classes_are_unique(size: int, align: int, a: Option<int>, b: Option<int>)
    requires
        served_by(size, align, a),
        served_by(size, align, b),
    ensures
        a == b,
{
    block_sizes();
    if let Some(i) = a {
        class_is_unique(size, align, i, b);
    } else if let Some(j) = b {
        class_is_unique(size, align, j, a);
    }
}

/// A request with a class has no other.
proof fn class_is_unique(size: int, align: int, i: int, found: Option<int>)
    requires
        served_by(size, align, Some(i)),
        served_by(size, align, found),
    ensures
        found == Some(i),
{
    block_sizes();
    match found {
        Some(x) => {
            if x < i {
                assert(block_size(x) < size);
            } else if i < x {
                assert(block_size(i) < size);
            }
        },
        None => {
            if size > MAX_POOLED {
                block_grows(i, 9);
            } else {
                let j = choose|j: int| #[trigger] is_class(size, j) && align > block_size(j);
                if j < i {
                    assert(block_size(j) < size);
                } else if i < j {
                    assert(block_size(i) < size);
                }
            }
        },
    }
}

/// A later class has larger blocks.
proof fn block_grows(i: int, j: int)
    requires
        0 <= i <= j,
    ensures
        block_size(i) <= block_size(j),
        block_size(i) >= 8,
    decreases j,
{
    if i < j {
        block_grows(i, j - 1);
    } else if i > 0 {
        block_grows(i - 1, i - 1);
    }
}

// ── Laws ─────────────────────────────────────────────────────────────────────

/// A freed block is the next one its class hands out: freeing it and asking again with
/// the same size and alignment gives the block back, and leaves the lists as they were.
pub proof fn freed_blocks_recycle(
    before: Seq<Seq<usize>>,
    freed: Seq<Seq<usize>>,
    after: Seq<Seq<usize>>,
    c: Option<int>,
    ptr: usize,
    size: usize,
    align: usize,
    r: Source,
)
    requires
        before.len() == NUM_CLASSES,
        served_by(size as int, align as int, c),
        c is Some,
        frees(before, freed, c, ptr, true),
        allocates(freed, after, c, size, align, r),
    ensures
        r == Source::Reused(ptr),
        after == before,
{
    let i = c->Some_0;
    assert(before[i].push(ptr).drop_last() =~= before[i]);
    assert(after =~= before);
}

/// Every request that fits has a class, and its blocks are less than twice as large as
/// asked for, but for the smallest.
pub proof fn blocks_are_tight(size: int, idx: int)
    requires
        is_class(size, idx),
        idx > 0,
    ensures
        size <= block_size(idx) < 2 * size,
{
    assert(block_size(idx - 1) < size);
}

/// Block sizes double from eight on.
pub proof fn block_sizes_double(idx: int)
    requires
        0 <= idx,
    ensures
        block_size(0) == 8,
        block_size(idx + 1) == 2 * block_size(idx),
        block_size(idx) >= 8,
    decreases idx,
{
    if idx > 0 {
        block_sizes_double(idx - 1);
    }
}

/// What the system is asked for holds what was asked of the pool.
pub proof fn fresh_blocks_hold_the_request(
    before: Seq<Seq<usize>>,
    after: Seq<Seq<usize>>,
    c: Option<int>,
    size: usize,
    align: usize,
    n: usize,
    a: usize,
)
    requires
        served_by(size as int, align as int, c),
        allocates(before, after, c, size, align, Source::System(n, a)),
        c matches Some(i) ==> block_size(i) <= usize::MAX,
    ensures
        size <= n,
        align <= a,
        after == before,
{
}

} // verus!
