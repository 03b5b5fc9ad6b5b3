//! Everything an import graph reaches.

use vstd::prelude::*;

#[allow(unused_imports)]
use super::course::{
    course_of, fault_of, first_fault, imports_name_one_thing, listing_of, lists, named, names, run,
    run_ends, run_extends, start, steady, step_moves, verdict_of, walk_ends, walk_reaches, Course,
};
use super::imports::{ImportContext, Loaded, Progress, Span, Walk, WalkError};
#[allow(unused_imports)]
use super::imports::{
    advances, canon_says, distinct, entered, followed, import_result, import_views, load_says,
    module_dir, opt_view, visits, ImportTarget, Level,
};
#[allow(unused_imports)]
use super::library::{says, LibraryEntry};
#[allow(unused_imports)]
use crate::text::texts;

verus! {

// ── What is reached ──────────────────────────────────────────────────────────

/// Whom a walk asks, and what imports resolve against.
pub struct World<B, F, C, L> {
    /// Which packages are compiled in.
    pub builtin: B,
    /// Which files are there.
    pub on_disk: F,
    /// The canonical path of a file.
    pub canonical: C,
    /// The imports of a module.
    pub load: L,
    /// The registered libraries.
    pub libraries: Seq<(String, LibraryEntry)>,
    /// The project root.
    pub root: Option<Seq<char>>,
}

/// The path, imported in the directory, names the target.
pub open spec fn resolves<
    B: Fn(&str) -> bool,
    F: Fn(&str) -> bool,
    C: Fn(&str) -> Option<String>,
    L: Fn(&str) -> Loaded,
>(
    w: World<B, F, C, L>,
    dir: Seq<char>,
    path: Seq<char>,
    t: Result<ImportTarget, String>,
) -> bool {
    exists|b: bool| #[trigger]
        says(w.builtin, path, b) && import_result(
            w.on_disk,
            w.libraries,
            w.root,
            dir,
            path,
            b,
            t,
        )
}

/// The path, imported in the directory, names the source module with this canonical path.
pub open spec fn leads_to<
    B: Fn(&str) -> bool,
    F: Fn(&str) -> bool,
    C: Fn(&str) -> Option<String>,
    L: Fn(&str) -> Loaded,
>(w: World<B, F, C, L>, dir: Seq<char>, path: Seq<char>, c: Seq<char>) -> bool {
    exists|p: String| #[trigger]
        resolves(w, dir, path, Ok(ImportTarget::Jade(p))) && canon_says(w.canonical, p@, Some(c))
}

/// The import is good: it names a compiled-in package, a native library that is there, or
/// a module among `seen`.
pub open spec fn fine<
    B: Fn(&str) -> bool,
    F: Fn(&str) -> bool,
    C: Fn(&str) -> Option<String>,
    L: Fn(&str) -> Loaded,
>(w: World<B, F, C, L>, dir: Seq<char>, path: Seq<char>, seen: Seq<Seq<char>>) -> bool {
    ||| resolves(w, dir, path, Ok(ImportTarget::Builtin))
    ||| exists|p: String| #[trigger]
        resolves(w, dir, path, Ok(ImportTarget::Native(p))) && says(w.on_disk, p@, true)
    ||| exists|c: Seq<char>| #[trigger] leads_to(w, dir, path, c) && seen.contains(c)
}

/// The first `n` imports are good.
pub open spec fn fine_upto<
    B: Fn(&str) -> bool,
    F: Fn(&str) -> bool,
    C: Fn(&str) -> Option<String>,
    L: Fn(&str) -> Loaded,
>(
    w: World<B, F, C, L>,
    dir: Seq<char>,
    imports: Seq<(Seq<char>, Span)>,
    n: int,
    seen: Seq<Seq<char>>,
) -> bool {
    forall|k: int| 0 <= k < n ==> fine(w, dir, (#[trigger] imports[k]).0, seen)
}

/// The file an import names is not there, or cannot be read.
pub open spec fn missing<
    B: Fn(&str) -> bool,
    F: Fn(&str) -> bool,
    C: Fn(&str) -> Option<String>,
    L: Fn(&str) -> Loaded,
>(w: World<B, F, C, L>, dir: Seq<char>, path: Seq<char>) -> bool {
    ||| exists|p: String| #[trigger]
        resolves(w, dir, path, Ok(ImportTarget::Native(p))) && says(w.on_disk, p@, false)
    ||| exists|p: String| #[trigger]
        resolves(w, dir, path, Ok(ImportTarget::Jade(p))) && canon_says(w.canonical, p@, None)
    ||| exists|c: Seq<char>| #[trigger]
        leads_to(w, dir, path, c) && load_says(w.load, c, Loaded::Unreadable)
}

/// The import fails with the error.
pub open spec fn fails<
    B: Fn(&str) -> bool,
    F: Fn(&str) -> bool,
    C: Fn(&str) -> Option<String>,
    L: Fn(&str) -> Loaded,
>(w: World<B, F, C, L>, dir: Seq<char>, path: Seq<char>, span: Span, e: WalkError) -> bool {
    match e {
        WalkError::Io { message, span: s } => s == span && resolves(w, dir, path, Err(message)),
        WalkError::ImportNotFound { path: p, span: s } => s == span && p@ == path && missing(
            w,
            dir,
            path,
        ),
        WalkError::Frontend(m) => exists|c: Seq<char>| #[trigger]
            leads_to(w, dir, path, c) && load_says(w.load, c, Loaded::Bad(m)),
    }
}

/// The imports of a module.
pub open spec fn has_imports<
    B: Fn(&str) -> bool,
    F: Fn(&str) -> bool,
    C: Fn(&str) -> Option<String>,
    L: Fn(&str) -> Loaded,
>(w: World<B, F, C, L>, m: Seq<char>, imports: Seq<(Seq<char>, Span)>) -> bool {
    exists|l: Vec<(String, Span)>| #[trigger]
        load_says(w.load, m, Loaded::Imports(l)) && import_views(l@) == imports
}

/// One of the imports names the module.
pub open spec fn imported_by<
    B: Fn(&str) -> bool,
    F: Fn(&str) -> bool,
    C: Fn(&str) -> Option<String>,
    L: Fn(&str) -> Loaded,
>(w: World<B, F, C, L>, dir: Seq<char>, imports: Seq<(Seq<char>, Span)>, c: Seq<char>) -> bool {
    exists|k: int|
        0 <= k < imports.len() && leads_to(w, dir, (#[trigger] imports[k]).0, c)
}

/// A module is imported by the file the walk begins at, or by a module before it.
pub open spec fn reached<
    B: Fn(&str) -> bool,
    F: Fn(&str) -> bool,
    C: Fn(&str) -> Option<String>,
    L: Fn(&str) -> Loaded,
>(
    w: World<B, F, C, L>,
    dir: Seq<char>,
    imports: Seq<(Seq<char>, Span)>,
    seen: Seq<Seq<char>>,
    i: int,
) -> bool {
    ||| imported_by(w, dir, imports, seen[i])
    ||| exists|j: int, v: Seq<(Seq<char>, Span)>|
        0 <= j < i && #[trigger] has_imports(w, seen[j], v) && imported_by(
            w,
            module_dir(seen[j]),
            v,
            seen[i],
        )
}

/// Every module of the list is reached.
pub open spec fn all_reached<
    B: Fn(&str) -> bool,
    F: Fn(&str) -> bool,
    C: Fn(&str) -> Option<String>,
    L: Fn(&str) -> Loaded,
>(
    w: World<B, F, C, L>,
    dir: Seq<char>,
    imports: Seq<(Seq<char>, Span)>,
    seen: Seq<Seq<char>>,
) -> bool {
    forall|i: int| 0 <= i < seen.len() ==> #[trigger] reached(w, dir, imports, seen, i)
}

/// Every import of the module is good.
pub open spec fn finished<
    B: Fn(&str) -> bool,
    F: Fn(&str) -> bool,
    C: Fn(&str) -> Option<String>,
    L: Fn(&str) -> Loaded,
>(w: World<B, F, C, L>, m: Seq<char>, seen: Seq<Seq<char>>) -> bool {
    exists|v: Seq<(Seq<char>, Span)>| #[trigger]
        has_imports(w, m, v) && fine_upto(w, module_dir(m), v, v.len() as int, seen)
}

/// The modules are exactly those the imports reach: each is reached, none is there twice,
/// and every import of the file and of each module is good.
pub open spec fn reachable<
    B: Fn(&str) -> bool,
    F: Fn(&str) -> bool,
    C: Fn(&str) -> Option<String>,
    L: Fn(&str) -> Loaded,
>(
    w: World<B, F, C, L>,
    dir: Seq<char>,
    imports: Seq<(Seq<char>, Span)>,
    seen: Seq<Seq<char>>,
) -> bool {
    &&& distinct(seen)
    &&& all_reached(w, dir, imports, seen)
    &&& fine_upto(w, dir, imports, imports.len() as int, seen)
    &&& forall|j: int| 0 <= j < seen.len() ==> finished(w, #[trigger] seen[j], seen)
}

/// The list of imports, relative to the directory, is that of the file the walk begins
/// at, or of a module among `seen`.
pub open spec fn stands<
    B: Fn(&str) -> bool,
    F: Fn(&str) -> bool,
    C: Fn(&str) -> Option<String>,
    L: Fn(&str) -> Loaded,
>(
    w: World<B, F, C, L>,
    dir: Seq<char>,
    imports: Seq<(Seq<char>, Span)>,
    seen: Seq<Seq<char>>,
    at: Seq<char>,
    list: Seq<(Seq<char>, Span)>,
) -> bool {
    ||| at == dir && list == imports
    ||| exists|j: int|
        0 <= j < seen.len() && has_imports(w, #[trigger] seen[j], list) && at == module_dir(
            seen[j],
        )
}

/// The `k`th import of the list fails with the error, and those before it are good.
pub open spec fn stops_at<
    B: Fn(&str) -> bool,
    F: Fn(&str) -> bool,
    C: Fn(&str) -> Option<String>,
    L: Fn(&str) -> Loaded,
>(
    w: World<B, F, C, L>,
    dir: Seq<char>,
    imports: Seq<(Seq<char>, Span)>,
    e: WalkError,
    seen: Seq<Seq<char>>,
    at: Seq<char>,
    list: Seq<(Seq<char>, Span)>,
    k: int,
) -> bool {
    &&& all_reached(w, dir, imports, seen)
    &&& stands(w, dir, imports, seen, at, list)
    &&& 0 <= k < list.len()
    &&& fine_upto(w, at, list, k, seen)
    &&& fails(w, at, list[k].0, list[k].1, e)
}

/// An import that is reached fails with the error.
pub open spec fn broken_import<
    B: Fn(&str) -> bool,
    F: Fn(&str) -> bool,
    C: Fn(&str) -> Option<String>,
    L: Fn(&str) -> Loaded,
>(w: World<B, F, C, L>, dir: Seq<char>, imports: Seq<(Seq<char>, Span)>, e: WalkError) -> bool {
    exists|seen: Seq<Seq<char>>, at: Seq<char>, list: Seq<(Seq<char>, Span)>, k: int| #[trigger]
        stops_at(w, dir, imports, e, seen, at, list, k)
}

/// The canonical paths of all files there are.
pub open spec fn covers<C: Fn(&str) -> Option<String>>(canonical: C, files: Set<Seq<char>>) -> bool {
    &&& files.finite()
    &&& forall|p: Seq<char>, c: Seq<char>| #[trigger]
        canon_says(canonical, p, Some(c)) ==> files.contains(c)
}

/// There are only so many files.
pub open spec fn finite_disk<C: Fn(&str) -> Option<String>>(canonical: C) -> bool {
    exists|files: Set<Seq<char>>| #[trigger] covers(canonical, files)
}

// ── The walk keeps its promises ──────────────────────────────────────────────

/// What holds throughout a walk; `owner` tells which module a level belongs to.
spec fn on_course<
    B: Fn(&str) -> bool,
    F: Fn(&str) -> bool,
    C: Fn(&str) -> Option<String>,
    L: Fn(&str) -> Loaded,
>(
    w: World<B, F, C, L>,
    dir: Seq<char>,
    imports: Seq<(Seq<char>, Span)>,
    x: Walk,
    owner: Seq<int>,
) -> bool {
    let seen = texts(x.seen@);
    &&& x.wf()
    &&& owner.len() == x.levels@.len()
    &&& all_reached(w, dir, imports, seen)
    &&& x.levels@.len() == 0 ==> fine_upto(w, dir, imports, imports.len() as int, seen)
    &&& x.levels@.len() > 0 ==> import_views(x.levels@[0].imports@) == imports && x.levels@[0].dir@ == dir
        && owner[0] == -1
    &&& forall|i: int|
        0 <= i < x.levels@.len() ==> fine_upto(
            w,
            (#[trigger] x.levels@[i]).dir@,
            import_views(x.levels@[i].imports@),
            x.levels@[i].next as int,
            seen,
        )
    &&& forall|i: int|
        0 < i < x.levels@.len() ==> {
            &&& 0 <= #[trigger] owner[i] < seen.len()
            &&& has_imports(w, seen[owner[i]], import_views(x.levels@[i].imports@))
            &&& x.levels@[i].dir@ == module_dir(seen[owner[i]])
        }
    &&& forall|j: int|
        0 <= j < seen.len() ==> finished(w, #[trigger] seen[j], seen) || owner.contains(j)
}

/// A good import stays good when more modules are reached.
proof fn fine_stays<
    B: Fn(&str) -> bool,
    F: Fn(&str) -> bool,
    C: Fn(&str) -> Option<String>,
    L: Fn(&str) -> Loaded,
>(
    w: World<B, F, C, L>,
    dir: Seq<char>,
    imports: Seq<(Seq<char>, Span)>,
    n: int,
    seen: Seq<Seq<char>>,
    c: Seq<char>,
)
    requires
        fine_upto(w, dir, imports, n, seen),
    ensures
        fine_upto(w, dir, imports, n, seen.push(c)),
{
    assert forall|k: int| 0 <= k < n implies fine(
        w,
        dir,
        (#[trigger] imports[k]).0,
        seen.push(c),
    ) by {
        let path = imports[k].0;
        assert(fine(w, dir, path, seen));
        if exists|d: Seq<char>| #[trigger] leads_to(w, dir, path, d) && seen.contains(d) {
            let d = choose|d: Seq<char>| #[trigger] leads_to(w, dir, path, d) && seen.contains(d);
            let i = choose|i: int| 0 <= i < seen.len() && seen[i] == d;
            assert(seen.push(c)[i] == d);
        }
    }
}

/// A module reached stays so when more are.
proof fn reached_stays<
    B: Fn(&str) -> bool,
    F: Fn(&str) -> bool,
    C: Fn(&str) -> Option<String>,
    L: Fn(&str) -> Loaded,
>(
    w: World<B, F, C, L>,
    dir: Seq<char>,
    imports: Seq<(Seq<char>, Span)>,
    seen: Seq<Seq<char>>,
    c: Seq<char>,
)
    requires
        all_reached(w, dir, imports, seen),
        reached(w, dir, imports, seen.push(c), seen.len() as int),
    ensures
        all_reached(w, dir, imports, seen.push(c)),
{
    let more = seen.push(c);
    assert forall|i: int| 0 <= i < more.len() implies #[trigger] reached(
        w,
        dir,
        imports,
        more,
        i,
    ) by {
        if i < seen.len() {
            assert(reached(w, dir, imports, seen, i));
            assert(more[i] == seen[i]);
            if !imported_by(w, dir, imports, seen[i]) {
                let (j, v) = choose|j: int, v: Seq<(Seq<char>, Span)>|
                    0 <= j < i && #[trigger] has_imports(w, seen[j], v) && imported_by(
                        w,
                        module_dir(seen[j]),
                        v,
                        seen[i],
                    );
                assert(more[j] == seen[j]);
                assert(has_imports(w, more[j], v));
            }
        }
    }
}

/// Leaving a module whose imports were all followed.
proof fn leaving<
    B: Fn(&str) -> bool,
    F: Fn(&str) -> bool,
    C: Fn(&str) -> Option<String>,
    L: Fn(&str) -> Loaded,
>(
    w: World<B, F, C, L>,
    dir: Seq<char>,
    imports: Seq<(Seq<char>, Span)>,
    before: Walk,
    after: Walk,
    owner: Seq<int>,
)
    requires
        on_course(w, dir, imports, before, owner),
        after.wf(),
        before.levels@.len() > 0,
        before.levels@.last().next == before.levels@.last().imports@.len(),
        after.levels@ == before.levels@.drop_last(),
        after.seen@ == before.seen@,
    ensures
        on_course(w, dir, imports, after, owner.drop_last()),
{
    let seen = texts(before.seen@);
    let n = before.levels@.len() as int;
    let top = before.levels@[n - 1];
    let less = owner.drop_last();
    assert(fine_upto(w, top.dir@, import_views(top.imports@), top.next as int, seen));
    assert forall|j: int| 0 <= j < seen.len() implies finished(w, #[trigger] seen[j], seen)
        || less.contains(j) by {
        if !finished(w, seen[j], seen) {
            let i = choose|i: int| 0 <= i < owner.len() && owner[i] == j;
            if i == n - 1 {
                assert(i > 0);
                assert(has_imports(w, seen[owner[i]], import_views(top.imports@)));
                assert(finished(w, seen[j], seen));
            } else {
                assert(less[i] == j);
            }
        }
    }
    assert forall|i: int| 0 < i < after.levels@.len() implies {
        &&& 0 <= #[trigger] less[i] < seen.len()
        &&& has_imports(w, seen[less[i]], import_views(after.levels@[i].imports@))
        &&& after.levels@[i].dir@ == module_dir(seen[less[i]])
    } by {
        assert(less[i] == owner[i]);
    }
}

/// Following an import that is good.
proof fn passing<
    B: Fn(&str) -> bool,
    F: Fn(&str) -> bool,
    C: Fn(&str) -> Option<String>,
    L: Fn(&str) -> Loaded,
>(
    w: World<B, F, C, L>,
    dir: Seq<char>,
    imports: Seq<(Seq<char>, Span)>,
    before: Walk,
    after: Walk,
    owner: Seq<int>,
)
    requires
        on_course(w, dir, imports, before, owner),
        after.wf(),
        before.levels@.len() > 0,
        before.levels@.last().next < before.levels@.last().imports@.len(),
        texts(after.seen@) == texts(before.seen@),
        after.levels@.len() == before.levels@.len(),
        after.levels@.drop_last() == before.levels@.drop_last(),
        after.levels@.last().imports == before.levels@.last().imports,
        after.levels@.last().dir == before.levels@.last().dir,
        after.levels@.last().next == before.levels@.last().next + 1,
        fine(
            w,
            before.levels@.last().dir@,
            before.levels@.last().imports@[before.levels@.last().next as int].0@,
            texts(before.seen@),
        ),
    ensures
        on_course(w, dir, imports, after, owner),
{
    let seen = texts(before.seen@);
    let n = before.levels@.len() as int;
    assert forall|i: int| 0 <= i < n - 1 implies #[trigger] after.levels@[i]
        == before.levels@[i] by {
        assert(after.levels@.drop_last()[i] == after.levels@[i]);
        assert(before.levels@.drop_last()[i] == before.levels@[i]);
    }
    let top = before.levels@[n - 1];
    assert(fine_upto(w, top.dir@, import_views(top.imports@), top.next as int, seen));
    assert(fine_upto(w, top.dir@, import_views(top.imports@), top.next + 1, seen));
    assert forall|i: int| 0 <= i < n implies fine_upto(
        w,
        (#[trigger] after.levels@[i]).dir@,
        import_views(after.levels@[i].imports@),
        after.levels@[i].next as int,
        seen,
    ) by {
        if i < n - 1 {
            assert(after.levels@[i] == before.levels@[i]);
        }
    }
    assert forall|i: int| 0 < i < n implies {
        &&& 0 <= #[trigger] owner[i] < seen.len()
        &&& has_imports(w, seen[owner[i]], import_views(after.levels@[i].imports@))
        &&& after.levels@[i].dir@ == module_dir(seen[owner[i]])
    } by {
        if i < n - 1 {
            assert(after.levels@[i] == before.levels@[i]);
        }
        assert(has_imports(w, seen[owner[i]], import_views(before.levels@[i].imports@)));
    }
    if n > 1 {
        assert(after.levels@[0] == before.levels@[0]);
    }
}

/// Entering a module that was not reached before.
proof fn entering<
    B: Fn(&str) -> bool,
    F: Fn(&str) -> bool,
    C: Fn(&str) -> Option<String>,
    L: Fn(&str) -> Loaded,
>(
    w: World<B, F, C, L>,
    dir: Seq<char>,
    imports: Seq<(Seq<char>, Span)>,
    before: Walk,
    after: Walk,
    owner: Seq<int>,
    c: Seq<char>,
    path: Seq<char>,
)
    requires
        on_course(w, dir, imports, before, owner),
        after.wf(),
        before.levels@.len() > 0,
        before.levels@.last().next < before.levels@.last().imports@.len(),
        path == before.levels@.last().imports@[before.levels@.last().next as int].0@,
        leads_to(w, before.levels@.last().dir@, path, c),
        texts(after.seen@) == texts(before.seen@).push(c),
        after.levels@.len() == before.levels@.len() + 1,
        after.levels@.drop_last().drop_last() == before.levels@.drop_last(),
        after.levels@[before.levels@.len() - 1].imports == before.levels@.last().imports,
        after.levels@[before.levels@.len() - 1].dir == before.levels@.last().dir,
        after.levels@[before.levels@.len() - 1].next == before.levels@.last().next + 1,
        has_imports(w, c, import_views(after.levels@.last().imports@)),
        after.levels@.last().next == 0,
        after.levels@.last().dir@ == module_dir(c),
    ensures
        on_course(w, dir, imports, after, owner.push(texts(before.seen@).len() as int)),
{
    let seen = texts(before.seen@);
    let more = seen.push(c);
    let n = before.levels@.len() as int;
    let own = owner.push(seen.len() as int);
    let top = before.levels@[n - 1];
    assert forall|i: int| 0 <= i < n - 1 implies #[trigger] after.levels@[i]
        == before.levels@[i] by {
        assert(after.levels@.drop_last().drop_last()[i] == after.levels@[i]);
        assert(before.levels@.drop_last()[i] == before.levels@[i]);
    }
    assert(more[seen.len() as int] == c);
    assert(imported_by(w, top.dir@, import_views(top.imports@), c)) by {
        assert(import_views(top.imports@)[top.next as int].0 == path);
    }
    assert(reached(w, dir, imports, more, seen.len() as int)) by {
        if n > 1 {
            let j = owner[n - 1];
            assert(has_imports(w, seen[j], import_views(top.imports@)));
            assert(more[j] == seen[j]);
            assert(has_imports(w, more[j], import_views(top.imports@)));
        }
    }
    reached_stays(w, dir, imports, seen, c);
    assert forall|i: int| 0 <= i < n + 1 implies fine_upto(
        w,
        (#[trigger] after.levels@[i]).dir@,
        import_views(after.levels@[i].imports@),
        after.levels@[i].next as int,
        more,
    ) by {
        if i < n {
            let l = before.levels@[i];
            assert(fine_upto(w, l.dir@, import_views(l.imports@), l.next as int, seen));
            fine_stays(w, l.dir@, import_views(l.imports@), l.next as int, seen, c);
            if i == n - 1 {
                assert(more.contains(c));
                assert(fine(w, top.dir@, path, more));
                assert(fine_upto(w, top.dir@, import_views(top.imports@), top.next + 1, more));
            }
        }
    }
    assert forall|i: int| 0 < i < n + 1 implies {
        &&& 0 <= #[trigger] own[i] < more.len()
        &&& has_imports(w, more[own[i]], import_views(after.levels@[i].imports@))
        &&& after.levels@[i].dir@ == module_dir(more[own[i]])
    } by {
        if i < n {
            assert(own[i] == owner[i]);
            assert(more[owner[i]] == seen[owner[i]]);
            assert(has_imports(w, seen[owner[i]], import_views(before.levels@[i].imports@)));
        }
    }
    assert forall|j: int| 0 <= j < more.len() implies finished(w, #[trigger] more[j], more)
        || own.contains(j) by {
        if j < seen.len() {
            assert(more[j] == seen[j]);
            if finished(w, seen[j], seen) {
                let v = choose|v: Seq<(Seq<char>, Span)>| #[trigger]
                    has_imports(w, seen[j], v) && fine_upto(
                        w,
                        module_dir(seen[j]),
                        v,
                        v.len() as int,
                        seen,
                    );
                fine_stays(w, module_dir(seen[j]), v, v.len() as int, seen, c);
                assert(finished(w, more[j], more));
            } else {
                let i = choose|i: int| 0 <= i < owner.len() && owner[i] == j;
                assert(own[i] == j);
            }
        } else {
            assert(own[n] == j);
        }
    }
    assert(own[0] == owner[0]);
}

/// Where a walk stands when an import fails.
proof fn failing<
    B: Fn(&str) -> bool,
    F: Fn(&str) -> bool,
    C: Fn(&str) -> Option<String>,
    L: Fn(&str) -> Loaded,
>(
    w: World<B, F, C, L>,
    dir: Seq<char>,
    imports: Seq<(Seq<char>, Span)>,
    before: Walk,
    owner: Seq<int>,
    e: WalkError,
)
    requires
        on_course(w, dir, imports, before, owner),
        before.levels@.len() > 0,
        before.levels@.last().next < before.levels@.last().imports@.len(),
        ({
            let top = before.levels@.last();
            let (path, span) = top.imports@[top.next as int];
            fails(w, top.dir@, path@, span, e)
        }),
    ensures
        broken_import(w, dir, imports, e),
{
    let seen = texts(before.seen@);
    let n = before.levels@.len() as int;
    let top = before.levels@[n - 1];
    assert(fine_upto(w, top.dir@, import_views(top.imports@), top.next as int, seen));
    if n > 1 {
        assert(has_imports(w, seen[owner[n - 1]], import_views(top.imports@)));
    }
    assert(stands(w, dir, imports, seen, top.dir@, import_views(top.imports@)));
    assert(stops_at(w, dir, imports, e, seen, top.dir@, import_views(top.imports@), top.next as int));
}

/// What is left to follow at the levels, and the levels themselves.
spec fn work(levels: Seq<Level>) -> int
    decreases levels.len(),
{
    if levels.len() == 0 {
        0
    } else {
        work(levels.drop_last()) + levels.last().imports@.len() - levels.last().next + 1
    }
}

/// There is never less than nothing to do.
proof fn work_is_left(levels: Seq<Level>)
    requires
        forall|i: int|
            0 <= i < levels.len() ==> (#[trigger] levels[i]).next <= levels[i].imports@.len(),
    ensures
        work(levels) >= 0,
    decreases levels.len(),
{
    if levels.len() > 0 {
        let less = levels.drop_last();
        assert forall|i: int| 0 <= i < less.len() implies (#[trigger] less[i]).next
            <= less[i].imports@.len() by {
            assert(less[i] == levels[i]);
        }
        work_is_left(less);
    }
}

/// One step of a walk keeps it on course, and brings it nearer to its end.
proof fn step_holds<
    B: Fn(&str) -> bool,
    F: Fn(&str) -> bool,
    C: Fn(&str) -> Option<String>,
    L: Fn(&str) -> Loaded,
>(
    w: World<B, F, C, L>,
    dir: Seq<char>,
    imports: Seq<(Seq<char>, Span)>,
    before: Walk,
    after: Walk,
    owner: Seq<int>,
    r: Progress,
) -> (own: Seq<int>)
    requires
        on_course(w, dir, imports, before, owner),
        after.wf(),
        advances(
            w.builtin,
            w.on_disk,
            w.canonical,
            w.load,
            w.libraries,
            w.root,
            before,
            after,
            r,
        ),
    ensures
        match r {
            Progress::More => on_course(w, dir, imports, after, own) && (after.seen@.len()
                > before.seen@.len() || after.seen@.len() == before.seen@.len() && work(
                after.levels@,
            ) < work(before.levels@)),
            Progress::Done => reachable(w, dir, imports, texts(before.seen@)) && after == before,
            Progress::Fail(e) => broken_import(w, dir, imports, e),
        },
{
    let seen = texts(before.seen@);
    let n = before.levels@.len() as int;
    if n == 0 {
        assert forall|j: int| 0 <= j < seen.len() implies finished(w, #[trigger] seen[j], seen) by {
            assert(!owner.contains(j));
        }
        owner
    } else {
        let top = before.levels@[n - 1];
        if top.next == top.imports@.len() {
            leaving(w, dir, imports, before, after, owner);
            owner.drop_last()
        } else {
            let (path, span) = top.imports@[top.next as int];
            let (mid, b, t) = choose|mid: Walk, b: bool, t: Result<ImportTarget, String>|
                {
                    &&& mid.seen@ == before.seen@
                    &&& mid.levels@.len() == before.levels@.len()
                    &&& mid.levels@.drop_last() == before.levels@.drop_last()
                    &&& mid.levels@.last().imports == top.imports
                    &&& mid.levels@.last().dir == top.dir
                    &&& mid.levels@.last().next == top.next + 1
                    &&& says(w.builtin, path@, b)
                    &&& #[trigger] import_result(
                        w.on_disk,
                        w.libraries,
                        w.root,
                        top.dir@,
                        path@,
                        b,
                        t,
                    )
                    &&& #[trigger] visits(
                        w.on_disk,
                        w.canonical,
                        w.load,
                        t,
                        path@,
                        span,
                        mid,
                        after,
                        r,
                    )
                };
            assert(resolves(w, top.dir@, path@, t));
            import_step(w, dir, imports, before, mid, after, owner, path@, span, t, r)
        }
    }
}

/// What following one import does.
proof fn import_step<
    B: Fn(&str) -> bool,
    F: Fn(&str) -> bool,
    C: Fn(&str) -> Option<String>,
    L: Fn(&str) -> Loaded,
>(
    w: World<B, F, C, L>,
    dir: Seq<char>,
    imports: Seq<(Seq<char>, Span)>,
    before: Walk,
    mid: Walk,
    after: Walk,
    owner: Seq<int>,
    path: Seq<char>,
    span: Span,
    t: Result<ImportTarget, String>,
    r: Progress,
) -> (own: Seq<int>)
    requires
        on_course(w, dir, imports, before, owner),
        after.wf(),
        before.levels@.len() > 0,
        before.levels@.last().next < before.levels@.last().imports@.len(),
        path == before.levels@.last().imports@[before.levels@.last().next as int].0@,
        span == before.levels@.last().imports@[before.levels@.last().next as int].1,
        mid.seen@ == before.seen@,
        mid.levels@.len() == before.levels@.len(),
        mid.levels@.drop_last() == before.levels@.drop_last(),
        mid.levels@.last().imports == before.levels@.last().imports,
        mid.levels@.last().dir == before.levels@.last().dir,
        mid.levels@.last().next == before.levels@.last().next + 1,
        resolves(w, before.levels@.last().dir@, path, t),
        visits(w.on_disk, w.canonical, w.load, t, path, span, mid, after, r),
    ensures
        match r {
            Progress::More => on_course(w, dir, imports, after, own) && (after.seen@.len()
                > before.seen@.len() || after.seen@.len() == before.seen@.len() && work(
                after.levels@,
            ) < work(before.levels@)),
            Progress::Done => false,
            Progress::Fail(e) => broken_import(w, dir, imports, e),
        },
{
    let at = before.levels@.last().dir@;
    let seen = texts(before.seen@);
    assert(work(mid.levels@) == work(before.levels@) - 1);
    match t {
        Err(m) => {
            match r {
                Progress::Fail(e) => {
                    assert(fails(w, at, path, span, e));
                    failing(w, dir, imports, before, owner, e);
                },
                _ => {},
            }
            owner
        },
        Ok(ImportTarget::Builtin) => {
            assert(fine(w, at, path, seen));
            passing(w, dir, imports, before, after, owner);
            assert(texts(after.seen@).len() == texts(before.seen@).len());
            owner
        },
        Ok(ImportTarget::Native(p)) => {
            match r {
                Progress::Fail(e) => {
                    assert(missing(w, at, path));
                    assert(fails(w, at, path, span, e));
                    failing(w, dir, imports, before, owner, e);
                },
                _ => {
                    assert(fine(w, at, path, seen));
                    passing(w, dir, imports, before, after, owner);
                    assert(texts(after.seen@).len() == texts(before.seen@).len());
                },
            }
            owner
        },
        Ok(ImportTarget::Jade(p)) => {
            let c = choose|c: Option<Seq<char>>|
                #[trigger] canon_says(w.canonical, p@, c) && followed(
                    w.load,
                    path,
                    span,
                    mid,
                    after,
                    r,
                    c,
                );
            match c {
                None => {
                    match r {
                        Progress::Fail(e) => {
                            assert(missing(w, at, path));
                            assert(fails(w, at, path, span, e));
                            failing(w, dir, imports, before, owner, e);
                        },
                        _ => {},
                    }
                    owner
                },
                Some(c) => {
                    assert(leads_to(w, at, path, c));
                    if seen.contains(c) {
                        assert(fine(w, at, path, seen));
                        passing(w, dir, imports, before, after, owner);
                        assert(texts(after.seen@).len() == texts(before.seen@).len());
                        owner
                    } else {
                        let l = choose|l: Loaded|
                            #[trigger] load_says(w.load, c, l) && entered(
                                path,
                                span,
                                mid,
                                after,
                                r,
                                c,
                                l,
                            );
                        match l {
                            Loaded::Imports(v) => {
                                assert(has_imports(w, c, import_views(v@)));
                                assert(after.levels@.drop_last() == mid.levels@);
                                assert(after.levels@[before.levels@.len() - 1]
                                    == after.levels@.drop_last()[before.levels@.len() - 1]);
                                entering(w, dir, imports, before, after, owner, c, path);
                                assert(texts(after.seen@).len() == seen.len() + 1);
                                owner.push(seen.len() as int)
                            },
                            _ => {
                                match r {
                                    Progress::Fail(e) => {
                                        if l is Unreadable {
                                            assert(missing(w, at, path));
                                        }
                                        assert(fails(w, at, path, span, e));
                                        failing(w, dir, imports, before, owner, e);
                                    },
                                    _ => {},
                                }
                                owner
                            },
                        }
                    }
                },
            }
        },
    }
}

/// A walk reaches no more modules than there are files.
proof fn reach_is_bounded<
    B: Fn(&str) -> bool,
    F: Fn(&str) -> bool,
    C: Fn(&str) -> Option<String>,
    L: Fn(&str) -> Loaded,
>(
    w: World<B, F, C, L>,
    dir: Seq<char>,
    imports: Seq<(Seq<char>, Span)>,
    seen: Seq<Seq<char>>,
    files: Set<Seq<char>>,
)
    requires
        distinct(seen),
        all_reached(w, dir, imports, seen),
        covers(w.canonical, files),
    ensures
        seen.len() <= files.len(),
{
    assert forall|c: Seq<char>| seen.to_set().contains(c) implies files.contains(c) by {
        let i = choose|i: int| 0 <= i < seen.len() && seen[i] == c;
        assert(reached(w, dir, imports, seen, i));
        let (at, list) = if imported_by(w, dir, imports, c) {
            (dir, imports)
        } else {
            let (j, v) = choose|j: int, v: Seq<(Seq<char>, Span)>|
                0 <= j < i && #[trigger] has_imports(w, seen[j], v) && imported_by(
                    w,
                    module_dir(seen[j]),
                    v,
                    seen[i],
                );
            (module_dir(seen[j]), v)
        };
        assert(imported_by(w, at, list, c));
        let k = choose|k: int|
            0 <= k < list.len() && leads_to(w, at, (#[trigger] list[k]).0, c);
        let p = choose|p: String| #[trigger]
            resolves(w, at, list[k].0, Ok(ImportTarget::Jade(p))) && canon_says(
                w.canonical,
                p@,
                Some(c),
            );
        assert(canon_says(w.canonical, p@, Some(c)));
    }
    assert(seen.no_duplicates());
    seen.unique_seq_to_set();
    vstd::set_lib::lemma_len_subset(seen.to_set(), files);
}

// ── The walk ─────────────────────────────────────────────────────────────────

/// Copies of imports.
fn copied(paths: &[(String, Span)]) -> (v: Vec<(String, Span)>)
    ensures
        import_views(v@) == import_views(paths@),
{
    let mut v: Vec<(String, Span)> = Vec::new();
    let mut i: usize = 0;
    assert(import_views(v@) =~= import_views(paths@).take(0));
    while i < paths.len()
        invariant
            i <= paths@.len(),
            import_views(v@) == import_views(paths@).take(i as int),
        decreases paths@.len() - i,
    {
        let ghost before = v@;
        v.push((paths[i].0.clone(), paths[i].1));
        assert(import_views(v@) =~= import_views(before).push(import_views(paths@)[i as int]));
        assert(import_views(paths@).take(i as int).push(import_views(paths@)[i as int])
            =~= import_views(paths@).take(i + 1));
        i += 1;
    }
    assert(import_views(paths@).take(i as int) =~= import_views(paths@));
    v
}

/// Every source module the imports reach, each once and in the order in which it is
/// reached, or the first import that does not resolve. Nothing is run, and no native library is opened. The file the walk begins at
/// is not among the modules, unless an import leads back to it.
pub fn reachable_jade_modules<
    B: Fn(&str) -> bool,
    F: Fn(&str) -> bool,
    C: Fn(&str) -> Option<String>,
    L: Fn(&str) -> Loaded,
>(
    paths: &[(String, Span)],
    ctx: &ImportContext,
    builtin: &B,
    on_disk: &F,
    canonical: &C,
    load: &L,
) -> (r: Result<Vec<String>, WalkError>)
    requires
        forall|s: &str| #[trigger] call_requires(*builtin, (s,)),
        forall|s: &str| #[trigger] call_requires(*on_disk, (s,)),
        forall|s: &str| #[trigger] call_requires(*canonical, (s,)),
        forall|s: &str| #[trigger] call_requires(*load, (s,)),
        finite_disk(*canonical),
    ensures
        ({
            let w = World {
                builtin: *builtin,
                on_disk: *on_disk,
                canonical: *canonical,
                load: *load,
                libraries: ctx.libraries@,
                root: opt_view(ctx.project_root),
            };
            let dir = ctx.source_dir@;
            let imports = import_views(paths@);
            match r {
                Ok(v) => reachable(w, dir, imports, texts(v@)) && walk_reaches(
                    w,
                    dir,
                    imports,
                    texts(v@),
                ),
                Err(e) => broken_import(w, dir, imports, e) && first_fault(
                    w,
                    dir,
                    imports,
                    fault_of(e),
                ),
            }
        }),
{
    let mut walk = Walk::new(copied(paths), ctx.source_dir.clone());
    let ghost w = World {
        builtin: *builtin,
        on_disk: *on_disk,
        canonical: *canonical,
        load: *load,
        libraries: ctx.libraries@,
        root: opt_view(ctx.project_root),
    };
    let ghost dir = ctx.source_dir@;
    let ghost imports = import_views(paths@);
    let ghost mut owner: Seq<int> = seq![-1int];
    let ghost files = choose|files: Set<Seq<char>>| #[trigger] covers(*canonical, files);
    assert(on_course(w, dir, imports, walk, owner));
    let ghost from = start(dir, imports);
    let ghost mut states: Seq<Course> = seq![from];
    assert(course_of(walk).stages =~= from.stages);
    assert(course_of(walk).seen =~= from.seen);
    proof {
        reach_is_bounded(w, dir, imports, texts(walk.seen@), files);
        work_is_left(walk.levels@);
    }
    loop
        invariant
            forall|s: &str| #[trigger] call_requires(*builtin, (s,)),
            forall|s: &str| #[trigger] call_requires(*on_disk, (s,)),
            forall|s: &str| #[trigger] call_requires(*canonical, (s,)),
            forall|s: &str| #[trigger] call_requires(*load, (s,)),
            covers(*canonical, files),
            w == (World {
                builtin: *builtin,
                on_disk: *on_disk,
                canonical: *canonical,
                load: *load,
                libraries: ctx.libraries@,
                root: opt_view(ctx.project_root),
            }),
            dir == ctx.source_dir@,
            imports == import_views(paths@),
            on_course(w, dir, imports, walk, owner),
            from == start(dir, imports),
            run(w, from, states),
            states.last() == course_of(walk),
            walk.seen@.len() <= files.len(),
            work(walk.levels@) >= 0,
        decreases files.len() - walk.seen@.len(), work(walk.levels@),
    {
        let ghost before = walk;
        let p = walk.advance(ctx.libraries, ctx.project_root, builtin, on_disk, canonical, load);
        proof {
            owner = step_holds(w, dir, imports, before, walk, owner, p);
            step_moves(w, before, walk, p);
            if p is More {
                run_extends(w, from, states, course_of(walk));
                states = states.push(course_of(walk));
                reach_is_bounded(w, dir, imports, texts(walk.seen@), files);
                work_is_left(walk.levels@);
            } else {
                assert(run_ends(w, from, states, course_of(walk), verdict_of(p)));
                assert(walk_ends(w, dir, imports, course_of(walk), verdict_of(p)));
                if p is Done {
                    assert(course_of(walk).stages =~= seq![]);
                }
            }
        }
        match p {
            Progress::More => {},
            Progress::Done => {
                return Ok(walk.modules());
            },
            Progress::Fail(e) => {
                return Err(e);
            },
        }
    }
}

/// Whether every import that is reached resolves; if not, the first that does not, in
/// the order in which the imports are followed.
pub fn walk_imports<
    B: Fn(&str) -> bool,
    F: Fn(&str) -> bool,
    C: Fn(&str) -> Option<String>,
    L: Fn(&str) -> Loaded,
>(
    paths: &[(String, Span)],
    ctx: &ImportContext,
    builtin: &B,
    on_disk: &F,
    canonical: &C,
    load: &L,
) -> (r: Result<(), WalkError>)
    requires
        forall|s: &str| #[trigger] call_requires(*builtin, (s,)),
        forall|s: &str| #[trigger] call_requires(*on_disk, (s,)),
        forall|s: &str| #[trigger] call_requires(*canonical, (s,)),
        forall|s: &str| #[trigger] call_requires(*load, (s,)),
        finite_disk(*canonical),
    ensures
        ({
            let w = World {
                builtin: *builtin,
                on_disk: *on_disk,
                canonical: *canonical,
                load: *load,
                libraries: ctx.libraries@,
                root: opt_view(ctx.project_root),
            };
            let dir = ctx.source_dir@;
            let imports = import_views(paths@);
            match r {
                Ok(_) => exists|seen: Seq<Seq<char>>| #[trigger]
                    reachable(w, dir, imports, seen) && walk_reaches(w, dir, imports, seen),
                Err(e) => broken_import(w, dir, imports, e) && first_fault(
                    w,
                    dir,
                    imports,
                    fault_of(e),
                ),
            }
        }),
{
    match reachable_jade_modules(paths, ctx, builtin, on_disk, canonical, load) {
        Ok(v) => {
            let ghost seen = texts(v@);
            assert(reachable(
                World {
                    builtin: *builtin,
                    on_disk: *on_disk,
                    canonical: *canonical,
                    load: *load,
                    libraries: ctx.libraries@,
                    root: opt_view(ctx.project_root),
                },
                ctx.source_dir@,
                import_views(paths@),
                seen,
            ));
            Ok(())
        },
        Err(e) => Err(e),
    }
}

// ── Laws ─────────────────────────────────────────────────────────────────────

/// An import leads to one thing, and a module has one list of imports.
spec fn single<
    B: Fn(&str) -> bool,
    F: Fn(&str) -> bool,
    C: Fn(&str) -> Option<String>,
    L: Fn(&str) -> Loaded,
>(w: World<B, F, C, L>) -> bool {
    &&& forall|dir: Seq<char>, path: Seq<char>, c: Seq<char>, d: Seq<char>| #[trigger]
        leads_to(w, dir, path, c) && #[trigger] leads_to(w, dir, path, d) ==> c == d
    &&& forall|dir: Seq<char>, path: Seq<char>, c: Seq<char>| #[trigger]
        leads_to(w, dir, path, c) ==> !resolves(w, dir, path, Ok(ImportTarget::Builtin))
    &&& forall|dir: Seq<char>, path: Seq<char>, c: Seq<char>, p: String| #[trigger]
        leads_to(w, dir, path, c) ==> !#[trigger] resolves(
            w,
            dir,
            path,
            Ok(ImportTarget::Native(p)),
        )
    &&& forall|m: Seq<char>, u: Seq<(Seq<char>, Span)>, v: Seq<(Seq<char>, Span)>| #[trigger]
        has_imports(w, m, u) && #[trigger] has_imports(w, m, v) ==> u == v
}

/// Where the answers do not change, an import leads to one thing.
proof fn answers_are_single<
    B: Fn(&str) -> bool,
    F: Fn(&str) -> bool,
    C: Fn(&str) -> Option<String>,
    L: Fn(&str) -> Loaded,
>(w: World<B, F, C, L>)
    requires
        steady(w),
    ensures
        single(w),
{
    assert forall|dir: Seq<char>, path: Seq<char>, c: Seq<char>, d: Seq<char>| #[trigger]
        leads_to(w, dir, path, c) && #[trigger] leads_to(w, dir, path, d) implies c == d by {
        let p = choose|p: String| #[trigger]
            resolves(w, dir, path, Ok(ImportTarget::Jade(p))) && canon_says(
                w.canonical,
                p@,
                Some(c),
            );
        let q = choose|p: String| #[trigger]
            resolves(w, dir, path, Ok(ImportTarget::Jade(p))) && canon_says(
                w.canonical,
                p@,
                Some(d),
            );
        names_agree(w, dir, path, Ok(ImportTarget::Jade(p)), Ok(ImportTarget::Jade(q)));
    }
    assert forall|dir: Seq<char>, path: Seq<char>, c: Seq<char>| #[trigger]
        leads_to(w, dir, path, c) implies !resolves(w, dir, path, Ok(ImportTarget::Builtin)) by {
        let p = choose|p: String| #[trigger]
            resolves(w, dir, path, Ok(ImportTarget::Jade(p))) && canon_says(
                w.canonical,
                p@,
                Some(c),
            );
        if resolves(w, dir, path, Ok(ImportTarget::Builtin)) {
            names_agree(w, dir, path, Ok(ImportTarget::Jade(p)), Ok(ImportTarget::Builtin));
        }
    }
    assert forall|dir: Seq<char>, path: Seq<char>, c: Seq<char>, n: String| #[trigger]
        leads_to(w, dir, path, c) implies !#[trigger] resolves(
        w,
        dir,
        path,
        Ok(ImportTarget::Native(n)),
    ) by {
        let p = choose|p: String| #[trigger]
            resolves(w, dir, path, Ok(ImportTarget::Jade(p))) && canon_says(
                w.canonical,
                p@,
                Some(c),
            );
        if resolves(w, dir, path, Ok(ImportTarget::Native(n))) {
            names_agree(w, dir, path, Ok(ImportTarget::Jade(p)), Ok(ImportTarget::Native(n)));
        }
    }
    assert forall|m: Seq<char>, u: Seq<(Seq<char>, Span)>, v: Seq<(Seq<char>, Span)>| #[trigger]
        has_imports(w, m, u) && #[trigger] has_imports(w, m, v) implies u == v by {
        let k = choose|l: Vec<(String, Span)>| #[trigger]
            load_says(w.load, m, Loaded::Imports(l)) && import_views(l@) == u;
        let l = choose|l: Vec<(String, Span)>| #[trigger]
            load_says(w.load, m, Loaded::Imports(l)) && import_views(l@) == v;
        assert(lists(w.load, m, listing_of(Loaded::Imports(k))));
        assert(lists(w.load, m, listing_of(Loaded::Imports(l))));
    }
}

/// Two answers about an import are one.
proof fn names_agree<
    B: Fn(&str) -> bool,
    F: Fn(&str) -> bool,
    C: Fn(&str) -> Option<String>,
    L: Fn(&str) -> Loaded,
>(
    w: World<B, F, C, L>,
    dir: Seq<char>,
    path: Seq<char>,
    q: Result<ImportTarget, String>,
    r: Result<ImportTarget, String>,
)
    requires
        steady(w),
        resolves(w, dir, path, q),
        resolves(w, dir, path, r),
    ensures
        named(q) == named(r),
{
    assert(names(w, dir, path, named(q)));
    assert(names(w, dir, path, named(r)));
    imports_name_one_thing(w, dir, path, named(q), named(r));
}

/// What one list of modules holds, another that is as complete holds too.
proof fn reached_is_held<
    B: Fn(&str) -> bool,
    F: Fn(&str) -> bool,
    C: Fn(&str) -> Option<String>,
    L: Fn(&str) -> Loaded,
>(
    w: World<B, F, C, L>,
    dir: Seq<char>,
    imports: Seq<(Seq<char>, Span)>,
    a: Seq<Seq<char>>,
    b: Seq<Seq<char>>,
    i: int,
)
    requires
        single(w),
        reachable(w, dir, imports, a),
        reachable(w, dir, imports, b),
        0 <= i < a.len(),
    ensures
        b.contains(a[i]),
    decreases i,
{
    assert(reached(w, dir, imports, a, i));
    let c = a[i];
    let (at, list) = if imported_by(w, dir, imports, c) {
        (dir, imports)
    } else {
        let (j, v) = choose|j: int, v: Seq<(Seq<char>, Span)>|
            0 <= j < i && #[trigger] has_imports(w, a[j], v) && imported_by(
                w,
                module_dir(a[j]),
                v,
                a[i],
            );
        reached_is_held(w, dir, imports, a, b, j);
        let k = choose|k: int| 0 <= k < b.len() && b[k] == a[j];
        assert(finished(w, b[k], b));
        let u = choose|u: Seq<(Seq<char>, Span)>| #[trigger]
            has_imports(w, b[k], u) && fine_upto(w, module_dir(b[k]), u, u.len() as int, b);
        assert(u == v);
        (module_dir(a[j]), v)
    };
    assert(imported_by(w, at, list, c));
    assert(fine_upto(w, at, list, list.len() as int, b));
    let k = choose|k: int| 0 <= k < list.len() && leads_to(w, at, (#[trigger] list[k]).0, c);
    assert(fine(w, at, list[k].0, b));
    let d = choose|d: Seq<char>| #[trigger] leads_to(w, at, list[k].0, d) && b.contains(d);
    assert(d == c);
}

/// Which modules are reached does not depend on the order of the walk.
pub proof fn reach_is_determined<
    B: Fn(&str) -> bool,
    F: Fn(&str) -> bool,
    C: Fn(&str) -> Option<String>,
    L: Fn(&str) -> Loaded,
>(
    w: World<B, F, C, L>,
    dir: Seq<char>,
    imports: Seq<(Seq<char>, Span)>,
    a: Seq<Seq<char>>,
    b: Seq<Seq<char>>,
)
    requires
        steady(w),
        reachable(w, dir, imports, a),
        reachable(w, dir, imports, b),
    ensures
        a.to_set() == b.to_set(),
{
    answers_are_single(w);
    assert forall|c: Seq<char>| a.to_set().contains(c) implies b.to_set().contains(c) by {
        let i = choose|i: int| 0 <= i < a.len() && a[i] == c;
        reached_is_held(w, dir, imports, a, b, i);
    }
    assert forall|c: Seq<char>| b.to_set().contains(c) implies a.to_set().contains(c) by {
        let i = choose|i: int| 0 <= i < b.len() && b[i] == c;
        reached_is_held(w, dir, imports, b, a, i);
    }
    assert(a.to_set() =~= b.to_set());
}

} // verus!
