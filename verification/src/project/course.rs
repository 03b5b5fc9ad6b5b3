//! The order in which an import graph is walked.
//!
//! A walk follows a module's own imports before the importer's next one, and it stops at
//! the first import that fails. Here every state that it passes through is written down,
//! so that where it ends, and which import it blames, is one answer.

use vstd::prelude::*;

#[allow(unused_imports)]
use super::imports::{
    advances, canon_says, directory_says, entered, followed, follows, import_result, import_views,
    in_project, load_says, module_dir, not_there, project_says, settles, target_of, visits,
    ImportTarget, Level, Loaded, Progress, Span, Walk, WalkError,
};
#[allow(unused_imports)]
use super::library::{
    ambiguity_result, answered, lib_and_module, lib_base, lib_named, library_result, picked, probed,
    says, Answers, ImportKind, LibraryEntry, ResolvedLib,
};
#[allow(unused_imports)]
use super::reach::{has_imports, leads_to, resolves, World};
#[allow(unused_imports)]
use crate::pathf::pushed;
#[allow(unused_imports)]
use crate::text::texts;

verus! {

/// A module whose imports are being followed.
pub struct Stage {
    /// Its imports.
    pub imports: Seq<(Seq<char>, Span)>,
    /// How many were followed.
    pub next: int,
    /// Its directory.
    pub dir: Seq<char>,
}

/// A state of a walk.
pub struct Course {
    /// The modules whose imports are being followed, the innermost last.
    pub stages: Seq<Stage>,
    /// The modules reached, in the order in which they were.
    pub seen: Seq<Seq<char>>,
}

/// Why a walk stopped.
pub enum Fault {
    /// The path does not resolve; the message.
    Io {
        /// The message.
        message: Seq<char>,
        /// Where the import stands.
        span: Span,
    },
    /// The file an import names is not there.
    ImportNotFound {
        /// The imported path.
        path: Seq<char>,
        /// Where the import stands.
        span: Span,
    },
    /// A module does not parse; the message.
    Frontend(Seq<char>),
}

/// What a step of a walk comes to.
pub enum Verdict {
    /// There is more to do.
    More,
    /// Every import was followed.
    Done,
    /// An import fails.
    Fail(Fault),
}

/// What an import path comes to.
pub enum Named {
    /// A package compiled into the program.
    Builtin,
    /// A native shared library.
    Native(Seq<char>),
    /// A source module.
    Jade(Seq<char>),
    /// Nothing; the message.
    Nothing(Seq<char>),
}

/// What finding the imports of a module comes to.
pub enum Listing {
    /// The file cannot be read.
    Unreadable,
    /// The file does not parse; the message.
    Bad(Seq<char>),
    /// The module's imports.
    Imports(Seq<(Seq<char>, Span)>),
}

/// A level as mathematics.
pub open spec fn stage_of(l: Level) -> Stage {
    Stage { imports: import_views(l.imports@), next: l.next as int, dir: l.dir@ }
}

/// A walk as mathematics.
pub open spec fn course_of(x: Walk) -> Course {
    Course {
        stages: Seq::new(x.levels@.len(), |i: int| stage_of(x.levels@[i])),
        seen: texts(x.seen@),
    }
}

/// An error as mathematics.
pub open spec fn fault_of(e: WalkError) -> Fault {
    match e {
        WalkError::Io { message, span } => Fault::Io { message: message@, span },
        WalkError::ImportNotFound { path, span } => Fault::ImportNotFound { path: path@, span },
        WalkError::Frontend(m) => Fault::Frontend(m@),
    }
}

/// The outcome of a step as mathematics.
pub open spec fn verdict_of(r: Progress) -> Verdict {
    match r {
        Progress::More => Verdict::More,
        Progress::Done => Verdict::Done,
        Progress::Fail(e) => Verdict::Fail(fault_of(e)),
    }
}

/// A resolved path as mathematics.
pub open spec fn named(t: Result<ImportTarget, String>) -> Named {
    match t {
        Ok(ImportTarget::Builtin) => Named::Builtin,
        Ok(ImportTarget::Native(p)) => Named::Native(p@),
        Ok(ImportTarget::Jade(p)) => Named::Jade(p@),
        Err(m) => Named::Nothing(m@),
    }
}

/// The imports found in a module, as mathematics.
pub open spec fn listing_of(l: Loaded) -> Listing {
    match l {
        Loaded::Unreadable => Listing::Unreadable,
        Loaded::Bad(m) => Listing::Bad(m@),
        Loaded::Imports(v) => Listing::Imports(import_views(v@)),
    }
}

/// The path, imported in the directory, comes to `t`.
pub open spec fn names<
    B: Fn(&str) -> bool,
    F: Fn(&str) -> bool,
    C: Fn(&str) -> Option<String>,
    L: Fn(&str) -> Loaded,
>(w: World<B, F, C, L>, dir: Seq<char>, path: Seq<char>, t: Named) -> bool {
    exists|r: Result<ImportTarget, String>| #[trigger] resolves(w, dir, path, r) && named(r) == t
}

/// Finding the imports of the module `m` comes to `l`.
pub open spec fn lists<L: Fn(&str) -> Loaded>(load: L, m: Seq<char>, l: Listing) -> bool {
    exists|r: Loaded| #[trigger] load_says(load, m, r) && listing_of(r) == l
}

/// The walk with one more import of the innermost module followed.
pub open spec fn past(a: Course) -> Course {
    let top = a.stages.last();
    Course {
        stages: a.stages.drop_last().push(Stage { next: top.next + 1, ..top }),
        seen: a.seen,
    }
}

/// What reaching the module `c` for the first time does, given what it lists.
pub open spec fn enters(
    path: Seq<char>,
    span: Span,
    a: Course,
    b: Course,
    v: Verdict,
    c: Seq<char>,
    l: Listing,
) -> bool {
    &&& b.seen == a.seen.push(c)
    &&& match l {
        Listing::Unreadable => v == Verdict::Fail(Fault::ImportNotFound { path, span }) && b.stages
            == a.stages,
        Listing::Bad(m) => v == Verdict::Fail(Fault::Frontend(m)) && b.stages == a.stages,
        Listing::Imports(imports) => v is More && b.stages == a.stages.push(
            Stage { imports, next: 0, dir: module_dir(c) },
        ),
    }
}

/// What following a source module does, given its canonical path.
pub open spec fn opens<L: Fn(&str) -> Loaded>(
    load: L,
    path: Seq<char>,
    span: Span,
    a: Course,
    b: Course,
    v: Verdict,
    c: Option<Seq<char>>,
) -> bool {
    match c {
        None => b == a && v == Verdict::Fail(Fault::ImportNotFound { path, span }),
        Some(c) => if a.seen.contains(c) {
            b == a && v is More
        } else {
            exists|l: Listing| #[trigger] lists(load, c, l) && enters(path, span, a, b, v, c, l)
        },
    }
}

/// What following a source module does.
pub open spec fn descends<C: Fn(&str) -> Option<String>, L: Fn(&str) -> Loaded>(
    canonical: C,
    load: L,
    file: Seq<char>,
    path: Seq<char>,
    span: Span,
    a: Course,
    b: Course,
    v: Verdict,
) -> bool {
    exists|c: Option<Seq<char>>| #[trigger]
        canon_says(canonical, file, c) && opens(load, path, span, a, b, v, c)
}

/// What following an import does, given what it names.
pub open spec fn takes<
    B: Fn(&str) -> bool,
    F: Fn(&str) -> bool,
    C: Fn(&str) -> Option<String>,
    L: Fn(&str) -> Loaded,
>(
    w: World<B, F, C, L>,
    path: Seq<char>,
    span: Span,
    a: Course,
    b: Course,
    v: Verdict,
    t: Named,
) -> bool {
    match t {
        Named::Nothing(message) => b == a && v == Verdict::Fail(Fault::Io { message, span }),
        Named::Builtin => b == a && v is More,
        Named::Native(p) => b == a && (says(w.on_disk, p, true) && v is More || says(
            w.on_disk,
            p,
            false,
        ) && v == Verdict::Fail(Fault::ImportNotFound { path, span })),
        Named::Jade(p) => descends(w.canonical, w.load, p, path, span, a, b, v),
    }
}

/// What following an import does.
pub open spec fn takes_import<
    B: Fn(&str) -> bool,
    F: Fn(&str) -> bool,
    C: Fn(&str) -> Option<String>,
    L: Fn(&str) -> Loaded,
>(
    w: World<B, F, C, L>,
    dir: Seq<char>,
    path: Seq<char>,
    span: Span,
    a: Course,
    b: Course,
    v: Verdict,
) -> bool {
    exists|t: Named| #[trigger] names(w, dir, path, t) && takes(w, path, span, a, b, v, t)
}

/// One step of a walk.
pub open spec fn moves<
    B: Fn(&str) -> bool,
    F: Fn(&str) -> bool,
    C: Fn(&str) -> Option<String>,
    L: Fn(&str) -> Loaded,
>(w: World<B, F, C, L>, a: Course, b: Course, v: Verdict) -> bool {
    if a.stages.len() == 0 {
        v is Done && b == a
    } else {
        let top = a.stages.last();
        if top.next == top.imports.len() {
            v is More && b == (Course { stages: a.stages.drop_last(), seen: a.seen })
        } else {
            let (path, span) = top.imports[top.next];
            takes_import(w, top.dir, path, span, past(a), b, v)
        }
    }
}

/// Where a walk from the imports of a file in `dir` begins.
pub open spec fn start(dir: Seq<char>, imports: Seq<(Seq<char>, Span)>) -> Course {
    Course { stages: seq![Stage { imports, next: 0, dir }], seen: seq![] }
}

/// The states, each a step behind the one before it.
pub open spec fn run<
    B: Fn(&str) -> bool,
    F: Fn(&str) -> bool,
    C: Fn(&str) -> Option<String>,
    L: Fn(&str) -> Loaded,
>(w: World<B, F, C, L>, from: Course, states: Seq<Course>) -> bool {
    &&& states.len() > 0
    &&& states[0] == from
    &&& forall|i: int|
        0 < i < states.len() ==> moves(w, states[i - 1], #[trigger] states[i], Verdict::More)
}

/// The run ends in the state `b`, with the verdict.
pub open spec fn run_ends<
    B: Fn(&str) -> bool,
    F: Fn(&str) -> bool,
    C: Fn(&str) -> Option<String>,
    L: Fn(&str) -> Loaded,
>(w: World<B, F, C, L>, from: Course, states: Seq<Course>, b: Course, v: Verdict) -> bool {
    &&& run(w, from, states)
    &&& !(v is More)
    &&& moves(w, states.last(), b, v)
}

/// Walking from the imports of a file in `dir` ends in the state `b`, with the verdict.
pub open spec fn walk_ends<
    B: Fn(&str) -> bool,
    F: Fn(&str) -> bool,
    C: Fn(&str) -> Option<String>,
    L: Fn(&str) -> Loaded,
>(
    w: World<B, F, C, L>,
    dir: Seq<char>,
    imports: Seq<(Seq<char>, Span)>,
    b: Course,
    v: Verdict,
) -> bool {
    exists|states: Seq<Course>| #[trigger] run_ends(w, start(dir, imports), states, b, v)
}

/// Every import that is reached is good, and the modules are those reached, in order.
pub open spec fn walk_reaches<
    B: Fn(&str) -> bool,
    F: Fn(&str) -> bool,
    C: Fn(&str) -> Option<String>,
    L: Fn(&str) -> Loaded,
>(
    w: World<B, F, C, L>,
    dir: Seq<char>,
    imports: Seq<(Seq<char>, Span)>,
    seen: Seq<Seq<char>>,
) -> bool {
    walk_ends(w, dir, imports, Course { stages: seq![], seen }, Verdict::Done)
}

/// The first import that fails, in the order of the walk, fails with the fault.
pub open spec fn first_fault<
    B: Fn(&str) -> bool,
    F: Fn(&str) -> bool,
    C: Fn(&str) -> Option<String>,
    L: Fn(&str) -> Loaded,
>(w: World<B, F, C, L>, dir: Seq<char>, imports: Seq<(Seq<char>, Span)>, e: Fault) -> bool {
    exists|b: Course| #[trigger] walk_ends(w, dir, imports, b, Verdict::Fail(e))
}

// ── A walk keeps to its course ───────────────────────────────────────────────

/// A step of a walk, as it was made, is a step of its course.
pub(super) proof fn step_moves<
    B: Fn(&str) -> bool,
    F: Fn(&str) -> bool,
    C: Fn(&str) -> Option<String>,
    L: Fn(&str) -> Loaded,
>(w: World<B, F, C, L>, before: Walk, after: Walk, r: Progress)
    requires
        before.wf(),
        advances(
            w.builtin,
            w.on_disk,
            w.canonical,
            w.load,
            w.libraries,
            w.root,
            before,
            after,
            r,
        ),
    ensures
        moves(w, course_of(before), course_of(after), verdict_of(r)),
{
    let a = course_of(before);
    let b = course_of(after);
    let v = verdict_of(r);
    let n = before.levels@.len() as int;
    if n > 0 {
        let top = before.levels@[n - 1];
        assert(a.stages.last() == stage_of(top));
        if top.next == top.imports@.len() {
            assert(b.stages =~= a.stages.drop_last());
        } else {
            let (path, span) = top.imports@[top.next as int];
            let (mid, x, t) = choose|mid: Walk, x: bool, t: Result<ImportTarget, String>|
                {
                    &&& mid.seen@ == before.seen@
                    &&& mid.levels@.len() == before.levels@.len()
                    &&& mid.levels@.drop_last() == before.levels@.drop_last()
                    &&& mid.levels@.last().imports == top.imports
                    &&& mid.levels@.last().dir == top.dir
                    &&& mid.levels@.last().next == top.next + 1
                    &&& says(w.builtin, path@, x)
                    &&& #[trigger] import_result(
                        w.on_disk,
                        w.libraries,
                        w.root,
                        top.dir@,
                        path@,
                        x,
                        t,
                    )
                    &&& #[trigger] visits(
                        w.on_disk,
                        w.canonical,
                        w.load,
                        t,
                        path@,
                        span,
                        mid,
                        after,
                        r,
                    )
                };
            let m = course_of(mid);
            assert(resolves(w, top.dir@, path@, t));
            assert(names(w, top.dir@, path@, named(t)));
            assert forall|i: int| 0 <= i < n implies m.stages[i] == #[trigger] past(a).stages[i] by {
                if i < n - 1 {
                    assert(mid.levels@.drop_last()[i] == before.levels@.drop_last()[i]);
                } else {
                    assert(mid.levels@[i] == mid.levels@.last());
                }
            }
            assert(m.stages =~= past(a).stages);
            assert(m == past(a));
            visit_takes(w, t, path@, span, mid, after, r);
            assert(stage_of(top).imports[top.next as int] == (path@, span));
            assert(a.stages.last().next != a.stages.last().imports.len());
            assert(takes_import(w, top.dir@, path@, span, past(a), b, v));
        }
    } else {
        assert(a.stages.len() == 0);
    }
}

/// Following an import, as it was done, is following it on the course.
proof fn visit_takes<
    B: Fn(&str) -> bool,
    F: Fn(&str) -> bool,
    C: Fn(&str) -> Option<String>,
    L: Fn(&str) -> Loaded,
>(
    w: World<B, F, C, L>,
    t: Result<ImportTarget, String>,
    path: Seq<char>,
    span: Span,
    mid: Walk,
    after: Walk,
    r: Progress,
)
    requires
        visits(w.on_disk, w.canonical, w.load, t, path, span, mid, after, r),
    ensures
        takes(w, path, span, course_of(mid), course_of(after), verdict_of(r), named(t)),
{
    let a = course_of(mid);
    let b = course_of(after);
    let v = verdict_of(r);
    if after.levels@ == mid.levels@ {
        assert(b.stages =~= a.stages);
    }
    match t {
        Ok(ImportTarget::Native(p)) => {
            assert(b == a);
        },
        Ok(ImportTarget::Jade(p)) => {
            let c = choose|c: Option<Seq<char>>|
                #[trigger] canon_says(w.canonical, p@, c) && followed(
                    w.load,
                    path,
                    span,
                    mid,
                    after,
                    r,
                    c,
                );
            match c {
                Some(d) => {
                    if !a.seen.contains(d) {
                        let l = choose|l: Loaded|
                            #[trigger] load_says(w.load, d, l) && entered(
                                path,
                                span,
                                mid,
                                after,
                                r,
                                d,
                                l,
                            );
                        assert(lists(w.load, d, listing_of(l)));
                        match l {
                            Loaded::Imports(_) => {
                                let more = a.stages.push(stage_of(after.levels@.last()));
                                assert forall|i: int| 0 <= i < more.len() implies b.stages[i]
                                    == #[trigger] more[i] by {
                                    if i < mid.levels@.len() {
                                        assert(after.levels@.drop_last()[i] == mid.levels@[i]);
                                    }
                                }
                                assert(b.stages =~= more);
                            },
                            _ => {},
                        }
                        assert(enters(path, span, a, b, v, d, listing_of(l)));
                    }
                },
                None => {},
            }
            assert(opens(w.load, path, span, a, b, v, c));
            assert(descends(w.canonical, w.load, p@, path, span, a, b, v));
        },
        _ => {},
    }
}

/// A run with one more state.
pub(super) proof fn run_extends<
    B: Fn(&str) -> bool,
    F: Fn(&str) -> bool,
    C: Fn(&str) -> Option<String>,
    L: Fn(&str) -> Loaded,
>(w: World<B, F, C, L>, from: Course, states: Seq<Course>, b: Course)
    requires
        run(w, from, states),
        moves(w, states.last(), b, Verdict::More),
    ensures
        run(w, from, states.push(b)),
{
    let more = states.push(b);
    assert forall|i: int| 0 < i < more.len() implies moves(
        w,
        more[i - 1],
        #[trigger] more[i],
        Verdict::More,
    ) by {
        if i < states.len() {
            assert(more[i] == states[i]);
        }
    }
}

// ── Laws ─────────────────────────────────────────────────────────────────────

/// A question about a path has one answer.
pub open spec fn settled<F: Fn(&str) -> bool>(f: F) -> bool {
    forall|p: Seq<char>, a: bool, b: bool| #[trigger] says(f, p, a) && #[trigger] says(f, p, b)
        ==> a == b
}

/// The answers do not change: each question about the disk and about the compiled-in
/// packages has one.
pub open spec fn steady<
    B: Fn(&str) -> bool,
    F: Fn(&str) -> bool,
    C: Fn(&str) -> Option<String>,
    L: Fn(&str) -> Loaded,
>(w: World<B, F, C, L>) -> bool {
    &&& settled(w.builtin)
    &&& settled(w.on_disk)
    &&& forall|p: Seq<char>, a: Option<Seq<char>>, b: Option<Seq<char>>| #[trigger]
        canon_says(w.canonical, p, a) && #[trigger] canon_says(w.canonical, p, b) ==> a == b
    &&& forall|p: Seq<char>, a: Listing, b: Listing| #[trigger]
        lists(w.load, p, a) && #[trigger] lists(w.load, p, b) ==> a == b
}

/// Probing for a module comes to one file.
proof fn probes_agree<F: Fn(&str) -> bool>(
    on_disk: F,
    stem: Seq<char>,
    p: Seq<char>,
    k: ImportKind,
    q: Seq<char>,
    l: ImportKind,
)
    requires
        settled(on_disk),
        probed(on_disk, stem, p, k),
        probed(on_disk, stem, q, l),
    ensures
        p == q,
        k == l,
{
    let a = choose|a: Answers| #[trigger] answered(on_disk, stem, a) && (p, k) == picked(stem, a);
    let b = choose|b: Answers| #[trigger] answered(on_disk, stem, b) && (q, l) == picked(stem, b);
    assert(a.jde == b.jde);
    if !a.jde {
        assert(a.dylib == b.dylib);
        if !a.dylib {
            assert(a.so == b.so);
            if !a.so {
                assert(a.dll == b.dll);
            }
        }
    }
}

/// An import path comes to one thing.
pub proof fn imports_name_one_thing<
    B: Fn(&str) -> bool,
    F: Fn(&str) -> bool,
    C: Fn(&str) -> Option<String>,
    L: Fn(&str) -> Loaded,
>(w: World<B, F, C, L>, dir: Seq<char>, path: Seq<char>, s: Named, t: Named)
    requires
        steady(w),
        names(w, dir, path, s),
        names(w, dir, path, t),
    ensures
        s == t,
{
    let q = choose|r: Result<ImportTarget, String>| #[trigger]
        resolves(w, dir, path, r) && named(r) == s;
    let r = choose|r: Result<ImportTarget, String>| #[trigger]
        resolves(w, dir, path, r) && named(r) == t;
    let x = choose|x: bool| #[trigger]
        says(w.builtin, path, x) && import_result(w.on_disk, w.libraries, w.root, dir, path, x, q);
    let y = choose|y: bool| #[trigger]
        says(w.builtin, path, y) && import_result(w.on_disk, w.libraries, w.root, dir, path, y, r);
    assert(x == y);
    if !x {
        match w.root {
            None => directory_agrees(w.on_disk, dir, path, q, r),
            Some(root) => project_agrees(w.on_disk, w.libraries, root, dir, path, q, r),
        }
    }
}

/// A directory answers one thing about a path.
proof fn directory_agrees<F: Fn(&str) -> bool>(
    on_disk: F,
    dir: Seq<char>,
    path: Seq<char>,
    q: Result<ImportTarget, String>,
    r: Result<ImportTarget, String>,
)
    requires
        settled(on_disk),
        directory_says(on_disk, dir, path, q),
        directory_says(on_disk, dir, path, r),
    ensures
        named(q) == named(r),
{
    let stem = pushed(dir, path);
    let x = choose|x: ResolvedLib|
        #[trigger] probed(on_disk, stem, x.path@, x.kind) && q == Ok::<ImportTarget, String>(
            target_of(x),
        );
    let y = choose|x: ResolvedLib|
        #[trigger] probed(on_disk, stem, x.path@, x.kind) && r == Ok::<ImportTarget, String>(
            target_of(x),
        );
    probes_agree(on_disk, stem, x.path@, x.kind, y.path@, y.kind);
}

/// A project answers one thing about a path.
proof fn project_agrees<F: Fn(&str) -> bool>(
    on_disk: F,
    libs: Seq<(String, LibraryEntry)>,
    root: Seq<char>,
    dir: Seq<char>,
    path: Seq<char>,
    q: Result<ImportTarget, String>,
    r: Result<ImportTarget, String>,
)
    requires
        settled(on_disk),
        in_project(on_disk, libs, root, dir, path, q),
        in_project(on_disk, libs, root, dir, path, r),
    ensures
        named(q) == named(r),
{
    let l = choose|l: Result<Option<ResolvedLib>, String>|
        #[trigger] project_says(on_disk, libs, root, dir, path, l) && settles(
            on_disk,
            dir,
            path,
            l,
            q,
        );
    let m = choose|l: Result<Option<ResolvedLib>, String>|
        #[trigger] project_says(on_disk, libs, root, dir, path, l) && settles(
            on_disk,
            dir,
            path,
            l,
            r,
        );
    let (lib, module) = lib_and_module(path);
    if ambiguity_result(on_disk, libs, path, dir, None) {
        assert(library_result(on_disk, libs, path, root, l));
        assert(library_result(on_disk, libs, path, root, m));
        if l matches Ok(Some(x)) && m matches Ok(Some(y)) {
            let e = lib_named(libs, lib)->Some_0;
            if e.files is None {
                probes_agree(
                    on_disk,
                    pushed(lib_base(e, root), module),
                    l->Ok_0->Some_0.path@,
                    l->Ok_0->Some_0.kind,
                    m->Ok_0->Some_0.path@,
                    m->Ok_0->Some_0.kind,
                );
            }
        }
        if l matches Ok(None) {
            directory_agrees(on_disk, dir, path, q, r);
        }
    }
}

/// A step has one outcome.
proof fn steps_agree<
    B: Fn(&str) -> bool,
    F: Fn(&str) -> bool,
    C: Fn(&str) -> Option<String>,
    L: Fn(&str) -> Loaded,
>(w: World<B, F, C, L>, a: Course, b: Course, u: Verdict, c: Course, v: Verdict)
    requires
        steady(w),
        moves(w, a, b, u),
        moves(w, a, c, v),
    ensures
        b == c,
        u == v,
{
    if a.stages.len() > 0 {
        let top = a.stages.last();
        if top.next != top.imports.len() {
            let (path, span) = top.imports[top.next];
            let s = choose|t: Named| #[trigger]
                names(w, top.dir, path, t) && takes(w, path, span, past(a), b, u, t);
            let t = choose|t: Named| #[trigger]
                names(w, top.dir, path, t) && takes(w, path, span, past(a), c, v, t);
            imports_name_one_thing(w, top.dir, path, s, t);
            match s {
                Named::Jade(p) => {
                    let i = choose|i: Option<Seq<char>>| #[trigger]
                        canon_says(w.canonical, p, i) && opens(
                            w.load,
                            path,
                            span,
                            past(a),
                            b,
                            u,
                            i,
                        );
                    let j = choose|j: Option<Seq<char>>| #[trigger]
                        canon_says(w.canonical, p, j) && opens(
                            w.load,
                            path,
                            span,
                            past(a),
                            c,
                            v,
                            j,
                        );
                    assert(i == j);
                    match i {
                        Some(d) => {
                            if !past(a).seen.contains(d) {
                                let l = choose|l: Listing| #[trigger]
                                    lists(w.load, d, l) && enters(path, span, past(a), b, u, d, l);
                                let m = choose|l: Listing| #[trigger]
                                    lists(w.load, d, l) && enters(path, span, past(a), c, v, d, l);
                                assert(l == m);
                            }
                        },
                        None => {},
                    }
                },
                _ => {},
            }
        }
    }
}

/// Two runs from one state are in the same state after the same number of steps.
proof fn runs_agree<
    B: Fn(&str) -> bool,
    F: Fn(&str) -> bool,
    C: Fn(&str) -> Option<String>,
    L: Fn(&str) -> Loaded,
>(w: World<B, F, C, L>, from: Course, s: Seq<Course>, t: Seq<Course>, i: int)
    requires
        steady(w),
        run(w, from, s),
        run(w, from, t),
        0 <= i < s.len(),
        i < t.len(),
    ensures
        s[i] == t[i],
    decreases i,
{
    if i > 0 {
        runs_agree(w, from, s, t, i - 1);
        assert(moves(w, s[i - 1], s[i], Verdict::More));
        assert(moves(w, t[i - 1], t[i], Verdict::More));
        steps_agree(w, s[i - 1], s[i], Verdict::More, t[i], Verdict::More);
    }
}

/// Two walks over the same imports end alike: both reach the same modules in the same
/// order, or both stop at the same import with the same fault.
pub proof fn walks_agree<
    B: Fn(&str) -> bool,
    F: Fn(&str) -> bool,
    C: Fn(&str) -> Option<String>,
    L: Fn(&str) -> Loaded,
>(
    w: World<B, F, C, L>,
    dir: Seq<char>,
    imports: Seq<(Seq<char>, Span)>,
    b: Course,
    u: Verdict,
    c: Course,
    v: Verdict,
)
    requires
        steady(w),
        walk_ends(w, dir, imports, b, u),
        walk_ends(w, dir, imports, c, v),
    ensures
        b == c,
        u == v,
{
    let from = start(dir, imports);
    let s = choose|s: Seq<Course>| #[trigger] run_ends(w, from, s, b, u);
    let t = choose|t: Seq<Course>| #[trigger] run_ends(w, from, t, c, v);
    if s.len() < t.len() {
        let n = s.len() as int;
        runs_agree(w, from, s, t, n - 1);
        assert(moves(w, t[n - 1], t[n], Verdict::More));
        steps_agree(w, s.last(), b, u, t[n], Verdict::More);
    } else if t.len() < s.len() {
        let n = t.len() as int;
        runs_agree(w, from, s, t, n - 1);
        assert(moves(w, s[n - 1], s[n], Verdict::More));
        steps_agree(w, t.last(), c, v, s[n], Verdict::More);
    } else {
        runs_agree(w, from, s, t, s.len() - 1);
        steps_agree(w, s.last(), b, u, c, v);
    }
}

/// Walking and reaching give the same answer: the one fails where the other does, and
/// with the same fault.
pub proof fn faults_agree<
    B: Fn(&str) -> bool,
    F: Fn(&str) -> bool,
    C: Fn(&str) -> Option<String>,
    L: Fn(&str) -> Loaded,
>(w: World<B, F, C, L>, dir: Seq<char>, imports: Seq<(Seq<char>, Span)>)
    requires
        steady(w),
    ensures
        forall|e: Fault, f: Fault| #[trigger]
            first_fault(w, dir, imports, e) && #[trigger] first_fault(w, dir, imports, f) ==> e
                == f,
        forall|e: Fault, seen: Seq<Seq<char>>|
            !(#[trigger] first_fault(w, dir, imports, e) && #[trigger] walk_reaches(
                w,
                dir,
                imports,
                seen,
            )),
{
    assert forall|e: Fault, f: Fault| #[trigger]
        first_fault(w, dir, imports, e) && #[trigger] first_fault(w, dir, imports, f) implies e
        == f by {
        let b = choose|b: Course| #[trigger] walk_ends(w, dir, imports, b, Verdict::Fail(e));
        let c = choose|c: Course| #[trigger] walk_ends(w, dir, imports, c, Verdict::Fail(f));
        walks_agree(w, dir, imports, b, Verdict::Fail(e), c, Verdict::Fail(f));
    }
    assert forall|e: Fault, seen: Seq<Seq<char>>|
        !(#[trigger] first_fault(w, dir, imports, e) && #[trigger] walk_reaches(
            w,
            dir,
            imports,
            seen,
        )) by {
        if first_fault(w, dir, imports, e) && walk_reaches(w, dir, imports, seen) {
            let b = choose|b: Course| #[trigger] walk_ends(w, dir, imports, b, Verdict::Fail(e));
            walks_agree(
                w,
                dir,
                imports,
                b,
                Verdict::Fail(e),
                Course { stages: seq![], seen },
                Verdict::Done,
            );
        }
    }
}

} // verus!
