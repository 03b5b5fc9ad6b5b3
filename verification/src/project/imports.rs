//! Resolving a `use` path, and walking the import graph without running anything.
//!
//! Questions about the disk are the caller's to answer, and so is finding the imports of
//! a module. Here the walk is taken one import at a time; [`super::reach`] takes it to
//! its end.

use vstd::prelude::*;

use super::library::{ambiguous_bare_import, resolve_library_import, resolve_relative_import};
use super::library::{ImportKind, LibraryEntry, ResolvedLib};
#[allow(unused_imports)]
use super::library::{ambiguity_result, library_result, probed, says};
use crate::pathf::parent_of;
use crate::text::str_eq;
#[allow(unused_imports)]
use crate::pathf::{parent_path, pushed};
#[allow(unused_imports)]
use crate::text::texts;

verus! {

/// What a `use` path names.
#[derive(Debug, Clone, PartialEq, Eq)]
pub enum ImportTarget {
    /// A package compiled into the program.
    Builtin,
    /// A native shared library.
    Native(String),
    /// A source module.
    Jade(String),
}

/// What an import resolves against.
pub struct ImportContext<'a> {
    /// The registered libraries.
    pub libraries: &'a [(String, LibraryEntry)],
    /// The project root, for a file that belongs to a project.
    pub project_root: Option<&'a str>,
    /// The directory of the importing file.
    pub source_dir: String,
}

/// The target of a resolved file.
pub open spec fn target_of(x: ResolvedLib) -> ImportTarget {
    match x.kind {
        ImportKind::Native => ImportTarget::Native(x.path),
        ImportKind::Jade => ImportTarget::Jade(x.path),
    }
}

/// The libraries of a project answer `r` about the path, when no ambiguity is in the
/// way; `Ok(None)` leaves it to the importing file's directory.
pub open spec fn project_says<F: Fn(&str) -> bool>(
    on_disk: F,
    libs: Seq<(String, LibraryEntry)>,
    root: Seq<char>,
    source_dir: Seq<char>,
    path: Seq<char>,
    r: Result<Option<ResolvedLib>, String>,
) -> bool {
    ||| r matches Err(m) && ambiguity_result(on_disk, libs, path, source_dir, Some(m@))
    ||| ambiguity_result(on_disk, libs, path, source_dir, None) && library_result(
        on_disk,
        libs,
        path,
        root,
        r,
    )
}

/// The directory of the importing file answers `x` about the path.
pub open spec fn directory_says<F: Fn(&str) -> bool>(
    on_disk: F,
    source_dir: Seq<char>,
    path: Seq<char>,
    r: Result<ImportTarget, String>,
) -> bool {
    exists|x: ResolvedLib|
        #[trigger] probed(on_disk, pushed(source_dir, path), x.path@, x.kind) && r == Ok::<
            ImportTarget,
            String,
        >(target_of(x))
}

/// What the answer of a project's libraries leads to.
pub open spec fn settles<F: Fn(&str) -> bool>(
    on_disk: F,
    source_dir: Seq<char>,
    path: Seq<char>,
    l: Result<Option<ResolvedLib>, String>,
    r: Result<ImportTarget, String>,
) -> bool {
    match l {
        Err(m) => r matches Err(s) && s == m,
        Ok(Some(x)) => r == Ok::<ImportTarget, String>(target_of(x)),
        Ok(None) => directory_says(on_disk, source_dir, path, r),
    }
}

/// What a `use` path comes to in a project.
pub open spec fn in_project<F: Fn(&str) -> bool>(
    on_disk: F,
    libs: Seq<(String, LibraryEntry)>,
    root: Seq<char>,
    source_dir: Seq<char>,
    path: Seq<char>,
    r: Result<ImportTarget, String>,
) -> bool {
    exists|l: Result<Option<ResolvedLib>, String>|
        #[trigger] project_says(on_disk, libs, root, source_dir, path, l) && settles(
            on_disk,
            source_dir,
            path,
            l,
            r,
        )
}

/// What a `use` path comes to: a compiled-in package wins outright, then a registered
/// library of the project, then a file beside the importer.
pub open spec fn import_result<F: Fn(&str) -> bool>(
    on_disk: F,
    libs: Seq<(String, LibraryEntry)>,
    root: Option<Seq<char>>,
    source_dir: Seq<char>,
    path: Seq<char>,
    builtin: bool,
    r: Result<ImportTarget, String>,
) -> bool {
    if builtin {
        r == Ok::<ImportTarget, String>(ImportTarget::Builtin)
    } else {
        match root {
            None => directory_says(on_disk, source_dir, path, r),
            Some(at) => in_project(on_disk, libs, at, source_dir, path, r),
        }
    }
}

/// The view of an optional text.
pub open spec fn opt_view(s: Option<&str>) -> Option<Seq<char>> {
    match s {
        Some(t) => Some(t@),
        None => None,
    }
}

/// The target of a resolved file.
fn to_target(x: ResolvedLib) -> (r: ImportTarget)
    ensures
        r == target_of(x),
{
    match x.kind {
        ImportKind::Native => ImportTarget::Native(x.path),
        ImportKind::Jade => ImportTarget::Jade(x.path),
    }
}

/// Resolve one `use` path, without loading anything. `builtin` says whether it names a
/// package compiled into the program. A path in the answer is a candidate: whether the
/// file is there is still to be seen.
pub fn resolve_import<F: Fn(&str) -> bool>(
    ctx: &ImportContext,
    path: &str,
    builtin: bool,
    on_disk: &F,
) -> (r: Result<ImportTarget, String>)
    requires
        forall|s: &str| #[trigger] call_requires(*on_disk, (s,)),
    ensures
        import_result(
            *on_disk,
            ctx.libraries@,
            opt_view(ctx.project_root),
            ctx.source_dir@,
            path@,
            builtin,
            r,
        ),
{
    if builtin {
        return Ok(ImportTarget::Builtin);
    }
    let dir = ctx.source_dir.as_str();
    if let Some(root) = ctx.project_root {
        let ghost libs = ctx.libraries@;
        if let Some(message) = ambiguous_bare_import(path, ctx.libraries, dir, on_disk) {
            let ghost l = Err::<Option<ResolvedLib>, String>(message);
            assert(project_says(*on_disk, libs, root@, dir@, path@, l));
            let r: Result<ImportTarget, String> = Err(message);
            assert(settles(*on_disk, dir@, path@, l, r));
            assert(in_project(*on_disk, libs, root@, dir@, path@, r));
            return r;
        }
        let l = resolve_library_import(ctx.libraries, path, root, on_disk);
        assert(project_says(*on_disk, libs, root@, dir@, path@, l));
        match l {
            Err(m) => {
                let r: Result<ImportTarget, String> = Err(m);
                assert(in_project(*on_disk, libs, root@, dir@, path@, r));
                return r;
            },
            Ok(Some(x)) => {
                return Ok(to_target(x));
            },
            Ok(None) => {},
        }
        let x = resolve_relative_import(dir, path, on_disk);
        let t = to_target(x);
        assert(directory_says(*on_disk, dir@, path@, Ok::<ImportTarget, String>(t)));
        return Ok(t);
    }
    let x = resolve_relative_import(dir, path, on_disk);
    Ok(to_target(x))
}

// ── Programs ─────────────────────────────────────────────────────────────────

/// A place in a source file.
#[derive(Debug, Clone, Copy, PartialEq, Eq, Structural)]
pub struct Span {
    /// Where it begins.
    pub start: usize,
    /// Where it ends.
    pub end: usize,
}

/// A statement, as far as imports go.
#[derive(Debug, Clone)]
pub enum Stmt {
    /// `use path`
    Use {
        /// The path.
        path: String,
        /// Where it stands.
        span: Span,
    },
    /// `from path use ...`
    FromUse {
        /// The path.
        path: String,
        /// Where it stands.
        span: Span,
    },
    /// Anything else.
    Other,
}

/// A program: its top-level statements.
#[derive(Debug, Clone)]
pub struct Program {
    /// The statements.
    pub stmts: Vec<Stmt>,
}

/// The path and the place of an import statement.
pub open spec fn import_of(s: Stmt) -> Option<(Seq<char>, Span)> {
    match s {
        Stmt::Use { path, span } => Some((path@, span)),
        Stmt::FromUse { path, span } => Some((path@, span)),
        Stmt::Other => None,
    }
}

/// The imports among the first `n` statements, in order.
pub open spec fn imports_in(s: Seq<Stmt>, n: int) -> Seq<(Seq<char>, Span)>
    decreases n,
{
    if n <= 0 {
        seq![]
    } else {
        match import_of(s[n - 1]) {
            Some(i) => imports_in(s, n - 1).push(i),
            None => imports_in(s, n - 1),
        }
    }
}

/// Imports as mathematics.
pub open spec fn import_views(v: Seq<(String, Span)>) -> Seq<(Seq<char>, Span)> {
    Seq::new(v.len(), |i: int| (v[i].0@, v[i].1))
}

/// Every imported path of a program, with the place to blame. An import is a top-level
/// form, so only top-level statements are looked at.
pub fn program_import_paths(program: &Program) -> (r: Vec<(String, Span)>)
    ensures
        import_views(r@) == imports_in(program.stmts@, program.stmts@.len() as int),
{
    let mut out: Vec<(String, Span)> = Vec::new();
    let mut i: usize = 0;
    assert(import_views(out@) =~= seq![]);
    while i < program.stmts.len()
        invariant
            i <= program.stmts@.len(),
            import_views(out@) == imports_in(program.stmts@, i as int),
        decreases program.stmts@.len() - i,
    {
        let ghost before = out@;
        match &program.stmts[i] {
            Stmt::Use { path, span } => {
                out.push((path.clone(), *span));
                assert(import_views(out@) =~= import_views(before).push((path@, *span)));
            },
            Stmt::FromUse { path, span } => {
                out.push((path.clone(), *span));
                assert(import_views(out@) =~= import_views(before).push((path@, *span)));
            },
            Stmt::Other => {},
        }
        i += 1;
    }
    out
}

// ── The walk ─────────────────────────────────────────────────────────────────

/// What finding the imports of a module came to.
#[derive(Debug)]
pub enum Loaded {
    /// The file cannot be read.
    Unreadable,
    /// The file does not parse; the message.
    Bad(String),
    /// The module's imports.
    Imports(Vec<(String, Span)>),
}

/// Why a walk stopped.
#[derive(Debug)]
pub enum WalkError {
    /// The path does not resolve; the message.
    Io {
        /// The message.
        message: String,
        /// Where the import stands.
        span: Span,
    },
    /// The file an import names is not there.
    ImportNotFound {
        /// The imported path.
        path: String,
        /// Where the import stands.
        span: Span,
    },
    /// A module does not parse; the message.
    Frontend(String),
}

/// What a failed walk is reported as.
pub open spec fn walk_error_text(e: WalkError) -> Seq<char> {
    match e {
        WalkError::Io { message, .. } => message@,
        WalkError::ImportNotFound { path, .. } => "cannot find import '"@ + path@ + "'"@,
        WalkError::Frontend(m) => m@,
    }
}

impl WalkError {
    /// What the failure is reported as.
    pub fn text(&self) -> (r: String)
        ensures
            r@ == walk_error_text(*self),
    {
        match self {
            WalkError::Io { message, .. } => message.clone(),
            WalkError::ImportNotFound { path, .. } => {
                let mut s = "cannot find import '".to_owned();
                s.append(path.as_str());
                s.append("'");
                s
            },
            WalkError::Frontend(m) => m.clone(),
        }
    }
}

/// How far a walk has come.
#[derive(Debug)]
pub enum Progress {
    /// There is more to do.
    More,
    /// Every import was followed.
    Done,
    /// An import does not resolve.
    Fail(WalkError),
}

/// A module whose imports are being followed.
pub struct Level {
    /// Its imports.
    pub imports: Vec<(String, Span)>,
    /// How many were followed.
    pub next: usize,
    /// Its directory.
    pub dir: String,
}

/// A walk over the import graph.
pub struct Walk {
    /// The modules whose imports are being followed, the innermost last.
    pub levels: Vec<Level>,
    /// The modules reached, each once.
    pub seen: Vec<String>,
}

/// The texts of a list, none twice.
pub open spec fn distinct(s: Seq<Seq<char>>) -> bool {
    forall|i: int, j: int| 0 <= i < j < s.len() ==> s[i] != s[j]
}

/// The caller may answer `r` about the canonical form of the path `p`.
pub open spec fn canon_says<C: Fn(&str) -> Option<String>>(
    canonical: C,
    p: Seq<char>,
    r: Option<Seq<char>>,
) -> bool {
    exists|s: &str, o: Option<String>|
        s@ == p && #[trigger] call_ensures(canonical, (s,), o) && r == (match o {
            Some(t) => Some(t@),
            None => None,
        })
}

/// The caller may answer `r` about the imports of the file `p`.
pub open spec fn load_says<L: Fn(&str) -> Loaded>(load: L, p: Seq<char>, r: Loaded) -> bool {
    exists|s: &str| s@ == p && #[trigger] call_ensures(load, (s,), r)
}

/// The directory a module's own imports are relative to.
pub open spec fn module_dir(file: Seq<char>) -> Seq<char> {
    match parent_path(file) {
        Some(d) => d,
        None => "."@,
    }
}

/// What entering a module does, given its imports.
pub open spec fn entered(
    path: Seq<char>,
    span: Span,
    before: Walk,
    after: Walk,
    r: Progress,
    c: Seq<char>,
    l: Loaded,
) -> bool {
    match l {
        Loaded::Unreadable => not_there(path, span, r) && after.levels@ == before.levels@,
        Loaded::Bad(m) => r matches Progress::Fail(WalkError::Frontend(x)) && x == m
            && after.levels@ == before.levels@,
        Loaded::Imports(v) => {
            &&& r is More
            &&& after.levels@.len() == before.levels@.len() + 1
            &&& after.levels@.drop_last() == before.levels@
            &&& after.levels@.last().imports == v
            &&& after.levels@.last().next == 0
            &&& after.levels@.last().dir@ == module_dir(c)
        },
    }
}

/// The walk stops because the file is not there.
pub open spec fn not_there(path: Seq<char>, span: Span, r: Progress) -> bool {
    r matches Progress::Fail(WalkError::ImportNotFound { path: p, span: s }) && p@ == path && s
        == span
}

/// What following a source module does, given its canonical path.
pub open spec fn followed<L: Fn(&str) -> Loaded>(
    load: L,
    path: Seq<char>,
    span: Span,
    before: Walk,
    after: Walk,
    r: Progress,
    c: Option<Seq<char>>,
) -> bool {
    match c {
        None => not_there(path, span, r) && texts(after.seen@) == texts(before.seen@)
            && after.levels@ == before.levels@,
        Some(c) => if texts(before.seen@).contains(c) {
            r is More && texts(after.seen@) == texts(before.seen@) && after.levels@
                == before.levels@
        } else {
            texts(after.seen@) == texts(before.seen@).push(c) && exists|l: Loaded|
                #[trigger] load_says(load, c, l) && entered(path, span, before, after, r, c, l)
        },
    }
}

/// What following a source module does: it is reached once, and its imports are
/// followed next, relative to its own directory.
pub open spec fn follows<C: Fn(&str) -> Option<String>, L: Fn(&str) -> Loaded>(
    canonical: C,
    load: L,
    file: Seq<char>,
    path: Seq<char>,
    span: Span,
    before: Walk,
    after: Walk,
    r: Progress,
) -> bool {
    exists|c: Option<Seq<char>>|
        #[trigger] canon_says(canonical, file, c) && followed(
            load,
            path,
            span,
            before,
            after,
            r,
            c,
        )
}

/// What following one import does to the walk.
pub open spec fn visits<
    F: Fn(&str) -> bool,
    C: Fn(&str) -> Option<String>,
    L: Fn(&str) -> Loaded,
>(
    on_disk: F,
    canonical: C,
    load: L,
    t: Result<ImportTarget, String>,
    path: Seq<char>,
    span: Span,
    before: Walk,
    after: Walk,
    r: Progress,
) -> bool {
    let same = texts(after.seen@) == texts(before.seen@) && after.levels@ == before.levels@;
    match t {
        Err(m) => same && (r matches Progress::Fail(WalkError::Io { message, span: s }) && message
            == m && s == span),
        Ok(ImportTarget::Builtin) => same && r is More,
        Ok(ImportTarget::Native(p)) => same && (says(on_disk, p@, true) && r is More || says(
            on_disk,
            p@,
            false,
        ) && (r matches Progress::Fail(WalkError::ImportNotFound { path: q, span: s }) && q@
            == path && s == span)),
        Ok(ImportTarget::Jade(p)) => follows(canonical, load, p@, path, span, before, after, r),
    }
}

/// What one step of a walk does: nothing is left to do, a module whose imports were all
/// followed is left, or one import is followed.
pub open spec fn advances<
    B: Fn(&str) -> bool,
    F: Fn(&str) -> bool,
    C: Fn(&str) -> Option<String>,
    L: Fn(&str) -> Loaded,
>(
    builtin: B,
    on_disk: F,
    canonical: C,
    load: L,
    libraries: Seq<(String, LibraryEntry)>,
    root: Option<Seq<char>>,
    before: Walk,
    after: Walk,
    r: Progress,
) -> bool {
    if before.levels@.len() == 0 {
        r is Done && after == before
    } else {
        let top = before.levels@.last();
        if top.next == top.imports@.len() {
            &&& r is More
            &&& after.levels@ == before.levels@.drop_last()
            &&& after.seen@ == before.seen@
        } else {
            let (path, span) = top.imports@[top.next as int];
            exists|mid: Walk, b: bool, t: Result<ImportTarget, String>|
                {
                    &&& mid.seen@ == before.seen@
                    &&& mid.levels@.len() == before.levels@.len()
                    &&& mid.levels@.drop_last() == before.levels@.drop_last()
                    &&& mid.levels@.last().imports == top.imports
                    &&& mid.levels@.last().dir == top.dir
                    &&& mid.levels@.last().next == top.next + 1
                    &&& says(builtin, path@, b)
                    &&& #[trigger] import_result(
                        on_disk,
                        libraries,
                        root,
                        top.dir@,
                        path@,
                        b,
                        t,
                    )
                    &&& #[trigger] visits(
                        on_disk,
                        canonical,
                        load,
                        t,
                        path@,
                        span,
                        mid,
                        after,
                        r,
                    )
                }
        }
    }
}

impl Walk {
    /// No module is reached twice, and no level is past its end.
    pub open spec fn wf(&self) -> bool {
        &&& distinct(texts(self.seen@))
        &&& forall|i: int|
            0 <= i < self.levels@.len() ==> (#[trigger] self.levels@[i]).next
                <= self.levels@[i].imports@.len()
    }

    /// A walk from the imports of a file in `dir`.
    pub fn new(paths: Vec<(String, Span)>, dir: String) -> (w: Self)
        ensures
            w.wf(),
            w.seen@.len() == 0,
            w.levels@.len() == 1,
            w.levels@[0].imports == paths,
            w.levels@[0].next == 0,
            w.levels@[0].dir == dir,
    {
        let mut levels: Vec<Level> = Vec::new();
        levels.push(Level { imports: paths, next: 0, dir });
        Walk { levels, seen: Vec::new() }
    }

    /// Whether a module was reached.
    fn reached(&self, file: &str) -> (r: bool)
        ensures
            r == texts(self.seen@).contains(file@),
    {
        let ghost t = texts(self.seen@);
        let mut i: usize = 0;
        while i < self.seen.len()
            invariant
                i <= self.seen@.len(),
                t == texts(self.seen@),
                forall|k: int| 0 <= k < i ==> t[k] != file@,
            decreases self.seen@.len() - i,
        {
            if str_eq(self.seen[i].as_str(), file) {
                assert(t[i as int] == file@);
                return true;
            }
            assert(t[i as int] != file@);
            i += 1;
        }
        false
    }

    /// Follow a source module.
    fn follow<C: Fn(&str) -> Option<String>, L: Fn(&str) -> Loaded>(
        &mut self,
        file: &str,
        path: &str,
        span: Span,
        canonical: &C,
        load: &L,
    ) -> (r: Progress)
        requires
            old(self).wf(),
            forall|s: &str| #[trigger] call_requires(*canonical, (s,)),
            forall|s: &str| #[trigger] call_requires(*load, (s,)),
        ensures
            final(self).wf(),
            follows(*canonical, *load, file@, path@, span, *old(self), *final(self), r),
    {
        let answer: Option<String> = canonical(file);
        let c = match answer {
            None => {
                assert(canon_says(*canonical, file@, None));
                return Progress::Fail(WalkError::ImportNotFound { path: path.to_owned(), span });
            },
            Some(c) => c,
        };
        assert(canon_says(*canonical, file@, Some(c@)));
        if self.reached(c.as_str()) {
            return Progress::More;
        }
        let ghost before = *self;
        self.seen.push(c.clone());
        proof {
            assert(texts(self.seen@) =~= texts(before.seen@).push(c@));
            assert forall|i: int, j: int| 0 <= i < j < texts(self.seen@).len() implies texts(
                self.seen@,
            )[i] != texts(self.seen@)[j] by {
                if j == before.seen@.len() {
                    assert(texts(before.seen@)[i] == texts(self.seen@)[i]);
                }
            }
        }
        let l: Loaded = load(c.as_str());
        assert(load_says(*load, c@, l));
        match l {
            Loaded::Unreadable => Progress::Fail(
                WalkError::ImportNotFound { path: path.to_owned(), span },
            ),
            Loaded::Bad(m) => Progress::Fail(WalkError::Frontend(m)),
            Loaded::Imports(v) => {
                let dir = match parent_of(c.as_str()) {
                    Some(d) => d,
                    None => ".".to_owned(),
                };
                self.levels.push(Level { imports: v, next: 0, dir });
                assert(self.levels@.drop_last() =~= before.levels@);
                Progress::More
            },
        }
    }

    /// Take the walk one import further. A module's own imports come before the
    /// importer's next one; a module reached before is not followed again, so a cycle
    /// ends. A native library is only looked for, never opened.
    pub fn advance<
        B: Fn(&str) -> bool,
        F: Fn(&str) -> bool,
        C: Fn(&str) -> Option<String>,
        L: Fn(&str) -> Loaded,
    >(
        &mut self,
        libraries: &[(String, LibraryEntry)],
        project_root: Option<&str>,
        builtin: &B,
        on_disk: &F,
        canonical: &C,
        load: &L,
    ) -> (r: Progress)
        requires
            old(self).wf(),
            forall|s: &str| #[trigger] call_requires(*builtin, (s,)),
            forall|s: &str| #[trigger] call_requires(*on_disk, (s,)),
            forall|s: &str| #[trigger] call_requires(*canonical, (s,)),
            forall|s: &str| #[trigger] call_requires(*load, (s,)),
        ensures
            final(self).wf(),
            advances(
                *builtin,
                *on_disk,
                *canonical,
                *load,
                libraries@,
                opt_view(project_root),
                *old(self),
                *final(self),
                r,
            ),
    {
        let n: usize = self.levels.len();
        if n == 0 {
            return Progress::Done;
        }
        let ghost top = self.levels@.last();
        let at: usize = self.levels[n - 1].next;
        if at == self.levels[n - 1].imports.len() {
            self.levels.pop();
            return Progress::More;
        }
        let path = self.levels[n - 1].imports[at].0.clone();
        let span = self.levels[n - 1].imports[at].1;
        let dir = self.levels[n - 1].dir.clone();
        self.levels[n - 1].next = at + 1;
        let ghost mid = *self;
        assert(mid.levels@.drop_last() =~= old(self).levels@.drop_last());
        let ctx = ImportContext { libraries, project_root, source_dir: dir };
        let b: bool = builtin(path.as_str());
        assert(says(*builtin, path@, b));
        let t = resolve_import(&ctx, path.as_str(), b, on_disk);
        let ghost tt = t;
        let r = match t {
            Err(message) => Progress::Fail(WalkError::Io { message, span }),
            Ok(ImportTarget::Builtin) => Progress::More,
            Ok(ImportTarget::Native(p)) => {
                let there: bool = on_disk(p.as_str());
                assert(says(*on_disk, p@, there));
                if there {
                    Progress::More
                } else {
                    Progress::Fail(WalkError::ImportNotFound { path: path.clone(), span })
                }
            },
            Ok(ImportTarget::Jade(p)) => self.follow(
                p.as_str(),
                path.as_str(),
                span,
                canonical,
                load,
            ),
        };
        assert(visits(*on_disk, *canonical, *load, tt, path@, span, mid, *self, r));
        r
    }

    /// The modules reached so far, each once. The file the walk began at is not among
    /// them, unless an import led back to it.
    pub fn modules(self) -> (r: Vec<String>)
        ensures
            r == self.seen,
            self.wf() ==> distinct(texts(r@)),
    {
        self.seen
    }
}

// ── Laws ─────────────────────────────────────────────────────────────────────

/// A compiled-in package wins over anything a project or a directory holds.
pub proof fn builtins_win<F: Fn(&str) -> bool>(
    on_disk: F,
    libs: Seq<(String, LibraryEntry)>,
    root: Option<Seq<char>>,
    dir: Seq<char>,
    path: Seq<char>,
    r: Result<ImportTarget, String>,
)
    requires
        import_result(on_disk, libs, root, dir, path, true, r),
    ensures
        r == Ok::<ImportTarget, String>(ImportTarget::Builtin),
{
}

/// A resolved library is a target of its own kind, at its own path.
pub proof fn targets_keep_their_kind(x: ResolvedLib)
    ensures
        x.kind is Native ==> target_of(x) == ImportTarget::Native(x.path),
        x.kind is Jade ==> target_of(x) == ImportTarget::Jade(x.path),
{
}

/// What the project says settles an import, an error too; only where it says nothing is the
/// directory asked.
pub proof fn projects_settle_before_directories<F: Fn(&str) -> bool>(
    on_disk: F,
    source_dir: Seq<char>,
    path: Seq<char>,
    x: ResolvedLib,
    m: String,
    r: Result<ImportTarget, String>,
)
    ensures
        settles(on_disk, source_dir, path, Ok(Some(x)), r) <==> r == Ok::<ImportTarget, String>(
            target_of(x),
        ),
        settles(on_disk, source_dir, path, Err(m), r) <==> r == Err::<ImportTarget, String>(m),
        settles(on_disk, source_dir, path, Ok(None), r) <==> directory_says(
            on_disk,
            source_dir,
            path,
            r,
        ),
{
}

/// The imports of a module are those of its statements, in order: both forms count, and
/// nothing else does.
pub proof fn both_forms_import(s: Seq<Stmt>, n: int)
    requires
        0 <= n < s.len(),
    ensures
        imports_in(s, 0).len() == 0,
        s[n] matches Stmt::Use { path, span } ==> imports_in(s, n + 1) == imports_in(s, n).push(
            (path@, span),
        ),
        s[n] matches Stmt::FromUse { path, span } ==> imports_in(s, n + 1) == imports_in(s, n).push(
            (path@, span),
        ),
        s[n] is Other ==> imports_in(s, n + 1) == imports_in(s, n),
{
}

/// A module looks for its imports in the directory its file lies in.
pub proof fn modules_look_beside_their_file(base: Seq<char>, name: Seq<char>)
    requires
        name.len() > 0,
        !name.contains('/'),
        name != "."@,
        base.len() > 0,
        base != "."@,
        base.last() != '/',
        base.len() > 1 ==> !(base.last() == '.' && base[base.len() - 2] == '/'),
    ensures
        module_dir(base + "/"@ + name) == base,
{
    crate::pathf::directories_come_back(base, name);
}

} // verus!
