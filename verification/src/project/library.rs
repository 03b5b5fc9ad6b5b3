//! The `[lib]` table: directories whose modules can be imported from anywhere.
//!
//! What lies on disk is asked of the caller, through a predicate on paths.

use vstd::prelude::*;

use crate::pathf::push_path;
use crate::render::quote_key;
use crate::text::{chars_of, find_char, str_ends_with, str_eq};
#[allow(unused_imports)]
use crate::pathf::{pushed, rooted};
#[allow(unused_imports)]
use crate::render::debug_quoted;
#[allow(unused_imports)]
use crate::sort::{distinct_keys, keyed};
#[allow(unused_imports)]
use crate::text::{ends_with_seq, joined, texts};

verus! {

/// An entry of the `[lib]` table.
#[derive(Debug, Clone)]
pub struct LibraryEntry {
    /// The directory, relative to the project root.
    pub path: String,
    /// The importable file names; every recognized file when absent.
    pub files: Option<Vec<String>>,
}

/// How a module is loaded.
#[derive(Debug, Clone, Copy, PartialEq, Eq, Structural)]
pub enum ImportKind {
    /// A source module.
    Jade,
    /// A native shared library.
    Native,
}

/// A resolved import: the file, and how to load it.
#[derive(Debug, Clone)]
pub struct ResolvedLib {
    /// The file.
    pub path: String,
    /// How to load it.
    pub kind: ImportKind,
}

/// How a file with this extension is loaded.
pub open spec fn ext_kind(ext: Seq<char>) -> Option<ImportKind> {
    if ext == "jde"@ {
        Some(ImportKind::Jade)
    } else if ext == "dylib"@ || ext == "so"@ || ext == "dll"@ {
        Some(ImportKind::Native)
    } else {
        None
    }
}

/// How a file with this extension is loaded.
pub fn kind_for_ext(ext: &str) -> (r: Option<ImportKind>)
    ensures
        r == ext_kind(ext@),
{
    if str_eq(ext, "jde") {
        Some(ImportKind::Jade)
    } else if str_eq(ext, "dylib") || str_eq(ext, "so") || str_eq(ext, "dll") {
        Some(ImportKind::Native)
    } else {
        None
    }
}

/// A file name without a recognized extension, and the extension; nothing for none.
pub open spec fn lib_ext(name: Seq<char>) -> (Seq<char>, Seq<char>) {
    if ends_with_seq(name, ".jde"@) {
        (name.take(name.len() - 4), "jde"@)
    } else if ends_with_seq(name, ".dylib"@) {
        (name.take(name.len() - 6), "dylib"@)
    } else if ends_with_seq(name, ".so"@) {
        (name.take(name.len() - 3), "so"@)
    } else if ends_with_seq(name, ".dll"@) {
        (name.take(name.len() - 4), "dll"@)
    } else {
        (name, ""@)
    }
}

/// Split a recognized extension off a file name. A directory in the name stays.
pub fn split_lib_ext(name: &str) -> (r: (&str, &str))
    ensures
        r.0@ == lib_ext(name@).0,
        r.1@ == lib_ext(name@).1,
{
    let n: usize = name.unicode_len();
    proof {
        reveal_strlit(".jde");
        reveal_strlit(".dylib");
        reveal_strlit(".so");
        reveal_strlit(".dll");
    }
    let (cut, ext): (usize, &str) = if str_ends_with(name, ".jde") {
        (4, "jde")
    } else if str_ends_with(name, ".dylib") {
        (6, "dylib")
    } else if str_ends_with(name, ".so") {
        (3, "so")
    } else if str_ends_with(name, ".dll") {
        (4, "dll")
    } else {
        (0, "")
    };
    let stem = name.substring_char(0, n - cut);
    assert(stem@ =~= name@.take(n - cut));
    assert(name@.take(n as int) =~= name@);
    (stem, ext)
}

// ── Questions about the disk ─────────────────────────────────────────────────

/// The predicate may answer `b` about the path `p`.
pub open spec fn says<F: Fn(&str) -> bool>(on_disk: F, p: Seq<char>, b: bool) -> bool {
    exists|s: &str| s@ == p && #[trigger] call_ensures(on_disk, (s,), b)
}

/// What the probes for a module came to.
pub struct Answers {
    /// There is a source module.
    pub jde: bool,
    /// There is a `.dylib`.
    pub dylib: bool,
    /// There is a `.so`.
    pub so: bool,
    /// There is a `.dll`.
    pub dll: bool,
}

/// The answers are the predicate's, asked in order up to the first that is there.
pub open spec fn answered<F: Fn(&str) -> bool>(on_disk: F, stem: Seq<char>, a: Answers) -> bool {
    &&& says(on_disk, stem + ".jde"@, a.jde)
    &&& !a.jde ==> says(on_disk, stem + ".dylib"@, a.dylib)
    &&& !a.jde && !a.dylib ==> says(on_disk, stem + ".so"@, a.so)
    &&& !a.jde && !a.dylib && !a.so ==> says(on_disk, stem + ".dll"@, a.dll)
}

/// The file the answers lead to: a source module first, then a native library; the
/// source module again when nothing is there.
pub open spec fn picked(stem: Seq<char>, a: Answers) -> (Seq<char>, ImportKind) {
    if a.jde {
        (stem + ".jde"@, ImportKind::Jade)
    } else if a.dylib {
        (stem + ".dylib"@, ImportKind::Native)
    } else if a.so {
        (stem + ".so"@, ImportKind::Native)
    } else if a.dll {
        (stem + ".dll"@, ImportKind::Native)
    } else {
        (stem + ".jde"@, ImportKind::Jade)
    }
}

/// The resolved file is what probing for the module comes to.
pub open spec fn probed<F: Fn(&str) -> bool>(
    on_disk: F,
    stem: Seq<char>,
    path: Seq<char>,
    kind: ImportKind,
) -> bool {
    exists|a: Answers| #[trigger] answered(on_disk, stem, a) && (path, kind) == picked(stem, a)
}

/// A text with another behind it.
fn with_suffix(stem: &str, suffix: &str) -> (r: String)
    ensures
        r@ == stem@ + suffix@,
{
    let mut s = stem.to_owned();
    s.append(suffix);
    s
}

/// Probe for the module whose path without extension is `stem`.
fn probe<F: Fn(&str) -> bool>(on_disk: &F, stem: &str) -> (r: ResolvedLib)
    requires
        forall|s: &str| #[trigger] call_requires(*on_disk, (s,)),
    ensures
        probed(*on_disk, stem@, r.path@, r.kind),
{
    let ghost mut a = Answers { jde: false, dylib: false, so: false, dll: false };
    let jde = with_suffix(stem, ".jde");
    let b0: bool = on_disk(jde.as_str());
    if b0 {
        proof {
            a = Answers { jde: true, ..a };
            assert(answered(*on_disk, stem@, a));
        }
        return ResolvedLib { path: jde, kind: ImportKind::Jade };
    }
    let dylib = with_suffix(stem, ".dylib");
    let b1: bool = on_disk(dylib.as_str());
    if b1 {
        proof {
            a = Answers { dylib: true, ..a };
            assert(answered(*on_disk, stem@, a));
        }
        return ResolvedLib { path: dylib, kind: ImportKind::Native };
    }
    let so = with_suffix(stem, ".so");
    let b2: bool = on_disk(so.as_str());
    if b2 {
        proof {
            a = Answers { so: true, ..a };
            assert(answered(*on_disk, stem@, a));
        }
        return ResolvedLib { path: so, kind: ImportKind::Native };
    }
    let dll = with_suffix(stem, ".dll");
    let b3: bool = on_disk(dll.as_str());
    if b3 {
        proof {
            a = Answers { dll: true, ..a };
            assert(answered(*on_disk, stem@, a));
        }
        return ResolvedLib { path: dll, kind: ImportKind::Native };
    }
    assert(answered(*on_disk, stem@, a));
    ResolvedLib { path: jde, kind: ImportKind::Jade }
}

// ── Libraries ────────────────────────────────────────────────────────────────

/// The position of the library `name`, or the end.
pub open spec fn lib_index(libs: Seq<(String, LibraryEntry)>, name: Seq<char>, i: int) -> int
    decreases libs.len() - i,
{
    if 0 <= i < libs.len() && libs[i].0@ != name {
        lib_index(libs, name, i + 1)
    } else {
        i
    }
}

/// The library `name`.
pub open spec fn lib_named(libs: Seq<(String, LibraryEntry)>, name: Seq<char>) -> Option<
    LibraryEntry,
> {
    let i = lib_index(libs, name, 0);
    if i < libs.len() {
        Some(libs[i].1)
    } else {
        None
    }
}

/// The library `name`.
pub fn find_lib<'a>(libs: &'a [(String, LibraryEntry)], name: &str) -> (r: Option<
    &'a LibraryEntry,
>)
    ensures
        match r {
            Some(e) => lib_named(libs@, name@) == Some(*e),
            None => lib_named(libs@, name@) is None,
        },
{
    let mut i: usize = 0;
    while i < libs.len()
        invariant
            i <= libs@.len(),
            lib_index(libs@, name@, i as int) == lib_index(libs@, name@, 0),
        decreases libs@.len() - i,
    {
        if str_eq(libs[i].0.as_str(), name) {
            return Some(&libs[i].1);
        }
        i += 1;
    }
    None
}

/// The index of the first separator in an import path, or its length.
pub open spec fn first_slash(p: Seq<char>, i: int) -> int
    decreases p.len() - i,
{
    if 0 <= i < p.len() && p[i] != '/' {
        first_slash(p, i + 1)
    } else {
        i
    }
}

/// The library and the module an import path names. A bare name is both.
pub open spec fn lib_and_module(p: Seq<char>) -> (Seq<char>, Seq<char>) {
    let i = first_slash(p, 0);
    if i < p.len() {
        (p.take(i), lib_ext(p.skip(i + 1)).0)
    } else {
        (p, lib_ext(p).0)
    }
}

/// Where a library's modules are.
pub open spec fn lib_base(e: LibraryEntry, root: Seq<char>) -> Seq<char> {
    pushed(root, e.path@)
}

/// The first file at or behind `i` whose stem is the module, or the end.
pub open spec fn file_index(files: Seq<Seq<char>>, module: Seq<char>, i: int) -> int
    decreases files.len() - i,
{
    if 0 <= i < files.len() && lib_ext(files[i]).0 != module {
        file_index(files, module, i + 1)
    } else {
        i
    }
}

/// File names as they are listed in a message.
pub open spec fn listed_files(files: Seq<Seq<char>>) -> Seq<char> {
    "["@ + joined(files.map_values(|f: Seq<char>| debug_quoted(f)), ", "@) + "]"@
}

/// What a list of importable files says of a module: the file and its kind, or the
/// message.
pub open spec fn listed_module(
    lib: Seq<char>,
    base: Seq<char>,
    files: Seq<Seq<char>>,
    module: Seq<char>,
) -> Result<(Seq<char>, ImportKind), Seq<char>> {
    let i = file_index(files, module, 0);
    if i < files.len() {
        match ext_kind(lib_ext(files[i]).1) {
            Some(k) => Ok((pushed(base, files[i]), k)),
            None => Err(
                "module '"@ + files[i] + "' in [lib."@ + lib
                    + "] of jade.toml has an unsupported extension (expected .jde, .dylib, .so, or .dll)"@,
            ),
        }
    } else {
        Err(
            "module '"@ + module + "' is not registered in [lib."@ + lib
                + "] of jade.toml (registered files: "@ + listed_files(files) + ")"@,
        )
    }
}

/// The files as they are listed in a message.
fn list_files(files: &[String]) -> (r: String)
    ensures
        r@ == listed_files(texts(files@)),
{
    let mut quoted: Vec<String> = Vec::new();
    let mut i: usize = 0;
    while i < files.len()
        invariant
            i <= files@.len(),
            quoted@.len() == i,
            forall|k: int|
                0 <= k < i ==> (#[trigger] quoted@[k])@ == debug_quoted(texts(files@)[k]),
        decreases files@.len() - i,
    {
        quoted.push(quote_key(files[i].as_str()));
        i += 1;
    }
    assert(texts(quoted@) =~= texts(files@).map_values(|f: Seq<char>| debug_quoted(f)));
    let mut s = "[".to_owned();
    s.append(crate::text::join(quoted.as_slice(), ", ").as_str());
    s.append("]");
    s
}

/// The library and the module an import path names.
fn split_import(p: &str) -> (r: (&str, &str))
    ensures
        r.0@ == lib_and_module(p@).0,
        r.1@ == lib_and_module(p@).1,
{
    let v = chars_of(p);
    let n: usize = v.len();
    let mut i: usize = 0;
    while i < n && v[i] != '/'
        invariant
            i <= n,
            n == v@.len(),
            v@ == p@,
            first_slash(p@, i as int) == first_slash(p@, 0),
        decreases n - i,
    {
        i += 1;
    }
    if i < n {
        let lib = p.substring_char(0, i);
        let rest = p.substring_char(i + 1, n);
        assert(lib@ =~= p@.take(i as int));
        assert(rest@ =~= p@.skip(i + 1));
        (lib, split_lib_ext(rest).0)
    } else {
        (p, split_lib_ext(p).0)
    }
}

/// Find a module among the importable files of a library.
fn find_listed(lib: &str, base: &str, files: &[String], module: &str) -> (r: Result<
    ResolvedLib,
    String,
>)
    ensures
        match r {
            Ok(x) => listed_module(lib@, base@, texts(files@), module@) == Ok::<
                (Seq<char>, ImportKind),
                Seq<char>,
            >((x.path@, x.kind)),
            Err(e) => listed_module(lib@, base@, texts(files@), module@) == Err::<
                (Seq<char>, ImportKind),
                Seq<char>,
            >(e@),
        },
{
    let ghost t = texts(files@);
    let mut i: usize = 0;
    while i < files.len()
        invariant
            i <= files@.len(),
            t == texts(files@),
            file_index(t, module@, i as int) == file_index(t, module@, 0),
        decreases files@.len() - i,
    {
        assert(t[i as int] == files@[i as int]@);
        let f = files[i].as_str();
        let (stem, ext) = split_lib_ext(f);
        if str_eq(stem, module) {
            return match kind_for_ext(ext) {
                Some(kind) => Ok(ResolvedLib { path: push_path(base, f), kind }),
                None => {
                    let mut s = "module '".to_owned();
                    s.append(f);
                    s.append("' in [lib.");
                    s.append(lib);
                    s.append(
                        "] of jade.toml has an unsupported extension (expected .jde, .dylib, .so, or .dll)",
                    );
                    Err(s)
                },
            };
        }
        i += 1;
    }
    let mut s = "module '".to_owned();
    s.append(module);
    s.append("' is not registered in [lib.");
    s.append(lib);
    s.append("] of jade.toml (registered files: ");
    s.append(list_files(files).as_str());
    s.append(")");
    Err(s)
}

/// What a `use` path comes to among the registered libraries.
pub open spec fn library_result<F: Fn(&str) -> bool>(
    on_disk: F,
    libs: Seq<(String, LibraryEntry)>,
    import_path: Seq<char>,
    root: Seq<char>,
    r: Result<Option<ResolvedLib>, String>,
) -> bool {
    let (lib, module) = lib_and_module(import_path);
    match lib_named(libs, lib) {
        None => r matches Ok(None),
        Some(e) => match e.files {
            Some(files) => match listed_module(lib, lib_base(e, root), texts(files@), module) {
                Ok((p, k)) => r matches Ok(Some(x)) && x.path@ == p && x.kind == k,
                Err(m) => r matches Err(s) && s@ == m,
            },
            None => r matches Ok(Some(x)) && probed(
                on_disk,
                pushed(lib_base(e, root), module),
                x.path@,
                x.kind,
            ),
        },
    }
}

/// Resolve a `use` path against the registered libraries, anchored at the project root.
/// `Ok(None)` says that it names no library, and `Err` that the library has no such
/// module.
pub fn resolve_library_import<F: Fn(&str) -> bool>(
    libs: &[(String, LibraryEntry)],
    import_path: &str,
    root: &str,
    on_disk: &F,
) -> (r: Result<Option<ResolvedLib>, String>)
    requires
        forall|s: &str| #[trigger] call_requires(*on_disk, (s,)),
    ensures
        library_result(*on_disk, libs@, import_path@, root@, r),
{
    let (lib, module) = split_import(import_path);
    let entry = match find_lib(libs, lib) {
        Some(e) => e,
        None => {
            return Ok(None);
        },
    };
    let base = push_path(root, entry.path.as_str());
    match &entry.files {
        Some(files) => match find_listed(lib, base.as_str(), files.as_slice(), module) {
            Ok(x) => Ok(Some(x)),
            Err(e) => Err(e),
        },
        None => {
            let stem = push_path(base.as_str(), module);
            Ok(Some(probe(on_disk, stem.as_str())))
        },
    }
}

/// Resolve an import that names no library to a file relative to the importing file's
/// directory: a source module first, then a native library. There is always a
/// candidate; a missing file shows when it is read.
pub fn resolve_relative_import<F: Fn(&str) -> bool>(dir: &str, import_path: &str, on_disk: &F) -> (r:
    ResolvedLib)
    requires
        forall|s: &str| #[trigger] call_requires(*on_disk, (s,)),
    ensures
        probed(*on_disk, pushed(dir@, import_path@), r.path@, r.kind),
{
    let stem = push_path(dir, import_path);
    probe(on_disk, stem.as_str())
}

/// What the message about an ambiguous import says.
pub open spec fn ambiguity(import_path: Seq<char>, sibling: Seq<char>) -> Seq<char> {
    "import '"@ + import_path
        + "' is ambiguous: it names both a registered library (or dependency) and the sibling file "@
        + sibling + ". Rename one of them."@
}

/// The import path names a library on its own.
pub open spec fn names_library(
    libs: Seq<(String, LibraryEntry)>,
    import_path: Seq<char>,
) -> bool {
    !import_path.contains('/') && lib_named(libs, import_path) is Some
}

/// The sibling source file a bare import could mean.
pub open spec fn sibling_of(source_dir: Seq<char>, import_path: Seq<char>) -> Seq<char> {
    pushed(source_dir, import_path) + ".jde"@
}

/// What asking whether an import is ambiguous comes to.
pub open spec fn ambiguity_result<F: Fn(&str) -> bool>(
    on_disk: F,
    libs: Seq<(String, LibraryEntry)>,
    import_path: Seq<char>,
    source_dir: Seq<char>,
    r: Option<Seq<char>>,
) -> bool {
    let sibling = sibling_of(source_dir, import_path);
    if names_library(libs, import_path) {
        match r {
            Some(m) => says(on_disk, sibling, true) && m == ambiguity(import_path, sibling),
            None => says(on_disk, sibling, false),
        }
    } else {
        r is None
    }
}

/// A bare import that names a library and a sibling file both: the message.
pub fn ambiguous_bare_import<F: Fn(&str) -> bool>(
    import_path: &str,
    libs: &[(String, LibraryEntry)],
    source_dir: &str,
    on_disk: &F,
) -> (r: Option<String>)
    requires
        forall|s: &str| #[trigger] call_requires(*on_disk, (s,)),
    ensures
        ambiguity_result(
            *on_disk,
            libs@,
            import_path@,
            source_dir@,
            match r {
                Some(m) => Some(m@),
                None => None,
            },
        ),
{
    let v = chars_of(import_path);
    if let Some(i) = find_char(v.as_slice(), '/') {
        assert(import_path@[i as int] == '/');
        return None;
    }
    if find_lib(libs, import_path).is_none() {
        return None;
    }
    let sibling = with_suffix(push_path(source_dir, import_path).as_str(), ".jde");
    let there: bool = on_disk(sibling.as_str());
    if !there {
        return None;
    }
    let mut s = "import '".to_owned();
    s.append(import_path);
    s.append(
        "' is ambiguous: it names both a registered library (or dependency) and the sibling file ",
    );
    s.append(sibling.as_str());
    s.append(". Rename one of them.");
    Some(s)
}

// ── Laws ─────────────────────────────────────────────────────────────────────

/// A search among libraries passes every other name.
proof fn lib_index_is(libs: Seq<(String, LibraryEntry)>, name: Seq<char>, i: int, k: int)
    requires
        0 <= i <= k <= libs.len(),
        forall|j: int| i <= j < k ==> (#[trigger] libs[j]).0@ != name,
        k < libs.len() ==> libs[k].0@ == name,
    ensures
        lib_index(libs, name, i) == k,
    decreases k - i,
{
    if i < k {
        lib_index_is(libs, name, i + 1, k);
    }
}

/// A table of libraries is looked up by name: where no name occurs twice, each finds its
/// own entry, and a name that does not occur finds none.
pub proof fn libraries_are_found_by_name(libs: Seq<(String, LibraryEntry)>)
    requires
        distinct_keys(keyed(libs)),
    ensures
        forall|i: int|
            0 <= i < libs.len() ==> lib_named(libs, (#[trigger] libs[i]).0@) == Some(libs[i].1),
        forall|name: Seq<char>|
            (forall|i: int| 0 <= i < libs.len() ==> (#[trigger] libs[i]).0@ != name)
                ==> #[trigger] lib_named(libs, name) is None,
{
    assert forall|i: int| 0 <= i < libs.len() implies lib_named(libs, (#[trigger] libs[i]).0@)
        == Some(libs[i].1) by {
        assert forall|j: int| 0 <= j < i implies (#[trigger] libs[j]).0@ != libs[i].0@ by {
            assert(keyed(libs)[j].0 != keyed(libs)[i].0);
        }
        lib_index_is(libs, libs[i].0@, 0, i);
    }
    assert forall|name: Seq<char>|
        (forall|i: int| 0 <= i < libs.len() ==> (#[trigger] libs[i]).0@ != name)
            implies #[trigger] lib_named(libs, name) is None by {
        lib_index_is(libs, name, 0, libs.len() as int);
    }
}

/// A bare name that is no library is left to the importing file's directory: nothing
/// about libraries changes an ordinary import.
pub proof fn unregistered_names_are_relative<F: Fn(&str) -> bool>(
    on_disk: F,
    libs: Seq<(String, LibraryEntry)>,
    import_path: Seq<char>,
    root: Seq<char>,
    r: Result<Option<ResolvedLib>, String>,
)
    requires
        lib_named(libs, lib_and_module(import_path).0) is None,
        library_result(on_disk, libs, import_path, root, r),
    ensures
        r == Ok::<Option<ResolvedLib>, String>(None),
{
}

/// A relative library directory is anchored at the project root, not at the importing
/// file: the same import means the same file everywhere.
pub proof fn libraries_are_anchored(e: LibraryEntry, root: Seq<char>)
    ensures
        rooted(e.path@) ==> lib_base(e, root) == e.path@,
        rooted(root) ==> rooted(lib_base(e, root)),
{
}

/// The first separator of a path whose library has none is the one behind it.
proof fn first_slash_is(p: Seq<char>, i: int, k: int)
    requires
        0 <= i <= k <= p.len(),
        forall|j: int| i <= j < k ==> p[j] != '/',
        k < p.len() ==> p[k] == '/',
    ensures
        first_slash(p, i) == k,
    decreases k - i,
{
    if i < k {
        first_slash_is(p, i + 1, k);
    }
}

/// The library is what stands before the first separator, and the module all that stands
/// behind it, subdirectories included, without a recognized extension. A path without a
/// separator is both.
pub proof fn libraries_come_before_the_first_separator(lib: Seq<char>, module: Seq<char>)
    requires
        !lib.contains('/'),
    ensures
        lib_and_module(lib + "/"@ + module) == (lib, lib_ext(module).0),
        lib_and_module(lib) == (lib, lib_ext(lib).0),
{
    reveal_strlit("/");
    let p = lib + "/"@ + module;
    let n = lib.len() as int;
    assert forall|j: int| 0 <= j < n implies p[j] != '/' by {
        assert(p[j] == lib[j]);
        assert(lib.contains(lib[j]));
    }
    assert forall|j: int| 0 <= j < n implies lib[j] != '/' by {
        assert(lib.contains(lib[j]));
    }
    first_slash_is(p, 0, n);
    first_slash_is(lib, 0, n);
    assert(p.take(n) =~= lib);
    assert(p.skip(n + 1) =~= module);
}

/// A module of a library without a list of files is looked for under the library's own
/// directory, with its whole subpath: what is found is a candidate there and nowhere else.
pub proof fn modules_are_found_under_their_library<F: Fn(&str) -> bool>(
    on_disk: F,
    libs: Seq<(String, LibraryEntry)>,
    k: int,
    module: Seq<char>,
    root: Seq<char>,
    r: Result<Option<ResolvedLib>, String>,
)
    requires
        distinct_keys(keyed(libs)),
        0 <= k < libs.len(),
        !libs[k].0@.contains('/'),
        libs[k].1.files is None,
        library_result(on_disk, libs, libs[k].0@ + "/"@ + module, root, r),
    ensures
        r matches Ok(Some(x)) && {
            let stem = pushed(pushed(root, libs[k].1.path@), lib_ext(module).0);
            ||| x.path@ == stem + ".jde"@ && x.kind == ImportKind::Jade
            ||| x.path@ == stem + ".dylib"@ && x.kind == ImportKind::Native && says(
                on_disk,
                stem + ".jde"@,
                false,
            )
            ||| x.path@ == stem + ".so"@ && x.kind == ImportKind::Native && says(
                on_disk,
                stem + ".jde"@,
                false,
            )
            ||| x.path@ == stem + ".dll"@ && x.kind == ImportKind::Native && says(
                on_disk,
                stem + ".jde"@,
                false,
            )
        },
{
    libraries_come_before_the_first_separator(libs[k].0@, module);
    libraries_are_found_by_name(libs);
    assert(lib_named(libs, libs[k].0@) == Some(libs[k].1));
}

/// Probing finds the first file there is, in this order: a source module, `.dylib`, `.so`,
/// `.dll`; and names the source module when there is none.
pub proof fn probing_finds_the_first<F: Fn(&str) -> bool>(
    on_disk: F,
    stem: Seq<char>,
    path: Seq<char>,
    kind: ImportKind,
)
    requires
        probed(on_disk, stem, path, kind),
        forall|p: Seq<char>| !(#[trigger] says(on_disk, p, true) && says(on_disk, p, false)),
    ensures
        ({
            let jde = says(on_disk, stem + ".jde"@, true);
            let dylib = says(on_disk, stem + ".dylib"@, true);
            let so = says(on_disk, stem + ".so"@, true);
            let dll = says(on_disk, stem + ".dll"@, true);
            &&& jde ==> path == stem + ".jde"@
            &&& !jde && dylib ==> path == stem + ".dylib"@
            &&& !jde && !dylib && so ==> path == stem + ".so"@
            &&& !jde && !dylib && !so && dll ==> path == stem + ".dll"@
            &&& !jde && !dylib && !so && !dll ==> path == stem + ".jde"@
            &&& kind == ImportKind::Jade <==> path == stem + ".jde"@
        }),
{
    reveal_strlit(".jde");
    reveal_strlit(".dylib");
    reveal_strlit(".so");
    reveal_strlit(".dll");
    let a = choose|a: Answers| #[trigger]
        answered(on_disk, stem, a) && (path, kind) == picked(stem, a);
    let n = stem.len() as int;
    assert((stem + ".jde"@)[n + 1] == 'j');
    assert((stem + ".dll"@)[n + 1] == 'd');
    assert((stem + ".dll"@).len() == n + 4);
    assert((stem + ".jde"@).len() == n + 4);
    assert((stem + ".so"@).len() == n + 3);
    assert((stem + ".dylib"@).len() == n + 6);
}

/// A recognized extension is split off with its dot: stem, dot and extension are the
/// name again. A name without one stays whole.
pub proof fn extensions_split_off_whole(name: Seq<char>, stem: Seq<char>)
    ensures
        lib_ext(stem + ".jde"@) == (stem, "jde"@),
        lib_ext(stem + ".dylib"@) == (stem, "dylib"@),
        lib_ext(stem + ".so"@) == (stem, "so"@),
        lib_ext(stem + ".dll"@) == (stem, "dll"@),
        (forall|t: Seq<char>| name != #[trigger] (t + ".jde"@)) && (forall|t: Seq<char>|
            name != #[trigger] (t + ".dylib"@)) && (forall|t: Seq<char>|
            name != #[trigger] (t + ".so"@)) && (forall|t: Seq<char>|
            name != #[trigger] (t + ".dll"@)) ==> lib_ext(name) == (name, ""@),
{
    reveal_strlit(".jde");
    reveal_strlit(".dylib");
    reveal_strlit(".so");
    reveal_strlit(".dll");
    let n = stem.len() as int;
    assert((stem + ".jde"@).take(n) =~= stem);
    assert((stem + ".dylib"@).take(n) =~= stem);
    assert((stem + ".so"@).take(n) =~= stem);
    assert((stem + ".dll"@).take(n) =~= stem);
    ends_when_behind(stem, ".jde"@);
    ends_when_behind(stem, ".dylib"@);
    ends_when_behind(stem, ".so"@);
    ends_when_behind(stem, ".dll"@);
    last_differs(stem + ".dylib"@, ".jde"@);
    last_differs(stem + ".so"@, ".jde"@);
    last_differs(stem + ".so"@, ".dylib"@);
    last_differs(stem + ".dll"@, ".jde"@);
    last_differs(stem + ".dll"@, ".dylib"@);
    last_differs(stem + ".dll"@, ".so"@);
    behind_when_ends(name, ".jde"@);
    behind_when_ends(name, ".dylib"@);
    behind_when_ends(name, ".so"@);
    behind_when_ends(name, ".dll"@);
}

/// A text with a suffix behind it ends with the suffix.
proof fn ends_when_behind(stem: Seq<char>, suffix: Seq<char>)
    ensures
        ends_with_seq(stem + suffix, suffix),
{
    assert((stem + suffix).skip(stem.len() as int) =~= suffix);
    assert((stem + suffix).subrange(stem.len() as int, (stem + suffix).len() as int) =~= suffix);
}

/// A text that ends with a suffix is some text with the suffix behind it.
proof fn behind_when_ends(name: Seq<char>, suffix: Seq<char>)
    ensures
        ends_with_seq(name, suffix) ==> name == name.take(name.len() - suffix.len()) + suffix,
{
    if ends_with_seq(name, suffix) {
        assert(name =~= name.take(name.len() - suffix.len()) + suffix);
    }
}

/// A text with another last character does not end with the suffix.
proof fn last_differs(name: Seq<char>, suffix: Seq<char>)
    requires
        name.len() > 0,
        suffix.len() > 0,
        name.last() != suffix.last(),
    ensures
        !ends_with_seq(name, suffix),
{
    if ends_with_seq(name, suffix) {
        behind_when_ends(name, suffix);
        let t = name.take(name.len() - suffix.len()) + suffix;
        assert(t.last() == suffix.last());
    }
}

/// What an extension stands for: `jde` a source module, `dylib`, `so` and `dll` a native
/// library, and anything else nothing.
pub proof fn extensions_have_kinds(ext: Seq<char>)
    ensures
        ext_kind("jde"@) == Some(ImportKind::Jade),
        ext_kind("dylib"@) == Some(ImportKind::Native),
        ext_kind("so"@) == Some(ImportKind::Native),
        ext_kind("dll"@) == Some(ImportKind::Native),
        ext_kind(ext) is Some ==> ext == "jde"@ || ext == "dylib"@ || ext == "so"@ || ext == "dll"@,
{
    reveal_strlit("jde");
    reveal_strlit("dylib");
    reveal_strlit("so");
    reveal_strlit("dll");
    assert("jde"@[0] != "dll"@[0]);
    assert("jde"@.len() != "dylib"@.len());
    assert("jde"@.len() != "so"@.len());
}

/// A listed module is the first file of the list with its name, under the library's
/// directory, of the kind its extension says.
pub proof fn listed_modules_are_found(
    lib: Seq<char>,
    base: Seq<char>,
    files: Seq<Seq<char>>,
    module: Seq<char>,
    k: int,
)
    requires
        0 <= k <= files.len(),
        k < files.len() ==> lib_ext(files[k]).0 == module,
        forall|j: int| 0 <= j < k ==> lib_ext(#[trigger] files[j]).0 != module,
    ensures
        k < files.len() ==> (match ext_kind(lib_ext(files[k]).1) {
            Some(kind) => listed_module(lib, base, files, module) == Ok::<
                (Seq<char>, ImportKind),
                Seq<char>,
            >((pushed(base, files[k]), kind)),
            None => listed_module(lib, base, files, module) is Err,
        }),
        k == files.len() ==> listed_module(lib, base, files, module) is Err,
{
    file_index_is(files, module, 0, k);
}

/// The search for a file ends at the first with the name.
proof fn file_index_is(files: Seq<Seq<char>>, module: Seq<char>, i: int, k: int)
    requires
        0 <= i <= k <= files.len(),
        k < files.len() ==> lib_ext(files[k]).0 == module,
        forall|j: int| 0 <= j < k ==> lib_ext(#[trigger] files[j]).0 != module,
    ensures
        file_index(files, module, i) == k,
    decreases k - i,
{
    if i < k {
        assert(lib_ext(files[i]).0 != module);
        file_index_is(files, module, i + 1, k);
    }
}

/// An import is ambiguous exactly where it is a bare name of a library and a source module
/// of that name lies beside the importing file.
pub proof fn bare_names_beside_a_file_are_ambiguous<F: Fn(&str) -> bool>(
    on_disk: F,
    libs: Seq<(String, LibraryEntry)>,
    name: Seq<char>,
    dir: Seq<char>,
    r: Option<Seq<char>>,
)
    requires
        ambiguity_result(on_disk, libs, name, dir, r),
    ensures
        r is Some ==> !name.contains('/') && lib_named(libs, name) is Some && says(
            on_disk,
            pushed(dir, name) + ".jde"@,
            true,
        ),
        r is None && !name.contains('/') && lib_named(libs, name) is Some ==> says(
            on_disk,
            pushed(dir, name) + ".jde"@,
            false,
        ),
{
}

} // verus!
