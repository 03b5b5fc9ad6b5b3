//! Manifests, library imports, root and test-file discovery, and the import walk.

use std::collections::BTreeMap;

use jade_runtime::project::dependency::{Abi, CFailure, CSymbol, DependencyEntry};
use jade_runtime::project::discover::{find_project_root_from, find_test_files, probe_of, Entry, Probe};
use jade_runtime::project::imports::{
    program_import_paths, resolve_import, ImportContext, ImportTarget, Loaded, Program, Progress,
    Span, Stmt, Walk, WalkError,
};
use jade_runtime::project::library::{
    ambiguous_bare_import, kind_for_ext, resolve_library_import, resolve_relative_import,
    split_lib_ext, ImportKind, LibraryEntry,
};
use jade_runtime::project::package::PackageSection;
use jade_runtime::project::reach::{reachable_jade_modules, walk_imports};
use jade_runtime::project::{load_project, read_outcome, ManifestError, ProjectManifest, ProjectSection};

// ── Manifests from text ───────────────────────────────────────────────────────

fn text(t: &toml::Table, key: &str) -> Option<String> {
    t.get(key).and_then(|v| v.as_str()).map(|s| s.to_string())
}

fn list(t: &toml::Table, key: &str) -> Option<Vec<String>> {
    t.get(key).and_then(|v| v.as_array()).map(|a| {
        a.iter().map(|v| v.as_str().expect("a text").to_string()).collect()
    })
}

fn table<'a>(t: &'a toml::Table, key: &str) -> Option<&'a toml::Table> {
    t.get(key).and_then(|v| v.as_table())
}

fn dep_of(t: &toml::Table) -> DependencyEntry {
    DependencyEntry {
        version: text(t, "version"),
        path: text(t, "path"),
        url: text(t, "url"),
        abi: if text(t, "abi").as_deref() == Some("c") { Abi::C } else { Abi::Jade },
        symbols: table(t, "symbols").map(|s| {
            s.iter()
                .map(|(name, v)| {
                    let f = v.as_table().expect("a symbol table");
                    (
                        name.clone(),
                        CSymbol {
                            args: list(f, "args").unwrap_or_default(),
                            ret: text(f, "ret").expect("a result type"),
                            fails_when: None,
                            frees_with: text(f, "frees_with"),
                        },
                    )
                })
                .collect()
        }),
        structs: None,
        headers: list(t, "headers"),
        include_dirs: list(t, "include_dirs"),
        defines: list(t, "defines"),
    }
}

fn try_parse(src: &str) -> Result<ProjectManifest, String> {
    let t = toml::from_str::<toml::Table>(src).map_err(|e| e.to_string())?;
    let project = match table(&t, "project") {
        Some(p) => Some(ProjectSection {
            name: text(p, "name").ok_or_else(|| "missing field `name`".to_string())?,
            version: text(p, "version"),
            entry: text(p, "entry"),
        }),
        None => None,
    };
    Ok(ProjectManifest {
        project,
        scripts: table(&t, "scripts").map(|s| {
            s.iter().map(|(k, v)| (k.clone(), v.as_str().expect("a text").to_string())).collect()
        }),
        dependencies: table(&t, "dependencies").map(|d| {
            d.iter().map(|(k, v)| (k.clone(), dep_of(v.as_table().expect("a table")))).collect()
        }),
        lib: table(&t, "lib").map(|l| {
            l.iter()
                .map(|(k, v)| {
                    let e = v.as_table().expect("a table");
                    (
                        k.clone(),
                        LibraryEntry {
                            path: text(e, "path").expect("a path"),
                            files: list(e, "files"),
                        },
                    )
                })
                .collect()
        }),
        package: table(&t, "package").map(|p| PackageSection {
            name: text(p, "name").expect("a name"),
            version: text(p, "version"),
            entry: text(p, "entry"),
            sources: list(p, "sources"),
            exports: list(p, "exports"),
        }),
    })
}

fn parse(src: &str) -> ProjectManifest {
    try_parse(src).expect("valid toml")
}

fn get<'a, T>(v: &'a [(String, T)], key: &str) -> Option<&'a T> {
    v.iter().find(|e| e.0 == key).map(|e| &e.1)
}

#[test]
fn parse_full_manifest() {
    let m = parse(
        r#"
        [project]
        name = "demo"
        version = "0.2.0"
        entry = "app.jde"

        [scripts]
        build = "jade build main.jde"
        test = "jade test"
        "#,
    );
    assert!(m.is_project());
    let p = m.project.as_ref().unwrap();
    assert_eq!(p.name, "demo");
    assert_eq!(p.version.as_deref(), Some("0.2.0"));
    assert_eq!(m.entry_file(), "app.jde");
    let scripts = m.scripts.as_ref().unwrap();
    assert_eq!(get(scripts, "build").map(String::as_str), Some("jade build main.jde"));
    assert_eq!(get(scripts, "test").map(String::as_str), Some("jade test"));
}

#[test]
fn parse_partial_manifest_defaults_entry() {
    let m = parse(
        r#"
        [project]
        name = "minimal"
        "#,
    );
    assert!(m.is_project());
    assert_eq!(m.project.as_ref().unwrap().name, "minimal");
    assert!(m.project.as_ref().unwrap().version.is_none());
    assert_eq!(m.entry_file(), "main.jde");
    assert!(m.scripts.is_none());
}

#[test]
fn empty_manifest_is_not_a_project() {
    let m = parse("");
    assert!(!m.is_project());
    assert_eq!(m.entry_file(), "main.jde");
}

#[test]
fn manifest_without_project_section_is_not_project() {
    let m = parse(
        r#"
        [scripts]
        run = "echo hi"
        "#,
    );
    assert!(!m.is_project());
    assert!(m.scripts.is_some());
}

#[test]
fn malformed_manifest_fails_to_parse() {
    let err = try_parse(
        r#"
        [project]
        version = "1.0"
        "#,
    );
    assert!(err.is_err(), "manifest without project.name must fail");
    let broken = try_parse("[project\nname = ");
    assert!(broken.is_err());
}

#[test]
fn parse_lib_section() {
    let m = parse(
        r#"
        [project]
        name = "libdemo"

        [lib.utils]
        path = "src/utils"
        files = ["math.jde", "fast.dylib"]
        "#,
    );
    let libs = m.lib.as_ref().unwrap();
    let utils = get(libs, "utils").unwrap();
    assert_eq!(utils.path, "src/utils");
    assert_eq!(
        utils.files.as_ref().unwrap(),
        &vec!["math.jde".to_string(), "fast.dylib".to_string()]
    );
}

// ── Extensions ────────────────────────────────────────────────────────────────

#[test]
fn split_lib_ext_recognizes_extensions() {
    assert_eq!(split_lib_ext("math.jde"), ("math", "jde"));
    assert_eq!(split_lib_ext("fast.dylib"), ("fast", "dylib"));
    assert_eq!(split_lib_ext("a.so"), ("a", "so"));
    assert_eq!(split_lib_ext("b.dll"), ("b", "dll"));
    assert_eq!(split_lib_ext("nested/mod.jde"), ("nested/mod", "jde"));
    assert_eq!(split_lib_ext("plain.txt"), ("plain.txt", ""));
    assert_eq!(split_lib_ext("noext"), ("noext", ""));
}

#[test]
fn kind_for_ext_maps_extensions() {
    assert_eq!(kind_for_ext("jde"), Some(ImportKind::Jade));
    assert_eq!(kind_for_ext("dylib"), Some(ImportKind::Native));
    assert_eq!(kind_for_ext("so"), Some(ImportKind::Native));
    assert_eq!(kind_for_ext("dll"), Some(ImportKind::Native));
    assert_eq!(kind_for_ext("txt"), None);
}

// ── Library imports ───────────────────────────────────────────────────────────

fn libs_with(name: &str, entry: LibraryEntry) -> Vec<(String, LibraryEntry)> {
    vec![(name.to_string(), entry)]
}

fn nothing(_: &str) -> bool {
    false
}

#[test]
fn resolve_import_not_a_library_reference() {
    let libs = libs_with("utils", LibraryEntry { path: "src".into(), files: None });
    assert!(matches!(resolve_library_import(&libs, "plainimport", "/root", &nothing), Ok(None)));
    assert!(matches!(resolve_library_import(&libs, "other/mod", "/root", &nothing), Ok(None)));
}

#[test]
fn resolve_import_with_allowlist_hit() {
    let libs = libs_with(
        "utils",
        LibraryEntry { path: "src/utils".into(), files: Some(vec!["math.jde".into()]) },
    );
    let resolved =
        resolve_library_import(&libs, "utils/math", "/root", &nothing).unwrap().unwrap();
    assert_eq!(resolved.kind, ImportKind::Jade);
    assert_eq!(resolved.path, "/root/src/utils/math.jde");
}

#[test]
fn resolve_import_with_allowlist_native() {
    let libs = libs_with(
        "utils",
        LibraryEntry { path: "src/utils".into(), files: Some(vec!["fast.dylib".into()]) },
    );
    let resolved =
        resolve_library_import(&libs, "utils/fast", "/root", &nothing).unwrap().unwrap();
    assert_eq!(resolved.kind, ImportKind::Native);
    assert_eq!(resolved.path, "/root/src/utils/fast.dylib");
}

#[test]
fn resolve_import_allowlist_miss_is_err() {
    let libs = libs_with(
        "utils",
        LibraryEntry { path: "src/utils".into(), files: Some(vec!["math.jde".into()]) },
    );
    let err = resolve_library_import(&libs, "utils/missing", "/root", &nothing);
    assert!(err.is_err());
    assert!(err.unwrap_err().contains("not registered"));
}

#[test]
fn resolve_import_absolute_lib_path() {
    let libs = libs_with(
        "utils",
        LibraryEntry { path: "/abs/utils".into(), files: Some(vec!["m.jde".into()]) },
    );
    let resolved = resolve_library_import(&libs, "utils/m", "/root", &nothing).unwrap().unwrap();
    assert_eq!(resolved.path, "/abs/utils/m.jde");
}

#[test]
fn resolve_import_no_allowlist_probes_disk() {
    let libs = libs_with("mylib", LibraryEntry { path: "mylib".into(), files: None });
    let disk = |p: &str| p == "/tmp/libprobe/mylib/thing.jde";
    let resolved =
        resolve_library_import(&libs, "mylib/thing", "/tmp/libprobe", &disk).unwrap().unwrap();
    assert_eq!(resolved.kind, ImportKind::Jade);
    assert_eq!(resolved.path, "/tmp/libprobe/mylib/thing.jde");
}

#[test]
fn resolve_import_no_allowlist_missing_returns_jde_candidate() {
    let libs = libs_with("mylib", LibraryEntry { path: "mylib".into(), files: None });
    let resolved =
        resolve_library_import(&libs, "mylib/ghost", "/tmp/libmiss", &nothing).unwrap().unwrap();
    assert_eq!(resolved.kind, ImportKind::Jade);
    assert!(resolved.path.ends_with("ghost.jde"));
}

#[test]
fn bare_import_resolves_registered_library() {
    let libs = libs_with(
        "fastmath",
        LibraryEntry {
            path: "libs/fastmath-1.0.0".into(),
            files: Some(vec!["fastmath.so".into()]),
        },
    );
    let resolved = resolve_library_import(&libs, "fastmath", "/root", &nothing).unwrap().unwrap();
    assert_eq!(resolved.kind, ImportKind::Native);
    assert_eq!(resolved.path, "/root/libs/fastmath-1.0.0/fastmath.so");
}

#[test]
fn bare_import_still_honours_the_allowlist() {
    let libs = libs_with(
        "fastmath",
        LibraryEntry { path: "libs".into(), files: Some(vec!["other.so".into()]) },
    );
    let err = resolve_library_import(&libs, "fastmath", "/root", &nothing).unwrap_err();
    assert!(err.contains("fastmath"), "error should name the module: {err}");
}

#[test]
fn slashed_imports_are_unaffected_by_bare_name_support() {
    let libs = libs_with(
        "utils",
        LibraryEntry { path: "src/utils".into(), files: Some(vec!["math.jde".into()]) },
    );
    let resolved =
        resolve_library_import(&libs, "utils/math", "/root", &nothing).unwrap().unwrap();
    assert_eq!(resolved.path, "/root/src/utils/math.jde");
}

#[test]
fn relative_imports_prefer_the_source_file() {
    let both = |p: &str| p == "/w/mod.jde" || p == "/w/mod.so";
    let r = resolve_relative_import("/w", "mod", &both);
    assert_eq!(r.kind, ImportKind::Jade);
    assert_eq!(r.path, "/w/mod.jde");
    let native = |p: &str| p == "/w/mod.so";
    let r = resolve_relative_import("/w", "mod", &native);
    assert_eq!(r.kind, ImportKind::Native);
    assert_eq!(r.path, "/w/mod.so");
}

#[test]
fn a_bare_name_that_is_a_library_and_a_file_is_ambiguous() {
    let libs = libs_with(
        "fastmath",
        LibraryEntry { path: "libs".into(), files: Some(vec!["fastmath.so".into()]) },
    );
    let sibling = |p: &str| p == "/w/fastmath.jde";
    let said = ambiguous_bare_import("fastmath", &libs, "/w", &sibling).expect("ambiguous");
    assert!(said.contains("fastmath"), "{said}");
    assert!(ambiguous_bare_import("fastmath", &libs, "/w", &nothing).is_none());
    assert!(ambiguous_bare_import("other", &libs, "/w", &sibling).is_none());
}

// ── Root discovery ────────────────────────────────────────────────────────────

/// Reads manifests from an in-memory disk.
fn reader<'a>(
    disk: &'a [(&'a str, &'a str)],
) -> impl Fn(&str) -> Result<Result<ProjectManifest, String>, (bool, String)> + 'a {
    move |path: &str| match disk.iter().find(|e| e.0 == path) {
        Some(e) => Ok(try_parse(e.1)),
        None => Err((true, "no such file".to_string())),
    }
}

#[test]
fn find_project_root_from_walks_up() {
    let read = reader(&[("/t/root/jade.toml", "[project]\nname = \"rooted\"\n")]);
    let found =
        find_project_root_from("/t/root/a/b/c", &read).expect("should find root by walking up");
    assert_eq!(found, "/t/root");
}

#[test]
fn find_project_root_from_ignores_non_project_toml() {
    let read = reader(&[("/t/nonproject/jade.toml", "[scripts]\nx = \"y\"\n")]);
    let found = find_project_root_from("/t/nonproject", &read);
    assert!(found.is_none(), "toml without [project] must not anchor a root");
}

#[test]
fn find_project_root_from_none_when_absent() {
    let found = find_project_root_from("/t/noroot/x/y", &reader(&[]));
    assert!(found.is_none());
}

#[test]
fn a_broken_manifest_stops_the_search() {
    let read = reader(&[
        ("/t/jade.toml", "[project]\nname = \"outer\"\n"),
        ("/t/a/jade.toml", "[project\nname ="),
    ]);
    let root = find_project_root_from("/t/a/b", &read).expect("stops at the broken manifest");
    assert_eq!(root, "/t/a");
    let err = load_project(&root, &read).expect_err("it cannot be read");
    assert!(err.is_present(), "a root that was found is never missing");
}

#[test]
fn a_load_tells_what_a_directory_holds() {
    let read = reader(&[
        ("/p/jade.toml", "[project]\nname = \"p\"\n"),
        ("/o/jade.toml", "[scripts]\nx = \"y\"\n"),
        ("/b/jade.toml", "[project\n"),
    ]);
    assert_eq!(probe_of(&load_project("/p", &read)), Probe::Project);
    assert_eq!(probe_of(&load_project("/o", &read)), Probe::Other);
    assert_eq!(probe_of(&load_project("/b", &read)), Probe::Broken);
    assert_eq!(probe_of(&load_project("/m", &read)), Probe::Missing);
    let denied = |_: &str| Err((false, "permission denied".to_string()));
    assert_eq!(probe_of(&load_project("/p", &denied)), Probe::Broken);
}

// ── Loading ───────────────────────────────────────────────────────────────────

#[test]
fn load_project_reads_manifest() {
    let read = |path: &str| {
        assert_eq!(path, "/p/jade.toml");
        Ok(try_parse("[project]\nname = \"loaded\"\nversion = \"9.9.9\"\n"))
    };
    let m = load_project("/p", &read).expect("load ok");
    assert_eq!(m.project.unwrap().name, "loaded");
}

#[test]
fn load_project_missing_file_errors() {
    let err = load_project("/p", &|_: &str| Err((true, "no such file".to_string())))
        .expect_err("no manifest to load");
    assert!(matches!(err, ManifestError::Missing(_)), "should be Missing: {}", err.text());
    assert!(!err.is_present());
    assert_eq!(err.text(), "no jade.toml at /p/jade.toml");
}

#[test]
fn load_project_invalid_toml_errors() {
    let err = load_project("/p", &|_: &str| Ok(try_parse("[project\nname =")))
        .expect_err("the manifest is not valid TOML");
    assert!(matches!(err, ManifestError::Malformed(..)), "should be Malformed: {}", err.text());
    assert!(err.is_present());
    let msg = err.text();
    assert!(msg.contains("is not valid TOML"), "should name the fault: {msg}");
}

#[test]
fn an_unreadable_manifest_is_present_and_named() {
    let err = read_outcome("/p/jade.toml".to_string(), Err((false, "denied".to_string())))
        .expect_err("unreadable");
    assert!(err.is_present());
    assert_eq!(err.text(), "cannot read /p/jade.toml: denied");
}

// ── Test files ────────────────────────────────────────────────────────────────

fn file(name: &str) -> Entry {
    Entry::File(name.to_string())
}

fn dir(name: &str, entries: Vec<Entry>) -> Entry {
    Entry::Dir(name.to_string(), entries)
}

#[test]
fn find_test_files_matches_conventions() {
    let tree = vec![
        file("test_alpha.jde"),
        dir("sub", vec![file("beta_test.jde")]),
        file("regular.jde"),
        file("notes.txt"),
    ];
    let found = find_test_files("/r", &tree, None);
    let names: Vec<String> =
        found.iter().map(|p| p.rsplit('/').next().unwrap().to_string()).collect();
    assert!(names.contains(&"test_alpha.jde".to_string()));
    assert!(names.contains(&"beta_test.jde".to_string()));
    assert!(!names.contains(&"regular.jde".to_string()));
    assert!(!names.contains(&"notes.txt".to_string()));
    assert_eq!(found.len(), 2);
    let mut sorted = found.clone();
    sorted.sort();
    assert_eq!(found, sorted);
}

#[test]
fn find_test_files_pattern_filters_by_stem() {
    let tree = vec![file("test_math.jde"), file("test_string.jde")];
    let found = find_test_files("/r", &tree, Some("math"));
    assert_eq!(found.len(), 1);
    assert!(found[0].contains("math"));
}

#[test]
fn find_test_files_skips_target_and_hidden_dirs() {
    let tree = vec![
        dir("target", vec![file("test_skip.jde")]),
        dir(".hidden", vec![file("test_skip.jde")]),
        dir("docs", vec![file("test_skip.jde")]),
        file("test_keep.jde"),
    ];
    let found = find_test_files("/r", &tree, None);
    assert_eq!(found.len(), 1);
    assert!(found[0].ends_with("test_keep.jde"));
}

// ── Dependencies ──────────────────────────────────────────────────────────────

#[test]
fn parse_dependencies_section() {
    let m = parse(
        r#"
        [project]
        name = "app"

        [dependencies.fastmath]
        version = "1.2.0"
        url = "https://example.com/fastmath-{platform}.so"

        [dependencies.zlib]
        version = "1.3.1"
        path = "vendor/libz.so"
        abi = "c"

        [dependencies.zlib.symbols.crc32]
        args = ["int", "str"]
        ret = "int"
        "#,
    );
    let deps = m.dependencies.expect("dependencies parsed");
    assert_eq!(deps.len(), 2);

    let fastmath = get(&deps, "fastmath").unwrap();
    assert_eq!(fastmath.abi, Abi::Jade, "abi defaults to jade");
    assert!(fastmath.is_platform_template());
    assert!(fastmath.validate("fastmath").is_ok());

    let zlib = get(&deps, "zlib").unwrap();
    assert_eq!(zlib.abi, Abi::C);
    assert!(!zlib.is_platform_template());
    assert_eq!(get(zlib.symbols.as_ref().unwrap(), "crc32").unwrap().ret, "int");
    assert!(zlib.validate("zlib").is_ok());
}

#[test]
fn manifest_without_dependencies_still_parses() {
    let m = parse("[project]\nname = \"app\"\n");
    assert!(m.dependencies.is_none());
}

fn dep(toml_src: &str) -> DependencyEntry {
    dep_of(&toml::from_str::<toml::Table>(toml_src).expect("valid dependency toml"))
}

#[test]
fn validate_rejects_both_path_and_url() {
    let d = dep("version = \"1.0.0\"\npath = \"a.so\"\nurl = \"https://x/a.so\"\n");
    let err = d.validate("dup").unwrap_err();
    assert!(err.contains("dup"), "error should name the dependency: {err}");
    assert!(err.contains("exactly one source"), "unexpected message: {err}");
}

#[test]
fn validate_rejects_no_source() {
    let err = dep("version = \"1.0.0\"\n").validate("orphan").unwrap_err();
    assert!(err.contains("orphan"));
    assert!(err.contains("'path' or 'url'"), "unexpected message: {err}");
}

#[test]
fn validate_rejects_url_without_version() {
    let err = dep("url = \"https://x/a.so\"\n").validate("unpinned").unwrap_err();
    assert!(err.contains("unpinned"));
    assert!(err.contains("version"), "unexpected message: {err}");
}

#[test]
fn validate_allows_path_without_version() {
    assert!(dep("path = \"vendor/a.so\"\n").validate("local").is_ok());
}

#[test]
fn validate_rejects_version_ranges() {
    for range in ["^1.2", "~1.2.0", "1.*", ">=1.0", "1.0, <2.0"] {
        let d = dep(&format!("version = \"{range}\"\nurl = \"https://x/a.so\"\n"));
        let err = d.validate("ranged").expect_err(&format!("range {range:?} should be rejected"));
        assert!(err.contains("ranges are not supported"), "unexpected message: {err}");
        assert!(err.contains("ranged"), "error should name the dependency: {err}");
    }
}

#[test]
fn validate_accepts_an_exact_version() {
    assert!(dep("version = \"1.2.0\"\nurl = \"https://x/a.so\"\n").validate("ok").is_ok());
}

#[test]
fn validate_rejects_empty_version() {
    let err = dep("version = \"\"\nurl = \"https://x/a.so\"\n").validate("blank").unwrap_err();
    assert!(err.contains("empty"), "unexpected message: {err}");
}

#[test]
fn validate_rejects_c_abi_without_symbols() {
    let d = dep("version = \"1.0.0\"\npath = \"libz.so\"\nabi = \"c\"\n");
    let err = d.validate("zlib").unwrap_err();
    assert!(err.contains("zlib"));
    assert!(err.contains("symbols"), "unexpected message: {err}");
}

#[test]
fn validate_rejects_symbols_without_c_abi() {
    let d = dep("version = \"1.0.0\"\npath = \"a.so\"\n[symbols.foo]\nargs = []\nret = \"int\"\n");
    let err = d.validate("mismatch").unwrap_err();
    assert!(err.contains("abi = \"c\""), "unexpected message: {err}");
}

#[test]
fn an_unresolved_symbol_is_written_as_a_question_mark() {
    let s = CSymbol::from_text("?").expect("the marker");
    assert!(s.is_unresolved());
    assert!(CSymbol::from_text("int").is_err());
    assert_eq!(CFailure::Null.as_str(), "null");
    assert_eq!(Abi::C.as_str(), "c");
    let mut d = dep("version = \"1.0.0\"\npath = \"a.so\"\nabi = \"c\"\n");
    d.symbols = Some(vec![("open".to_string(), s)]);
    assert_eq!(d.unresolved_symbols(), vec!["open".to_string()]);
}

#[test]
fn unresolved_symbols_ascend_and_none_comes_twice() {
    let known = CSymbol {
        args: vec!["int".to_string()],
        ret: "int".to_string(),
        fails_when: None,
        frees_with: None,
    };
    let d = DependencyEntry {
        symbols: Some(vec![
            ("z".to_string(), CSymbol::unresolved()),
            ("k".to_string(), known),
            ("a".to_string(), CSymbol::unresolved()),
        ]),
        ..DependencyEntry::default()
    };
    assert_eq!(d.unresolved_symbols(), ["a", "z"]);
}

// ── Import walk ───────────────────────────────────────────────────────────────

fn at(path: &str) -> (String, Span) {
    (path.to_string(), Span { start: 0, end: path.len() })
}

/// The imports of a source that holds nothing but `use` lines and others.
fn paths_of(source: &str) -> Vec<(String, Span)> {
    let mut stmts = Vec::new();
    for line in source.lines() {
        let words: Vec<&str> = line.split_whitespace().collect();
        let span = Span { start: 0, end: line.len() };
        if words.len() == 2 && words[0] == "use" {
            stmts.push(Stmt::Use { path: words[1].replace("::", "/"), span });
        } else if words.len() == 4 && words[0] == "from" && words[2] == "use" {
            stmts.push(Stmt::FromUse { path: words[1].replace("::", "/"), span });
        } else {
            stmts.push(Stmt::Other);
        }
    }
    program_import_paths(&Program { stmts })
}

/// A walk over an in-memory disk, whose directory is `/w`.
fn walk(paths: Vec<(String, Span)>, disk: &[(&str, &str)]) -> Result<Vec<String>, WalkError> {
    let files: BTreeMap<String, String> =
        disk.iter().map(|(p, s)| (format!("/w/{p}"), s.to_string())).collect();
    let builtin = |p: &str| p == "std/math";
    let on_disk = |p: &str| files.contains_key(p);
    let canonical = |p: &str| if files.contains_key(p) { Some(p.to_string()) } else { None };
    let load = |p: &str| match files.get(p) {
        Some(s) => Loaded::Imports(paths_of(s)),
        None => Loaded::Unreadable,
    };
    let ctx =
        ImportContext { libraries: &[], project_root: None, source_dir: "/w".to_string() };
    let all = walk_imports(&paths, &ctx, &builtin, &on_disk, &canonical, &load);
    let r = reachable_jade_modules(&paths, &ctx, &builtin, &on_disk, &canonical, &load);
    match (&all, &r) {
        (Ok(()), Ok(_)) => {}
        (Err(a), Err(b)) => assert_eq!(format!("{a:?}"), format!("{b:?}")),
        _ => panic!("walking and reaching disagree"),
    }
    r
}

fn not_found(r: Result<Vec<String>, WalkError>, name: &str) -> bool {
    match r {
        Err(WalkError::ImportNotFound { path, .. }) => path.contains(name),
        _ => false,
    }
}

#[test]
fn a_use_naming_nothing_is_rejected() {
    let err = walk(paths_of("use totally_made_up_module\n"), &[]).unwrap_err();
    let msg = err.text();
    assert!(msg.contains("cannot find import"), "unexpected message: {msg}");
    assert!(msg.contains("totally_made_up_module"), "message should name it: {msg}");
}

#[test]
fn a_use_naming_a_sibling_file_resolves() {
    assert!(walk(paths_of("use helper\n"), &[("helper.jde", "fn hi() { return 1 }\n")]).is_ok());
}

#[test]
fn a_builtin_package_resolves_without_touching_disk() {
    let libs: Vec<(String, LibraryEntry)> = Vec::new();
    let ctx = ImportContext {
        libraries: &libs,
        project_root: None,
        source_dir: "/w".to_string(),
    };
    assert_eq!(resolve_import(&ctx, "std/math", true, &nothing).unwrap(), ImportTarget::Builtin);
    assert!(walk(paths_of("use std::math\n"), &[]).is_ok());
}

#[test]
fn an_invented_std_package_is_rejected() {
    assert!(walk(paths_of("use std::totally_fake\n"), &[]).is_err());
}

#[test]
fn from_use_is_walked_too() {
    assert!(walk(paths_of("from nowhere use thing\n"), &[]).is_err());
}

#[test]
fn a_broken_import_one_level_down_is_found() {
    let r = walk(paths_of("use mid\n"), &[("mid.jde", "use also_missing\n")]);
    assert!(not_found(r, "also_missing"));
}

#[test]
fn the_first_broken_import_in_order_is_blamed() {
    let disk = [("mid.jde", "use deep_missing\n"), ("last.jde", "fn f() { return 1 }\n")];
    let r = walk(paths_of("use mid\nuse late_missing\n"), &disk);
    assert!(not_found(r, "deep_missing"), "a module's imports come before the importer's next");
    let r = walk(paths_of("use early_missing\nuse mid\n"), &disk);
    assert!(not_found(r, "early_missing"));
    let reached = walk(
        paths_of("use a\nuse c\n"),
        &[("a.jde", "use b\n"), ("b.jde", ""), ("c.jde", "")],
    );
    assert_eq!(reached.unwrap(), ["/w/a.jde", "/w/b.jde", "/w/c.jde"]);
}

#[test]
fn an_imported_module_resolves_against_its_own_directory() {
    let disk = [("sub/mid.jde", "use leaf\n"), ("sub/leaf.jde", "fn hi() { return 1 }\n")];
    assert!(walk(paths_of("use sub::mid\n"), &disk).is_ok());
}

#[test]
fn a_circular_import_terminates() {
    assert!(walk(paths_of("use a\n"), &[("a.jde", "use b\n"), ("b.jde", "use a\n")]).is_ok());
}

#[test]
fn a_native_module_is_checked_for_existence_but_not_loaded() {
    let libs: Vec<(String, LibraryEntry)> = Vec::new();
    let ctx = ImportContext {
        libraries: &libs,
        project_root: None,
        source_dir: "/w".to_string(),
    };
    let disk = |p: &str| p == "/w/fastmath.so";
    assert!(matches!(
        resolve_import(&ctx, "fastmath", false, &disk).unwrap(),
        ImportTarget::Native(_)
    ));
    assert!(walk(paths_of("use fastmath\n"), &[("fastmath.so", "")]).is_ok());
}

#[test]
fn reachable_modules_follows_imports_transitively() {
    let disk =
        [("entry.jde", "use mid\n"), ("mid.jde", "use leaf\n"), ("leaf.jde", "fn f() { return 1 }\n")];
    let reached = walk(paths_of("use mid\n"), &disk).unwrap();
    let names: Vec<&str> = reached.iter().map(|p| p.rsplit('/').next().unwrap()).collect();
    assert!(names.contains(&"mid.jde"), "a direct import: {names:?}");
    assert!(names.contains(&"leaf.jde"), "a transitive import: {names:?}");
    assert!(!names.contains(&"entry.jde"), "the root of the walk is not something it reached");
}

#[test]
fn reachable_modules_excludes_a_file_nothing_imports() {
    let disk = [("used.jde", "fn f() { return 1 }\n"), ("orphan.jde", "fn g() { return 2 }\n")];
    let reached = walk(paths_of("use used\n"), &disk).unwrap();
    assert_eq!(reached.len(), 1);
    assert!(reached[0].ends_with("used.jde"));
}

#[test]
fn reachable_modules_terminates_on_a_cycle() {
    let reached =
        walk(paths_of("use a\n"), &[("a.jde", "use b\n"), ("b.jde", "use a\n")]).unwrap();
    assert_eq!(reached.len(), 2, "both files, visited once each");
}

#[test]
fn a_module_that_does_not_parse_stops_the_walk() {
    let mut w = Walk::new(vec![at("bad")], "/w".to_string());
    let yes = |_: &str| true;
    let no = |_: &str| false;
    let same = |p: &str| Some(p.to_string());
    let bad = |_: &str| Loaded::Bad("unexpected token".to_string());
    let mut end = w.advance(&[], None, &no, &yes, &same, &bad);
    while matches!(end, Progress::More) {
        end = w.advance(&[], None, &no, &yes, &same, &bad);
    }
    assert!(matches!(end, Progress::Fail(WalkError::Frontend(m)) if m == "unexpected token"));
}

// ── Packages ──────────────────────────────────────────────────────────────────

fn package(src: &str) -> PackageSection {
    parse(src).package.expect("a [package] section")
}

#[test]
fn a_package_entry_defaults_to_its_own_name() {
    let p = package("[package]\nname = \"mathlib\"\n");
    assert_eq!(p.entry_file(), "mathlib.jde");
    assert!(p.validate().is_ok());
}

#[test]
fn a_package_entry_can_be_named_explicitly() {
    let p = package("[package]\nname = \"mathlib\"\nentry = \"src/api.jde\"\n");
    assert_eq!(p.entry_file(), "src/api.jde");
    assert!(p.validate().is_ok());
}

#[test]
fn a_package_artifact_takes_the_platform_extension() {
    let p = package("[package]\nname = \"mathlib\"\n");
    assert_eq!(p.artifact_file(true), "mathlib.dylib");
    assert_eq!(p.artifact_file(false), "mathlib.so");
}

#[test]
fn a_package_name_that_is_not_an_identifier_is_rejected() {
    let err = package("[package]\nname = \"my-lib\"\n").validate().unwrap_err();
    assert!(err.contains("my-lib"), "error should name the value: {err}");
    assert!(err.contains("use my-lib"), "error should say why it matters: {err}");
    assert!(package("[package]\nname = \"my_lib2\"\n").validate().is_ok());
}

#[test]
fn a_package_entry_must_be_a_jade_file() {
    let err = package("[package]\nname = \"m\"\nentry = \"m.dylib\"\n").validate().unwrap_err();
    assert!(err.contains("m.dylib"), "error should name the file: {err}");
    assert!(err.contains(".jde"), "error should say what is expected: {err}");
}

#[test]
fn package_sources_must_list_the_entry() {
    let err = package("[package]\nname = \"mathlib\"\nsources = [\"helper.jde\"]\n")
        .validate()
        .unwrap_err();
    assert!(err.contains("mathlib.jde"), "error should name the entry: {err}");
    assert!(
        package("[package]\nname = \"mathlib\"\nsources = [\"helper.jde\", \"mathlib.jde\"]\n")
            .validate()
            .is_ok()
    );
}

#[test]
fn package_sources_reject_a_non_jade_file() {
    let err = package("[package]\nname = \"m\"\nsources = [\"m.jde\", \"libz.so\"]\n")
        .validate()
        .unwrap_err();
    assert!(err.contains("libz.so"), "error should name the file: {err}");
    assert!(err.contains("[dependencies]"), "error should point at the right home: {err}");
}

#[test]
fn package_sources_reject_a_duplicate() {
    let err = package("[package]\nname = \"m\"\nsources = [\"m.jde\", \"a.jde\", \"a.jde\"]\n")
        .validate()
        .unwrap_err();
    assert!(err.contains("a.jde"), "error should name the duplicate: {err}");
}

#[test]
fn empty_package_lists_are_rejected_rather_than_silently_meaning_nothing() {
    let err = package("[package]\nname = \"m\"\nsources = []\n").validate().unwrap_err();
    assert!(err.contains("omit it"), "error should say what to do instead: {err}");
    let err = package("[package]\nname = \"m\"\nexports = []\n").validate().unwrap_err();
    assert!(err.contains("binding nothing"), "error should say what it would build: {err}");
}

#[test]
fn a_manifest_without_a_package_section_has_none() {
    let m = try_parse("[project]\nname = \"app\"\n").expect("valid manifest toml");
    assert!(m.package.is_none(), "[package] is opt-in");
}
