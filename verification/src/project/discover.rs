//! Finding the project root, and the test files under it.

use vstd::prelude::*;

use super::{load_project, ManifestError, ProjectManifest};
#[allow(unused_imports)]
use super::{loads, read_as, reads_tables};
use crate::pathf::{parent_of, push_path, split_name};
use crate::sort::sort_by_key;
use crate::text::{chars_of, str_contains, str_ends_with, str_eq, str_starts_with};
#[allow(unused_imports)]
use crate::pathf::{parent_path, part_start, part_start_within, pushed, split_ext};
#[allow(unused_imports)]
use crate::pathf::{trimmed_end, trimmed_end_within};
#[allow(unused_imports)]
use crate::sort::{by_key, keyed, sorting_sorts};
#[allow(unused_imports)]
use crate::text::{
    contains_seq, ends_with_seq, lex_le, parts_of_texts, starts_with_seq, texts,
};

verus! {

// ── The root ─────────────────────────────────────────────────────────────────

/// What looking for a manifest in a directory came to.
#[derive(Debug, Clone, Copy, PartialEq, Eq, Structural)]
pub enum Probe {
    /// There is no manifest.
    Missing,
    /// There is one that declares no project.
    Other,
    /// There is one that declares a project.
    Project,
    /// There is one that cannot be read.
    Broken,
}

/// The directory `k` steps above `start`.
pub open spec fn ancestor(start: Seq<char>, k: nat) -> Option<Seq<char>>
    decreases k,
{
    if k == 0 {
        Some(start)
    } else {
        match ancestor(start, (k - 1) as nat) {
            Some(d) => parent_path(d),
            None => None,
        }
    }
}

/// What looking for a manifest comes to, from what loading it came to.
pub open spec fn spec_probe(r: Result<ProjectManifest, ManifestError>) -> Probe {
    match r {
        Ok(m) => if m.project is Some {
            Probe::Project
        } else {
            Probe::Other
        },
        Err(ManifestError::Missing(_)) => Probe::Missing,
        Err(_) => Probe::Broken,
    }
}

/// What looking for a manifest came to, from what loading it came to.
pub fn probe_of(r: &Result<ProjectManifest, ManifestError>) -> (p: Probe)
    ensures
        p == spec_probe(*r),
{
    match r {
        Ok(m) => if m.is_project() {
            Probe::Project
        } else {
            Probe::Other
        },
        Err(e) => if e.is_present() {
            Probe::Broken
        } else {
            Probe::Missing
        },
    }
}

/// Loading the manifest of the directory may come to `p`.
pub open spec fn probe_says<
    R: Fn(&str) -> Result<Result<ProjectManifest, String>, (bool, String)>,
>(read: R, dir: Seq<char>, p: Probe) -> bool {
    exists|r: Result<ProjectManifest, ManifestError>| #[trigger]
        loads(read, dir, r) && p == spec_probe(r)
}

/// The directory may be passed: it holds no project.
pub open spec fn passes<R: Fn(&str) -> Result<Result<ProjectManifest, String>, (bool, String)>>(
    read: R,
    dir: Seq<char>,
) -> bool {
    probe_says(read, dir, Probe::Missing) || probe_says(read, dir, Probe::Other)
}

/// The directory may stop the search: it holds a project, or a manifest that cannot be
/// read.
pub open spec fn stops<R: Fn(&str) -> Result<Result<ProjectManifest, String>, (bool, String)>>(
    read: R,
    dir: Seq<char>,
) -> bool {
    probe_says(read, dir, Probe::Project) || probe_says(read, dir, Probe::Broken)
}

/// The first `k` directories from `start` up were passed.
pub open spec fn passed<R: Fn(&str) -> Result<Result<ProjectManifest, String>, (bool, String)>>(
    read: R,
    start: Seq<char>,
    k: nat,
) -> bool {
    forall|j: nat|
        j < k ==> ancestor(start, j) is Some && passes(
            read,
            (#[trigger] ancestor(start, j))->Some_0,
        )
}

/// The part a path ends in lies within it.
proof fn parent_is_shorter(p: Seq<char>)
    ensures
        parent_path(p) matches Some(d) ==> d.len() < p.len(),
{
    trimmed_end_within(p, p.len() as int);
    let e = trimmed_end(p, p.len() as int);
    part_start_within(p, e);
    let s = part_start(p, e);
    trimmed_end_within(p, s);
    reveal_strlit(".");
}

/// The nearest directory, from `start` up, that holds a project. A manifest that cannot
/// be read stops the search there: whether it declares a project is not to be guessed.
/// `read` reads and parses the file at a path, as for [`load_project`].
pub fn find_project_root_from<
    R: Fn(&str) -> Result<Result<ProjectManifest, String>, (bool, String)>,
>(start: &str, read: &R) -> (r: Option<String>)
    requires
        forall|s: &str| #[trigger] call_requires(*read, (s,)),
        reads_tables(*read),
    ensures
        match r {
            Some(d) => exists|k: nat| #[trigger]
                passed(*read, start@, k) && ancestor(start@, k) == Some(d@) && stops(*read, d@),
            None => exists|k: nat| #[trigger]
                passed(*read, start@, k) && ancestor(start@, k) is None,
        },
{
    let mut dir = start.to_owned();
    let ghost mut k: nat = 0;
    loop
        invariant
            forall|s: &str| #[trigger] call_requires(*read, (s,)),
            reads_tables(*read),
            ancestor(start@, k) == Some(dir@),
            passed(*read, start@, k),
        decreases dir@.len(),
    {
        let loaded = load_project(dir.as_str(), read);
        let p: Probe = probe_of(&loaded);
        assert(probe_says(*read, dir@, p));
        match p {
            Probe::Project | Probe::Broken => {
                return Some(dir);
            },
            _ => {},
        }
        proof {
            assert(passed(*read, start@, k + 1)) by {
                assert forall|j: nat| j < k + 1 implies ancestor(start@, j) is Some && passes(
                    *read,
                    (#[trigger] ancestor(start@, j))->Some_0,
                ) by {
                    if j == k {
                        assert(passes(*read, dir@));
                    }
                }
            }
            k = k + 1;
            parent_is_shorter(dir@);
        }
        match parent_of(dir.as_str()) {
            Some(d) => {
                dir = d;
            },
            None => {
                return None;
            },
        }
    }
}

// ── Test files ───────────────────────────────────────────────────────────────

/// A directory entry.
#[derive(Debug)]
pub enum Entry {
    /// A file, by name.
    File(String),
    /// A directory, by name, and what is in it.
    Dir(String, Vec<Entry>),
}

/// The directory is not searched: it is hidden, or holds build output or documents.
pub open spec fn is_skipped(name: Seq<char>) -> bool {
    starts_with_seq(name, "."@) || name == "target"@ || name == "docs"@
}

/// The name is a test file's: a source file whose stem begins with `test_` or ends with
/// `_test`, and holds the pattern.
pub open spec fn is_test(name: Seq<char>, pattern: Option<Seq<char>>) -> bool {
    let (stem, ext) = split_ext(name);
    &&& ext == Some("jde"@)
    &&& starts_with_seq(stem, "test_"@) || ends_with_seq(stem, "_test"@)
    &&& pattern matches Some(p) ==> contains_seq(stem, p)
}

/// The test files among the first `n` entries of the directory `dir`.
pub open spec fn tests_among(
    dir: Seq<char>,
    v: Seq<Entry>,
    n: nat,
    pattern: Option<Seq<char>>,
) -> Seq<Seq<char>>
    decreases v, n,
{
    if n == 0 || n > v.len() {
        seq![]
    } else {
        tests_among(dir, v, (n - 1) as nat, pattern) + tests_at(dir, v[n - 1], pattern)
    }
}

/// The test files that an entry of the directory `dir` stands for.
pub open spec fn tests_at(dir: Seq<char>, e: Entry, pattern: Option<Seq<char>>) -> Seq<Seq<char>>
    decreases e, 0nat,
{
    match e {
        Entry::File(name) => if is_test(name@, pattern) {
            seq![pushed(dir, name@)]
        } else {
            seq![]
        },
        Entry::Dir(name, v) => if is_skipped(name@) {
            seq![]
        } else {
            tests_among(pushed(dir, name@), v@, v@.len(), pattern)
        },
    }
}

/// A path as a key that sorts part by part: a separator comes before any character.
pub open spec fn path_key(p: Seq<char>) -> Seq<char>
    decreases p.len(),
{
    if p.len() == 0 {
        seq![]
    } else {
        path_key(p.drop_last()).push(
            if p.last() == '/' {
                '\0'
            } else {
                p.last()
            },
        )
    }
}

/// Paths with their keys.
pub open spec fn with_keys(s: Seq<Seq<char>>) -> Seq<(Seq<char>, Seq<char>)> {
    s.map_values(|p: Seq<char>| (path_key(p), p))
}

/// Paths in ascending order, part by part.
pub open spec fn sorted_paths(s: Seq<Seq<char>>) -> Seq<Seq<char>> {
    by_key(with_keys(s)).map_values(|e: (Seq<char>, Seq<char>)| e.1)
}

/// Whether a directory is not searched.
pub fn skips_dir(name: &str) -> (r: bool)
    ensures
        r == is_skipped(name@),
{
    str_starts_with(name, ".") || str_eq(name, "target") || str_eq(name, "docs")
}

/// The view of an optional text.
pub open spec fn opt_pattern(s: Option<&str>) -> Option<Seq<char>> {
    match s {
        Some(t) => Some(t@),
        None => None,
    }
}

/// Whether a file is a test file.
pub fn is_test_file(name: &str, pattern: Option<&str>) -> (r: bool)
    ensures
        r == is_test(name@, opt_pattern(pattern)),
{
    let (stem, ext) = split_name(name);
    let jade: bool = match ext {
        Some(e) => str_eq(e.as_str(), "jde"),
        None => false,
    };
    if !jade {
        return false;
    }
    let st = stem.as_str();
    if !str_starts_with(st, "test_") && !str_ends_with(st, "_test") {
        return false;
    }
    match pattern {
        Some(p) => str_contains(st, p),
        None => true,
    }
}

/// Collect the test files of the directory `dir`, in the order of its entries.
fn collect_test_files(dir: &str, v: &Vec<Entry>, pattern: Option<&str>, out: &mut Vec<String>)
    ensures
        texts(final(out)@) == texts(old(out)@) + tests_among(
            dir@,
            v@,
            v@.len(),
            opt_pattern(pattern),
        ),
    decreases v,
{
    let mut i: usize = 0;
    assert(texts(out@) + seq![] =~= texts(out@));
    while i < v.len()
        invariant
            i <= v@.len(),
            texts(out@) == texts(old(out)@) + tests_among(
                dir@,
                v@,
                i as nat,
                opt_pattern(pattern),
            ),
        decreases v@.len() - i,
    {
        let ghost before = out@;
        let ghost found = tests_at(dir@, v@[i as int], opt_pattern(pattern));
        match &v[i] {
            Entry::File(name) => {
                if is_test_file(name.as_str(), pattern) {
                    let p = push_path(dir, name.as_str());
                    let ghost pv = p@;
                    out.push(p);
                    assert(texts(out@) =~= texts(before) + seq![pv]);
                } else {
                    assert(texts(out@) =~= texts(before) + seq![]);
                }
            },
            Entry::Dir(name, sub) => {
                if skips_dir(name.as_str()) {
                    assert(texts(out@) =~= texts(before) + seq![]);
                } else {
                    let inner = push_path(dir, name.as_str());
                    assert(decreases_to!(v => v@));
                    assert(decreases_to!(v@ => v@[i as int]));
                    assert(decreases_to!(v@[i as int] => v@[i as int]->Dir_1));
                    collect_test_files(inner.as_str(), sub, pattern, out);
                }
            },
        }
        assert(texts(out@) =~= texts(before) + found);
        i += 1;
        assert(texts(out@) =~= texts(old(out)@) + tests_among(
            dir@,
            v@,
            i as nat,
            opt_pattern(pattern),
        ));
    }
}

/// The sort key of a path.
fn key_of(p: &str) -> (r: String)
    ensures
        r@ == path_key(p@),
{
    let v = chars_of(p);
    let mut out = String::new();
    let mut i: usize = 0;
    assert(p@.take(0) =~= seq![]);
    while i < v.len()
        invariant
            i <= v@.len(),
            v@ == p@,
            out@ == path_key(p@.take(i as int)),
        decreases v@.len() - i,
    {
        let c: char = v[i];
        assert(p@.take(i + 1).drop_last() =~= p@.take(i as int));
        assert(p@.take(i + 1).last() == c);
        if c == '/' {
            out.push('\0');
        } else {
            out.push(c);
        }
        i += 1;
    }
    assert(p@.take(i as int) =~= p@);
    out
}

/// Sorting commutes with taking the views of what is sorted.
pub proof fn views_sort(s: Seq<(Seq<char>, String)>)
    ensures
        by_key(s).map_values(|e: (Seq<char>, String)| (e.0, e.1@)) == by_key(
            s.map_values(|e: (Seq<char>, String)| (e.0, e.1@)),
        ),
        by_key(s).len() == s.len(),
    decreases s.len(),
{
    let f = |e: (Seq<char>, String)| (e.0, e.1@);
    if s.len() == 0 {
        assert(by_key(s).map_values(f) =~= by_key(s.map_values(f)));
    } else {
        views_sort(s.drop_last());
        let t = by_key(s.drop_last());
        let u = by_key(s.map_values(f).drop_last());
        assert(s.map_values(f).drop_last() =~= s.drop_last().map_values(f));
        slots_agree(t, u, s.last().0);
        assert(by_key(s).map_values(f) =~= by_key(s.map_values(f)));
    }
}

/// Where an entry goes depends on keys alone, and is within reach.
proof fn slots_agree(t: Seq<(Seq<char>, String)>, u: Seq<(Seq<char>, Seq<char>)>, k: Seq<char>)
    requires
        u == t.map_values(|e: (Seq<char>, String)| (e.0, e.1@)),
    ensures
        crate::sort::slot_for(t, k) == crate::sort::slot_for(u, k),
        0 <= crate::sort::slot_for(t, k) <= t.len(),
    decreases t.len(),
{
    if t.len() > 0 {
        assert(u.drop_last() =~= t.drop_last().map_values(|e: (Seq<char>, String)| (e.0, e.1@)));
        slots_agree(t.drop_last(), u.drop_last(), k);
    }
}

/// Discover the test files under `root`, sorted. `tree` is what is in it.
pub fn find_test_files(root: &str, tree: &Vec<Entry>, pattern: Option<&str>) -> (r: Vec<String>)
    ensures
        texts(r@) == sorted_paths(
            tests_among(root@, tree@, tree@.len(), opt_pattern(pattern)),
        ),
{
    let mut found: Vec<String> = Vec::new();
    collect_test_files(root, tree, pattern, &mut found);
    let ghost want = tests_among(root@, tree@, tree@.len(), opt_pattern(pattern));
    assert(texts(found@) =~= want);
    let mut pairs: Vec<(String, String)> = Vec::new();
    let mut i: usize = 0;
    while i < found.len()
        invariant
            i <= found@.len(),
            pairs@.len() == i,
            forall|k: int|
                0 <= k < i ==> (#[trigger] pairs@[k]).1@ == texts(found@)[k] && pairs@[k].0@
                    == path_key(texts(found@)[k]),
        decreases found@.len() - i,
    {
        let p = found[i].clone();
        pairs.push((key_of(p.as_str()), p));
        i += 1;
    }
    let ghost ks = keyed(pairs@);
    let sorted = sort_by_key(pairs);
    let mut out: Vec<String> = Vec::new();
    let mut k: usize = 0;
    while k < sorted.len()
        invariant
            k <= sorted@.len(),
            out@.len() == k,
            forall|j: int| 0 <= j < k ==> (#[trigger] out@[j])@ == sorted@[j].1@,
        decreases sorted@.len() - k,
    {
        out.push(sorted[k].1.clone());
        k += 1;
    }
    proof {
        let f = |e: (Seq<char>, String)| (e.0, e.1@);
        let g = |e: (Seq<char>, Seq<char>)| e.1;
        views_sort(ks);
        assert(ks.map_values(f) =~= with_keys(want));
        assert(texts(out@) =~= by_key(ks).map_values(f).map_values(g)) by {
            assert(keyed(sorted@) == by_key(ks));
            assert forall|j: int| 0 <= j < out@.len() implies texts(out@)[j] == by_key(
                ks,
            ).map_values(f).map_values(g)[j] by {
                assert(out@[j]@ == sorted@[j].1@);
                assert(keyed(sorted@)[j].1 == sorted@[j].1);
            }
        }
    }
    out
}

/// What looking for a manifest comes to, from what reading the file came to.
pub open spec fn answer_probe(
    answer: Result<Result<ProjectManifest, String>, (bool, String)>,
) -> Probe {
    match answer {
        Ok(Ok(m)) => if m.project is Some {
            Probe::Project
        } else {
            Probe::Other
        },
        Ok(Err(_)) => Probe::Broken,
        Err((true, _)) => Probe::Missing,
        Err((false, _)) => Probe::Broken,
    }
}

/// The disk has not changed: reading a manifest again comes to the same.
pub open spec fn unchanged<R: Fn(&str) -> Result<Result<ProjectManifest, String>, (bool, String)>>(
    read: R,
) -> bool {
    forall|
        s: &str,
        t: &str,
        a: Result<Result<ProjectManifest, String>, (bool, String)>,
        b: Result<Result<ProjectManifest, String>, (bool, String)>,
    |
        s@ == t@ && #[trigger] call_ensures(read, (s,), a) && #[trigger] call_ensures(
            read,
            (t,),
            b,
        ) ==> answer_probe(a) == answer_probe(b)
}

/// A root that was found loads: its manifest declares a project, or it is there and
/// cannot be read. It is never reported as missing.
pub proof fn found_roots_load<
    R: Fn(&str) -> Result<Result<ProjectManifest, String>, (bool, String)>,
>(read: R, dir: Seq<char>, r: Result<ProjectManifest, ManifestError>)
    requires
        unchanged(read),
        stops(read, dir),
        loads(read, dir, r),
    ensures
        match r {
            Ok(m) => m.project is Some,
            Err(e) => !(e is Missing),
        },
{
    let p = if probe_says(read, dir, Probe::Project) {
        Probe::Project
    } else {
        Probe::Broken
    };
    assert(probe_says(read, dir, p));
    let q = choose|q: Result<ProjectManifest, ManifestError>| #[trigger]
        loads(read, dir, q) && p == spec_probe(q);
    let (s, a) = choose|
        s: &str,
        a: Result<Result<ProjectManifest, String>, (bool, String)>,
    |
        s@ == pushed(dir, "jade.toml"@) && #[trigger] call_ensures(read, (s,), a) && read_as(
            s@,
            a,
            q,
        );
    let (t, b) = choose|
        s: &str,
        a: Result<Result<ProjectManifest, String>, (bool, String)>,
    |
        s@ == pushed(dir, "jade.toml"@) && #[trigger] call_ensures(read, (s,), a) && read_as(
            s@,
            a,
            r,
        );
    assert(answer_probe(a) == answer_probe(b));
    assert(answer_probe(a) == spec_probe(q));
    assert(answer_probe(b) == spec_probe(r));
}

// ── What discovery finds ─────────────────────────────────────────────────────

/// Going up twice is going up by the sum.
pub proof fn ancestors_add_up(start: Seq<char>, a: nat, b: nat)
    requires
        ancestor(start, a) is Some,
    ensures
        ancestor(start, a + b) == ancestor(ancestor(start, a)->Some_0, b),
        ancestor(start, 0) == Some(start),
        ancestor(start, 1) == parent_path(start),
    decreases b,
{
    reveal_with_fuel(ancestor, 2);
    if b > 0 {
        ancestors_add_up(start, a, (b - 1) as nat);
        assert(a + b - 1 == a + (b - 1));
    }
}

/// A manifest with a project stops the search and one without it does not; one that is not
/// there does not, and one that cannot be read does.
pub proof fn manifests_stop_the_search(m: ProjectManifest, e: ManifestError)
    ensures
        spec_probe(Ok(m)) == if m.project is Some {
            Probe::Project
        } else {
            Probe::Other
        },
        spec_probe(Err(e)) == if e is Missing {
            Probe::Missing
        } else {
            Probe::Broken
        },
{
}

/// A test is a source file whose stem begins with `test_` or ends in `_test`, and holds the
/// pattern where there is one.
pub proof fn tests_go_by_name(x: Seq<char>, stem: Seq<char>, p: Seq<char>)
    requires
        stem.len() > 0,
    ensures
        is_test("test_"@ + x + "."@ + "jde"@, None),
        is_test(x + "_test"@ + "."@ + "jde"@, None),
        is_test(stem + "."@ + "jde"@, None) <==> starts_with_seq(stem, "test_"@) || ends_with_seq(
            stem,
            "_test"@,
        ),
        is_test(stem + "."@ + "jde"@, Some(p)) <==> is_test(stem + "."@ + "jde"@, None)
            && contains_seq(stem, p),
{
    reveal_strlit("jde");
    reveal_strlit("test_");
    reveal_strlit("_test");
    assert(!"jde"@.contains('.'));
    crate::pathf::extensions_come_apart("test_"@ + x, "jde"@);
    crate::pathf::extensions_come_apart(x + "_test"@, "jde"@);
    crate::pathf::extensions_come_apart(stem, "jde"@);
    parts_of_texts(x, "test_"@, x, x, x);
    parts_of_texts(x, "_test"@, x, x, x);
}

/// Hidden directories, `target` and `docs` are passed over, and no others.
pub proof fn some_directories_are_passed_over(name: Seq<char>)
    ensures
        is_skipped(name) <==> name.len() > 0 && name[0] == '.' || name == "target"@ || name
            == "docs"@,
{
    reveal_strlit(".");
    if name.len() > 0 {
        assert(name.subrange(0, 1)[0] == name[0]);
        if name[0] == '.' {
            assert(name.subrange(0, 1) =~= "."@);
        }
    }
}

/// The tests of a listing are those of its entries one after the other; a file is one or
/// none, and a directory has those below it unless it is passed over.
pub proof fn tests_are_found_entry_by_entry(
    dir: Seq<char>,
    v: Seq<Entry>,
    n: nat,
    name: String,
    w: Vec<Entry>,
    pattern: Option<Seq<char>>,
)
    requires
        n < v.len(),
    ensures
        tests_among(dir, v, 0, pattern).len() == 0,
        tests_among(dir, v, n + 1, pattern) == tests_among(dir, v, n, pattern) + tests_at(
            dir,
            v[n as int],
            pattern,
        ),
        is_test(name@, pattern) ==> tests_at(dir, Entry::File(name), pattern) == seq![
            pushed(dir, name@),
        ],
        !is_test(name@, pattern) ==> tests_at(dir, Entry::File(name), pattern).len() == 0,
        !is_skipped(name@) ==> tests_at(dir, Entry::Dir(name, w), pattern) == tests_among(
            pushed(dir, name@),
            w@,
            w@.len(),
            pattern,
        ),
        is_skipped(name@) ==> tests_at(dir, Entry::Dir(name, w), pattern).len() == 0,
{
}

/// A key has the characters of its path, with separators below every other character.
pub proof fn keys_put_separators_first(p: Seq<char>)
    ensures
        path_key(p).len() == p.len(),
        forall|i: int|
            0 <= i < p.len() ==> #[trigger] path_key(p)[i] == if p[i] == '/' {
                '\0'
            } else {
                p[i]
            },
    decreases p.len(),
{
    if p.len() > 0 {
        let r = p.drop_last();
        keys_put_separators_first(r);
        assert forall|i: int| 0 <= i < p.len() implies #[trigger] path_key(p)[i] == if p[i] == '/' {
            '\0'
        } else {
            p[i]
        } by {
            if i < r.len() {
                assert(path_key(r)[i] == if r[i] == '/' {
                    '\0'
                } else {
                    r[i]
                });
            }
        }
    }
}

/// Every sorted entry carries its own key.
proof fn sorted_entries_carry_their_key(s: Seq<Seq<char>>, i: int)
    requires
        0 <= i < by_key(with_keys(s)).len(),
    ensures
        by_key(with_keys(s))[i].0 == path_key(by_key(with_keys(s))[i].1),
        s.contains(by_key(with_keys(s))[i].1),
{
    let w = with_keys(s);
    let b = by_key(w);
    sorting_sorts(w);
    assert(b.contains(b[i]));
    b.to_multiset_ensures();
    w.to_multiset_ensures();
    assert(b.to_multiset().count(b[i]) > 0);
    assert(w.contains(b[i]));
    let k = choose|k: int| 0 <= k < w.len() && w[k] == b[i];
    assert(w[k] == (path_key(s[k]), s[k]));
    assert(s[k] == b[i].1);
}

/// Sorted paths ascend by their keys, and there are as many as there were, all of them from
/// among them.
pub proof fn paths_are_sorted_by_part(s: Seq<Seq<char>>, i: int, j: int)
    requires
        0 <= i <= j < s.len(),
    ensures
        sorted_paths(s).len() == s.len(),
        s.contains(sorted_paths(s)[i]),
        lex_le(path_key(sorted_paths(s)[i]), path_key(sorted_paths(s)[j])),
{
    let w = with_keys(s);
    sorting_sorts(w);
    sorted_entries_carry_their_key(s, i);
    sorted_entries_carry_their_key(s, j);
    let b = by_key(w);
    assert(lex_le(b[i].0, b[j].0));
}

} // verus!
