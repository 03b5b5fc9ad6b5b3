//! The `[package]` section: a project that builds itself into a library.

use vstd::prelude::*;

use crate::strf::trim;
use crate::text::{chars_of, str_ends_with, str_eq};
#[allow(unused_imports)]
use crate::strf::trimmed;
#[allow(unused_imports)]
use crate::text::{ends_with_seq, texts};

verus! {

/// The `[package]` section of a manifest.
#[derive(Debug, Clone)]
pub struct PackageSection {
    /// The package's name, and the artifact's stem.
    pub name: String,
    /// The package's version.
    pub version: Option<String>,
    /// The entry module, `<name>.jde` unless it says otherwise.
    pub entry: Option<String>,
    /// Every source file of the package.
    pub sources: Option<Vec<String>>,
    /// The functions to bind; all of the entry module's when absent.
    pub exports: Option<Vec<String>>,
}

/// A character of a package name: an ASCII letter or digit, or an underscore.
pub open spec fn is_name_char(c: char) -> bool {
    let u = c as int;
    48 <= u <= 57 || 65 <= u <= 90 || 97 <= u <= 122 || u == 95
}

/// Whether a character may stand in a package name.
pub fn name_char(c: char) -> (r: bool)
    ensures
        r == is_name_char(c),
{
    let u: u32 = c as u32;
    (48 <= u && u <= 57) || (65 <= u && u <= 90) || (97 <= u && u <= 122) || u == 95
}

/// Every character may stand in a package name.
pub open spec fn usable_name(s: Seq<char>) -> bool {
    forall|i: int| 0 <= i < s.len() ==> is_name_char(#[trigger] s[i])
}

/// The first text at or behind `i` that does not name a source file.
pub open spec fn first_foreign(s: Seq<Seq<char>>, i: int) -> Option<Seq<char>>
    decreases s.len() - i,
{
    if i < 0 || i >= s.len() {
        None
    } else if !ends_with_seq(s[i], ".jde"@) {
        Some(s[i])
    } else {
        first_foreign(s, i + 1)
    }
}

/// The first text at or behind `i` that stands before itself already.
pub open spec fn first_repeat(s: Seq<Seq<char>>, i: int) -> Option<Seq<char>>
    decreases s.len() - i,
{
    if i < 0 || i >= s.len() {
        None
    } else if s.take(i).contains(s[i]) {
        Some(s[i])
    } else {
        first_repeat(s, i + 1)
    }
}

/// The entry module of a package.
pub open spec fn entry_of(p: PackageSection) -> Seq<char> {
    match p.entry {
        Some(e) => e@,
        None => p.name@ + ".jde"@,
    }
}

/// What is wrong with a list of sources, if anything.
pub open spec fn sources_error(s: Seq<Seq<char>>, entry: Seq<char>) -> Option<Seq<char>> {
    if s.len() == 0 {
        Some(
            "[package] sources in jade.toml is empty — omit it entirely to take the import graph at its word"@,
        )
    } else if let Some(bad) = first_foreign(s, 0) {
        Some(
            "[package] source '"@ + bad
                + "' in jade.toml is not a Jade source file (expected a .jde file). A native library is a dependency, not a source — declare it under [dependencies]"@,
        )
    } else if !s.contains(entry) {
        Some(
            "[package] sources in jade.toml does not list the entry module '"@ + entry
                + "'; sources is the package's complete file list, so the entry belongs in it"@,
        )
    } else if let Some(bad) = first_repeat(s, 0) {
        Some("[package] sources in jade.toml lists '"@ + bad + "' more than once"@)
    } else {
        None
    }
}

/// What is wrong with a package section, if anything.
pub open spec fn package_error(p: PackageSection) -> Option<Seq<char>> {
    if trimmed(p.name@).len() == 0 {
        Some("[package] in jade.toml has an empty 'name'"@)
    } else if !usable_name(p.name@) {
        Some(
            "[package] name '"@ + p.name@
                + "' in jade.toml is not a usable package name (letters, digits and underscores only — it becomes both a filename and the name `use "@
                + p.name@ + "` binds)"@,
        )
    } else if !ends_with_seq(entry_of(p), ".jde"@) {
        Some(
            "[package] entry '"@ + entry_of(p)
                + "' in jade.toml is not a Jade source file (expected a .jde file)"@,
        )
    } else if p.sources is Some && sources_error(texts(p.sources->Some_0@), entry_of(p)) is Some {
        sources_error(texts(p.sources->Some_0@), entry_of(p))
    } else if p.exports is Some && p.exports->Some_0@.len() == 0 {
        Some(
            "[package] exports in jade.toml is empty, which would build a package binding nothing — omit it to export every function"@,
        )
    } else {
        None
    }
}

/// Whether every character may stand in a package name.
fn all_name_chars(s: &str) -> (r: bool)
    ensures
        r == usable_name(s@),
{
    let v = chars_of(s);
    let mut i: usize = 0;
    while i < v.len()
        invariant
            i <= v@.len(),
            v@ == s@,
            forall|k: int| 0 <= k < i ==> is_name_char(#[trigger] s@[k]),
        decreases v@.len() - i,
    {
        if !name_char(v[i]) {
            assert(!is_name_char(s@[i as int]));
            return false;
        }
        i += 1;
    }
    true
}

/// Whether a text stands in the first `n` of a list.
fn listed(v: &[String], n: usize, s: &str) -> (r: bool)
    requires
        n <= v@.len(),
    ensures
        r == texts(v@).take(n as int).contains(s@),
{
    let mut i: usize = 0;
    let ghost t = texts(v@).take(n as int);
    while i < n
        invariant
            i <= n <= v@.len(),
            t == texts(v@).take(n as int),
            forall|k: int| 0 <= k < i ==> t[k] != s@,
        decreases n - i,
    {
        if str_eq(v[i].as_str(), s) {
            assert(t[i as int] == s@);
            return true;
        }
        assert(t[i as int] != s@);
        i += 1;
    }
    false
}

/// The message about a list of sources.
fn check_sources(sources: &[String], entry: &str) -> (r: Result<(), String>)
    ensures
        match r {
            Ok(_) => sources_error(texts(sources@), entry@) is None,
            Err(e) => sources_error(texts(sources@), entry@) == Some(e@),
        },
{
    let ghost t = texts(sources@);
    if sources.len() == 0 {
        return Err(
            "[package] sources in jade.toml is empty — omit it entirely to take the import graph at its word".to_owned(),
        );
    }
    let mut i: usize = 0;
    while i < sources.len()
        invariant
            i <= sources@.len(),
            sources@.len() > 0,
            t == texts(sources@),
            first_foreign(t, i as int) == first_foreign(t, 0),
        decreases sources@.len() - i,
    {
        assert(t[i as int] == sources@[i as int]@);
        if !str_ends_with(sources[i].as_str(), ".jde") {
            let mut s = "[package] source '".to_owned();
            s.append(sources[i].as_str());
            s.append(
                "' in jade.toml is not a Jade source file (expected a .jde file). A native library is a dependency, not a source — declare it under [dependencies]",
            );
            return Err(s);
        }
        i += 1;
    }
    let n: usize = sources.len();
    assert(t.take(n as int) =~= t);
    if !listed(sources, n, entry) {
        let mut s = "[package] sources in jade.toml does not list the entry module '".to_owned();
        s.append(entry);
        s.append("'; sources is the package's complete file list, so the entry belongs in it");
        return Err(s);
    }
    let mut k: usize = 0;
    while k < n
        invariant
            k <= n,
            n == sources@.len(),
            n > 0,
            t == texts(sources@),
            first_foreign(t, 0) is None,
            t.contains(entry@),
            first_repeat(t, k as int) == first_repeat(t, 0),
        decreases n - k,
    {
        assert(t[k as int] == sources@[k as int]@);
        if listed(sources, k, sources[k].as_str()) {
            let mut s = "[package] sources in jade.toml lists '".to_owned();
            s.append(sources[k].as_str());
            s.append("' more than once");
            return Err(s);
        }
        k += 1;
    }
    Ok(())
}

impl PackageSection {
    /// The entry module, `<name>.jde` unless the section says otherwise.
    pub fn entry_file(&self) -> (r: String)
        ensures
            r@ == entry_of(*self),
    {
        match &self.entry {
            Some(e) => e.clone(),
            None => {
                let mut s = self.name.clone();
                s.append(".jde");
                s
            },
        }
    }

    /// The artifact the package builds to, on macOS or elsewhere.
    pub fn artifact_file(&self, macos: bool) -> (r: String)
        ensures
            r@ == self.name@ + if macos {
                ".dylib"@
            } else {
                ".so"@
            },
    {
        let mut s = self.name.clone();
        s.append(
            if macos {
                ".dylib"
            } else {
                ".so"
            },
        );
        s
    }

    /// Check the section, naming the offending value in every message.
    pub fn validate(&self) -> (r: Result<(), String>)
        ensures
            match r {
                Ok(_) => package_error(*self) is None,
                Err(e) => package_error(*self) == Some(e@),
            },
    {
        if trim(self.name.as_str()).is_empty() {
            return Err("[package] in jade.toml has an empty 'name'".to_owned());
        }
        if !all_name_chars(self.name.as_str()) {
            let mut s = "[package] name '".to_owned();
            s.append(self.name.as_str());
            s.append(
                "' in jade.toml is not a usable package name (letters, digits and underscores only — it becomes both a filename and the name `use ",
            );
            s.append(self.name.as_str());
            s.append("` binds)");
            return Err(s);
        }
        let entry = self.entry_file();
        if !str_ends_with(entry.as_str(), ".jde") {
            let mut s = "[package] entry '".to_owned();
            s.append(entry.as_str());
            s.append("' in jade.toml is not a Jade source file (expected a .jde file)");
            return Err(s);
        }
        if let Some(sources) = &self.sources {
            if let Err(e) = check_sources(sources.as_slice(), entry.as_str()) {
                return Err(e);
            }
        }
        if let Some(exports) = &self.exports {
            if exports.len() == 0 {
                return Err(
                    "[package] exports in jade.toml is empty, which would build a package binding nothing — omit it to export every function".to_owned(),
                );
            }
        }
        Ok(())
    }
}

// ── Laws ─────────────────────────────────────────────────────────────────────

/// Nothing repeats in front of where a search for a repeat came to its end.
proof fn no_repeat_means_distinct(s: Seq<Seq<char>>, i: int)
    requires
        0 <= i <= s.len(),
        first_repeat(s, i) is None,
    ensures
        forall|a: int, b: int| 0 <= a < b < s.len() && i <= b ==> s[a] != s[b],
    decreases s.len() - i,
{
    if i < s.len() {
        no_repeat_means_distinct(s, i + 1);
        assert forall|a: int, b: int| 0 <= a < b < s.len() && i <= b implies s[a] != s[b] by {
            if b == i {
                assert(s.take(i)[a] == s[a]);
            }
        }
    }
}

/// Everything from where a search for a foreign file found none is a source file.
proof fn no_foreign_means_all(s: Seq<Seq<char>>, i: int)
    requires
        0 <= i <= s.len(),
        first_foreign(s, i) is None,
    ensures
        forall|k: int| i <= k < s.len() ==> ends_with_seq(#[trigger] s[k], ".jde"@),
    decreases s.len() - i,
{
    if i < s.len() {
        no_foreign_means_all(s, i + 1);
    }
}

/// A valid section's sources are an inventory: each a source file, none twice, and the
/// entry module among them.
pub proof fn valid_sources_are_an_inventory(p: PackageSection)
    requires
        package_error(p) is None,
        p.sources is Some,
    ensures
        ({
            let s = texts(p.sources->Some_0@);
            &&& s.contains(entry_of(p))
            &&& forall|k: int| 0 <= k < s.len() ==> ends_with_seq(#[trigger] s[k], ".jde"@)
            &&& forall|a: int, b: int| 0 <= a < b < s.len() ==> s[a] != s[b]
        }),
{
    let s = texts(p.sources->Some_0@);
    assert(sources_error(s, entry_of(p)) is None);
    no_foreign_means_all(s, 0);
    no_repeat_means_distinct(s, 0);
}

/// Names are made of ASCII letters, digits and underscores.
pub proof fn names_are_letters_digits_underscores(c: char)
    ensures
        is_name_char(c) <==> '0' <= c <= '9' || 'A' <= c <= 'Z' || 'a' <= c <= 'z' || c == '_',
{
}

/// The first file that is no source is the one found, and none where all are.
proof fn the_first_foreign_is_found(s: Seq<Seq<char>>, i: int, k: int)
    requires
        0 <= i <= k <= s.len(),
        k < s.len() ==> !ends_with_seq(s[k], ".jde"@),
        forall|j: int| i <= j < k ==> ends_with_seq(#[trigger] s[j], ".jde"@),
    ensures
        k < s.len() ==> first_foreign(s, i) == Some(s[k]),
        k == s.len() ==> first_foreign(s, i) is None,
    decreases k - i,
{
    if i < k {
        assert(ends_with_seq(s[i], ".jde"@));
        the_first_foreign_is_found(s, i + 1, k);
    }
}

/// Without two alike, none repeats.
proof fn distinct_do_not_repeat(s: Seq<Seq<char>>, i: int)
    requires
        0 <= i <= s.len(),
        forall|a: int, b: int| 0 <= a < b < s.len() ==> s[a] != s[b],
    ensures
        first_repeat(s, i) is None,
    decreases s.len() - i,
{
    if i < s.len() {
        if s.take(i).contains(s[i]) {
            let a = choose|a: int| 0 <= a < s.take(i).len() && s.take(i)[a] == s[i];
            assert(s[a] == s[i]);
        }
        distinct_do_not_repeat(s, i + 1);
    }
}

/// A list of sources is accepted exactly where it is not empty, each of it is a source file,
/// none comes twice, and the entry is among them.
pub proof fn sources_are_accepted_as_an_inventory(s: Seq<Seq<char>>, entry: Seq<char>)
    ensures
        sources_error(s, entry) is None <==> {
            &&& s.len() > 0
            &&& forall|k: int| 0 <= k < s.len() ==> ends_with_seq(#[trigger] s[k], ".jde"@)
            &&& s.contains(entry)
            &&& forall|a: int, b: int| 0 <= a < b < s.len() ==> s[a] != s[b]
        },
{
    if sources_error(s, entry) is None {
        no_foreign_means_all(s, 0);
        no_repeat_means_distinct(s, 0);
    }
    if (forall|k: int| 0 <= k < s.len() ==> ends_with_seq(#[trigger] s[k], ".jde"@)) && (forall|
        a: int,
        b: int,
    |
        0 <= a < b < s.len() ==> s[a] != s[b]) {
        the_first_foreign_is_found(s, 0, s.len() as int);
        distinct_do_not_repeat(s, 0);
    }
}

/// A section is accepted exactly where its name says something in usable characters, its
/// entry is a source file, and what it lists is an inventory and exports something.
pub proof fn sections_are_accepted_when_sound(p: PackageSection)
    ensures
        package_error(p) is None <==> {
            &&& trimmed(p.name@).len() > 0
            &&& forall|i: int| 0 <= i < p.name@.len() ==> is_name_char(#[trigger] p.name@[i])
            &&& ends_with_seq(entry_of(p), ".jde"@)
            &&& p.sources matches Some(s) ==> sources_error(texts(s@), entry_of(p)) is None
            &&& p.exports matches Some(e) ==> e@.len() > 0
        },
        p.entry matches Some(e) ==> entry_of(p) == e@,
        p.entry is None ==> entry_of(p) == p.name@ + ".jde"@,
{
}

} // verus!
