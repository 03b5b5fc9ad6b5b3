//! The `[dependencies]` table: external native packages.

use vstd::prelude::*;

use crate::sort::sort_by_key;
use crate::strf::trim;
use crate::text::{chars_of, find_char, str_contains, str_eq};
#[allow(unused_imports)]
use crate::sort::{by_key, distinct_keys, distinct_keys_climb, keyed};
#[allow(unused_imports)]
use crate::strf::trimmed;
#[allow(unused_imports)]
use crate::text::{contains_seq, lex_less, texts};

verus! {

/// Which interface a dependency's library speaks.
#[derive(Debug, Clone, Copy, Default, PartialEq, Eq, Structural)]
pub enum Abi {
    /// It describes its own bindings.
    #[default]
    Jade,
    /// A plain C library; its symbols are declared in the manifest.
    C,
}

impl Abi {
    /// The spelling used in a lock file.
    pub fn as_str(self) -> (r: &'static str)
        ensures
            r@ == match self {
                Abi::Jade => "jade"@,
                Abi::C => "c"@,
            },
    {
        match self {
            Abi::Jade => "jade",
            Abi::C => "c",
        }
    }
}

/// The sentinel a C function returns to signal failure.
#[derive(Debug, Clone, Copy, PartialEq, Eq, Structural)]
pub enum CFailure {
    /// A null pointer or handle.
    Null,
    /// A negative return.
    Negative,
    /// Any return but zero.
    Nonzero,
    /// A zero return.
    Zero,
    /// It never fails.
    Never,
}

impl CFailure {
    /// The spelling used in a manifest.
    pub fn as_str(self) -> (r: &'static str)
        ensures
            r@ == match self {
                CFailure::Null => "null"@,
                CFailure::Negative => "negative"@,
                CFailure::Nonzero => "nonzero"@,
                CFailure::Zero => "zero"@,
                CFailure::Never => "never"@,
            },
    {
        match self {
            CFailure::Null => "null",
            CFailure::Negative => "negative",
            CFailure::Nonzero => "nonzero",
            CFailure::Zero => "zero",
            CFailure::Never => "never",
        }
    }

    /// The C expression that tests `r` for failure; nothing when it cannot fail.
    pub fn test(self) -> (r: Option<&'static str>)
        ensures
            match self {
                CFailure::Null => r matches Some(s) && s@ == "!(r)"@,
                CFailure::Negative => r matches Some(s) && s@ == "(r) < 0"@,
                CFailure::Nonzero => r matches Some(s) && s@ == "(r) != 0"@,
                CFailure::Zero => r matches Some(s) && s@ == "(r) == 0"@,
                CFailure::Never => r is None,
            },
    {
        match self {
            CFailure::Null => Some("!(r)"),
            CFailure::Negative => Some("(r) < 0"),
            CFailure::Nonzero => Some("(r) != 0"),
            CFailure::Zero => Some("(r) == 0"),
            CFailure::Never => None,
        }
    }
}

/// The prototype of a C symbol to bind.
#[derive(Debug, Clone, PartialEq, Eq)]
pub struct CSymbol {
    /// The argument types.
    pub args: Vec<String>,
    /// The return type.
    pub ret: String,
    /// How the symbol reports failure.
    pub fails_when: Option<CFailure>,
    /// The function that releases what the call allocated.
    pub frees_with: Option<String>,
}

/// The signature of a symbol whose name is known and whose types are not.
pub const UNRESOLVED: &'static str = "?";

impl CSymbol {
    /// Some part of the prototype is still a placeholder.
    pub open spec fn spec_unresolved(&self) -> bool {
        self.ret@ == UNRESOLVED@ || texts(self.args@).contains(UNRESOLVED@)
    }

    /// A symbol known only by name.
    pub fn unresolved() -> (s: Self)
        ensures
            s.args@.len() == 0,
            s.ret@ == UNRESOLVED@,
            s.fails_when is None,
            s.frees_with is None,
    {
        CSymbol {
            args: Vec::new(),
            ret: UNRESOLVED.to_owned(),
            fails_when: None,
            frees_with: None,
        }
    }

    /// Whether any part of the prototype is still a placeholder, arguments included.
    pub fn is_unresolved(&self) -> (r: bool)
        ensures
            r == self.spec_unresolved(),
    {
        if str_eq(self.ret.as_str(), UNRESOLVED) {
            return true;
        }
        let ghost t = texts(self.args@);
        let mut i: usize = 0;
        while i < self.args.len()
            invariant
                i <= self.args@.len(),
                t == texts(self.args@),
                self.ret@ != UNRESOLVED@,
                forall|k: int| 0 <= k < i ==> t[k] != UNRESOLVED@,
            decreases self.args@.len() - i,
        {
            if str_eq(self.args[i].as_str(), UNRESOLVED) {
                assert(t[i as int] == UNRESOLVED@);
                return true;
            }
            assert(t[i as int] != UNRESOLVED@);
            i += 1;
        }
        false
    }

    /// The symbol that a bare text in the manifest stands for: only the placeholder
    /// stands for one.
    pub fn from_text(s: &str) -> (r: Result<CSymbol, String>)
        ensures
            match r {
                Ok(c) => s@ == UNRESOLVED@ && c.args@.len() == 0 && c.ret@ == UNRESOLVED@
                    && c.fails_when is None && c.frees_with is None,
                Err(e) => s@ != UNRESOLVED@ && e@ == "expected a table with `args` and `ret`, or \""@
                    + UNRESOLVED@ + "\" for a signature that is not known yet — found \""@ + s@
                    + "\""@,
            },
    {
        if str_eq(s, UNRESOLVED) {
            return Ok(CSymbol::unresolved());
        }
        let mut m = "expected a table with `args` and `ret`, or \"".to_owned();
        m.append(UNRESOLVED);
        m.append("\" for a signature that is not known yet — found \"");
        m.append(s);
        m.append("\"");
        Err(m)
    }
}

/// One buffer field of a held struct, and the field that holds its extent.
#[derive(Debug, Clone, PartialEq, Eq)]
pub struct CBuffer {
    /// The pointer field.
    pub ptr: String,
    /// The count field.
    pub len: String,
    /// The library writes into it.
    pub writable: bool,
}

/// A C struct that a symbol fills.
#[derive(Debug, Clone, PartialEq, Eq)]
pub struct CStruct {
    /// The field names and the types they read as.
    pub fields: Vec<(String, String)>,
    /// The library keeps the struct between calls.
    pub held: bool,
    /// The buffer fields of a held struct.
    pub buffers: Vec<CBuffer>,
}

/// The part of a `url` that is replaced per platform.
pub const PLATFORM_PLACEHOLDER: &'static str = "{platform}";

/// The characters that only a version range holds.
pub const RANGE_CHARS: &'static str = "^~*><=,|";

/// An entry of the `[dependencies]` table.
#[derive(Debug, Clone, Default)]
pub struct DependencyEntry {
    /// The exact version.
    pub version: Option<String>,
    /// A local library, relative to the project root.
    pub path: Option<String>,
    /// Where to download it.
    pub url: Option<String>,
    /// Which interface it speaks.
    pub abi: Abi,
    /// The symbols of a C library, each name once.
    pub symbols: Option<Vec<(String, CSymbol)>>,
    /// The C structs that symbols fill, each name once.
    pub structs: Option<Vec<(String, CStruct)>>,
    /// The headers that declare them.
    pub headers: Option<Vec<String>>,
    /// Where else to look for headers.
    pub include_dirs: Option<Vec<String>>,
    /// The macros the headers need.
    pub defines: Option<Vec<String>>,
}

/// The first character at or behind `i` that only a range holds.
pub open spec fn first_range_char(v: Seq<char>, i: int) -> Option<char>
    decreases v.len() - i,
{
    if i < 0 || i >= v.len() {
        None
    } else if RANGE_CHARS@.contains(v[i]) {
        Some(v[i])
    } else {
        first_range_char(v, i + 1)
    }
}

/// What is wrong with a version, if anything.
pub open spec fn version_error(name: Seq<char>, v: Seq<char>) -> Option<Seq<char>> {
    if trimmed(v).len() == 0 {
        Some("dependency '"@ + name + "' has an empty 'version' in jade.toml"@)
    } else {
        match first_range_char(v, 0) {
            Some(bad) => Some(
                "dependency '"@ + name + "' has version '"@ + v
                    + "' in jade.toml, but version ranges are not supported (found '"@ + seq![bad]
                    + "') — Jade has no package registry to resolve a range against, so dependencies name one exact version, e.g. \"1.2.0\""@,
            ),
            None => None,
        }
    }
}

/// The entry declares at least one symbol.
pub open spec fn has_symbols(d: DependencyEntry) -> bool {
    d.symbols is Some && d.symbols->Some_0@.len() > 0
}

/// What is wrong with an entry, if anything.
pub open spec fn dependency_error(d: DependencyEntry, name: Seq<char>) -> Option<Seq<char>> {
    if d.path is Some && d.url is Some {
        Some(
            "dependency '"@ + name
                + "' sets both 'path' and 'url' in jade.toml (a dependency has exactly one source)"@,
        )
    } else if d.path is None && d.url is None {
        Some(
            "dependency '"@ + name
                + "' has no source in jade.toml (set either 'path' or 'url')"@,
        )
    } else if d.url is Some && d.version is None {
        Some(
            "dependency '"@ + name
                + "' has a 'url' but no 'version' in jade.toml (url dependencies are pinned to an exact version)"@,
        )
    } else if d.version is Some && version_error(name, d.version->Some_0@) is Some {
        version_error(name, d.version->Some_0@)
    } else if d.abi is C && !has_symbols(d) {
        Some(
            "dependency '"@ + name + "' sets abi = \"c\" but declares no [dependencies."@ + name
                + ".symbols] in jade.toml — a plain C library exports no jade_pkg_init, so Jade needs the symbol prototypes to generate a binding shim"@,
        )
    } else if d.abi is Jade && d.symbols is Some {
        Some(
            "dependency '"@ + name + "' declares [dependencies."@ + name
                + ".symbols] but does not set abi = \"c\" in jade.toml — a Jade-ABI package exports jade_pkg_init and describes its own bindings"@,
        )
    } else {
        None
    }
}

/// The names, in the order of the table, of the first `n` symbols that are unresolved.
pub open spec fn unresolved_names(s: Seq<(String, CSymbol)>, n: int) -> Seq<(Seq<char>, ())>
    decreases n,
{
    if n <= 0 {
        seq![]
    } else if s[n - 1].1.spec_unresolved() {
        unresolved_names(s, n - 1).push((s[n - 1].0@, ()))
    } else {
        unresolved_names(s, n - 1)
    }
}

/// The texts ascend, and none occurs twice.
pub open spec fn climbing(t: Seq<Seq<char>>) -> bool {
    forall|i: int, j: int| 0 <= i < j < t.len() ==> lex_less(#[trigger] t[i], #[trigger] t[j])
}

/// The unresolved symbols of a table are among its symbols, each as often as it is there.
proof fn unresolved_are_distinct(s: Seq<(String, CSymbol)>, n: int)
    requires
        distinct_keys(keyed(s)),
        0 <= n <= s.len(),
    ensures
        distinct_keys(unresolved_names(s, n)),
        forall|i: int|
            0 <= i < unresolved_names(s, n).len() ==> exists|k: int|
                0 <= k < n && (#[trigger] s[k]).0@ == (#[trigger] unresolved_names(s, n)[i]).0,
    decreases n,
{
    if n > 0 {
        unresolved_are_distinct(s, n - 1);
        let less = unresolved_names(s, n - 1);
        let all = unresolved_names(s, n);
        assert forall|i: int| 0 <= i < all.len() implies exists|k: int|
            0 <= k < n && (#[trigger] s[k]).0@ == (#[trigger] all[i]).0 by {
            if i < less.len() {
                assert(all[i] == less[i]);
                let k = choose|k: int| 0 <= k < n - 1 && (#[trigger] s[k]).0@ == less[i].0;
                assert(s[k].0@ == all[i].0);
            } else {
                assert(s[n - 1].0@ == all[i].0);
            }
        }
        assert forall|i: int, j: int| 0 <= i < j < all.len() implies (#[trigger] all[i]).0 != (
        #[trigger] all[j]).0 by {
            assert(all[i] == less[i]);
            let k = choose|k: int| 0 <= k < n - 1 && (#[trigger] s[k]).0@ == less[i].0;
            if j < less.len() {
                assert(all[j] == less[j]);
            } else {
                assert(keyed(s)[k].0 != keyed(s)[n - 1].0);
            }
        }
    }
}

/// A message about a dependency.
fn about(name: &str) -> (s: String)
    ensures
        s@ == "dependency '"@ + name@,
{
    let mut s = "dependency '".to_owned();
    s.append(name);
    s
}

/// The message about a version.
fn check_version(name: &str, version: &str) -> (r: Result<(), String>)
    ensures
        match r {
            Ok(_) => version_error(name@, version@) is None,
            Err(e) => version_error(name@, version@) == Some(e@),
        },
{
    if trim(version).is_empty() {
        let mut s = about(name);
        s.append("' has an empty 'version' in jade.toml");
        return Err(s);
    }
    let v = chars_of(version);
    let range = chars_of(RANGE_CHARS);
    let mut i: usize = 0;
    while i < v.len()
        invariant
            i <= v@.len(),
            v@ == version@,
            range@ == RANGE_CHARS@,
            trimmed(version@).len() > 0,
            first_range_char(version@, i as int) == first_range_char(version@, 0),
        decreases v@.len() - i,
    {
        let c: char = v[i];
        if let Some(k) = find_char(range.as_slice(), c) {
            assert(range@[k as int] == c);
            let mut s = about(name);
            s.append("' has version '");
            s.append(version);
            s.append("' in jade.toml, but version ranges are not supported (found '");
            let ghost head = s@;
            s.push(c);
            assert(s@ =~= head + seq![c]);
            s.append(
                "') — Jade has no package registry to resolve a range against, so dependencies name one exact version, e.g. \"1.2.0\"",
            );
            return Err(s);
        }
        i += 1;
    }
    Ok(())
}

impl DependencyEntry {
    /// No symbol and no struct is declared twice.
    pub open spec fn wf(&self) -> bool {
        &&& self.symbols matches Some(s) ==> distinct_keys(keyed(s@))
        &&& self.structs matches Some(s) ==> distinct_keys(keyed(s@))
    }

    /// Whether the `url` is a template per platform.
    pub fn is_platform_template(&self) -> (r: bool)
        ensures
            r == (self.url is Some && contains_seq(
                self.url->Some_0@,
                PLATFORM_PLACEHOLDER@,
            )),
    {
        match &self.url {
            Some(u) => str_contains(u.as_str(), PLATFORM_PLACEHOLDER),
            None => false,
        }
    }

    /// The symbols whose prototype is still a placeholder, sorted.
    pub fn unresolved_symbols(&self) -> (r: Vec<String>)
        ensures
            match self.symbols {
                Some(s) => texts(r@) == by_key(unresolved_names(s@, s@.len() as int)).map_values(
                    |e: (Seq<char>, ())| e.0,
                ),
                None => r@.len() == 0,
            },
            self.wf() ==> climbing(texts(r@)),
    {
        let symbols = match &self.symbols {
            Some(s) => s,
            None => {
                return Vec::new();
            },
        };
        let mut found: Vec<(String, ())> = Vec::new();
        let mut i: usize = 0;
        assert(keyed(found@) =~= seq![]);
        while i < symbols.len()
            invariant
                i <= symbols@.len(),
                keyed(found@) == unresolved_names(symbols@, i as int),
            decreases symbols@.len() - i,
        {
            if symbols[i].1.is_unresolved() {
                let ghost before = found@;
                found.push((symbols[i].0.clone(), ()));
                assert(keyed(found@) =~= keyed(before).push((symbols@[i as int].0@, ())));
            }
            i += 1;
        }
        proof {
            if self.wf() {
                unresolved_are_distinct(symbols@, symbols@.len() as int);
                distinct_keys_climb(keyed(found@));
            }
        }
        let sorted = sort_by_key(found);
        let mut out: Vec<String> = Vec::new();
        let mut k: usize = 0;
        while k < sorted.len()
            invariant
                k <= sorted@.len(),
                out@.len() == k,
                forall|j: int| 0 <= j < k ==> (#[trigger] out@[j])@ == sorted@[j].0@,
            decreases sorted@.len() - k,
        {
            out.push(sorted[k].0.clone());
            k += 1;
        }
        assert(texts(out@) =~= keyed(sorted@).map_values(|e: (Seq<char>, ())| e.0));
        proof {
            if self.wf() {
                let t = texts(out@);
                assert forall|i: int, j: int| 0 <= i < j < t.len() implies lex_less(
                    #[trigger] t[i],
                    #[trigger] t[j],
                ) by {
                    assert(t[i] == keyed(sorted@)[i].0);
                    assert(t[j] == keyed(sorted@)[j].0);
                }
            }
        }
        out
    }

    /// Check the entry, naming the dependency in every message.
    pub fn validate(&self, name: &str) -> (r: Result<(), String>)
        ensures
            match r {
                Ok(_) => dependency_error(*self, name@) is None,
                Err(e) => dependency_error(*self, name@) == Some(e@),
            },
    {
        if self.path.is_some() && self.url.is_some() {
            let mut s = about(name);
            s.append(
                "' sets both 'path' and 'url' in jade.toml (a dependency has exactly one source)",
            );
            return Err(s);
        }
        if self.path.is_none() && self.url.is_none() {
            let mut s = about(name);
            s.append("' has no source in jade.toml (set either 'path' or 'url')");
            return Err(s);
        }
        if self.url.is_some() && self.version.is_none() {
            let mut s = about(name);
            s.append(
                "' has a 'url' but no 'version' in jade.toml (url dependencies are pinned to an exact version)",
            );
            return Err(s);
        }
        if let Some(version) = &self.version {
            if let Err(e) = check_version(name, version.as_str()) {
                return Err(e);
            }
        }
        let declared: bool = match &self.symbols {
            Some(s) => s.len() > 0,
            None => false,
        };
        match self.abi {
            Abi::C => {
                if !declared {
                    let mut s = about(name);
                    s.append("' sets abi = \"c\" but declares no [dependencies.");
                    s.append(name);
                    s.append(
                        ".symbols] in jade.toml — a plain C library exports no jade_pkg_init, so Jade needs the symbol prototypes to generate a binding shim",
                    );
                    return Err(s);
                }
            },
            Abi::Jade => {
                if self.symbols.is_some() {
                    let mut s = about(name);
                    s.append("' declares [dependencies.");
                    s.append(name);
                    s.append(
                        ".symbols] but does not set abi = \"c\" in jade.toml — a Jade-ABI package exports jade_pkg_init and describes its own bindings",
                    );
                    return Err(s);
                }
            },
        }
        Ok(())
    }
}

// ── Laws ─────────────────────────────────────────────────────────────────────

/// A valid dependency has exactly one source, and one that is downloaded is pinned.
pub proof fn valid_entries_have_one_source(d: DependencyEntry, name: Seq<char>)
    requires
        dependency_error(d, name) is None,
    ensures
        (d.path is Some) != (d.url is Some),
        d.url is Some ==> d.version is Some && trimmed(d.version->Some_0@).len() > 0,
        d.version matches Some(v) ==> forall|i: int|
            0 <= i < v@.len() ==> !RANGE_CHARS@.contains(#[trigger] v@[i]),
{
    if let Some(v) = d.version {
        assert(version_error(name, v@) is None);
        no_range_chars(v@, 0);
    }
}

/// A search for range characters that found none passed none.
proof fn no_range_chars(v: Seq<char>, i: int)
    requires
        0 <= i <= v.len(),
        first_range_char(v, i) is None,
    ensures
        forall|k: int| i <= k < v.len() ==> !RANGE_CHARS@.contains(#[trigger] v[k]),
    decreases v.len() - i,
{
    if i < v.len() {
        no_range_chars(v, i + 1);
    }
}

/// The first range character of a version is the one found.
pub proof fn the_first_range_char_is_found(v: Seq<char>, i: int, k: int)
    requires
        0 <= i <= k <= v.len(),
        k < v.len() ==> RANGE_CHARS@.contains(v[k]),
        forall|j: int| i <= j < k ==> !RANGE_CHARS@.contains(#[trigger] v[j]),
    ensures
        k < v.len() ==> first_range_char(v, i) == Some(v[k]),
        k == v.len() ==> first_range_char(v, i) is None,
    decreases k - i,
{
    if i < k {
        assert(!RANGE_CHARS@.contains(v[i]));
        the_first_range_char_is_found(v, i + 1, k);
    }
}

/// A version is accepted exactly where it says something and no range.
pub proof fn versions_are_exact(name: Seq<char>, v: Seq<char>)
    ensures
        version_error(name, v) is None <==> trimmed(v).len() > 0 && forall|i: int|
            0 <= i < v.len() ==> !RANGE_CHARS@.contains(#[trigger] v[i]),
{
    if version_error(name, v) is None {
        no_range_chars(v, 0);
    }
    if forall|i: int| 0 <= i < v.len() ==> !RANGE_CHARS@.contains(#[trigger] v[i]) {
        the_first_range_char_is_found(v, 0, v.len() as int);
    }
}

/// An entry is accepted exactly where it has one source, a downloaded one is pinned to an
/// exact version, and symbols are declared for a plain C library and for nothing else.
pub proof fn entries_are_accepted_when_complete(d: DependencyEntry, name: Seq<char>)
    ensures
        dependency_error(d, name) is None <==> {
            &&& (d.path is Some) != (d.url is Some)
            &&& d.url is Some ==> d.version is Some
            &&& d.version matches Some(v) ==> version_error(name, v@) is None
            &&& d.abi is C ==> (d.symbols matches Some(s) && s@.len() > 0)
            &&& d.abi is Jade ==> d.symbols is None
        },
{
}

/// A symbol is unresolved where its result or one of its arguments is.
pub proof fn symbols_are_unresolved_in_part(c: CSymbol)
    ensures
        c.spec_unresolved() <==> c.ret@ == "?"@ || exists|i: int|
            0 <= i < c.args@.len() && (#[trigger] c.args@[i])@ == "?"@,
{
    let t = texts(c.args@);
    if t.contains("?"@) {
        let i = choose|i: int| 0 <= i < t.len() && t[i] == "?"@;
        assert(c.args@[i]@ == "?"@);
    }
    if exists|i: int| 0 <= i < c.args@.len() && (#[trigger] c.args@[i])@ == "?"@ {
        let i = choose|i: int| 0 <= i < c.args@.len() && (#[trigger] c.args@[i])@ == "?"@;
        assert(t[i] == "?"@);
    }
}

/// The unresolved names are those of the unresolved symbols, all of them and no others.
pub proof fn unresolved_symbols_are_named(s: Seq<(String, CSymbol)>, n: int, name: Seq<char>)
    requires
        0 <= n <= s.len(),
    ensures
        unresolved_names(s, n).contains((name, ())) <==> exists|i: int|
            0 <= i < n && (#[trigger] s[i]).0@ == name && s[i].1.spec_unresolved(),
    decreases n,
{
    if n > 0 {
        unresolved_symbols_are_named(s, n - 1, name);
        let before = unresolved_names(s, n - 1);
        let x = s[n - 1];
        if x.1.spec_unresolved() {
            let after = before.push((x.0@, ()));
            assert(after[before.len() as int] == (x.0@, ()));
            if before.contains((name, ())) {
                let k = choose|k: int| 0 <= k < before.len() && before[k] == (name, ());
                assert(after[k] == (name, ()));
            }
            if after.contains((name, ())) && !before.contains((name, ())) {
                let k = choose|k: int| 0 <= k < after.len() && after[k] == (name, ());
                if k < before.len() {
                    assert(before[k] == (name, ()));
                }
                assert(s[n - 1].0@ == name);
            }
        }
        if exists|i: int| 0 <= i < n && (#[trigger] s[i]).0@ == name && s[i].1.spec_unresolved() {
            let i = choose|i: int|
                0 <= i < n && (#[trigger] s[i]).0@ == name && s[i].1.spec_unresolved();
            if i < n - 1 {
                assert(s[i].0@ == name);
            }
        }
    }
}

} // verus!
