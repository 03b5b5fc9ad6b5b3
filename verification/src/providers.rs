//! The provider registry: which providers can be installed, and what activating one or
//! storing its key does to the files under the user's home.
//!
//! Listings come in as values, and what is to be done to files goes out as a plan.

use vstd::prelude::*;

use crate::pathf::{name_of, parent_of, push_path, same_path, split_name};
use crate::provider::{active_lib_path, config_path, is_provider_lib, jade_home};
use crate::sort::sort_by_key;
use crate::text::{chars_of, nat_text, str_eq};
#[allow(unused_imports)]
use crate::jsonf::{parsed, JsonV};
#[allow(unused_imports)]
use crate::pathf::{file_name, joined_name_is_last, parent_path, pushed, same, split_ext};
#[allow(unused_imports)]
use crate::provider::{config_of, first_lib, found_is_a_library, home_of, is_lib, opt_view};
#[allow(unused_imports)]
use crate::sort::{by_key, keyed};
#[allow(unused_imports)]
use crate::strf::ascii_upper;
#[allow(unused_imports)]
use crate::text::{decimal_nat, texts};

verus! {

// ── Places ───────────────────────────────────────────────────────────────────

/// The pool of installed providers.
pub open spec fn pool_of(home: Option<Seq<char>>) -> Seq<char> {
    pushed(home_of(home), "provider"@)
}

/// The file with a provider's stored key.
pub open spec fn credential_of(home: Option<Seq<char>>, name: Seq<char>) -> Seq<char> {
    pushed(pushed(home_of(home), "credentials"@), name + ".json"@)
}

/// A library's file name.
pub open spec fn lib_file(name: Seq<char>, ext: Seq<char>) -> Seq<char> {
    name + "."@ + ext
}

/// The pool of installed providers, given the value of `HOME`.
pub fn pool_dir(home: Option<&str>) -> (r: String)
    ensures
        r@ == pool_of(opt_view(home)),
{
    push_path(jade_home(home).as_str(), "provider")
}

/// The file with a provider's stored key.
pub fn credential_path(home: Option<&str>, name: &str) -> (r: String)
    ensures
        r@ == credential_of(opt_view(home), name@),
{
    let dir = push_path(jade_home(home).as_str(), "credentials");
    let mut file = name.to_owned();
    file.append(".json");
    push_path(dir.as_str(), file.as_str())
}

/// The providers shipped with the running program, `<prefix>/lib/jade/providers` for
/// `<prefix>/bin/jade`.
pub open spec fn bundle_of(exe: Seq<char>) -> Option<Seq<char>> {
    match parent_path(exe) {
        Some(bin) => match parent_path(bin) {
            Some(prefix) => Some(pushed(pushed(pushed(prefix, "lib"@), "jade"@), "providers"@)),
            None => None,
        },
        None => None,
    }
}

/// The providers shipped with the program at `exe`.
pub fn bundled_provider_dir(exe: &str) -> (r: Option<String>)
    ensures
        match r {
            Some(d) => bundle_of(exe@) == Some(d@),
            None => bundle_of(exe@) is None,
        },
{
    let bin = match parent_of(exe) {
        Some(b) => b,
        None => {
            return None;
        },
    };
    let prefix = match parent_of(bin.as_str()) {
        Some(p) => p,
        None => {
            return None;
        },
    };
    let lib = push_path(prefix.as_str(), "lib");
    let jade = push_path(lib.as_str(), "jade");
    Some(push_path(jade.as_str(), "providers"))
}

/// Where providers come from, in order: the override when it is set and not empty, the
/// pool, and the bundle when there is one.
pub open spec fn sources(
    over: Option<Seq<char>>,
    home: Option<Seq<char>>,
    exe: Option<Seq<char>>,
) -> Seq<Seq<char>> {
    (match over {
        Some(d) if d.len() > 0 => seq![d],
        _ => seq![],
    }) + seq![pool_of(home)] + (match exe {
        Some(e) => match bundle_of(e) {
            Some(b) => seq![b],
            None => seq![],
        },
        None => seq![],
    })
}

/// Where providers come from, given the values of `JADE_PROVIDERS_DIR` and `HOME` and
/// the path of the running program.
pub fn source_dirs(over: Option<&str>, home: Option<&str>, exe: Option<&str>) -> (r: Vec<String>)
    ensures
        texts(r@) == sources(opt_view(over), opt_view(home), opt_view(exe)),
{
    let mut dirs: Vec<String> = Vec::new();
    if let Some(d) = over {
        if !d.is_empty() {
            dirs.push(d.to_owned());
        }
    }
    dirs.push(pool_dir(home));
    if let Some(e) = exe {
        if let Some(b) = bundled_provider_dir(e) {
            dirs.push(b);
        }
    }
    assert(texts(dirs@) =~= sources(opt_view(over), opt_view(home), opt_view(exe)));
    dirs
}

// ── Discovery ────────────────────────────────────────────────────────────────

/// An installable provider.
#[derive(Debug, Clone, PartialEq, Eq)]
pub struct InstalledProvider {
    /// Its name: the stem of the library's file name.
    pub name: String,
    /// The library.
    pub path: String,
}

/// A provider as mathematics: its name and its library.
pub type ProviderV = (Seq<char>, Seq<char>);

/// Providers as mathematics.
pub open spec fn provider_views(v: Seq<InstalledProvider>) -> Seq<ProviderV> {
    Seq::new(v.len(), |i: int| (v[i].name@, v[i].path@))
}

/// A directory and the names in it, as mathematics.
pub open spec fn listing_views(v: Seq<(String, Vec<String>)>) -> Seq<(Seq<char>, Seq<Seq<char>>)> {
    Seq::new(v.len(), |i: int| (v[i].0@, texts(v[i].1@)))
}

/// Some provider has the name.
pub open spec fn has_name(found: Seq<ProviderV>, name: Seq<char>) -> bool {
    exists|i: int| 0 <= i < found.len() && (#[trigger] found[i]).0 == name
}

/// The providers found, with those among the first `n` names of a directory: the names
/// with the extension, each stem once.
pub open spec fn found_in(
    found: Seq<ProviderV>,
    dir: Seq<char>,
    names: Seq<Seq<char>>,
    n: int,
    ext: Seq<char>,
) -> Seq<ProviderV>
    decreases n,
{
    if n <= 0 {
        found
    } else {
        let before = found_in(found, dir, names, n - 1, ext);
        let (stem, e) = split_ext(names[n - 1]);
        if e == Some(ext) && !has_name(before, stem) {
            before.push((stem, pushed(dir, names[n - 1])))
        } else {
            before
        }
    }
}

/// The providers in the first `n` directories. The first to have a name wins.
pub open spec fn found_all(
    dirs: Seq<(Seq<char>, Seq<Seq<char>>)>,
    n: int,
    ext: Seq<char>,
) -> Seq<ProviderV>
    decreases n,
{
    if n <= 0 {
        seq![]
    } else {
        found_in(
            found_all(dirs, n - 1, ext),
            dirs[n - 1].0,
            dirs[n - 1].1,
            dirs[n - 1].1.len() as int,
            ext,
        )
    }
}

/// Whether a provider with the name was found.
fn known(found: &Vec<InstalledProvider>, name: &str) -> (r: bool)
    ensures
        r == has_name(provider_views(found@), name@),
{
    let ghost t = provider_views(found@);
    let mut i: usize = 0;
    while i < found.len()
        invariant
            i <= found@.len(),
            t == provider_views(found@),
            forall|k: int| 0 <= k < i ==> (#[trigger] t[k]).0 != name@,
        decreases found@.len() - i,
    {
        if str_eq(found[i].name.as_str(), name) {
            assert(t[i as int].0 == name@);
            return true;
        }
        assert(t[i as int].0 != name@);
        i += 1;
    }
    false
}

/// Add the providers of one directory.
fn scan(found: &mut Vec<InstalledProvider>, dir: &str, names: &[String], ext: &str)
    ensures
        provider_views(final(found)@) == found_in(
            provider_views(old(found)@),
            dir@,
            texts(names@),
            names@.len() as int,
            ext@,
        ),
{
    let ghost t = texts(names@);
    let mut i: usize = 0;
    while i < names.len()
        invariant
            i <= names@.len(),
            t == texts(names@),
            provider_views(found@) == found_in(
                provider_views(old(found)@),
                dir@,
                t,
                i as int,
                ext@,
            ),
        decreases names@.len() - i,
    {
        assert(t[i as int] == names@[i as int]@);
        let (stem, e) = split_name(names[i].as_str());
        let fits: bool = match e {
            Some(x) => str_eq(x.as_str(), ext),
            None => false,
        };
        if fits && !known(found, stem.as_str()) {
            let ghost before = found@;
            let ghost stem_v = stem@;
            let path = push_path(dir, names[i].as_str());
            found.push(InstalledProvider { name: stem, path });
            assert(provider_views(found@) =~= provider_views(before).push(
                (stem_v, pushed(dir@, t[i as int])),
            ));
        }
        i += 1;
    }
}

/// The installable providers, by name: `dirs` are the source directories that can be
/// read, in order, and the names in each. The first source of a name wins.
pub fn installed(dirs: &[(String, Vec<String>)], ext: &str) -> (r: Vec<InstalledProvider>)
    ensures
        provider_views(r@) == by_key(
            found_all(listing_views(dirs@), dirs@.len() as int, ext@),
        ),
{
    let ghost t = listing_views(dirs@);
    let mut found: Vec<InstalledProvider> = Vec::new();
    let mut i: usize = 0;
    assert(provider_views(found@) =~= seq![]);
    while i < dirs.len()
        invariant
            i <= dirs@.len(),
            t == listing_views(dirs@),
            provider_views(found@) == found_all(t, i as int, ext@),
        decreases dirs@.len() - i,
    {
        assert(t[i as int] == (dirs@[i as int].0@, texts(dirs@[i as int].1@)));
        scan(&mut found, dirs[i].0.as_str(), dirs[i].1.as_slice(), ext);
        i += 1;
    }
    let ghost want = provider_views(found@);
    let mut pairs: Vec<(String, String)> = Vec::new();
    let mut k: usize = 0;
    while k < found.len()
        invariant
            k <= found@.len(),
            want == provider_views(found@),
            pairs@.len() == k,
            forall|j: int|
                0 <= j < k ==> ((#[trigger] pairs@[j]).0@, pairs@[j].1@) == want[j],
        decreases found@.len() - k,
    {
        pairs.push((found[k].name.clone(), found[k].path.clone()));
        k += 1;
    }
    let ghost ks = keyed(pairs@);
    let sorted = sort_by_key(pairs);
    let mut out: Vec<InstalledProvider> = Vec::new();
    let mut j: usize = 0;
    while j < sorted.len()
        invariant
            j <= sorted@.len(),
            out@.len() == j,
            forall|m: int|
                0 <= m < j ==> (#[trigger] out@[m]).name@ == sorted@[m].0@ && out@[m].path@
                    == sorted@[m].1@,
        decreases sorted@.len() - j,
    {
        out.push(
            InstalledProvider { name: sorted[j].0.clone(), path: sorted[j].1.clone() },
        );
        j += 1;
    }
    proof {
        let f = |e: (Seq<char>, String)| (e.0, e.1@);
        crate::project::discover::views_sort(ks);
        assert(ks.map_values(f) =~= want);
        assert(provider_views(out@) =~= by_key(ks).map_values(f)) by {
            assert(keyed(sorted@) == by_key(ks));
            assert forall|m: int| 0 <= m < out@.len() implies provider_views(out@)[m] == by_key(
                ks,
            ).map_values(f)[m] by {
                assert(keyed(sorted@)[m] == (sorted@[m].0@, sorted@[m].1));
            }
        }
    }
    out
}

/// The library of the first provider with the name, from `i` on.
pub open spec fn lib_of(found: Seq<ProviderV>, name: Seq<char>, i: int) -> Option<Seq<char>>
    decreases found.len() - i,
{
    if i < 0 || i >= found.len() {
        None
    } else if found[i].0 == name {
        Some(found[i].1)
    } else {
        lib_of(found, name, i + 1)
    }
}

/// The library of a provider.
pub fn source_lib(found: &[InstalledProvider], name: &str) -> (r: Option<String>)
    ensures
        match r {
            Some(p) => lib_of(provider_views(found@), name@, 0) == Some(p@),
            None => lib_of(provider_views(found@), name@, 0) is None,
        },
{
    let ghost t = provider_views(found@);
    let mut i: usize = 0;
    while i < found.len()
        invariant
            i <= found@.len(),
            t == provider_views(found@),
            lib_of(t, name@, i as int) == lib_of(t, name@, 0),
        decreases found@.len() - i,
    {
        assert(t[i as int] == (found@[i as int].name@, found@[i as int].path@));
        if str_eq(found[i].name.as_str(), name) {
            return Some(found[i].path.clone());
        }
        i += 1;
    }
    None
}

/// The stem of the file a path names.
pub open spec fn path_stem(p: Seq<char>) -> Option<Seq<char>> {
    match file_name(p) {
        Some(n) => Some(split_ext(n).0),
        None => None,
    }
}

/// The active provider's name, given the slot's directory and the names in it.
pub fn active_provider(dir: &str, entries: &[String]) -> (r: Option<String>)
    ensures
        match first_lib(dir@, texts(entries@), 0) {
            Some(p) => match path_stem(p) {
                Some(s) => r matches Some(n) && n@ == s,
                None => r is None,
            },
            None => r is None,
        },
{
    match active_lib_path(dir, entries) {
        Some(p) => match name_of(p.as_str()) {
            Some(n) => Some(split_name(n.as_str()).0),
            None => None,
        },
        None => None,
    }
}

// ── Plans ────────────────────────────────────────────────────────────────────

/// One thing to do to the files.
#[derive(Debug, PartialEq, Eq)]
pub enum FileOp {
    /// Create a directory, and those above it, unless it is there.
    MakeDir(String),
    /// Copy a file over another.
    Copy(String, String),
    /// Remove a file.
    Remove(String),
    /// Remove a file if it is there.
    RemoveIfThere(String),
    /// Write a file that only its owner can read.
    WritePrivate(String, Vec<u8>),
}

/// One thing to do to the files, as mathematics.
pub enum OpV {
    /// Create a directory.
    MakeDir(Seq<char>),
    /// Copy a file over another.
    Copy(Seq<char>, Seq<char>),
    /// Remove a file.
    Remove(Seq<char>),
    /// Remove a file if it is there.
    RemoveIfThere(Seq<char>),
    /// Write a file that only its owner can read.
    WritePrivate(Seq<char>, Seq<u8>),
}

impl View for FileOp {
    type V = OpV;

    open spec fn view(&self) -> OpV {
        match *self {
            FileOp::MakeDir(p) => OpV::MakeDir(p@),
            FileOp::Copy(a, b) => OpV::Copy(a@, b@),
            FileOp::Remove(p) => OpV::Remove(p@),
            FileOp::RemoveIfThere(p) => OpV::RemoveIfThere(p@),
            FileOp::WritePrivate(p, b) => OpV::WritePrivate(p@, b@),
        }
    }
}

/// A plan as mathematics.
pub open spec fn plan_view(v: Seq<FileOp>) -> Seq<OpV> {
    Seq::new(v.len(), |i: int| v[i]@)
}

/// The name in the slot belongs to a provider: a library, whatever the platform's own
/// extension, or the credential.
pub open spec fn is_slot_file(dir: Seq<char>, name: Seq<char>) -> bool {
    is_lib(pushed(dir, name)) || name == "config.json"@
}

/// The removals that clear the first `n` names out of the slot.
pub open spec fn clearing(dir: Seq<char>, names: Seq<Seq<char>>, n: int) -> Seq<OpV>
    decreases n,
{
    if n <= 0 {
        seq![]
    } else if is_slot_file(dir, names[n - 1]) {
        clearing(dir, names, n - 1).push(OpV::Remove(pushed(dir, names[n - 1])))
    } else {
        clearing(dir, names, n - 1)
    }
}

/// What activating a provider does: a copy in the pool, the slot cleared, the library
/// alone in it, and its stored key beside it. A key that was never stored stays off the
/// disk.
pub open spec fn activation(
    name: Seq<char>,
    src: Seq<char>,
    pool: Seq<char>,
    slot: Seq<char>,
    names: Seq<Seq<char>>,
    ext: Seq<char>,
    key: Option<Seq<u8>>,
) -> Seq<OpV> {
    let pooled = pushed(pool, lib_file(name, ext));
    seq![OpV::MakeDir(pool)] + (if same(src, pooled) {
        seq![]
    } else {
        seq![OpV::Copy(src, pooled)]
    }) + clearing(slot, names, names.len() as int) + seq![
        OpV::MakeDir(slot),
        OpV::Copy(pooled, pushed(slot, lib_file(name, ext))),
        match key {
            Some(b) => OpV::WritePrivate(config_of(slot), b),
            None => OpV::RemoveIfThere(config_of(slot)),
        },
    ]
}

/// The view of optional bytes.
pub open spec fn opt_bytes(b: Option<Vec<u8>>) -> Option<Seq<u8>> {
    match b {
        Some(v) => Some(v@),
        None => None,
    }
}

/// A library's file name.
fn lib_file_name(name: &str, ext: &str) -> (r: String)
    ensures
        r@ == lib_file(name@, ext@),
{
    let mut s = name.to_owned();
    s.append(".");
    s.append(ext);
    s
}

/// Add the removals that clear the slot.
fn plan_clearing(ops: &mut Vec<FileOp>, dir: &str, names: &[String])
    ensures
        plan_view(final(ops)@) == plan_view(old(ops)@) + clearing(
            dir@,
            texts(names@),
            names@.len() as int,
        ),
{
    let ghost t = texts(names@);
    let mut i: usize = 0;
    assert(plan_view(ops@) + seq![] =~= plan_view(ops@));
    while i < names.len()
        invariant
            i <= names@.len(),
            t == texts(names@),
            plan_view(ops@) == plan_view(old(ops)@) + clearing(dir@, t, i as int),
        decreases names@.len() - i,
    {
        assert(t[i as int] == names@[i as int]@);
        let p = push_path(dir, names[i].as_str());
        if is_provider_lib(p.as_str()) || str_eq(names[i].as_str(), "config.json") {
            let ghost before = ops@;
            ops.push(FileOp::Remove(p));
            assert(plan_view(ops@) =~= plan_view(before).push(
                OpV::Remove(pushed(dir@, t[i as int])),
            ));
            assert(plan_view(old(ops)@) + clearing(dir@, t, i as int).push(
                OpV::Remove(pushed(dir@, t[i as int])),
            ) =~= (plan_view(old(ops)@) + clearing(dir@, t, i as int)).push(
                OpV::Remove(pushed(dir@, t[i as int])),
            ));
        }
        i += 1;
    }
}

/// Make a provider the active one. `found` are the installable providers, `names` what
/// is in the slot, nothing when the slot is not there, and `key` the stored key.
pub fn activate(
    name: &str,
    found: &[InstalledProvider],
    pool: &str,
    slot: &str,
    names: &[String],
    ext: &str,
    key: Option<Vec<u8>>,
) -> (r: Result<Vec<FileOp>, String>)
    ensures
        match lib_of(provider_views(found@), name@, 0) {
            Some(src) => r matches Ok(ops) && plan_view(ops@) == activation(
                name@,
                src,
                pool@,
                slot@,
                texts(names@),
                ext@,
                opt_bytes(key),
            ),
            None => r matches Err(e) && e@ == "provider '"@ + name@ + "' is not installed"@,
        },
{
    let src = match source_lib(found, name) {
        Some(p) => p,
        None => {
            let mut s = "provider '".to_owned();
            s.append(name);
            s.append("' is not installed");
            return Err(s);
        },
    };
    let file = lib_file_name(name, ext);
    let pooled = push_path(pool, file.as_str());
    let ghost pooled_v = pooled@;
    let ghost key_v = opt_bytes(key);
    let mut ops: Vec<FileOp> = Vec::new();
    ops.push(FileOp::MakeDir(pool.to_owned()));
    let ghost mut want = seq![OpV::MakeDir(pool@)];
    assert(plan_view(ops@) =~= want);
    if !same_path(src.as_str(), pooled.as_str()) {
        ops.push(FileOp::Copy(src.clone(), pooled.clone()));
        proof {
            want = want + seq![OpV::Copy(src@, pooled_v)];
        }
    } else {
        proof {
            want = want + seq![];
        }
    }
    assert(plan_view(ops@) =~= want);
    plan_clearing(&mut ops, slot, names);
    proof {
        want = want + clearing(slot@, texts(names@), names@.len() as int);
    }
    ops.push(FileOp::MakeDir(slot.to_owned()));
    ops.push(FileOp::Copy(pooled, push_path(slot, file.as_str())));
    let config = config_path(slot);
    match key {
        Some(b) => {
            ops.push(FileOp::WritePrivate(config, b));
        },
        None => {
            ops.push(FileOp::RemoveIfThere(config));
        },
    }
    assert(plan_view(ops@) =~= want + seq![
        OpV::MakeDir(slot@),
        OpV::Copy(pooled_v, pushed(slot@, lib_file(name@, ext@))),
        match key_v {
            Some(b) => OpV::WritePrivate(config_of(slot@), b),
            None => OpV::RemoveIfThere(config_of(slot@)),
        },
    ]);
    Ok(ops)
}

/// What a failed step of an activation is reported as.
pub fn activation_failure(name: &str, cause: &str) -> (r: String)
    ensures
        r@ == "activating '"@ + name@ + "': "@ + cause@,
{
    let mut s = "activating '".to_owned();
    s.append(name);
    s.append("': ");
    s.append(cause);
    s
}

/// Clear the slot: remove every provider library and the credential. `names` is what is
/// in it, nothing when the slot is not there.
pub fn deactivate(slot: &str, names: &[String]) -> (r: Vec<FileOp>)
    ensures
        plan_view(r@) == clearing(slot@, texts(names@), names@.len() as int),
{
    let mut ops: Vec<FileOp> = Vec::new();
    plan_clearing(&mut ops, slot, names);
    assert(plan_view(ops@) =~= clearing(slot@, texts(names@), names@.len() as int));
    ops
}

// ── Credentials ──────────────────────────────────────────────────────────────

/// The text with ASCII letters in capitals.
pub open spec fn ascii_capitals(s: Seq<char>) -> Seq<char>
    decreases s.len(),
{
    if s.len() == 0 {
        seq![]
    } else {
        ascii_capitals(s.drop_last()).push(ascii_upper(s.last()))
    }
}

/// The capital of an ASCII letter; any other character as it is.
fn capital(c: char) -> (r: char)
    ensures
        r == ascii_upper(c),
{
    let u: u32 = c as u32;
    if 97 <= u && u <= 122 {
        ((u - 32) as u8) as char
    } else {
        c
    }
}

/// The environment variable with a provider's key.
pub fn credential_env_var(name: &str) -> (r: String)
    ensures
        r@ == ascii_capitals(name@) + "_API_KEY"@,
{
    let v = chars_of(name);
    let mut out = String::new();
    let mut i: usize = 0;
    assert(name@.take(0) =~= seq![]);
    while i < v.len()
        invariant
            i <= v@.len(),
            v@ == name@,
            out@ == ascii_capitals(name@.take(i as int)),
        decreases v@.len() - i,
    {
        assert(name@.take(i + 1).drop_last() =~= name@.take(i as int));
        assert(name@.take(i + 1).last() == name@[i as int]);
        out.push(capital(v[i]));
        i += 1;
    }
    assert(name@.take(i as int) =~= name@);
    out.append("_API_KEY");
    out
}

/// What `serde_json` writes for an object with one text member.
pub uninterp spec fn one_member(key: Seq<char>, value: Seq<char>) -> Seq<u8>;

/// `serde_json::to_vec` of an object with one text member. The bytes are UTF-8, and
/// `serde_json` reads them back as that object; how they are spelled is not stated.
#[verifier::external_body]
fn write_member(key: &str, value: &str) -> (r: Vec<u8>)
    ensures
        r@ == one_member(key@, value@),
        vstd::utf8::valid_utf8(r@),
        parsed(vstd::utf8::decode_utf8(r@)) == Some(
            JsonV::Object(seq![(key@, JsonV::Str(value@))]),
        ),
{
    let mut m = serde_json::Map::new();
    m.insert(key.to_owned(), serde_json::Value::String(value.to_owned()));
    serde_json::to_vec(&m).expect("an object of texts can be written")
}

/// The credential a provider reads: an object with the key under `api_key`. Reading it
/// back gives the key exactly.
pub fn envelope(api_key: &str) -> (r: Vec<u8>)
    ensures
        r@ == one_member("api_key"@, api_key@),
        vstd::utf8::valid_utf8(r@),
        parsed(vstd::utf8::decode_utf8(r@)) == Some(
            JsonV::Object(seq![("api_key"@, JsonV::Str(api_key@))]),
        ),
{
    write_member("api_key", api_key)
}

/// What storing a key does: it is written to the provider's own file, and into the slot
/// when the provider is the active one.
pub open spec fn storing(
    path: Seq<char>,
    slot: Seq<char>,
    active: bool,
    key: Seq<char>,
) -> Seq<OpV> {
    let b = one_member("api_key"@, key);
    (match parent_path(path) {
        Some(d) => seq![OpV::MakeDir(d)],
        None => seq![],
    }) + seq![OpV::WritePrivate(path, b)] + (if active {
        seq![OpV::WritePrivate(config_of(slot), b)]
    } else {
        seq![]
    })
}

/// Store a provider's key. `active` is the active provider's name.
pub fn store_credential(
    name: &str,
    api_key: &str,
    home: Option<&str>,
    slot: &str,
    active: Option<&str>,
) -> (r: Vec<FileOp>)
    ensures
        plan_view(r@) == storing(
            credential_of(opt_view(home), name@),
            slot@,
            opt_view(active) == Some(name@),
            api_key@,
        ),
{
    let path = credential_path(home, name);
    let ghost path_v = path@;
    let mut ops: Vec<FileOp> = Vec::new();
    if let Some(d) = parent_of(path.as_str()) {
        ops.push(FileOp::MakeDir(d));
    }
    ops.push(FileOp::WritePrivate(path, envelope(api_key)));
    let is_active: bool = match active {
        Some(a) => str_eq(a, name),
        None => false,
    };
    if is_active {
        ops.push(FileOp::WritePrivate(config_path(slot), envelope(api_key)));
    }
    assert(plan_view(ops@) =~= storing(path_v, slot@, is_active, api_key@));
    ops
}

/// What removing a stored key came to, given what removing the file came to: a file
/// that was never there is no failure.
pub fn remove_credential(removed: Result<(), (bool, String)>) -> (r: Result<(), String>)
    ensures
        match removed {
            Ok(_) => r is Ok,
            Err((missing, e)) => if missing {
                r is Ok
            } else {
                r matches Err(m) && m == e
            },
        },
{
    match removed {
        Ok(_) => Ok(()),
        Err((missing, e)) => {
            if missing {
                Ok(())
            } else {
                Err(e)
            }
        },
    }
}

/// Whether a key can be had: the environment has one that is not empty, or one is
/// stored.
pub fn has_credential(env: Option<&str>, stored: bool) -> (r: bool)
    ensures
        r == ((opt_view(env) matches Some(k) && k.len() > 0) || stored),
{
    if let Some(k) = env {
        if !k.is_empty() {
            return true;
        }
    }
    stored
}

/// Where a private file is written before it is moved to its place: a hidden sibling
/// that no other writer uses.
pub open spec fn temp_of(path: Seq<char>, pid: nat, seq: nat) -> Seq<char> {
    let dir = match parent_path(path) {
        Some(d) => d,
        None => "."@,
    };
    let stem = match file_name(path) {
        Some(n) => n,
        None => "cred"@,
    };
    pushed(dir, "."@ + stem + "."@ + decimal_nat(pid) + "."@ + decimal_nat(seq) + ".tmp"@)
}

/// Where a private file is written before it is moved to its place.
pub fn private_temp(path: &str, pid: u32, seq: u64) -> (r: String)
    ensures
        r@ == temp_of(path@, pid as nat, seq as nat),
{
    let dir = match parent_of(path) {
        Some(d) => d,
        None => ".".to_owned(),
    };
    let stem = match name_of(path) {
        Some(n) => n,
        None => "cred".to_owned(),
    };
    let mut s = ".".to_owned();
    s.append(stem.as_str());
    s.append(".");
    s.append(nat_text(pid as u64).as_str());
    s.append(".");
    s.append(nat_text(seq).as_str());
    s.append(".tmp");
    push_path(dir.as_str(), s.as_str())
}

// ── Laws ─────────────────────────────────────────────────────────────────────

/// The names in a directory after a plan: what is copied or written into it is there,
/// and what is removed is not.
pub open spec fn names_after(dir: Seq<char>, names: Set<Seq<char>>, ops: Seq<OpV>) -> Set<
    Seq<char>,
>
    decreases ops.len(),
{
    if ops.len() == 0 {
        names
    } else {
        let before = names_after(dir, names, ops.drop_last());
        match ops.last() {
            OpV::MakeDir(_) => before,
            OpV::Copy(_, p) => Set::new(
                |n: Seq<char>| before.contains(n) || p == pushed(dir, n),
            ),
            OpV::Remove(p) => Set::new(|n: Seq<char>| before.contains(n) && p != pushed(dir, n)),
            OpV::RemoveIfThere(p) => Set::new(
                |n: Seq<char>| before.contains(n) && p != pushed(dir, n),
            ),
            OpV::WritePrivate(p, _) => Set::new(
                |n: Seq<char>| before.contains(n) || p == pushed(dir, n),
            ),
        }
    }
}

/// Names of files do not begin at the root, and behind one directory differ as paths
/// where they differ.
proof fn pushed_is_injective(dir: Seq<char>, a: Seq<char>, b: Seq<char>)
    requires
        !a.contains('/'),
        !b.contains('/'),
        pushed(dir, a) == pushed(dir, b),
    ensures
        a == b,
{
    let p = pushed(dir, a);
    let k = p.len() - a.len();
    let m = p.len() - b.len();
    assert(a.len() > 0 ==> a.contains(a[0]));
    assert(b.len() > 0 ==> b.contains(b[0]));
    assert(!crate::pathf::rooted(a));
    assert(!crate::pathf::rooted(b));
    assert(k == m);
    assert(a =~= p.skip(k));
    assert(b =~= p.skip(m));
}

/// Joining two plans.
proof fn names_after_concat(dir: Seq<char>, names: Set<Seq<char>>, a: Seq<OpV>, b: Seq<OpV>)
    ensures
        names_after(dir, names, a + b) == names_after(dir, names_after(dir, names, a), b),
    decreases b.len(),
{
    if b.len() == 0 {
        assert(a + b =~= a);
    } else {
        assert((a + b).drop_last() =~= a + b.drop_last());
        names_after_concat(dir, names, a, b.drop_last());
    }
}

/// Clearing leaves nothing of a provider among the names it was told of.
proof fn clearing_clears(
    dir: Seq<char>,
    start: Set<Seq<char>>,
    names: Seq<Seq<char>>,
    n: int,
    x: Seq<char>,
)
    requires
        0 <= n <= names.len(),
        forall|i: int| 0 <= i < names.len() ==> !(#[trigger] names[i]).contains('/'),
        !x.contains('/'),
    ensures
        names_after(dir, start, clearing(dir, names, n)).contains(x) <==> (start.contains(x)
            && !(is_slot_file(dir, x) && names.take(n).contains(x))),
    decreases n,
{
    if n > 0 {
        clearing_clears(dir, start, names, n - 1, x);
        let before = clearing(dir, names, n - 1);
        let y = names[n - 1];
        assert(names.take(n - 1) =~= names.take(n).drop_last());
        assert(names.take(n).contains(x) <==> (names.take(n - 1).contains(x) || x == y)) by {
            let shorter = names.take(n - 1);
            if shorter.contains(x) {
                let j = shorter.index_of(x);
                assert(names.take(n)[j] == x);
            }
            if x == y {
                assert(names.take(n)[n - 1] == x);
            }
            if names.take(n).contains(x) && x != y {
                let j = names.take(n).index_of(x);
                assert(shorter[j] == x);
            }
        }
        if is_slot_file(dir, y) {
            let ops = before.push(OpV::Remove(pushed(dir, y)));
            assert(ops.drop_last() =~= before);
            if pushed(dir, x) == pushed(dir, y) {
                pushed_is_injective(dir, x, y);
            }
        }
    } else {
        assert(names.take(0) =~= seq![]);
    }
}

/// Clearing the slot empties it of providers: no library is left, nor a credential, and
/// every other entry stays. `names` is all the slot held.
pub proof fn a_cleared_slot_is_inactive(slot: Seq<char>, names: Seq<Seq<char>>)
    requires
        forall|i: int| 0 <= i < names.len() ==> !(#[trigger] names[i]).contains('/'),
    ensures
        ({
            let left = names_after(
                slot,
                names.to_set(),
                clearing(slot, names, names.len() as int),
            );
            &&& forall|x: Seq<char>|
                !x.contains('/') ==> (#[trigger] left.contains(x) <==> names.contains(x)
                    && !is_slot_file(slot, x))
            &&& forall|now: Seq<Seq<char>>|
                (forall|i: int|
                    0 <= i < now.len() ==> left.contains(#[trigger] now[i]) && !now[i].contains(
                        '/',
                    )) ==> #[trigger] first_lib(slot, now, 0) is None
        }),
{
    let n = names.len() as int;
    let left = names_after(slot, names.to_set(), clearing(slot, names, n));
    assert(names.take(n) =~= names);
    assert forall|x: Seq<char>| !x.contains('/') implies (#[trigger] left.contains(x)
        <==> names.contains(x) && !is_slot_file(slot, x)) by {
        clearing_clears(slot, names.to_set(), names, n, x);
    }
    assert forall|now: Seq<Seq<char>>|
        (forall|i: int|
            0 <= i < now.len() ==> left.contains(#[trigger] now[i]) && !now[i].contains(
                '/',
            )) implies #[trigger] first_lib(slot, now, 0) is None by {
        found_is_a_library(slot, now, 0);
        if let Some(p) = first_lib(slot, now, 0) {
            let k = choose|k: int| 0 <= k < now.len() && p == pushed(slot, #[trigger] now[k]);
            assert(left.contains(now[k]));
        }
    }
}

/// Switching leaves exactly one provider active: after an activation the one library in
/// the slot is the activated provider's, whatever was there before. The pool and the slot are different directories, and `names` is all the slot
/// held.
pub proof fn one_provider_is_active(
    name: Seq<char>,
    src: Seq<char>,
    pool: Seq<char>,
    slot: Seq<char>,
    names: Seq<Seq<char>>,
    ext: Seq<char>,
    key: Option<Seq<u8>>,
    x: Seq<char>,
)
    requires
        forall|i: int| 0 <= i < names.len() ==> !(#[trigger] names[i]).contains('/'),
        !x.contains('/'),
        !lib_file(name, ext).contains('/'),
        is_lib(pushed(slot, x)),
        pushed(pool, lib_file(name, ext)) != pushed(slot, x),
    ensures
        names_after(
            slot,
            names.to_set(),
            activation(name, src, pool, slot, names, ext, key),
        ).contains(x) <==> x == lib_file(name, ext),
{
    let pooled = pushed(pool, lib_file(name, ext));
    let all = names.to_set();
    let a = seq![OpV::MakeDir(pool)];
    let b = if same(src, pooled) {
        seq![]
    } else {
        seq![OpV::Copy(src, pooled)]
    };
    let c = clearing(slot, names, names.len() as int);
    let d0 = OpV::MakeDir(slot);
    let d1 = OpV::Copy(pooled, pushed(slot, lib_file(name, ext)));
    let d2 = match key {
        Some(k) => OpV::WritePrivate(config_of(slot), k),
        None => OpV::RemoveIfThere(config_of(slot)),
    };
    let d = seq![d0, d1, d2];
    names_after_concat(slot, all, a + b + c, d);
    names_after_concat(slot, all, a + b, c);
    names_after_concat(slot, all, a, b);
    reveal_with_fuel(names_after, 4);
    assert(a.drop_last() =~= seq![]);
    let n1 = names_after(slot, all, a);
    assert(n1 == all);
    let n2 = names_after(slot, n1, b);
    assert(n2.contains(x) == all.contains(x)) by {
        if !same(src, pooled) {
            assert(b.drop_last() =~= seq![]);
        }
    }
    clearing_clears(slot, n2, names, names.len() as int, x);
    assert(names.take(names.len() as int) =~= names);
    let n3 = names_after(slot, n2, c);
    assert(!n3.contains(x));
    assert(d.drop_last() =~= seq![d0, d1]);
    assert(seq![d0, d1].drop_last() =~= seq![d0]);
    assert(seq![d0].drop_last() =~= seq![]);
    let n4 = names_after(slot, n3, seq![d0]);
    assert(n4 == n3);
    let n5 = names_after(slot, n3, seq![d0, d1]);
    assert(n5.contains(x) == (pushed(slot, lib_file(name, ext)) == pushed(slot, x)));
    let n6 = names_after(slot, n3, d);
    assert(activation(name, src, pool, slot, names, ext, key) =~= a + b + c + d);
    assert(n6 == names_after(slot, all, activation(name, src, pool, slot, names, ext, key)));
    assert(n6.contains(x) == n5.contains(x) || config_of(slot) == pushed(slot, x));
    config_is_no_library(slot);
    if pushed(slot, x) == config_of(slot) {
        reveal_strlit("config.json");
        pushed_is_injective(slot, x, "config.json"@);
    }
    if pushed(slot, lib_file(name, ext)) == pushed(slot, x) {
        pushed_is_injective(slot, lib_file(name, ext), x);
    }
}

/// The credential is no library.
proof fn config_is_no_library(slot: Seq<char>)
    ensures
        !is_lib(config_of(slot)),
{
    let x = "config.json"@;
    reveal_strlit("config.json");
    reveal_strlit(".");
    reveal_strlit("..");
    reveal_strlit("so");
    reveal_strlit("dylib");
    joined_name_is_last(slot, x);
    reveal_with_fuel(crate::pathf::dot_before, 6);
    assert(crate::pathf::dot_before(x, 11) == 6);
    assert(x.skip(7)[0] == 'j');
}

/// No two installable providers share a name.
pub proof fn installed_names_are_distinct(
    dirs: Seq<(Seq<char>, Seq<Seq<char>>)>,
    n: int,
    ext: Seq<char>,
)
    requires
        0 <= n <= dirs.len(),
    ensures
        forall|i: int, j: int|
            0 <= i < j < found_all(dirs, n, ext).len() ==> (#[trigger] found_all(
                dirs,
                n,
                ext,
            )[i]).0 != (#[trigger] found_all(dirs, n, ext)[j]).0,
    decreases n,
{
    if n > 0 {
        installed_names_are_distinct(dirs, n - 1, ext);
        found_in_distinct(
            found_all(dirs, n - 1, ext),
            dirs[n - 1].0,
            dirs[n - 1].1,
            dirs[n - 1].1.len() as int,
            ext,
        );
    }
}

/// Adding the providers of a directory keeps names distinct.
proof fn found_in_distinct(
    found: Seq<ProviderV>,
    dir: Seq<char>,
    names: Seq<Seq<char>>,
    n: int,
    ext: Seq<char>,
)
    requires
        0 <= n <= names.len(),
        forall|i: int, j: int|
            0 <= i < j < found.len() ==> (#[trigger] found[i]).0 != (#[trigger] found[j]).0,
    ensures
        ({
            let f = found_in(found, dir, names, n, ext);
            forall|i: int, j: int|
                0 <= i < j < f.len() ==> (#[trigger] f[i]).0 != (#[trigger] f[j]).0
        }),
    decreases n,
{
    if n > 0 {
        found_in_distinct(found, dir, names, n - 1, ext);
        let before = found_in(found, dir, names, n - 1, ext);
        let f = found_in(found, dir, names, n, ext);
        assert forall|i: int, j: int| 0 <= i < j < f.len() implies (#[trigger] f[i]).0 != (
        #[trigger] f[j]).0 by {
            if j == before.len() {
                assert(f[i] == before[i]);
                assert(!has_name(before, f[j].0));
            }
        }
    }
}

// ── Where providers are found ────────────────────────────────────────────────

/// Providers are looked for in the directory given, then in the pool, then beside the
/// program.
pub proof fn sources_come_in_order(
    d: Seq<char>,
    home: Option<Seq<char>>,
    exe: Seq<char>,
    b: Seq<char>,
)
    requires
        d.len() > 0,
        bundle_of(exe) == Some(b),
    ensures
        sources(Some(d), home, Some(exe)) == seq![d, pool_of(home), b],
        sources(None, home, Some(exe)) == seq![pool_of(home), b],
        sources(Some(Seq::empty()), home, Some(exe)) == seq![pool_of(home), b],
        sources(Some(d), home, None) == seq![d, pool_of(home)],
        sources(None, home, None) == seq![pool_of(home)],
{
    assert(sources(Some(d), home, Some(exe)) =~= seq![d, pool_of(home), b]);
    assert(sources(None, home, Some(exe)) =~= seq![pool_of(home), b]);
    assert(sources(Some(Seq::empty()), home, Some(exe)) =~= seq![pool_of(home), b]);
    assert(sources(Some(d), home, None) =~= seq![d, pool_of(home)]);
    assert(sources(None, home, None) =~= seq![pool_of(home)]);
}

/// The pool and the credentials lie below the home directory, each provider's under its
/// name.
pub proof fn the_pool_lies_below_home(h: Seq<char>, name: Seq<char>)
    requires
        h.len() > 0,
        h.last() != '/',
        name.len() > 0,
        name[0] != '/',
    ensures
        pool_of(Some(h)) == h + "/.jade/provider"@,
        credential_of(Some(h), name) == h + "/.jade/credentials/"@ + name + ".json"@,
        lib_file(name, "so"@) == name + ".so"@,
{
    reveal_strlit(".jade");
    reveal_strlit("provider");
    reveal_strlit("credentials");
    reveal_strlit("/.jade/provider");
    reveal_strlit("/.jade/credentials/");
    reveal_strlit(".json");
    reveal_strlit(".");
    reveal_strlit("so");
    reveal_strlit(".so");
    assert(pool_of(Some(h)) =~= h + "/.jade/provider"@);
    let c = pushed(home_of(Some(h)), "credentials"@);
    assert(c.last() == 's');
    assert((name + ".json"@)[0] == name[0]);
    assert(credential_of(Some(h), name) =~= h + "/.jade/credentials/"@ + name + ".json"@);
    assert(lib_file(name, "so"@) =~= name + ".so"@);
}

/// What comes behind what was found changes nothing of it, and is found itself where its
/// name was not.
proof fn found_stays_found(found: Seq<ProviderV>, x: ProviderV, name: Seq<char>, i: int)
    requires
        0 <= i <= found.len(),
    ensures
        lib_of(found.push(x), name, i) == match lib_of(found, name, i) {
            Some(p) => Some(p),
            None => if x.0 == name {
                Some(x.1)
            } else {
                None
            },
        },
    decreases found.len() - i,
{
    let t = found.push(x);
    if i < found.len() {
        assert(t[i] == found[i]);
        found_stays_found(found, x, name, i + 1);
    } else {
        assert(t[i] == x);
        assert(lib_of(t, name, i + 1) is None);
    }
}

/// A name is among what was found exactly where a library is found for it.
proof fn named_are_found(found: Seq<ProviderV>, name: Seq<char>, i: int)
    requires
        0 <= i <= found.len(),
    ensures
        lib_of(found, name, i) is Some <==> exists|k: int|
            i <= k < found.len() && (#[trigger] found[k]).0 == name,
    decreases found.len() - i,
{
    if i < found.len() && found[i].0 != name {
        named_are_found(found, name, i + 1);
    }
}

/// One directory adds a library for the names that have none yet.
proof fn directories_add(
    found: Seq<ProviderV>,
    dir: Seq<char>,
    names: Seq<Seq<char>>,
    n: int,
    ext: Seq<char>,
    name: Seq<char>,
)
    requires
        0 <= n <= names.len(),
        name.len() > 0,
        !ext.contains('.'),
    ensures
        ({
            let before = lib_of(found, name, 0);
            let after = lib_of(found_in(found, dir, names, n, ext), name, 0);
            let file = name + "."@ + ext;
            if before is Some {
                after == before
            } else if exists|k: int| 0 <= k < n && names[k] == file {
                after == Some(pushed(dir, file))
            } else {
                after is None
            }
        }),
    decreases n,
{
    let file = name + "."@ + ext;
    if n > 0 {
        directories_add(found, dir, names, n - 1, ext, name);
        let before = found_in(found, dir, names, n - 1, ext);
        let x = names[n - 1];
        let (stem, e) = split_ext(x);
        crate::pathf::extensions_come_apart(name, ext);
        crate::pathf::extensions_go_back_together(x);
        named_are_found(before, stem, 0);
        found_stays_found(before, (stem, pushed(dir, x)), name, 0);
        if x == file {
            assert(stem == name && e == Some(ext));
            if lib_of(before, name, 0) is Some {
                assert(has_name(before, name));
            } else {
                assert(!has_name(before, name));
            }
        } else if e == Some(ext) {
            assert(stem != name);
        }
    }
}

/// A provider is taken from the first directory that has its library, and is not found
/// where none has it.
pub proof fn the_first_directory_provides(
    dirs: Seq<(Seq<char>, Seq<Seq<char>>)>,
    n: int,
    ext: Seq<char>,
    name: Seq<char>,
    k: int,
)
    requires
        0 <= n <= dirs.len(),
        name.len() > 0,
        !ext.contains('.'),
        0 <= k <= n,
        forall|j: int|
            0 <= j < k ==> !(#[trigger] dirs[j]).1.contains(name + "."@ + ext),
        k < n ==> dirs[k].1.contains(name + "."@ + ext),
    ensures
        k < n ==> lib_of(found_all(dirs, n, ext), name, 0) == Some(
            pushed(dirs[k].0, name + "."@ + ext),
        ),
        k == n ==> lib_of(found_all(dirs, n, ext), name, 0) is None,
    decreases n,
{
    let file = name + "."@ + ext;
    if n > 0 {
        let last = dirs[n - 1];
        directories_add(
            found_all(dirs, n - 1, ext),
            last.0,
            last.1,
            last.1.len() as int,
            ext,
            name,
        );
        if k < n - 1 {
            the_first_directory_provides(dirs, n - 1, ext, name, k);
        } else {
            the_first_directory_provides(dirs, n - 1, ext, name, n - 1);
            if k == n {
                assert(!dirs[n - 1].1.contains(file));
                assert forall|i: int| 0 <= i < last.1.len() implies last.1[i] != file by {
                    assert(last.1.contains(last.1[i]));
                }
            } else {
                let i = choose|i: int| 0 <= i < last.1.len() && last.1[i] == file;
                assert(last.1[i] == file);
            }
        }
    }
}

/// Activating brings the library into the pool, then into the emptied slot, and puts the
/// credential beside it or takes an old one away.
pub proof fn activation_ends_in_the_slot(
    name: Seq<char>,
    src: Seq<char>,
    pool: Seq<char>,
    slot: Seq<char>,
    names: Seq<Seq<char>>,
    ext: Seq<char>,
    key: Option<Seq<u8>>,
)
    ensures
        ({
            let a = activation(name, src, pool, slot, names, ext, key);
            let n = a.len() as int;
            let file = name + "."@ + ext;
            &&& n >= 4
            &&& a[0] == OpV::MakeDir(pool)
            &&& !same(src, pushed(pool, file)) ==> a[1] == OpV::Copy(src, pushed(pool, file))
            &&& a[n - 3] == OpV::MakeDir(slot)
            &&& a[n - 2] == OpV::Copy(pushed(pool, file), pushed(slot, file))
            &&& key matches Some(b) ==> a[n - 1] == OpV::WritePrivate(config_of(slot), b)
            &&& key is None ==> a[n - 1] == OpV::RemoveIfThere(config_of(slot))
        }),
{
}

/// Storing a key writes it to its file, and to the slot's where the provider is active.
pub proof fn keys_are_stored_privately(
    path: Seq<char>,
    slot: Seq<char>,
    key: Seq<char>,
    d: Seq<char>,
)
    requires
        parent_path(path) == Some(d),
    ensures
        storing(path, slot, false, key) == seq![
            OpV::MakeDir(d),
            OpV::WritePrivate(path, one_member("api_key"@, key)),
        ],
        storing(path, slot, true, key) == seq![
            OpV::MakeDir(d),
            OpV::WritePrivate(path, one_member("api_key"@, key)),
            OpV::WritePrivate(config_of(slot), one_member("api_key"@, key)),
        ],
{
    assert(storing(path, slot, false, key) =~= seq![
        OpV::MakeDir(d),
        OpV::WritePrivate(path, one_member("api_key"@, key)),
    ]);
    assert(storing(path, slot, true, key) =~= seq![
        OpV::MakeDir(d),
        OpV::WritePrivate(path, one_member("api_key"@, key)),
        OpV::WritePrivate(config_of(slot), one_member("api_key"@, key)),
    ]);
}

/// A temporary file lies in the directory of the file it is for, hidden, and carries its
/// name.
pub proof fn temporaries_lie_beside_the_file(path: Seq<char>, d: Seq<char>, n: Seq<char>, a: nat, b: nat)
    requires
        parent_path(path) == Some(d),
        file_name(path) == Some(n),
    ensures
        temp_of(path, a, b) == pushed(
            d,
            "."@ + n + "."@ + decimal_nat(a) + "."@ + decimal_nat(b) + ".tmp"@,
        ),
{
}

/// Capitals go character by character.
pub proof fn capitals_go_by_character(s: Seq<char>)
    ensures
        ascii_capitals(s).len() == s.len(),
        forall|i: int| 0 <= i < s.len() ==> #[trigger] ascii_capitals(s)[i] == ascii_upper(s[i]),
    decreases s.len(),
{
    if s.len() > 0 {
        let r = s.drop_last();
        capitals_go_by_character(r);
        assert forall|i: int| 0 <= i < s.len() implies #[trigger] ascii_capitals(s)[i]
            == ascii_upper(s[i]) by {
            if i < r.len() {
                assert(ascii_capitals(r)[i] == ascii_upper(r[i]));
            }
        }
    }
}

} // verus!
