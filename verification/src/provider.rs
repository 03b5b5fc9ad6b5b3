//! The active-provider slot: where the one provider library the program loads is, and
//! how it is found. What is in the environment and on disk comes in as values.

use vstd::prelude::*;

use crate::infer::conn::to_c_buffer;
use crate::pathf::{name_of, push_path, split_name};
use crate::text::str_eq;
#[allow(unused_imports)]
use crate::pathf::{file_name, pushed, split_ext};
#[allow(unused_imports)]
use crate::text::texts;

verus! {

/// The extension of a provider library that is created here: `dylib` on macOS, `so`
/// elsewhere.
pub fn lib_ext(macos: bool) -> (r: &'static str)
    ensures
        r@ == if macos {
            "dylib"@
        } else {
            "so"@
        },
{
    if macos {
        "dylib"
    } else {
        "so"
    }
}

/// The extension of the file a path names.
pub open spec fn path_ext(p: Seq<char>) -> Option<Seq<char>> {
    match file_name(p) {
        Some(n) => split_ext(n).1,
        None => None,
    }
}

/// The path looks like a provider library. Providers come as `.so` on every platform; a
/// `.dylib` is accepted too.
pub open spec fn is_lib(p: Seq<char>) -> bool {
    path_ext(p) == Some("so"@) || path_ext(p) == Some("dylib"@)
}

/// Whether a path looks like a provider library.
pub fn is_provider_lib(path: &str) -> (r: bool)
    ensures
        r == is_lib(path@),
{
    match name_of(path) {
        Some(n) => match split_name(n.as_str()).1 {
            Some(e) => str_eq(e.as_str(), "so") || str_eq(e.as_str(), "dylib"),
            None => false,
        },
        None => false,
    }
}

/// The view of an optional text.
pub open spec fn opt_view(s: Option<&str>) -> Option<Seq<char>> {
    match s {
        Some(t) => Some(t@),
        None => None,
    }
}

/// The `.jade` directory of a home directory, `/root` when there is none.
pub open spec fn home_of(home: Option<Seq<char>>) -> Seq<char> {
    pushed(
        match home {
            Some(h) => h,
            None => "/root"@,
        },
        ".jade"@,
    )
}

/// The slot's directory: the override when it is set and not empty, else a directory
/// under the home.
pub open spec fn slot_dir(over: Option<Seq<char>>, home: Option<Seq<char>>) -> Seq<char> {
    match over {
        Some(d) if d.len() > 0 => d,
        _ => pushed(pushed(home_of(home), "provider"@), "active"@),
    }
}

/// The per-user home, given the value of `HOME`.
pub fn jade_home(home: Option<&str>) -> (r: String)
    ensures
        r@ == home_of(opt_view(home)),
{
    match home {
        Some(h) => push_path(h, ".jade"),
        None => push_path("/root", ".jade"),
    }
}

/// The slot's directory, given the values of `JADE_PROVIDER_ACTIVE` and `HOME`.
pub fn active_dir(over: Option<&str>, home: Option<&str>) -> (r: String)
    ensures
        r@ == slot_dir(opt_view(over), opt_view(home)),
{
    if let Some(d) = over {
        if !d.is_empty() {
            return d.to_owned();
        }
    }
    let pool = push_path(jade_home(home).as_str(), "provider");
    push_path(pool.as_str(), "active")
}

/// The first provider library, from entry `i` on, among the entries of a directory.
pub open spec fn first_lib(dir: Seq<char>, entries: Seq<Seq<char>>, i: int) -> Option<Seq<char>>
    decreases entries.len() - i,
{
    if i < 0 || i >= entries.len() {
        None
    } else if is_lib(pushed(dir, entries[i])) {
        Some(pushed(dir, entries[i]))
    } else {
        first_lib(dir, entries, i + 1)
    }
}

/// The provider library in the slot, given the slot's directory and the names in it.
pub fn active_lib_path(dir: &str, entries: &[String]) -> (r: Option<String>)
    ensures
        match r {
            Some(p) => first_lib(dir@, texts(entries@), 0) == Some(p@),
            None => first_lib(dir@, texts(entries@), 0) is None,
        },
{
    let ghost t = texts(entries@);
    let mut i: usize = 0;
    while i < entries.len()
        invariant
            i <= entries@.len(),
            t == texts(entries@),
            first_lib(dir@, t, i as int) == first_lib(dir@, t, 0),
        decreases entries@.len() - i,
    {
        assert(t[i as int] == entries@[i as int]@);
        let p = push_path(dir, entries[i].as_str());
        if is_provider_lib(p.as_str()) {
            return Some(p);
        }
        i += 1;
    }
    None
}

/// Whether a provider is installed in the slot.
pub fn is_active(dir: &str, entries: &[String]) -> (r: bool)
    ensures
        r == (first_lib(dir@, texts(entries@), 0) is Some),
{
    active_lib_path(dir, entries).is_some()
}

/// Where the slot's credential is.
pub open spec fn config_of(dir: Seq<char>) -> Seq<char> {
    pushed(dir, "config.json"@)
}

/// Where the slot's credential is.
pub fn config_path(dir: &str) -> (r: String)
    ensures
        r@ == config_of(dir@),
{
    push_path(dir, "config.json")
}

/// The credential of the slot, given what reading it came to; empty when there is none.
pub fn active_config(read: Option<Vec<u8>>) -> (r: Vec<u8>)
    ensures
        r@ == match read {
            Some(b) => b@,
            None => seq![],
        },
{
    match read {
        Some(b) => b,
        None => Vec::new(),
    }
}

/// 1 when a provider is active, else 0.
pub fn jrt_provider_available(dir: &str, entries: &[String]) -> (r: i32)
    ensures
        r == (if first_lib(dir@, texts(entries@), 0) is Some {
            1int
        } else {
            0
        }),
{
    if is_active(dir, entries) {
        1
    } else {
        0
    }
}

/// The path of the active library as terminated octets.
pub fn jrt_provider_active_lib_path(dir: &str, entries: &[String]) -> (r: Option<Vec<u8>>)
    ensures
        match first_lib(dir@, texts(entries@), 0) {
            Some(p) => r matches Some(b) && b@ == vstd::utf8::encode_utf8(p).push(0),
            None => r is None,
        },
{
    match active_lib_path(dir, entries) {
        Some(p) => Some(to_c_buffer(p.as_str().as_bytes())),
        None => None,
    }
}

/// The active configuration as terminated octets; nothing for an empty one.
pub fn jrt_provider_active_config(read: Option<Vec<u8>>) -> (r: Option<Vec<u8>>)
    ensures
        match read {
            Some(b) => if b@.len() > 0 {
                r matches Some(c) && c@ == b@.push(0)
            } else {
                r is None
            },
            None => r is None,
        },
{
    let cfg: Vec<u8> = active_config(read);
    if cfg.len() == 0 {
        None
    } else {
        Some(to_c_buffer(cfg.as_slice()))
    }
}

/// What is found in the slot is in it, and looks like a provider library.
pub proof fn found_is_a_library(dir: Seq<char>, entries: Seq<Seq<char>>, i: int)
    requires
        0 <= i,
    ensures
        first_lib(dir, entries, i) matches Some(p) ==> is_lib(p) && exists|k: int|
            i <= k < entries.len() && p == pushed(dir, #[trigger] entries[k]),
        first_lib(dir, entries, i) is None ==> forall|k: int|
            i <= k < entries.len() ==> !is_lib(pushed(dir, #[trigger] entries[k])),
    decreases entries.len() - i,
{
    if i < entries.len() {
        found_is_a_library(dir, entries, i + 1);
    }
}

/// A file is a library by its extension, whatever its name.
pub proof fn libraries_go_by_extension(dir: Seq<char>, stem: Seq<char>, ext: Seq<char>)
    requires
        stem.len() > 0,
        !stem.contains('/'),
        !ext.contains('/'),
        !ext.contains('.'),
        crate::pathf::plain(stem + "."@ + ext),
    ensures
        path_ext(pushed(dir, stem + "."@ + ext)) == Some(ext),
        is_lib(pushed(dir, stem + "."@ + ext)) <==> ext == "so"@ || ext == "dylib"@,
{
    crate::pathf::joined_name_is_last(dir, stem + "."@ + ext);
    crate::pathf::extensions_come_apart(stem, ext);
}

/// The first entry that is a library is the one found.
pub proof fn the_first_library_is_found(dir: Seq<char>, entries: Seq<Seq<char>>, i: int, k: int)
    requires
        0 <= i <= k < entries.len(),
        is_lib(pushed(dir, entries[k])),
        forall|j: int| i <= j < k ==> !is_lib(pushed(dir, #[trigger] entries[j])),
    ensures
        first_lib(dir, entries, i) == Some(pushed(dir, entries[k])),
    decreases k - i,
{
    if i < k {
        assert(!is_lib(pushed(dir, entries[i])));
        the_first_library_is_found(dir, entries, i + 1, k);
    }
}

/// The slot is the directory given, and else the active one below the home directory; its
/// credential lies in it.
pub proof fn the_slot_lies_below_home(d: Seq<char>, h: Seq<char>)
    requires
        h.len() > 0,
        h.last() != '/',
    ensures
        d.len() > 0 ==> slot_dir(Some(d), Some(h)) == d && slot_dir(Some(d), None) == d,
        home_of(Some(h)) == h + "/.jade"@,
        slot_dir(None, Some(h)) == h + "/.jade/provider/active"@,
        slot_dir(Some(Seq::empty()), Some(h)) == h + "/.jade/provider/active"@,
        slot_dir(None, None) == "/root/.jade/provider/active"@,
        config_of(h) == h + "/config.json"@,
{
    reveal_strlit("/root");
    reveal_strlit(".jade");
    reveal_strlit("/.jade");
    reveal_strlit("provider");
    reveal_strlit("active");
    reveal_strlit("/.jade/provider/active");
    reveal_strlit("/root/.jade/provider/active");
    reveal_strlit("config.json");
    reveal_strlit("/config.json");
    assert(home_of(Some(h)) =~= h + "/.jade"@);
    let p = pushed(home_of(Some(h)), "provider"@);
    assert(p.last() == 'r');
    assert(slot_dir(None, Some(h)) =~= h + "/.jade/provider/active"@);
    assert(slot_dir(None, None) =~= "/root/.jade/provider/active"@);
    assert(config_of(h) =~= h + "/config.json"@);
}

} // verus!
