//! A project on disk: its manifest, its libraries and packages, and its imports.
//!
//! Nothing here reads a file. What is on disk comes in as values, or through a question
//! the caller answers.

pub mod course;
pub mod dependency;
pub mod discover;
pub mod imports;
pub mod library;
pub mod package;
pub mod reach;

use vstd::prelude::*;

use crate::pathf::push_path;
#[allow(unused_imports)]
use crate::pathf::pushed;
#[allow(unused_imports)]
use crate::sort::{distinct_keys, keyed};

pub use dependency::{Abi, CBuffer, CFailure, CStruct, CSymbol, DependencyEntry};
pub use dependency::{PLATFORM_PLACEHOLDER, UNRESOLVED};
pub use discover::{find_project_root_from, find_test_files, probe_of, Entry, Probe};
pub use imports::{program_import_paths, resolve_import, ImportContext, ImportTarget};
pub use library::{ambiguous_bare_import, resolve_library_import, resolve_relative_import};
pub use library::{ImportKind, LibraryEntry, ResolvedLib};
pub use package::PackageSection;
pub use reach::{reachable_jade_modules, walk_imports};

verus! {

/// The `[project]` section of a manifest.
#[derive(Debug, Clone)]
pub struct ProjectSection {
    /// The project's name.
    pub name: String,
    /// Its version.
    pub version: Option<String>,
    /// Its entry file.
    pub entry: Option<String>,
}

/// A manifest. Tables are lists of names and entries, each name once.
#[derive(Debug, Clone, Default)]
pub struct ProjectManifest {
    /// The `[project]` section.
    pub project: Option<ProjectSection>,
    /// The `[scripts]` table.
    pub scripts: Option<Vec<(String, String)>>,
    /// The `[dependencies]` table.
    pub dependencies: Option<Vec<(String, DependencyEntry)>>,
    /// The `[lib]` table.
    pub lib: Option<Vec<(String, LibraryEntry)>>,
    /// The `[package]` section.
    pub package: Option<PackageSection>,
}

/// No dependency is listed twice, and each is well formed.
pub open spec fn dependencies_wf(d: Seq<(String, DependencyEntry)>) -> bool {
    &&& distinct_keys(keyed(d))
    &&& forall|i: int| 0 <= i < d.len() ==> (#[trigger] d[i]).1.wf()
}

impl ProjectManifest {
    /// No table has a name twice, and every dependency is well formed.
    pub open spec fn wf(&self) -> bool {
        &&& self.scripts matches Some(s) ==> distinct_keys(keyed(s@))
        &&& self.dependencies matches Some(d) ==> dependencies_wf(d@)
        &&& self.lib matches Some(l) ==> distinct_keys(keyed(l@))
    }

    /// Whether the manifest declares a project.
    pub fn is_project(&self) -> (r: bool)
        ensures
            r == (self.project is Some),
    {
        self.project.is_some()
    }

    /// The project's entry file, `main.jde` unless it says otherwise.
    pub fn entry_file(&self) -> (r: &str)
        ensures
            r@ == match self.project {
                Some(p) => match p.entry {
                    Some(e) => e@,
                    None => "main.jde"@,
                },
                None => "main.jde"@,
            },
    {
        match &self.project {
            Some(p) => match &p.entry {
                Some(e) => e.as_str(),
                None => "main.jde",
            },
            None => "main.jde",
        }
    }
}

/// Why a manifest could not be read.
#[derive(Debug)]
pub enum ManifestError {
    /// There is no manifest at this path.
    Missing(String),
    /// The manifest at this path cannot be read, and why.
    Unreadable(String, String),
    /// The manifest at this path is not valid, and what the parser says.
    Malformed(String, String),
}

/// What a manifest failure is reported as.
pub open spec fn manifest_error_text(e: ManifestError) -> Seq<char> {
    match e {
        ManifestError::Missing(p) => "no jade.toml at "@ + p@,
        ManifestError::Unreadable(p, m) => "cannot read "@ + p@ + ": "@ + m@,
        ManifestError::Malformed(p, m) => p@ + " is not valid TOML\n"@ + m@
            + "\nFix the line above, then re-run."@,
    }
}

impl ManifestError {
    /// Whether there is a manifest, and this is a complaint about it.
    pub fn is_present(&self) -> (r: bool)
        ensures
            r == !(*self is Missing),
    {
        match self {
            ManifestError::Missing(_) => false,
            _ => true,
        }
    }

    /// What the failure is reported as.
    pub fn text(&self) -> (r: String)
        ensures
            r@ == manifest_error_text(*self),
    {
        match self {
            ManifestError::Missing(p) => {
                let mut s = "no jade.toml at ".to_owned();
                s.append(p.as_str());
                s
            },
            ManifestError::Unreadable(p, m) => {
                let mut s = "cannot read ".to_owned();
                s.append(p.as_str());
                s.append(": ");
                s.append(m.as_str());
                s
            },
            ManifestError::Malformed(p, m) => {
                let mut s = p.clone();
                s.append(" is not valid TOML\n");
                s.append(m.as_str());
                s.append("\nFix the line above, then re-run.");
                s
            },
        }
    }
}

/// What reading a manifest came to, given what reading the file at its path came to:
/// the parsed manifest, the parser's complaint, or why there was no text.
pub fn read_outcome(
    path: String,
    read: Result<Result<ProjectManifest, String>, (bool, String)>,
) -> (r: Result<ProjectManifest, ManifestError>)
    ensures
        r == match read {
            Ok(Ok(m)) => Ok(m),
            Ok(Err(e)) => Err(ManifestError::Malformed(path, e)),
            Err((missing, e)) => Err(
                if missing {
                    ManifestError::Missing(path)
                } else {
                    ManifestError::Unreadable(path, e)
                },
            ),
        },
{
    match read {
        Ok(Ok(m)) => Ok(m),
        Ok(Err(e)) => Err(ManifestError::Malformed(path, e)),
        Err((missing, e)) => {
            if missing {
                Err(ManifestError::Missing(path))
            } else {
                Err(ManifestError::Unreadable(path, e))
            }
        },
    }
}

/// What reading the manifest at a path came to.
pub open spec fn read_as(
    path: Seq<char>,
    read: Result<Result<ProjectManifest, String>, (bool, String)>,
    r: Result<ProjectManifest, ManifestError>,
) -> bool {
    match read {
        Ok(Ok(m)) => r == Ok::<ProjectManifest, ManifestError>(m),
        Ok(Err(e)) => r matches Err(ManifestError::Malformed(p, x)) && p@ == path && x == e,
        Err((true, _)) => r matches Err(ManifestError::Missing(p)) && p@ == path,
        Err((false, e)) => r matches Err(ManifestError::Unreadable(p, x)) && p@ == path && x == e,
    }
}

/// Loading the manifest of the directory may come to `r`.
pub open spec fn loads<R: Fn(&str) -> Result<Result<ProjectManifest, String>, (bool, String)>>(
    read: R,
    dir: Seq<char>,
    r: Result<ProjectManifest, ManifestError>,
) -> bool {
    exists|s: &str, answer: Result<Result<ProjectManifest, String>, (bool, String)>|
        s@ == pushed(dir, "jade.toml"@) && #[trigger] call_ensures(read, (s,), answer) && read_as(
            s@,
            answer,
            r,
        )
}

/// Every manifest that is read has its tables in order: no name is there twice.
pub open spec fn reads_tables<
    R: Fn(&str) -> Result<Result<ProjectManifest, String>, (bool, String)>,
>(read: R) -> bool {
    forall|s: &str, m: ProjectManifest| #[trigger]
        call_ensures(read, (s,), Ok(Ok(m))) ==> m.wf()
}

/// The manifest of the project at `root`. `read` reads and parses the file at a path; an
/// error of its own says whether the file is missing, and why it cannot be read.
pub fn load_project<
    R: Fn(&str) -> Result<Result<ProjectManifest, String>, (bool, String)>,
>(root: &str, read: &R) -> (r: Result<ProjectManifest, ManifestError>)
    requires
        forall|s: &str| #[trigger] call_requires(*read, (s,)),
        reads_tables(*read),
    ensures
        loads(*read, root@, r),
        r matches Ok(m) ==> m.wf(),
{
    let path = push_path(root, "jade.toml");
    let answer = read(path.as_str());
    let ghost seen = answer;
    let ghost at = path@;
    assert(exists|s: &str| s@ == at && #[trigger] call_ensures(*read, (s,), seen));
    let r = read_outcome(path, answer);
    assert(read_as(at, seen, r));
    r
}

} // verus!
