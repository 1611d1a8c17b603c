//! Where the search for `Volt.toml` stops. The search walks up from the
//! directory of a source file and stops at the first manifest; the
//! nearest git root bounds it inclusively (its own manifest is read,
//! nothing above it), a home directory exclusively (its manifest counts
//! only when the search starts there). A `VOLT_MANIFEST_DIR` override
//! replaces the search: the manifest there, or none.
//!
//! The file system is observed by the caller; this module decides on
//! what was observed.

use vstd::prelude::*;

use crate::text::eq_str;

verus! {

/// The manifest's file name.
pub const MANIFEST_FILE: &'static str = "Volt.toml";

/// The environment variable that overrides the search.
pub const MANIFEST_DIR_ENV: &'static str = "VOLT_MANIFEST_DIR";

/// What the search takes from the environment.
#[derive(Clone, Debug, PartialEq, Eq)]
pub struct SearchEnv {
    /// `VOLT_MANIFEST_DIR`, where set and non-empty.
    pub override_dir: Option<String>,
    /// Home directories: the exclusive ceiling.
    pub homes: Vec<String>,
}

/// Where a search stopped without finding a manifest.
#[derive(Clone, Debug, PartialEq, Eq)]
pub enum SearchStop {
    /// The override directory holds no manifest.
    Override(String),
    /// The git root (inclusive ceiling).
    GitRoot(String),
    /// A home directory (exclusive ceiling).
    Home(String),
    /// The file-system root, or the start of a relative path: no ceiling seen.
    Exhausted,
}

/// What the file system shows of one directory on the way up.
#[derive(Clone, Debug, PartialEq, Eq)]
pub struct DirFacts {
    /// The directory as the walk reached it.
    pub path: String,
    /// Its canonical form (the path itself where it cannot be resolved).
    pub canonical: String,
    /// It holds a `Volt.toml` file.
    pub has_manifest: bool,
    /// It holds a `.git` entry (directory, or the file of a worktree or
    /// submodule).
    pub has_git: bool,
}

/// What the search does at one directory.
#[derive(Clone, Copy, Debug, PartialEq, Eq, Structural)]
pub enum DirVerdict {
    /// Nothing here: go on to the parent.
    Continue,
    /// The manifest is here.
    Manifest,
    /// A git root without a manifest.
    GitRoot,
    /// A home directory.
    Home,
}

/// The verdict at a directory; `first` says whether the search started
/// there, `home` whether it is a home directory.
pub open spec fn verdict_spec(f: DirFacts, home: bool, first: bool) -> DirVerdict {
    if home && !first {
        DirVerdict::Home
    } else if f.has_manifest {
        DirVerdict::Manifest
    } else if f.has_git {
        DirVerdict::GitRoot
    } else if home {
        DirVerdict::Home
    } else {
        DirVerdict::Continue
    }
}

pub open spec fn is_home(homes: Seq<String>, f: DirFacts) -> bool {
    exists|k: int| 0 <= k < homes.len() && (#[trigger] homes[k])@ == f.canonical@
}

pub open spec fn verdict_at(chain: Seq<DirFacts>, homes: Seq<String>, i: int) -> DirVerdict {
    verdict_spec(chain[i], is_home(homes, chain[i]), i == 0)
}

/// The index where the walk over `chain[i..]` stops, or `chain.len()`.
pub open spec fn stop_index(chain: Seq<DirFacts>, homes: Seq<String>, i: int) -> int
    decreases chain.len() - i,
{
    if i < 0 || i >= chain.len() {
        chain.len() as int
    } else if verdict_at(chain, homes, i) != DirVerdict::Continue {
        i
    } else {
        stop_index(chain, homes, i + 1)
    }
}

/// The outcome of a search over `chain`, the start directory and its
/// ancestors in order, without an override.
pub open spec fn walk_outcome(
    chain: Seq<DirFacts>,
    homes: Seq<String>,
    r: Result<String, SearchStop>,
) -> bool {
    let j = stop_index(chain, homes, 0);
    if j >= chain.len() {
        r == Result::<String, SearchStop>::Err(SearchStop::Exhausted)
    } else {
        match verdict_at(chain, homes, j) {
            DirVerdict::Manifest => r matches Ok(p) && p@ == chain[j].path@,
            DirVerdict::GitRoot => r matches Err(SearchStop::GitRoot(p)) && p@ == chain[j].path@,
            _ => r matches Err(SearchStop::Home(p)) && p@ == chain[j].path@,
        }
    }
}

proof fn lemma_stop_index(chain: Seq<DirFacts>, homes: Seq<String>, i: int)
    requires
        0 <= i,
    ensures
        i <= stop_index(chain, homes, i) <= chain.len() || (i > chain.len() && stop_index(chain, homes, i) == chain.len()),
        forall|k: int| i <= k < stop_index(chain, homes, i) ==> verdict_at(chain, homes, k) == DirVerdict::Continue,
        stop_index(chain, homes, i) < chain.len() ==> verdict_at(chain, homes, stop_index(chain, homes, i)) != DirVerdict::Continue,
    decreases chain.len() - i,
{
    if i < chain.len() && verdict_at(chain, homes, i) == DirVerdict::Continue {
        lemma_stop_index(chain, homes, i + 1);
    }
}

/// A home directory is a ceiling: without a manifest or a git entry the
/// search stops there, and one it did not start in stops it whatever it
/// holds.
pub proof fn law_home_verdict(f: DirFacts, first: bool)
    ensures
        !f.has_manifest && !f.has_git ==> verdict_spec(f, true, first) == DirVerdict::Home,
        !first ==> verdict_spec(f, true, first) == DirVerdict::Home,
        verdict_spec(f, false, first) != DirVerdict::Home,
{
}

/// The search never reads past a home directory or a git root: the
/// directory it answers with (a manifest, a git root or a home) is the
/// first directory of the chain that is any of these, and a home
/// directory's manifest counts only where the search started there. Where
/// it runs out, no directory of the chain is a home, a git root or holds
/// a manifest.
pub proof fn law_search_ceilings(chain: Seq<DirFacts>, homes: Seq<String>, r: Result<String, SearchStop>)
    requires
        walk_outcome(chain, homes, r),
    ensures
        (r is Ok || (r matches Err(SearchStop::GitRoot(_))) || (r matches Err(SearchStop::Home(_)))) ==> exists|j: int| #![trigger chain[j]]
            0 <= j < chain.len() && (forall|k: int| 0 <= k < j ==> !is_home(homes, #[trigger] chain[k]) && !chain[k].has_manifest
                && !chain[k].has_git) && match r {
                Ok(p) => p@ == chain[j].path@ && chain[j].has_manifest && (j > 0 ==> !is_home(homes, chain[j])),
                Err(SearchStop::GitRoot(p)) => p@ == chain[j].path@ && chain[j].has_git && !chain[j].has_manifest && (j > 0
                    ==> !is_home(homes, chain[j])),
                Err(SearchStop::Home(p)) => p@ == chain[j].path@ && is_home(homes, chain[j]),
                _ => false,
            },
        r == Result::<String, SearchStop>::Err(SearchStop::Exhausted) ==> forall|k: int|
            0 <= k < chain.len() ==> !is_home(homes, #[trigger] chain[k]) && !chain[k].has_manifest && !chain[k].has_git,
        !(r matches Err(SearchStop::Override(_))),
{
    lemma_stop_index(chain, homes, 0);
    let j = stop_index(chain, homes, 0);
    assert forall|k: int| 0 <= k < j implies !is_home(homes, #[trigger] chain[k]) && !chain[k].has_manifest && !chain[k].has_git by {
        assert(verdict_at(chain, homes, k) == DirVerdict::Continue);
    }
    if j < chain.len() {
        let fj = chain[j];
        assert(0 <= j < chain.len());
    }
}

/// The verdict at one directory.
pub fn dir_verdict(f: &DirFacts, home: bool, first: bool) -> (r: DirVerdict)
    ensures
        r == verdict_spec(*f, home, first),
{
    if home && !first {
        DirVerdict::Home
    } else if f.has_manifest {
        DirVerdict::Manifest
    } else if f.has_git {
        DirVerdict::GitRoot
    } else if home {
        DirVerdict::Home
    } else {
        DirVerdict::Continue
    }
}

fn is_home_dir(homes: &Vec<String>, f: &DirFacts) -> (r: bool)
    ensures
        r == is_home(homes@, *f),
{
    let mut k: usize = 0;
    while k < homes.len()
        invariant
            k <= homes@.len(),
            forall|m: int| 0 <= m < k ==> (#[trigger] homes@[m])@ != f.canonical@,
        decreases homes@.len() - k,
    {
        if eq_str(homes[k].as_str(), f.canonical.as_str()) {
            return true;
        }
        k = k + 1;
    }
    false
}

/// The manifest directory (`Ok`) or where the search stopped (`Err`).
/// `override_has_manifest` says whether the override directory, if any,
/// holds a manifest; `chain` is the start directory followed by its
/// ancestors, nearest first; `canonical_homes` are the canonical forms of
/// `env.homes`.
pub fn find_manifest_dir_in(
    env: &SearchEnv,
    override_has_manifest: bool,
    chain: &Vec<DirFacts>,
    canonical_homes: &Vec<String>,
) -> (r: Result<String, SearchStop>)
    ensures
        match env.override_dir {
            Some(d) => if override_has_manifest {
                r matches Ok(p) && p@ == d@
            } else {
                r matches Err(SearchStop::Override(p)) && p@ == d@
            },
            None => walk_outcome(chain@, canonical_homes@, r),
        },
{
    match &env.override_dir {
        Some(d) => {
            return if override_has_manifest {
                Ok(d.clone())
            } else {
                Err(SearchStop::Override(d.clone()))
            };
        },
        None => {},
    }
    let mut i: usize = 0;
    while i < chain.len()
        invariant
            env.override_dir is None,
            i <= chain@.len(),
            stop_index(chain@, canonical_homes@, i as int) == stop_index(
                chain@,
                canonical_homes@,
                0,
            ),
        decreases chain@.len() - i,
    {
        let f = &chain[i];
        let home = is_home_dir(canonical_homes, f);
        let v = dir_verdict(f, home, i == 0);
        match v {
            DirVerdict::Continue => {},
            DirVerdict::Manifest => {
                return Ok(f.path.clone());
            },
            DirVerdict::GitRoot => {
                return Err(SearchStop::GitRoot(f.path.clone()));
            },
            DirVerdict::Home => {
                return Err(SearchStop::Home(f.path.clone()));
            },
        }
        i = i + 1;
    }
    Err(SearchStop::Exhausted)
}

} // verus!
