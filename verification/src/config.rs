//! User configuration: the indexed roots and the excluded paths.
//!
//! `mikke index <dir>` adds a root here; `mikke index` without argument
//! reindexes every root. The configuration is the source of truth: an
//! indexed file that no longer lives under any root leaves the index.
//! Paths are stored with `~/` standing for the home directory.

use vstd::prelude::*;
use vstd::string::*;

use crate::paths::{is_component_prefix, path_eq, path_join, path_strip_prefix, same_path, spec_join, stripped_path};
use crate::text::collect_chars;

verus! {

pub struct Config {
    /// Directories indexed by `mikke index`.
    pub roots: Vec<String>,
    /// Paths never indexed (prefixes, `~` accepted).
    pub exclude: Vec<String>,
}

impl Default for Config {
    /// No roots, no exclusions.
    fn default() -> (res: Config)
        ensures
            res.roots@.len() == 0,
            res.exclude@.len() == 0,
    {
        Config { roots: Vec::new(), exclude: Vec::new() }
    }
}

/// The characters `~/`.
pub open spec fn tilde_slash() -> Seq<char> {
    seq!['~', '/']
}

pub open spec fn starts_with_tilde_slash(s: Seq<char>) -> bool {
    s.len() >= 2 && s.take(2) == tilde_slash()
}

/// `~/Documents` -> `<home>/Documents`; any other path is kept as it is.
pub open spec fn spec_expand(path: Seq<char>, home: Seq<char>) -> Seq<char> {
    if starts_with_tilde_slash(path) {
        spec_join(home, path.skip(2))
    } else {
        path
    }
}

/// `<home>/Documents` -> `~/Documents` (easier to read in the file); a path
/// outside the home directory is kept as it is.
pub open spec fn spec_contract(path: Seq<char>, home: Seq<char>) -> Seq<char> {
    match stripped_path(path, home) {
        Some(rest) => tilde_slash() + rest,
        None => path,
    }
}

/// Some root of `roots` expands to the same path as `dir`.
pub open spec fn covered(roots: Seq<String>, dir: Seq<char>, home: Seq<char>) -> bool {
    exists|i: int| 0 <= i < roots.len() && same_path(spec_expand(roots[i]@, home), dir)
}

/// The roots as strings.
pub open spec fn root_texts(roots: Seq<String>) -> Seq<Seq<char>> {
    roots.map_values(|r: String| r@)
}

/// Adding `dir`: nothing changes when a root already expands to it;
/// otherwise its contracted form is appended.
pub open spec fn spec_add_root(roots: Seq<String>, dir: Seq<char>, home: Seq<char>) -> (Seq<Seq<char>>, bool) {
    if covered(roots, dir, home) {
        (root_texts(roots), false)
    } else {
        (root_texts(roots).push(spec_contract(dir, home)), true)
    }
}

fn starts_with_tilde(path: &str) -> (res: bool)
    ensures
        res == starts_with_tilde_slash(path@),
{
    let c = collect_chars(path);
    if c.len() >= 2 && c[0] == '~' && c[1] == '/' {
        proof {
            assert(path@.take(2) =~= tilde_slash());
        }
        true
    } else {
        proof {
            if path@.len() >= 2 && path@.take(2) == tilde_slash() {
                assert(path@[0] == path@.take(2)[0]);
                assert(path@[1] == path@.take(2)[1]);
            }
        }
        false
    }
}

/// `~/Documents` -> `<home>/Documents`.
pub fn expand(path: &str, home: &str) -> (res: String)
    ensures
        res@ == spec_expand(path@, home@),
{
    if starts_with_tilde(path) {
        let n = collect_chars(path).len();
        let rest = path.substring_char(2, n);
        path_join(home, rest)
    } else {
        path.to_owned()
    }
}

/// `<home>/Documents` -> `~/Documents`; a path outside the home directory is
/// kept. Expanding the result gives back the same path.
pub fn contract(path: &str, home: &str) -> (res: String)
    ensures
        res@ == spec_contract(path@, home@),
        !is_component_prefix(home@, path@) ==> res@ == path@,
        is_component_prefix(home@, path@) ==> starts_with_tilde_slash(res@),
        stripped_path(path@, home@) matches Some(rest) ==> same_path(spec_join(home@, rest), path@),
        !starts_with_tilde_slash(path@) ==> same_path(spec_expand(res@, home@), path@),
{
    match path_strip_prefix(path, home) {
        Some(rest) => {
            let mut out = String::new();
            out.append("~/");
            proof {
                reveal_strlit("~/");
                assert("~/"@ =~= tilde_slash());
            }
            out.append(rest.as_str());
            proof {
                assert(out@ =~= tilde_slash() + rest@);
                assert(out@.skip(2) =~= rest@);
                assert(out@.take(2) =~= tilde_slash());
            }
            out
        },
        None => path.to_owned(),
    }
}

fn expand_all(paths: &Vec<String>, home: &str) -> (res: Vec<String>)
    ensures
        res@.len() == paths@.len(),
        forall|i: int| 0 <= i < res@.len() ==> (#[trigger] res@[i])@ == spec_expand(paths@[i]@, home@),
{
    let mut out: Vec<String> = Vec::new();
    let mut i: usize = 0;
    while i < paths.len()
        invariant
            i <= paths@.len(),
            out@.len() == i,
            forall|j: int| 0 <= j < i ==> (#[trigger] out@[j])@ == spec_expand(paths@[j]@, home@),
        decreases paths@.len() - i,
    {
        out.push(expand(paths[i].as_str(), home));
        i = i + 1;
    }
    out
}

impl Config {
    /// An empty configuration: no roots, no exclusions.
    pub fn new() -> (res: Config)
        ensures
            res.roots@.len() == 0,
            res.exclude@.len() == 0,
    {
        Config { roots: Vec::new(), exclude: Vec::new() }
    }

    /// Adds a root (deduplicated: a root that already expands to the same
    /// path as `dir` counts as `dir`). Returns whether the configuration
    /// changed. Roots are only ever appended, never removed or reordered.
    pub fn add_root(&mut self, dir: &str, home: &str) -> (res: bool)
        ensures
            (root_texts(final(self).roots@), res) == spec_add_root(old(self).roots@, dir@, home@),
            final(self).exclude@ == old(self).exclude@,
            !starts_with_tilde_slash(dir@) ==> covered(final(self).roots@, dir@, home@),
    {
        let entry = contract(dir, home);
        let mut i: usize = 0;
        while i < self.roots.len()
            invariant
                i <= self.roots@.len(),
                forall|j: int| 0 <= j < i ==> !same_path(spec_expand(self.roots@[j]@, home@), dir@),
            decreases self.roots@.len() - i,
        {
            let e = expand(self.roots[i].as_str(), home);
            if path_eq(e.as_str(), dir) {
                proof {
                    assert(covered(self.roots@, dir@, home@));
                    assert(root_texts(self.roots@) == root_texts(old(self).roots@));
                }
                return false;
            }
            i = i + 1;
        }
        proof {
            assert(!covered(self.roots@, dir@, home@));
        }
        let ghost before = self.roots@;
        self.roots.push(entry);
        proof {
            assert(root_texts(self.roots@) =~= root_texts(before).push(entry@));
            if !starts_with_tilde_slash(dir@) {
                let k = (self.roots@.len() - 1) as int;
                assert(self.roots@[k]@ == spec_contract(dir@, home@));
                match stripped_path(dir@, home@) {
                    Some(rest) => {
                        assert((tilde_slash() + rest).skip(2) =~= rest);
                        assert(starts_with_tilde_slash(tilde_slash() + rest)) by {
                            assert((tilde_slash() + rest).take(2) =~= tilde_slash());
                        }
                    },
                    None => {},
                }
                assert(same_path(spec_expand(self.roots@[k]@, home@), dir@));
            }
        }
        true
    }

    /// The roots, `~` expanded.
    pub fn root_paths(&self, home: &str) -> (res: Vec<String>)
        ensures
            res@.len() == self.roots@.len(),
            forall|i: int| 0 <= i < res@.len() ==> (#[trigger] res@[i])@ == spec_expand(self.roots@[i]@, home@),
    {
        expand_all(&self.roots, home)
    }

    /// The exclusions, `~` expanded.
    pub fn exclude_paths(&self, home: &str) -> (res: Vec<String>)
        ensures
            res@.len() == self.exclude@.len(),
            forall|i: int| 0 <= i < res@.len() ==> (#[trigger] res@[i])@ == spec_expand(self.exclude@[i]@, home@),
    {
        expand_all(&self.exclude, home)
    }
}

/// Adding a root that is already covered changes nothing; in particular,
/// adding the same directory twice adds it once.
pub proof fn law_add_root_covered_is_noop(roots: Seq<String>, dir: Seq<char>, home: Seq<char>)
    requires
        covered(roots, dir, home),
    ensures
        spec_add_root(roots, dir, home) == (root_texts(roots), false),
{
}

/// Adding a root never loses one: the earlier roots stay, in order, in front.
pub proof fn law_add_root_keeps_roots(roots: Seq<String>, dir: Seq<char>, home: Seq<char>)
    ensures
        spec_add_root(roots, dir, home).0.len() >= roots.len(),
        spec_add_root(roots, dir, home).0.take(roots.len() as int) == root_texts(roots),
{
    assert(root_texts(roots).push(spec_contract(dir, home)).take(roots.len() as int) =~= root_texts(roots));
    assert(root_texts(roots).take(roots.len() as int) =~= root_texts(roots));
}


/// Where the configuration file lives: `$MIKKE_CONFIG` when set; else
/// `mikke/config.toml` under `$XDG_CONFIG_HOME`, or under `~/.config` when
/// that is not set.
pub open spec fn spec_config_path(mikke_config: Option<Seq<char>>, xdg_config_home: Option<Seq<char>>, home: Seq<char>) -> Seq<char> {
    match mikke_config {
        Some(p) => p,
        None => {
            let base = match xdg_config_home {
                Some(x) => x,
                None => spec_join(home, ".config"@),
            };
            spec_join(spec_join(base, "mikke"@), "config.toml"@)
        },
    }
}

/// The configuration path given the values of `MIKKE_CONFIG`,
/// `XDG_CONFIG_HOME` and `HOME` (see [`spec_config_path`]).
pub fn config_path(mikke_config: Option<&str>, xdg_config_home: Option<&str>, home: &str) -> (res: String)
    ensures
        res@ == spec_config_path(
            match mikke_config {
                Some(p) => Some(p@),
                None => None,
            },
            match xdg_config_home {
                Some(x) => Some(x@),
                None => None,
            },
            home@,
        ),
{
    match mikke_config {
        Some(p) => p.to_owned(),
        None => {
            let base = match xdg_config_home {
                Some(x) => x.to_owned(),
                None => path_join(home, ".config"),
            };
            let dir = path_join(base.as_str(), "mikke");
            path_join(dir.as_str(), "config.toml")
        },
    }
}

/// Where the index and the models live: `$MIKKE_DATA` when set; else
/// `mikke` under `$XDG_DATA_HOME`, or under `~/.local/share` when that is
/// not set.
pub open spec fn spec_data_dir(mikke_data: Option<Seq<char>>, xdg_data_home: Option<Seq<char>>, home: Seq<char>) -> Seq<char> {
    match mikke_data {
        Some(p) => p,
        None => {
            let base = match xdg_data_home {
                Some(x) => x,
                None => spec_join(home, ".local/share"@),
            };
            spec_join(base, "mikke"@)
        },
    }
}

/// The data directory given the values of `MIKKE_DATA`, `XDG_DATA_HOME`
/// and `HOME` (see [`spec_data_dir`]).
pub fn data_dir(mikke_data: Option<&str>, xdg_data_home: Option<&str>, home: &str) -> (res: String)
    ensures
        res@ == spec_data_dir(
            match mikke_data {
                Some(p) => Some(p@),
                None => None,
            },
            match xdg_data_home {
                Some(x) => Some(x@),
                None => None,
            },
            home@,
        ),
{
    match mikke_data {
        Some(p) => p.to_owned(),
        None => {
            let base = match xdg_data_home {
                Some(x) => x.to_owned(),
                None => path_join(home, ".local/share"),
            };
            path_join(base.as_str(), "mikke")
        },
    }
}

}
