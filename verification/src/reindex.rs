//! Incremental indexing: which files of a walk are read again, which are
//! unchanged, which have left the index; and which paths the walk covers
//! (the roots, minus the exclusions).
//!
//! A file whose modification time and size are those recorded is not read.
//! One whose metadata changed is read and hashed (BLAKE3): it is indexed
//! again only when its contents differ from what was recorded.

use vstd::prelude::*;

use crate::paths::{is_component_prefix, path_strip_prefix};
use crate::state::FileRecord;

verus! {

/// A file the index holds, with what was recorded of it.
#[derive(Debug, Clone)]
pub struct KnownFile {
    pub path: String,
    pub record: FileRecord,
}

/// A file found by the walk, with its metadata.
#[derive(Debug, Clone)]
pub struct SeenFile {
    pub path: String,
    pub mtime_ns: i64,
    pub size: i64,
}

/// What to do with a file found by the walk.
#[derive(Debug, Clone, Copy, PartialEq, Eq)]
pub enum FileStep {
    /// Same modification time and size as recorded: not read.
    Unchanged,
    /// Metadata changed: read it, and index it again only when its hash is
    /// not the recorded one.
    Check { known_hash: [u8; 32] },
    /// Not in the index yet: read and index it.
    New,
}

/// The steps of a walk, one per file found, and the paths that left.
pub struct ReindexPlan {
    pub steps: Vec<FileStep>,
    pub deleted: Vec<String>,
}

/// The first known file with path `p`.
pub open spec fn find_known(known: Seq<KnownFile>, p: Seq<char>) -> Option<int>
    decreases known.len(),
{
    if known.len() == 0 {
        None
    } else {
        match find_known(known.drop_last(), p) {
            Some(k) => Some(k),
            None => if known.last().path@ == p {
                Some(known.len() - 1)
            } else {
                None
            },
        }
    }
}

/// What to do with the file `s` found by the walk.
pub open spec fn spec_step(known: Seq<KnownFile>, s: SeenFile) -> FileStep {
    match find_known(known, s.path@) {
        None => FileStep::New,
        Some(k) => {
            let r = known[k].record;
            if r.mtime_ns == s.mtime_ns && r.size == s.size {
                FileStep::Unchanged
            } else {
                FileStep::Check { known_hash: r.hash }
            }
        },
    }
}

/// The walk found a file at `p`.
pub open spec fn seen_has(seen: Seq<SeenFile>, p: Seq<char>) -> bool {
    exists|i: int| 0 <= i < seen.len() && (#[trigger] seen[i]).path@ == p
}

/// The paths of the known files that the walk did not find, in order.
pub open spec fn spec_deleted(known: Seq<KnownFile>, seen: Seq<SeenFile>) -> Seq<Seq<char>>
    decreases known.len(),
{
    if known.len() == 0 {
        Seq::empty()
    } else {
        let rest = spec_deleted(known.drop_last(), seen);
        if seen_has(seen, known.last().path@) {
            rest
        } else {
            rest.push(known.last().path@)
        }
    }
}

pub open spec fn string_views(v: Seq<String>) -> Seq<Seq<char>> {
    v.map_values(|s: String| s@)
}

fn find_known_ix(known: &Vec<KnownFile>, p: &String) -> (res: Option<usize>)
    ensures
        match find_known(known@, p@) {
            Some(k) => res is Some && res->0 == k,
            None => res is None,
        },
        res matches Some(k) ==> k < known@.len(),
{
    proof {
        lemma_find_known_bounds(known@, p@);
    }
    let mut i: usize = 0;
    while i < known.len()
        invariant
            i <= known@.len(),
            find_known(known@.take(i as int), p@) is None,
        decreases known@.len() - i,
    {
        proof {
            assert(known@.take(i + 1).drop_last() =~= known@.take(i as int));
        }
        if known[i].path == *p {
            proof {
                lemma_find_known_prefix(known@, i as int + 1, p@);
            }
            return Some(i);
        }
        i = i + 1;
    }
    proof {
        assert(known@.take(known@.len() as int) =~= known@);
    }
    None
}

proof fn lemma_find_known_bounds(known: Seq<KnownFile>, p: Seq<char>)
    ensures
        find_known(known, p) matches Some(k) ==> 0 <= k < known.len() && known[k].path@ == p,
    decreases known.len(),
{
    if known.len() > 0 {
        lemma_find_known_bounds(known.drop_last(), p);
    }
}

proof fn lemma_find_known_prefix(known: Seq<KnownFile>, n: int, p: Seq<char>)
    requires
        0 <= n <= known.len(),
        find_known(known.take(n), p) is Some,
    ensures
        find_known(known, p) == find_known(known.take(n), p),
    decreases known.len() - n,
{
    if n < known.len() {
        assert(known.take(n + 1).drop_last() =~= known.take(n));
        lemma_find_known_prefix(known, n + 1, p);
    } else {
        assert(known.take(n) =~= known);
    }
}

fn seen_contains(seen: &Vec<SeenFile>, p: &String) -> (res: bool)
    ensures
        res == seen_has(seen@, p@),
{
    let mut i: usize = 0;
    while i < seen.len()
        invariant
            i <= seen@.len(),
            forall|j: int| 0 <= j < i ==> (#[trigger] seen@[j]).path@ != p@,
        decreases seen@.len() - i,
    {
        if seen[i].path == *p {
            assert(seen@[i as int].path@ == p@);
            return true;
        }
        i = i + 1;
    }
    false
}

/// The plan of a walk: for each file found, what to do with it (see
/// [`spec_step`]); and the known files it did not find, which leave the
/// index (see [`spec_deleted`]).
pub fn plan_reindex(known: &Vec<KnownFile>, seen: &Vec<SeenFile>) -> (res: ReindexPlan)
    ensures
        res.steps@.len() == seen@.len(),
        forall|i: int| 0 <= i < seen@.len() ==> res.steps@[i] == spec_step(known@, #[trigger] seen@[i]),
        string_views(res.deleted@) == spec_deleted(known@, seen@),
{
    let mut steps: Vec<FileStep> = Vec::new();
    let mut i: usize = 0;
    while i < seen.len()
        invariant
            i <= seen@.len(),
            steps@.len() == i,
            forall|j: int| 0 <= j < i ==> steps@[j] == spec_step(known@, #[trigger] seen@[j]),
        decreases seen@.len() - i,
    {
        let s = &seen[i];
        proof {
            lemma_find_known_bounds(known@, s.path@);
        }
        let found = find_known_ix(known, &s.path);
        let step = match found {
            None => FileStep::New,
            Some(k) => {
                let r = known[k].record;
                if r.mtime_ns == s.mtime_ns && r.size == s.size {
                    FileStep::Unchanged
                } else {
                    FileStep::Check { known_hash: r.hash }
                }
            },
        };
        steps.push(step);
        i = i + 1;
    }
    let mut deleted: Vec<String> = Vec::new();
    let mut k: usize = 0;
    while k < known.len()
        invariant
            k <= known@.len(),
            string_views(deleted@) == spec_deleted(known@.take(k as int), seen@),
        decreases known@.len() - k,
    {
        proof {
            assert(known@.take(k + 1).drop_last() =~= known@.take(k as int));
        }
        if !seen_contains(seen, &known[k].path) {
            let ghost before = deleted@;
            deleted.push(known[k].path.clone());
            proof {
                assert(string_views(deleted@) =~= string_views(before).push(known@[k as int].path@));
            }
        }
        k = k + 1;
    }
    proof {
        assert(known@.take(known@.len() as int) =~= known@);
    }
    ReindexPlan { steps, deleted }
}

proof fn lemma_find_distinct(known: Seq<KnownFile>, i: int)
    requires
        0 <= i < known.len(),
        forall|a: int, b: int| 0 <= a < b < known.len() ==> (#[trigger] known[a]).path@ != (#[trigger] known[b]).path@,
    ensures
        find_known(known, known[i].path@) == Some(i),
    decreases known.len(),
{
    let p = known[i].path@;
    let init = known.drop_last();
    if i < known.len() - 1 {
        assert(init[i] == known[i]);
        assert forall|a: int, b: int| 0 <= a < b < init.len() implies (#[trigger] init[a]).path@ != (#[trigger] init[b]).path@ by {
            assert(init[a] == known[a] && init[b] == known[b]);
        }
        lemma_find_distinct(init, i);
    } else {
        lemma_find_known_bounds(init, p);
        if let Some(k) = find_known(init, p) {
            assert(init[k] == known[k]);
            assert(known[k].path@ != known[i].path@);
        }
    }
}

proof fn lemma_deleted_in_or_out(known: Seq<KnownFile>, seen: Seq<SeenFile>, p: Seq<char>)
    ensures
        spec_deleted(known, seen).contains(p) <==> (!seen_has(seen, p) && exists|k: int|
            0 <= k < known.len() && (#[trigger] known[k]).path@ == p),
    decreases known.len(),
{
    if known.len() > 0 {
        let init = known.drop_last();
        lemma_deleted_in_or_out(init, seen, p);
        if exists|k: int| 0 <= k < init.len() && (#[trigger] init[k]).path@ == p {
            let k = choose|k: int| 0 <= k < init.len() && (#[trigger] init[k]).path@ == p;
            assert(known[k] == init[k]);
        }
        if exists|k: int| 0 <= k < known.len() && (#[trigger] known[k]).path@ == p {
            let k = choose|k: int| 0 <= k < known.len() && (#[trigger] known[k]).path@ == p;
            if k < init.len() {
                assert(init[k] == known[k]);
            }
        }
        assert(known[known.len() - 1] == known.last());
        let rest = spec_deleted(init, seen);
        let last = known.last().path@;
        if !seen_has(seen, last) {
            let d = rest.push(last);
            if d.contains(p) {
                let j = choose|j: int| 0 <= j < d.len() && d[j] == p;
                if j < rest.len() {
                    assert(rest[j] == d[j]);
                    assert(rest.contains(p));
                }
            }
            if rest.contains(p) {
                let j = choose|j: int| 0 <= j < rest.len() && rest[j] == p;
                assert(d[j] == rest[j]);
            }
            if last == p {
                assert(d[rest.len() as int] == p);
            }
        }
    }
}

/// What stays and what goes: a known file leaves the index exactly when
/// the walk did not find it, so a file found under any root (an old one or
/// one just added) stays.
pub proof fn law_deleted_exactly_the_unseen(known: Seq<KnownFile>, seen: Seq<SeenFile>, p: Seq<char>)
    ensures
        spec_deleted(known, seen).contains(p) <==> (!seen_has(seen, p) && exists|k: int|
            0 <= k < known.len() && (#[trigger] known[k]).path@ == p),
{
    lemma_deleted_in_or_out(known, seen, p);
}

/// A walk that finds the known files as they were recorded (same paths,
/// modification times and sizes) reads nothing again and removes nothing.
pub proof fn law_same_walk_reads_nothing(known: Seq<KnownFile>, seen: Seq<SeenFile>)
    requires
        known.len() == seen.len(),
        forall|a: int, b: int| 0 <= a < b < known.len() ==> (#[trigger] known[a]).path@ != (#[trigger] known[b]).path@,
        forall|i: int|
            0 <= i < seen.len() ==> (#[trigger] seen[i]).path@ == known[i].path@ && seen[i].mtime_ns
                == known[i].record.mtime_ns && seen[i].size == known[i].record.size,
    ensures
        forall|i: int| 0 <= i < seen.len() ==> spec_step(known, #[trigger] seen[i]) == FileStep::Unchanged,
        spec_deleted(known, seen).len() == 0,
{
    assert forall|i: int| 0 <= i < seen.len() implies spec_step(known, #[trigger] seen[i]) == FileStep::Unchanged by {
        lemma_find_distinct(known, i);
    }
    if spec_deleted(known, seen).len() > 0 {
        let p = spec_deleted(known, seen)[0];
        assert(spec_deleted(known, seen).contains(p));
        lemma_deleted_in_or_out(known, seen, p);
        let k = choose|k: int| 0 <= k < known.len() && (#[trigger] known[k]).path@ == p;
        assert(seen[k].path@ == p);
        assert(seen_has(seen, p));
    }
}

proof fn lemma_find_first(known: Seq<KnownFile>, k: int)
    requires
        0 <= k < known.len(),
        forall|j: int| 0 <= j < k ==> (#[trigger] known[j]).path@ != known[k].path@,
    ensures
        find_known(known, known[k].path@) == Some(k),
    decreases known.len(),
{
    let p = known[k].path@;
    let init = known.drop_last();
    if k < known.len() - 1 {
        assert(init[k] == known[k]);
        assert forall|j: int| 0 <= j < k implies (#[trigger] init[j]).path@ != init[k].path@ by {
            assert(init[j] == known[j]);
        }
        lemma_find_first(init, k);
    } else {
        lemma_find_known_bounds(init, p);
        if let Some(j) = find_known(init, p) {
            assert(init[j] == known[j]);
        }
    }
}

/// A file is left unread only when nothing of what was recorded changed:
/// for the known file with its path, the step is `Unchanged` exactly when
/// both the modification time and the size are the recorded ones, and
/// otherwise the file is checked against its recorded hash. A file the
/// index does not know is new.
pub proof fn law_step_reads_any_change(known: Seq<KnownFile>, s: SeenFile, k: int)
    requires
        0 <= k < known.len(),
        known[k].path@ == s.path@,
        forall|j: int| 0 <= j < k ==> (#[trigger] known[j]).path@ != s.path@,
    ensures
        spec_step(known, s) == FileStep::Unchanged <==> (known[k].record.mtime_ns == s.mtime_ns
            && known[k].record.size == s.size),
        (known[k].record.mtime_ns != s.mtime_ns || known[k].record.size != s.size) ==> spec_step(known, s)
            == (FileStep::Check { known_hash: known[k].record.hash }),
{
    lemma_find_first(known, k);
}

/// A file whose path the index does not hold is new.
pub proof fn law_unknown_file_is_new(known: Seq<KnownFile>, s: SeenFile)
    requires
        forall|j: int| 0 <= j < known.len() ==> (#[trigger] known[j]).path@ != s.path@,
    ensures
        spec_step(known, s) == FileStep::New,
{
    lemma_find_known_bounds(known, s.path@);
}

/// What BLAKE3 makes of some bytes: a function of the bytes alone.
pub uninterp spec fn blake3_hash(bytes: Seq<u8>) -> Seq<u8>;

/// `blake3::hash`: the 32-byte BLAKE3 hash of the bytes, which depends on
/// them alone.
#[verifier::external_body]
fn blake3_of(bytes: &[u8]) -> (res: [u8; 32])
    ensures
        res@ == blake3_hash(bytes@),
{
    *blake3::hash(bytes).as_bytes()
}

/// The hash recorded of a file's contents.
pub fn content_hash(bytes: &[u8]) -> (res: [u8; 32])
    ensures
        res@ == blake3_hash(bytes@),
{
    blake3_of(bytes)
}

/// Whether a file is indexed again, given its step and the hash of what
/// it now holds (not read for an unchanged file, so not looked at then).
pub open spec fn spec_needs_reindex(step: FileStep, hash: Seq<u8>) -> bool {
    match step {
        FileStep::Unchanged => false,
        FileStep::Check { known_hash } => known_hash@ != hash,
        FileStep::New => true,
    }
}

pub fn needs_reindex(step: FileStep, hash: &[u8; 32]) -> (res: bool)
    ensures
        res == spec_needs_reindex(step, hash@),
{
    match step {
        FileStep::Unchanged => false,
        FileStep::New => true,
        FileStep::Check { known_hash } => {
            let mut i: usize = 0;
            while i < 32
                invariant
                    step == (FileStep::Check { known_hash }),
                    i <= 32,
                    known_hash@.len() == 32,
                    hash@.len() == 32,
                    forall|j: int| 0 <= j < i ==> known_hash@[j] == hash@[j],
                decreases 32 - i,
            {
                if known_hash[i] != hash[i] {
                    assert(known_hash@[i as int] != hash@[i as int]);
                    assert(known_hash@ != hash@);
                    return true;
                }
                i = i + 1;
            }
            assert(known_hash@ =~= hash@);
            false
        },
    }
}

/// The walk covers `path`: it lies under a root and under no exclusion,
/// whole components matching.
pub open spec fn spec_in_scope(path: Seq<char>, roots: Seq<String>, excludes: Seq<String>) -> bool {
    &&& exists|i: int| 0 <= i < roots.len() && is_component_prefix((#[trigger] roots[i])@, path)
    &&& forall|j: int| 0 <= j < excludes.len() ==> !is_component_prefix((#[trigger] excludes[j])@, path)
}

fn under(base: &str, path: &str) -> (res: bool)
    ensures
        res == is_component_prefix(base@, path@),
{
    path_strip_prefix(path, base).is_some()
}

/// Whether the walk covers `path` (see [`spec_in_scope`]).
pub fn in_scope(path: &str, roots: &Vec<String>, excludes: &Vec<String>) -> (res: bool)
    ensures
        res == spec_in_scope(path@, roots@, excludes@),
{
    let mut j: usize = 0;
    while j < excludes.len()
        invariant
            j <= excludes@.len(),
            forall|m: int| 0 <= m < j ==> !is_component_prefix((#[trigger] excludes@[m])@, path@),
        decreases excludes@.len() - j,
    {
        if under(excludes[j].as_str(), path) {
            assert(is_component_prefix(excludes@[j as int]@, path@));
            return false;
        }
        j = j + 1;
    }
    let mut i: usize = 0;
    while i < roots.len()
        invariant
            i <= roots@.len(),
            forall|m: int| 0 <= m < excludes@.len() ==> !is_component_prefix((#[trigger] excludes@[m])@, path@),
            forall|m: int| 0 <= m < i ==> !is_component_prefix((#[trigger] roots@[m])@, path@),
        decreases roots@.len() - i,
    {
        if under(roots[i].as_str(), path) {
            assert(is_component_prefix(roots@[i as int]@, path@));
            return true;
        }
        i = i + 1;
    }
    false
}

/// Adding a root never takes a path out of the walk: what was covered
/// stays covered.
pub proof fn law_added_root_keeps_scope(path: Seq<char>, roots: Seq<String>, excludes: Seq<String>, root: String)
    requires
        spec_in_scope(path, roots, excludes),
    ensures
        spec_in_scope(path, roots.push(root), excludes),
{
    let i = choose|i: int| 0 <= i < roots.len() && is_component_prefix((#[trigger] roots[i])@, path);
    assert(roots.push(root)[i] == roots[i]);
}

/// Root `i` lies under root `j` (an earlier one, when they are the same
/// path), so walking it again would find nothing new.
pub open spec fn root_covered_by(roots: Seq<String>, i: int, j: int) -> bool {
    &&& i != j
    &&& is_component_prefix(roots[j]@, roots[i]@)
    &&& (!is_component_prefix(roots[i]@, roots[j]@) || j < i)
}

/// Root `i` is walked: no other root covers it.
pub open spec fn root_kept(roots: Seq<String>, i: int) -> bool {
    forall|j: int| 0 <= j < roots.len() ==> !#[trigger] root_covered_by(roots, i, j)
}

/// The roots walked among the first `n`, in order.
pub open spec fn kept_roots(roots: Seq<String>, n: int) -> Seq<Seq<char>>
    decreases n,
{
    if n <= 0 {
        Seq::empty()
    } else if root_kept(roots, n - 1) {
        kept_roots(roots, n - 1).push(roots[n - 1]@)
    } else {
        kept_roots(roots, n - 1)
    }
}

/// The roots to walk: each root once, and none that lies under another
/// (see [`root_kept`]), so that no file is found twice.
pub fn walk_roots(roots: &Vec<String>) -> (res: Vec<String>)
    ensures
        string_views(res@) == kept_roots(roots@, roots@.len() as int),
{
    let mut out: Vec<String> = Vec::new();
    let mut i: usize = 0;
    while i < roots.len()
        invariant
            i <= roots@.len(),
            string_views(out@) == kept_roots(roots@, i as int),
        decreases roots@.len() - i,
    {
        let mut kept = true;
        let mut j: usize = 0;
        while j < roots.len()
            invariant
                i < roots@.len(),
                j <= roots@.len(),
                kept == forall|m: int| 0 <= m < j ==> !#[trigger] root_covered_by(roots@, i as int, m),
            decreases roots@.len() - j,
        {
            if j != i && under(roots[j].as_str(), roots[i].as_str()) && (!under(roots[i].as_str(), roots[j].as_str()) || j < i) {
                assert(root_covered_by(roots@, i as int, j as int));
                kept = false;
            } else {
                assert(!root_covered_by(roots@, i as int, j as int));
            }
            j = j + 1;
        }
        if kept {
            let ghost before = out@;
            out.push(roots[i].clone());
            proof {
                assert(string_views(out@) =~= string_views(before).push(roots@[i as int]@));
            }
        }
        i = i + 1;
    }
    out
}

}
