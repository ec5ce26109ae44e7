//! What goes into the full-text index.
//!
//! The walk over the corpus, the file reads and the index writer live with
//! the caller; this module decides which directories are entered, which
//! files are read, how a read file becomes chunk records, and keeps the
//! counters of the run.

use vstd::prelude::*;

use crate::chunk::{chunk, spec_chunks};
use crate::extract::{spec_extension, is_supported_extension, supported, Format};
use crate::spike::{visible_chars, visible_count, MIN_TEXT_CHARS};
use crate::text::{collect_chars, spec_is_whitespace};

verus! {

/// Name of the text analyzer: lower case and accents folded, so that
/// `veterinaire` finds `vétérinaire` and the other way round.
pub const TOKENIZER_NAME: &'static str = "mikke_text";

/// Words per chunk.
pub const CHUNK_WORDS: usize = 400;

/// Words shared by two consecutive chunks.
pub const CHUNK_OVERLAP: usize = 80;

/// Beyond this size (20 MiB) a file is most likely not a readable personal
/// document.
pub const MAX_FILE_BYTES: u64 = 20971520;

/// Counters of an indexing run.
#[derive(Debug, Clone, Copy, PartialEq, Eq)]
pub struct IndexStats {
    pub files_indexed: usize,
    /// Unsupported format, file too large, or no text.
    pub files_skipped: usize,
    /// Unreadable files (reported, never fatal).
    pub files_failed: usize,
    /// Directories left out because they hold a code project.
    pub code_dirs_skipped: usize,
    /// Files found as they were at the last run, not indexed again.
    pub files_unchanged: usize,
    /// Files that left the index (gone, excluded, or out of every root).
    pub files_deleted: usize,
    pub chunks: usize,
    /// False when the index was built without an embedding model.
    pub vectors: bool,
}

impl Default for IndexStats {
    /// Nothing counted yet.
    fn default() -> (res: IndexStats)
        ensures
            res == (IndexStats {
                files_indexed: 0,
                files_skipped: 0,
                files_failed: 0,
                code_dirs_skipped: 0,
                files_unchanged: 0,
                files_deleted: 0,
                chunks: 0,
                vectors: false,
            }),
    {
        IndexStats {
            files_indexed: 0,
            files_skipped: 0,
            files_failed: 0,
            code_dirs_skipped: 0,
            files_unchanged: 0,
            files_deleted: 0,
            chunks: 0,
            vectors: false,
        }
    }
}

/// One chunk of one file, as the index stores it.
#[derive(Debug, Clone)]
pub struct ChunkRecord {
    pub path: String,
    /// Position of the chunk in its file.
    pub chunk_ix: u64,
    pub text: String,
}

const NODE_MODULES: [char; 12] = ['n', 'o', 'd', 'e', '_', 'm', 'o', 'd', 'u', 'l', 'e', 's'];

const TARGET: [char; 6] = ['t', 'a', 'r', 'g', 'e', 't'];

const PYCACHE: [char; 11] = ['_', '_', 'p', 'y', 'c', 'a', 'c', 'h', 'e', '_', '_'];

const VENV: [char; 4] = ['v', 'e', 'n', 'v'];

/// Directories never indexed (besides hidden ones).
pub open spec fn is_skipped_dir(name: Seq<char>) -> bool {
    ||| name == seq!['n', 'o', 'd', 'e', '_', 'm', 'o', 'd', 'u', 'l', 'e', 's']
    ||| name == seq!['t', 'a', 'r', 'g', 'e', 't']
    ||| name == seq!['_', '_', 'p', 'y', 'c', 'a', 'c', 'h', 'e', '_', '_']
    ||| name == seq!['v', 'e', 'n', 'v']
}

/// Whether the walk enters (or yields) an entry: the corpus root itself and
/// every non-directory always; a directory unless it is hidden or skipped.
pub open spec fn spec_descend(depth: int, is_dir: bool, name: Seq<char>) -> bool {
    depth == 0 || !is_dir || (!(name.len() > 0 && name[0] == '.') && !is_skipped_dir(name))
}

fn chars_eq(a: &Vec<char>, b: &[char]) -> (res: bool)
    ensures
        res == (a@ == b@),
{
    if a.len() != b.len() {
        return false;
    }
    let mut i: usize = 0;
    while i < a.len()
        invariant
            a@.len() == b@.len(),
            i <= a@.len(),
            forall|j: int| 0 <= j < i ==> a@[j] == b@[j],
        decreases a@.len() - i,
    {
        if a[i] != b[i] {
            return false;
        }
        i = i + 1;
    }
    proof {
        assert(a@ =~= b@);
    }
    true
}

/// Whether the walk goes into (or keeps) the entry named `name`, at `depth`
/// below the corpus root (see [`spec_descend`]).
pub fn descend(depth: usize, is_dir: bool, name: &str) -> (res: bool)
    ensures
        res == spec_descend(depth as int, is_dir, name@),
{
    if depth == 0 || !is_dir {
        return true;
    }
    let n = collect_chars(name);
    if n.len() > 0 && n[0] == '.' {
        return false;
    }
    proof {
        assert(NODE_MODULES@ == seq!['n', 'o', 'd', 'e', '_', 'm', 'o', 'd', 'u', 'l', 'e', 's']);
        assert(TARGET@ == seq!['t', 'a', 'r', 'g', 'e', 't']);
        assert(PYCACHE@ == seq!['_', '_', 'p', 'y', 'c', 'a', 'c', 'h', 'e', '_', '_']);
        assert(VENV@ == seq!['v', 'e', 'n', 'v']);
    }
    let skipped = chars_eq(&n, &NODE_MODULES) || chars_eq(&n, &TARGET) || chars_eq(&n, &PYCACHE)
        || chars_eq(&n, &VENV);
    !skipped
}

/// Names whose presence in a directory marks it as a code project (a build
/// file, or the `META-INF` of an unpacked archive): mikke indexes
/// documents, not code.
pub open spec fn is_code_marker(name: Seq<char>) -> bool {
    ||| name == seq!['C', 'a', 'r', 'g', 'o', '.', 't', 'o', 'm', 'l']
    ||| name == seq!['p', 'a', 'c', 'k', 'a', 'g', 'e', '.', 'j', 's', 'o', 'n']
    ||| name == seq!['b', 'u', 'i', 'l', 'd', '.', 'g', 'r', 'a', 'd', 'l', 'e']
    ||| name == seq!['b', 'u', 'i', 'l', 'd', '.', 'g', 'r', 'a', 'd', 'l', 'e', '.', 'k', 't', 's']
    ||| name == seq!['p', 'o', 'm', '.', 'x', 'm', 'l']
    ||| name == seq!['g', 'o', '.', 'm', 'o', 'd']
    ||| name == seq!['p', 'y', 'p', 'r', 'o', 'j', 'e', 'c', 't', '.', 't', 'o', 'm', 'l']
    ||| name == seq!['s', 'e', 't', 'u', 'p', '.', 'p', 'y']
    ||| name == seq!['C', 'M', 'a', 'k', 'e', 'L', 'i', 's', 't', 's', '.', 't', 'x', 't']
    ||| name == seq!['M', 'E', 'T', 'A', '-', 'I', 'N', 'F']
}

/// A directory whose entries (by name) include a code project's marker.
pub open spec fn is_code_project(entries: Seq<String>) -> bool {
    exists|k: int| 0 <= k < entries.len() && is_code_marker(#[trigger] entries[k]@)
}

fn code_marker(n: &Vec<char>) -> (res: bool)
    ensures
        res == is_code_marker(n@),
{
    let cargo = ['C', 'a', 'r', 'g', 'o', '.', 't', 'o', 'm', 'l'];
    let package = ['p', 'a', 'c', 'k', 'a', 'g', 'e', '.', 'j', 's', 'o', 'n'];
    let gradle = ['b', 'u', 'i', 'l', 'd', '.', 'g', 'r', 'a', 'd', 'l', 'e'];
    let gradle_kts = ['b', 'u', 'i', 'l', 'd', '.', 'g', 'r', 'a', 'd', 'l', 'e', '.', 'k', 't', 's'];
    let pom = ['p', 'o', 'm', '.', 'x', 'm', 'l'];
    let gomod = ['g', 'o', '.', 'm', 'o', 'd'];
    let pyproject = ['p', 'y', 'p', 'r', 'o', 'j', 'e', 'c', 't', '.', 't', 'o', 'm', 'l'];
    let setup = ['s', 'e', 't', 'u', 'p', '.', 'p', 'y'];
    let cmake = ['C', 'M', 'a', 'k', 'e', 'L', 'i', 's', 't', 's', '.', 't', 'x', 't'];
    let meta_inf = ['M', 'E', 'T', 'A', '-', 'I', 'N', 'F'];
    proof {
        assert(cargo@ == seq!['C', 'a', 'r', 'g', 'o', '.', 't', 'o', 'm', 'l']);
        assert(package@ == seq!['p', 'a', 'c', 'k', 'a', 'g', 'e', '.', 'j', 's', 'o', 'n']);
        assert(gradle@ == seq!['b', 'u', 'i', 'l', 'd', '.', 'g', 'r', 'a', 'd', 'l', 'e']);
        assert(gradle_kts@ == seq!['b', 'u', 'i', 'l', 'd', '.', 'g', 'r', 'a', 'd', 'l', 'e', '.', 'k', 't', 's']);
        assert(pom@ == seq!['p', 'o', 'm', '.', 'x', 'm', 'l']);
        assert(gomod@ == seq!['g', 'o', '.', 'm', 'o', 'd']);
        assert(pyproject@ == seq!['p', 'y', 'p', 'r', 'o', 'j', 'e', 'c', 't', '.', 't', 'o', 'm', 'l']);
        assert(setup@ == seq!['s', 'e', 't', 'u', 'p', '.', 'p', 'y']);
        assert(cmake@ == seq!['C', 'M', 'a', 'k', 'e', 'L', 'i', 's', 't', 's', '.', 't', 'x', 't']);
        assert(meta_inf@ == seq!['M', 'E', 'T', 'A', '-', 'I', 'N', 'F']);
    }
    chars_eq(n, &cargo) || chars_eq(n, &package) || chars_eq(n, &gradle) || chars_eq(n, &gradle_kts)
        || chars_eq(n, &pom) || chars_eq(n, &gomod) || chars_eq(n, &pyproject) || chars_eq(n, &setup)
        || chars_eq(n, &cmake) || chars_eq(n, &meta_inf)
}

/// Whether a directory, listed by the names of its entries, holds a code
/// project (see [`is_code_project`]).
pub fn code_project(entries: &Vec<String>) -> (res: bool)
    ensures
        res == is_code_project(entries@),
{
    let mut i: usize = 0;
    while i < entries.len()
        invariant
            i <= entries@.len(),
            forall|k: int| 0 <= k < i ==> !is_code_marker(#[trigger] entries@[k]@),
        decreases entries@.len() - i,
    {
        let n = collect_chars(entries[i].as_str());
        if code_marker(&n) {
            assert(is_code_marker(entries@[i as int]@));
            return true;
        }
        i = i + 1;
    }
    false
}

/// Whether the walk enters a directory, at `depth` below the corpus root
/// and holding entries named `entries`: the root always; any other one
/// unless it is hidden, skipped by name, or a code project.
pub open spec fn spec_enter_dir(depth: int, name: Seq<char>, entries: Seq<String>) -> bool {
    spec_descend(depth, true, name) && (depth == 0 || !is_code_project(entries))
}

/// Whether a file is read: its format is supported and its size is known
/// and at most [`MAX_FILE_BYTES`].
pub open spec fn spec_should_read(path: Seq<char>, size: Option<u64>) -> bool {
    &&& spec_extension(path) matches Some(e) && is_supported_extension(e)
    &&& size matches Some(n) && n <= MAX_FILE_BYTES
}

/// The records of the chunks of `text`, read from `path`, in order.
pub open spec fn chunk_records_ok(
    records: Seq<ChunkRecord>,
    start: int,
    path: Seq<char>,
    chunks: Seq<Seq<char>>,
) -> bool {
    &&& records.len() == start + chunks.len()
    &&& forall|k: int|
        0 <= k < chunks.len() ==> {
            let r = #[trigger] records[start + k];
            r.path@ == path && r.chunk_ix == k && r.text@ == chunks[k]
        }
}

/// What taking in the text read from `path` does to a collector (`None`
/// when the file could not be read): an unreadable file counts as failed,
/// a file without words as skipped; otherwise its chunks are appended as
/// records and it counts as indexed.
pub open spec fn text_added(before: Collector, after: Collector, path: Seq<char>, text: Option<Seq<char>>) -> bool {
    match text {
        None => after.records@ == before.records@ && after.stats == (IndexStats {
            files_failed: (before.stats.files_failed + 1) as usize,
            ..before.stats
        }),
        Some(t) => {
            let cs = spec_chunks(t, CHUNK_WORDS as int, CHUNK_OVERLAP as int);
            if cs.len() == 0 {
                after.records@ == before.records@ && after.stats == (IndexStats {
                    files_skipped: (before.stats.files_skipped + 1) as usize,
                    ..before.stats
                })
            } else {
                &&& after.records@.take(before.records@.len() as int) == before.records@
                &&& chunk_records_ok(after.records@, before.records@.len() as int, path, cs)
                &&& after.stats == (IndexStats { files_indexed: (before.stats.files_indexed + 1) as usize, ..before.stats })
            }
        },
    }
}

/// A PDF whose text has fewer than [`MIN_TEXT_CHARS`] visible characters
/// has no text layer (a scan, a poster): it is skipped, not an error.
pub open spec fn no_text_layer(format: Format, text: Seq<char>) -> bool {
    format == Format::Pdf && visible_count(text) < MIN_TEXT_CHARS
}

/// A character that shows on the page (not white space).
pub open spec fn printable(c: char) -> bool {
    !spec_is_whitespace(c)
}

/// The characters of `text` that show, in order.
pub open spec fn printed(text: Seq<char>) -> Seq<char> {
    text.filter(|c: char| printable(c))
}

proof fn lemma_visible_is_printed(t: Seq<char>)
    ensures
        visible_count(t) == printed(t).len(),
    decreases t.len(),
{
    reveal(Seq::filter);
    if t.len() > 0 {
        lemma_visible_is_printed(t.drop_last());
    }
}

proof fn lemma_printed_twice(t: Seq<char>)
    ensures
        printed(printed(t)) == printed(t),
    decreases t.len(),
{
    reveal(Seq::filter);
    if t.len() > 0 {
        lemma_printed_twice(t.drop_last());
        let p = printed(t.drop_last());
        if printable(t.last()) {
            assert(printed(t) == p.push(t.last()));
            assert(p.push(t.last()).drop_last() =~= p);
            assert(printed(p.push(t.last())) == printed(p).push(t.last()));
        } else {
            assert(printed(t) == p);
        }
    }
}

/// A PDF is taken for a scan by the characters that show alone: it is
/// skipped exactly when fewer than [`MIN_TEXT_CHARS`] of its characters
/// are not white space, so white space around them (page breaks, blank
/// lines) changes nothing, and any other format is never skipped for it.
pub proof fn law_scan_decided_by_printed_characters(format: Format, text: Seq<char>)
    ensures
        no_text_layer(format, text) <==> (format == Format::Pdf && printed(text).len() < MIN_TEXT_CHARS),
        no_text_layer(format, text) == no_text_layer(format, printed(text)),
{
    lemma_visible_is_printed(text);
    lemma_visible_is_printed(printed(text));
    lemma_printed_twice(text);
}

/// Two texts that show the same characters are both skipped or both kept.
pub proof fn law_white_space_does_not_decide(format: Format, a: Seq<char>, b: Seq<char>)
    requires
        printed(a) == printed(b),
    ensures
        no_text_layer(format, a) == no_text_layer(format, b),
{
    law_scan_decided_by_printed_characters(format, a);
    law_scan_decided_by_printed_characters(format, b);
}

/// The records and counters gathered over a walk.
pub struct Collector {
    pub records: Vec<ChunkRecord>,
    pub stats: IndexStats,
}

impl Collector {
    /// Nothing collected yet.
    pub fn new() -> (res: Collector)
        ensures
            res.records@.len() == 0,
            res.stats == (IndexStats {
                files_indexed: 0,
                files_skipped: 0,
                files_failed: 0,
                code_dirs_skipped: 0,
                files_unchanged: 0,
                files_deleted: 0,
                chunks: 0,
                vectors: false,
            }),
    {
        Collector {
            records: Vec::new(),
            stats: IndexStats {
                files_indexed: 0,
                files_skipped: 0,
                files_failed: 0,
                code_dirs_skipped: 0,
                files_unchanged: 0,
                files_deleted: 0,
                chunks: 0,
                vectors: false,
            },
        }
    }

    /// An entry the walk could not read counts as failed.
    pub fn walk_error(&mut self)
        requires
            old(self).stats.files_failed < usize::MAX,
        ensures
            final(self).records@ == old(self).records@,
            final(self).stats == (IndexStats {
                files_failed: (old(self).stats.files_failed + 1) as usize,
                ..old(self).stats
            }),
    {
        self.stats.files_failed = self.stats.files_failed + 1;
    }

    /// A file found as it was at the last run counts as unchanged.
    pub fn unchanged(&mut self)
        requires
            old(self).stats.files_unchanged < usize::MAX,
        ensures
            final(self).records@ == old(self).records@,
            final(self).stats == (IndexStats {
                files_unchanged: (old(self).stats.files_unchanged + 1) as usize,
                ..old(self).stats
            }),
    {
        self.stats.files_unchanged = self.stats.files_unchanged + 1;
    }

    /// A file that left the index counts as deleted.
    pub fn deleted(&mut self)
        requires
            old(self).stats.files_deleted < usize::MAX,
        ensures
            final(self).records@ == old(self).records@,
            final(self).stats == (IndexStats {
                files_deleted: (old(self).stats.files_deleted + 1) as usize,
                ..old(self).stats
            }),
    {
        self.stats.files_deleted = self.stats.files_deleted + 1;
    }

    /// Whether the walk enters a directory (see [`spec_enter_dir`]); one
    /// left out for holding a code project is counted.
    pub fn enter_dir(&mut self, depth: usize, name: &str, entries: &Vec<String>) -> (res: bool)
        requires
            old(self).stats.code_dirs_skipped < usize::MAX,
        ensures
            res == spec_enter_dir(depth as int, name@, entries@),
            final(self).records@ == old(self).records@,
            final(self).stats == (if spec_descend(depth as int, true, name@) && !res {
                IndexStats { code_dirs_skipped: (old(self).stats.code_dirs_skipped + 1) as usize, ..old(self).stats }
            } else {
                old(self).stats
            }),
    {
        if !descend(depth, true, name) {
            return false;
        }
        if depth == 0 {
            return true;
        }
        if code_project(entries) {
            self.stats.code_dirs_skipped = self.stats.code_dirs_skipped + 1;
            return false;
        }
        true
    }

    /// Whether the file at `path`, of `size` bytes (`None` when its size
    /// could not be read), is to be read; a file that is not counts as
    /// skipped.
    pub fn should_read(&mut self, path: &str, size: Option<u64>) -> (res: bool)
        requires
            old(self).stats.files_skipped < usize::MAX,
        ensures
            res == spec_should_read(path@, size),
            final(self).records@ == old(self).records@,
            final(self).stats == (if res {
                old(self).stats
            } else {
                IndexStats { files_skipped: (old(self).stats.files_skipped + 1) as usize, ..old(self).stats }
            }),
    {
        let ok = supported(path) && match size {
            Some(n) => n <= MAX_FILE_BYTES,
            None => false,
        };
        if !ok {
            self.stats.files_skipped = self.stats.files_skipped + 1;
        }
        ok
    }

    /// Takes in the text read from `path` (`None` when it could not be
    /// read): an unreadable file counts as failed, a file without words as
    /// skipped; otherwise its chunks are appended as records and it counts
    /// as indexed.
    pub fn add_text(&mut self, path: &str, text: Option<&str>)
        requires
            old(self).stats.files_failed < usize::MAX,
            old(self).stats.files_skipped < usize::MAX,
            old(self).stats.files_indexed < usize::MAX,
        ensures
            text_added(
                *old(self),
                *final(self),
                path@,
                match text {
                    Some(t) => Some(t@),
                    None => None,
                },
            ),
    {
        let t = match text {
            None => {
                self.stats.files_failed = self.stats.files_failed + 1;
                return;
            },
            Some(t) => t,
        };
        let pieces = chunk(t, CHUNK_WORDS, CHUNK_OVERLAP);
        let ghost cs = spec_chunks(t@, CHUNK_WORDS as int, CHUNK_OVERLAP as int);
        if pieces.len() == 0 {
            self.stats.files_skipped = self.stats.files_skipped + 1;
            return;
        }
        let ghost start = self.records@.len() as int;
        let ghost before = self.records@;
        let owned = path.to_owned();
        let mut k: usize = 0;
        while k < pieces.len()
            invariant
                k <= pieces@.len(),
                pieces@.len() == cs.len(),
                forall|j: int| 0 <= j < pieces@.len() ==> (#[trigger] pieces@[j])@ == cs[j],
                owned@ == path@,
                start == before.len(),
                self.stats == old(self).stats,
                before == old(self).records@,
                self.records@.take(start) == before,
                chunk_records_ok(self.records@, start, path@, cs.take(k as int)),
            decreases pieces@.len() - k,
        {
            let rec = ChunkRecord { path: owned.clone(), chunk_ix: k as u64, text: pieces[k].clone() };
            let ghost prev = self.records@;
            self.records.push(rec);
            proof {
                assert(self.records@.take(start) =~= prev.take(start));
                assert forall|j: int| 0 <= j < k + 1 implies {
                    let r = #[trigger] self.records@[start + j];
                    r.path@ == path@ && r.chunk_ix == j && r.text@ == cs.take(k + 1)[j]
                } by {
                    if j < k {
                        assert(self.records@[start + j] == prev[start + j]);
                        assert(cs.take(k as int)[j] == cs.take(k + 1)[j]);
                    }
                }
            }
            k = k + 1;
        }
        proof {
            assert(cs.take(pieces@.len() as int) =~= cs);
        }
        self.stats.files_indexed = self.stats.files_indexed + 1;
    }

    /// Takes in the text read from a document of `format` (`None` when it
    /// could not be read): a PDF without a text layer counts as skipped
    /// (see [`no_text_layer`]); any other text is taken in as
    /// [`Collector::add_text`] does.
    pub fn add_document(&mut self, path: &str, format: Format, text: Option<&str>)
        requires
            old(self).stats.files_failed < usize::MAX,
            old(self).stats.files_skipped < usize::MAX,
            old(self).stats.files_indexed < usize::MAX,
        ensures
            if text matches Some(t) && no_text_layer(format, t@) {
                final(self).records@ == old(self).records@ && final(self).stats == (IndexStats {
                    files_skipped: (old(self).stats.files_skipped + 1) as usize,
                    ..old(self).stats
                })
            } else {
                text_added(
                    *old(self),
                    *final(self),
                    path@,
                    match text {
                        Some(t) => Some(t@),
                        None => None,
                    },
                )
            },
    {
        if let Some(t) = text {
            let is_pdf = match format {
                Format::Pdf => true,
                _ => false,
            };
            if is_pdf && visible_chars(t) < MIN_TEXT_CHARS {
                self.stats.files_skipped = self.stats.files_skipped + 1;
                return;
            }
        }
        self.add_text(path, text);
    }

    /// The records, numbered by their position (which is the chunk id), and
    /// the counters, with the chunk count filled in.
    pub fn finish(self) -> (res: (Vec<ChunkRecord>, IndexStats))
        ensures
            res.0@ == self.records@,
            res.1 == (IndexStats { chunks: self.records@.len() as usize, ..self.stats }),
    {
        let n = self.records.len();
        let stats = IndexStats { chunks: n, ..self.stats };
        (self.records, stats)
    }
}

}
