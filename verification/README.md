# mikke

Local search for the documents on a disk: the indexing, search and
tokenizer logic of the `mikke` command line, as a library whose functions
carry their contracts and are proved with Verus.

## Layout

- `src/` — the verified library.
  - `chunk` — splitting a text into overlapping windows of words.
  - `extract`, `markup`, `index` — which files are read and in which
    format, the text of HTML pages and DOCX bodies, which directories are
    left out (hidden, tool and code-project ones), and how files become
    chunk records and counters.
  - `reindex` — incremental indexing (which files are read again, which
    are unchanged, which left the index; BLAKE3 hashes of contents), and
    which paths the walk covers (several roots, exclusions).
  - `search`, `cli`, `tui` — hits that only match a crumb of the query
    left out, one hit per file, excerpts, highlighting, the command line and
    the keys of the full-screen search.
  - `tok`, `vocab`, `cache`, `json` — the Unigram tokenizer: its
    normalization, its cache file (built from `tokenizer.json`, read back
    into an FST and scores), and the back-tracking of a segmentation.
  - `embed`, `state` — where the embedding matrix lies in a model file, which
    rows a text averages, and how vectors are stored.
  - `config`, `paths`, `watch` — the roots of the index, path handling, and
    the debouncing of file-system events.
  - `spike` — the bookkeeping of the PDF extraction benchmark.
  - `text`, `ranges` — characters, numbers and ranges.
- `tests/` — tests of the library on concrete values.
- `app/` — the `mikke` program around the library: argument parsing,
  files, the terminal, tantivy, SQLite, the vector index, the PDF and ZIP
  readers (run under `catch_unwind`), the safetensors header, and the
  floating-point parts (embedding averages, Viterbi scores, rank fusion).
