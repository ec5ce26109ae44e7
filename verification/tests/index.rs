use mikke::extract::{format_of, Format};
use mikke::markup::{docx_text, html_text};
use mikke::index::{
    code_project, descend, Collector, IndexStats, CHUNK_OVERLAP, CHUNK_WORDS, MAX_FILE_BYTES, TOKENIZER_NAME,
};

fn names(v: &[&str]) -> Vec<String> {
    v.iter().map(|s| s.to_string()).collect()
}

#[test]
fn descend_skips_hidden_and_tool_directories() {
    assert!(descend(0, true, ".corpus"));
    assert!(!descend(1, true, ".git"));
    assert!(!descend(2, true, "node_modules"));
    assert!(!descend(1, true, "target"));
    assert!(!descend(1, true, "__pycache__"));
    assert!(!descend(1, true, "venv"));
    assert!(descend(1, true, "docs"));
    assert!(descend(1, false, ".hidden.md"));
    assert!(descend(3, false, "target"));
}

#[test]
fn should_read_checks_format_and_size() {
    let mut c = Collector::new();
    assert!(c.should_read("/a/notes.md", Some(10)));
    assert!(c.should_read("/a/notes.md", Some(MAX_FILE_BYTES)));
    assert!(!c.should_read("/a/notes.md", Some(MAX_FILE_BYTES + 1)));
    assert!(c.should_read("/a/scan.pdf", Some(10)));
    assert!(c.should_read("/a/lettre.DOCX", Some(10)));
    assert!(c.should_read("/a/page.html", Some(10)));
    assert!(!c.should_read("/a/photo.jpg", Some(10)));
    assert!(!c.should_read("/a/notes.md", None));
    assert_eq!(c.stats.files_skipped, 3);
    assert_eq!(c.stats.files_indexed, 0);
}

#[test]
fn add_text_records_chunks_and_counts() {
    let mut c = Collector::new();
    c.add_text("/a/p.md", Some("un deux"));
    c.add_text("/a/blank.md", Some("  \n "));
    c.add_text("/a/bad.md", None);
    c.walk_error();
    let long: String = (0..1000).map(|i| format!("w{i}")).collect::<Vec<_>>().join(" ");
    c.add_text("/a/long.md", Some(&long));
    let (records, stats) = c.finish();
    assert_eq!(
        stats,
        IndexStats {
            files_indexed: 2,
            files_skipped: 1,
            files_failed: 2,
            code_dirs_skipped: 0,
            files_unchanged: 0,
            files_deleted: 0,
            chunks: 4,
            vectors: false
        }
    );
    assert_eq!(records[0].path, "/a/p.md");
    assert_eq!(records[0].chunk_ix, 0);
    assert_eq!(records[0].text, "un deux");
    assert_eq!(records[3].path, "/a/long.md");
    assert_eq!(records[3].chunk_ix, 2);
    assert!(records[2].text.starts_with("w320 "));
}

#[test]
fn index_constants() {
    assert_eq!((CHUNK_WORDS, CHUNK_OVERLAP), (400, 80));
    assert_eq!(MAX_FILE_BYTES, 20 * 1024 * 1024);
    assert_eq!(TOKENIZER_NAME, "mikke_text");
}

#[test]
fn stats_default_to_zero() {
    let s = IndexStats::default();
    assert_eq!(
        s,
        IndexStats {
            files_indexed: 0,
            files_skipped: 0,
            files_failed: 0,
            code_dirs_skipped: 0,
            files_unchanged: 0,
            files_deleted: 0,
            chunks: 0,
            vectors: false
        }
    );
}

#[test]
fn les_projets_de_code_sont_sautes() {
    // corpus/ holds notes.md, mon-mod/ (a Gradle project) and mod-extrait/
    // (an unpacked jar, with META-INF at its root)
    let mut c = Collector::new();
    assert!(c.enter_dir(0, "corpus", &names(&["notes.md", "mon-mod", "mod-extrait"])));
    assert!(c.should_read("/corpus/notes.md", Some(45)));
    c.add_text("/corpus/notes.md", Some("Idée cadeau : un livre de cuisine japonaise."));
    assert!(!c.enter_dir(1, "mon-mod", &names(&["build.gradle", "notes-de-dev.md"])));
    assert!(!c.enter_dir(1, "mod-extrait", &names(&["META-INF", "License.txt"])));
    let (records, stats) = c.finish();
    assert_eq!(stats.files_indexed, 1, "seul notes.md doit être indexé");
    assert_eq!(stats.code_dirs_skipped, 2);
    assert!(records.iter().all(|r| !r.text.contains("fourbi")));
}

#[test]
fn enter_dir_counts_only_code_projects() {
    let mut c = Collector::new();
    // hidden and tool directories are left out without being counted
    assert!(!c.enter_dir(1, ".git", &names(&["Cargo.toml"])));
    assert!(!c.enter_dir(2, "node_modules", &names(&["package.json"])));
    assert!(c.enter_dir(1, "factures", &names(&["janvier.pdf", "cargo.toml"])));
    // the corpus root is entered even when it looks like a project
    assert!(c.enter_dir(0, "depot", &names(&["Cargo.toml"])));
    assert!(!c.enter_dir(3, "outil", &names(&["README.md", "pyproject.toml"])));
    assert_eq!(c.stats.code_dirs_skipped, 1);
    assert_eq!(c.stats.files_skipped, 0);
}

#[test]
fn code_project_markers() {
    for marker in [
        "Cargo.toml",
        "package.json",
        "build.gradle",
        "build.gradle.kts",
        "pom.xml",
        "go.mod",
        "pyproject.toml",
        "setup.py",
        "CMakeLists.txt",
        "META-INF",
    ] {
        assert!(code_project(&names(&["a.md", marker])), "{marker}");
    }
    assert!(!code_project(&names(&["a.md", "b.pdf", "Makefile.txt"])));
    assert!(!code_project(&names(&[])));
}

#[test]
fn indexation_multi_formats() {
    // the texts that the readers give for each file; the corrupt PDF gives none
    let mut c = Collector::new();
    let files: [(&str, Option<String>); 5] = [
        ("/corpus/sample.pdf", Some("Devis salle de bain : douche italienne, 4 250 euros.".to_string())),
        (
            "/corpus/sample.docx",
            Some(docx_text("<w:p><w:r><w:t>Attestation de scolarite</w:t></w:r></w:p>")),
        ),
        (
            "/corpus/sample.html",
            Some(html_text("<p>Un casque audio</p><script>bruit de script</script>")),
        ),
        ("/corpus/corrupted.pdf", None),
        ("/corpus/note.md", Some("Le mot de passe du wifi est dans le tiroir.".to_string())),
    ];
    for (path, text) in &files {
        assert!(c.should_read(path, Some(100)));
        let format = format_of(path).unwrap();
        c.add_document(path, format, text.as_deref());
    }
    let (records, stats) = c.finish();
    assert_eq!(stats.files_indexed, 4, "pdf + docx + html + md");
    assert_eq!(stats.files_failed, 1, "le pdf corrompu, sans crash");
    assert_eq!(records.len(), 4);
    assert_eq!(records[2].path, "/corpus/sample.html");
    assert_eq!(records[2].text, "Un casque audio");
}

#[test]
fn a_pdf_without_a_text_layer_is_skipped() {
    let mut c = Collector::new();
    // a scan: a few stray characters, fewer than MIN_TEXT_CHARS visible ones
    c.add_document("/c/scan.pdf", Format::Pdf, Some("  p. 1 \n\n  2 "));
    assert_eq!((c.stats.files_skipped, c.stats.files_indexed), (1, 0));
    // the same few words in a text file are indexed
    c.add_document("/c/court.md", Format::Text, Some("p. 1 2"));
    assert_eq!(c.stats.files_indexed, 1);
    // a PDF with text, and an unreadable one
    c.add_document("/c/devis.pdf", Format::Pdf, Some("Devis : douche italienne, 4 250 euros."));
    c.add_document("/c/corrupted.pdf", Format::Pdf, None);
    let (records, stats) = c.finish();
    assert_eq!((stats.files_indexed, stats.files_skipped, stats.files_failed), (2, 1, 1));
    assert_eq!(records.len(), 2);
}

#[test]
fn unchanged_and_deleted_are_counted() {
    let mut c = Collector::new();
    c.unchanged();
    c.unchanged();
    c.deleted();
    let (records, stats) = c.finish();
    assert!(records.is_empty());
    assert_eq!((stats.files_unchanged, stats.files_deleted, stats.files_indexed), (2, 1, 0));
}
