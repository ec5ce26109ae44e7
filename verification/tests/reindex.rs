use mikke::reindex::{
    content_hash, in_scope, needs_reindex, plan_reindex, walk_roots, FileStep, KnownFile, SeenFile,
};
use mikke::search::keep_hit;
use mikke::state::FileRecord;

fn strings(v: &[&str]) -> Vec<String> {
    v.iter().map(|s| s.to_string()).collect()
}

fn seen(path: &str, mtime_ns: i64, size: i64) -> SeenFile {
    SeenFile { path: path.to_string(), mtime_ns, size }
}

fn known(path: &str, mtime_ns: i64, size: i64, contents: &[u8]) -> KnownFile {
    KnownFile { path: path.to_string(), record: FileRecord { mtime_ns, size, hash: content_hash(contents) } }
}

#[test]
fn content_hash_is_blake3() {
    let h = content_hash(b"");
    let hex: String = h.iter().map(|b| format!("{b:02x}")).collect();
    assert_eq!(hex, "af1349b9f5f9a1a6a0404dea36dcc9499bcb25c9adc112b7cc9a93cae41f3262");
    assert_ne!(content_hash(b"a"), content_hash(b"b"));
}

#[test]
fn cycle_incremental_complet() {
    let velo = "Réparation du vélo : changer la chambre à air.".as_bytes();
    let jardin = "Semer les tomates en avril, arroser le soir.".as_bytes();
    let chat = "Le chat Perceval dort sur le radiateur.".as_bytes();

    // first run: nothing known, everything is new
    let walk = vec![seen("/c/velo.md", 10, 48), seen("/c/jardin.md", 10, 45), seen("/c/chat.md", 10, 40)];
    let plan = plan_reindex(&vec![], &walk);
    assert_eq!(plan.steps, vec![FileStep::New; 3]);
    assert!(plan.deleted.is_empty());

    // second run, nothing touched: nothing is read again
    let index = vec![
        known("/c/velo.md", 10, 48, velo),
        known("/c/jardin.md", 10, 45, jardin),
        known("/c/chat.md", 10, 40, chat),
    ];
    let plan = plan_reindex(&index, &walk);
    assert_eq!(plan.steps, vec![FileStep::Unchanged; 3]);

    // velo.md rewritten with other contents, jardin.md rewritten as it was
    let walk = vec![seen("/c/velo.md", 20, 50), seen("/c/jardin.md", 30, 45), seen("/c/chat.md", 10, 40)];
    let plan = plan_reindex(&index, &walk);
    let new_velo = "Réparation du vélo : régler les freins à disque.".as_bytes();
    assert!(needs_reindex(plan.steps[0], &content_hash(new_velo)));
    assert!(!needs_reindex(plan.steps[1], &content_hash(jardin)));
    assert_eq!(plan.steps[2], FileStep::Unchanged);
    assert!(!needs_reindex(plan.steps[2], &content_hash(b"not read")));

    // chat.md removed: it leaves the index
    let walk = vec![seen("/c/velo.md", 20, 50), seen("/c/jardin.md", 30, 45)];
    let plan = plan_reindex(&index, &walk);
    assert_eq!(plan.deleted, strings(&["/c/chat.md"]));
}

#[test]
fn plan_steps_follow_metadata() {
    let index = vec![known("/a.md", 5, 3, b"abc")];
    let plan = plan_reindex(&index, &vec![seen("/a.md", 5, 4)]);
    assert_eq!(plan.steps, vec![FileStep::Check { known_hash: content_hash(b"abc") }]);
    assert!(!needs_reindex(plan.steps[0], &content_hash(b"abc")));
    assert!(needs_reindex(plan.steps[0], &content_hash(b"abcd")));
    assert!(needs_reindex(FileStep::New, &content_hash(b"")));
}

#[test]
fn deux_racines_coexistent() {
    let index = vec![known("/docs/bail.md", 1, 10, b"bail")];
    // a second root is added: the first one's file stays, the new one is new
    let roots = strings(&["/docs", "/dl"]);
    assert!(in_scope("/docs/bail.md", &roots, &vec![]));
    assert!(in_scope("/dl/billet.md", &roots, &vec![]));
    let walk = vec![seen("/docs/bail.md", 1, 10), seen("/dl/billet.md", 1, 20)];
    let plan = plan_reindex(&index, &walk);
    assert_eq!(plan.steps, vec![FileStep::Unchanged, FileStep::New]);
    assert!(plan.deleted.is_empty(), "bail.md ne doit PAS sortir");
    // the first root removed: its files leave
    let roots = strings(&["/dl"]);
    assert!(!in_scope("/docs/bail.md", &roots, &vec![]));
    let index = vec![known("/docs/bail.md", 1, 10, b"bail"), known("/dl/billet.md", 1, 20, b"billet")];
    let plan = plan_reindex(&index, &vec![seen("/dl/billet.md", 1, 20)]);
    assert_eq!(plan.deleted, strings(&["/docs/bail.md"]));
}

#[test]
fn exclusions_et_racines_imbriquees() {
    // the same root twice, and a root inside another: walked once
    assert_eq!(walk_roots(&strings(&["/r", "/r"])), strings(&["/r"]));
    assert_eq!(walk_roots(&strings(&["/r/sub", "/r", "/s"])), strings(&["/r", "/s"]));
    assert_eq!(walk_roots(&strings(&["/r/", "/r"])), strings(&["/r/"]));
    assert_eq!(walk_roots(&strings(&["/ra", "/r"])), strings(&["/ra", "/r"]));
    // an exclusion wins over the root
    let roots = strings(&["/r", "/r"]);
    let excludes = strings(&["/r/prive"]);
    assert!(in_scope("/r/visible.md", &roots, &excludes));
    assert!(!in_scope("/r/prive/secret.md", &roots, &excludes));
    assert!(!in_scope("/r/prive", &roots, &excludes));
    // whole components only
    assert!(in_scope("/r/privee/note.md", &roots, &excludes));
    assert!(!in_scope("/elsewhere/a.md", &roots, &excludes));
}

#[test]
fn une_miette_ne_suffit_pas_a_sortir() {
    let query = strings(&["cours", "physique", "chapitre", "9"]);
    // the report only matches the lone « 9 »
    assert!(!keep_hit(&strings(&["9"]), &query));
    assert!(keep_hit(&strings(&["chapitre", "9", "physique"]), &query));
    assert!(keep_hit(&strings(&["physique"]), &query));
    // a one-word query keeps whatever matches it
    assert!(keep_hit(&strings(&["9"]), &strings(&["9"])));
    assert!(keep_hit(&strings(&["9"]), &strings(&["9", "9"])));
    assert!(!keep_hit(&strings(&["xy", "xy"]), &strings(&["xy", "abc"])));
    assert!(keep_hit(&strings(&[]), &query));
}

#[test]
fn a_walk_that_finds_everything_as_recorded_reads_nothing() {
    let index = vec![known("/a.md", 1, 2, b"a"), known("/b.md", 3, 4, b"b")];
    let plan = plan_reindex(&index, &vec![seen("/a.md", 1, 2), seen("/b.md", 3, 4)]);
    assert_eq!(plan.steps, vec![FileStep::Unchanged, FileStep::Unchanged]);
    assert!(plan.deleted.is_empty());
}

#[test]
fn deleted_are_exactly_the_unseen() {
    let index = vec![known("/a.md", 1, 2, b"a"), known("/b.md", 3, 4, b"b"), known("/c.md", 5, 6, b"c")];
    let plan = plan_reindex(&index, &vec![seen("/b.md", 9, 9), seen("/new.md", 1, 1)]);
    assert_eq!(plan.deleted, strings(&["/a.md", "/c.md"]));
}

#[test]
fn an_added_root_keeps_what_was_covered() {
    let mut roots = strings(&["/docs"]);
    assert!(in_scope("/docs/bail.md", &roots, &vec![]));
    roots.push("/dl".to_string());
    assert!(in_scope("/docs/bail.md", &roots, &vec![]));
}
