use mikke::search::{choose_snippet, select_hits, truncate_chars, CHUNK_POOL, SNIPPET_MAX_CHARS};

fn paths(v: &[&str]) -> Vec<String> {
    v.iter().map(|s| s.to_string()).collect()
}

#[test]
fn truncate_chars_counts_characters() {
    assert_eq!(truncate_chars("héllo", 2), "hé");
    assert_eq!(truncate_chars("abc", 3), "abc");
    assert_eq!(truncate_chars("abc", 10), "abc");
    assert_eq!(truncate_chars("", 0), "");
}

#[test]
fn one_hit_per_file() {
    let p = paths(&["a.md", "b.md", "a.md", "c.md", "b.md"]);
    assert!(select_hits(&p, 0).is_empty());
    assert_eq!(select_hits(&p, 10), vec![0, 1, 3]);
}

#[test]
fn limit_bounds_the_hits() {
    let p = paths(&["a.md", "a.md", "b.md", "c.md"]);
    assert_eq!(select_hits(&p, 2), vec![0, 2]);
    assert_eq!(select_hits(&p, 1), vec![0]);
    assert!(select_hits(&Vec::new(), 3).is_empty());
}

#[test]
fn empty_snippet_falls_back_to_the_chunk_start() {
    let body = "x".repeat(300);
    let (s, h) = choose_snippet(String::new(), vec![(0, 1)], &body);
    assert_eq!(s.chars().count(), SNIPPET_MAX_CHARS);
    assert!(h.is_empty());
    let (s, h) = choose_snippet("frag".to_string(), vec![(0, 4)], &body);
    assert_eq!(s, "frag");
    assert_eq!(h, vec![(0, 4)]);
}

#[test]
fn search_constants() {
    assert_eq!(CHUNK_POOL, 50);
    assert_eq!(SNIPPET_MAX_CHARS, 240);
}
