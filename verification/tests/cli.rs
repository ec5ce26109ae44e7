use mikke::cli::{
    highlight, hit_heading, join_words_space, nothing_found, one_line, plan_run, shorten_home, usable_ranges, CliCommand,
    RunPlan,
};

#[test]
fn highlight_wraps_ranges_in_colour() {
    let out = highlight("abc def", &vec![(4, 7)], true);
    assert_eq!(out, b"abc \x1b[38;5;208mdef\x1b[0m".to_vec());
}

#[test]
fn highlight_without_colour_or_ranges_keeps_the_text() {
    assert_eq!(highlight("abc def", &vec![(4, 7)], false), b"abc def".to_vec());
    assert_eq!(highlight("abc def", &vec![], true), b"abc def".to_vec());
}

#[test]
fn highlight_sorts_and_skips_bad_ranges() {
    // (0, 9) runs past the text; (1, 3) overlaps (0, 2) once sorted
    let out = highlight("abcdef", &vec![(4, 5), (1, 3), (0, 2), (0, 9)], true);
    let expected = b"\x1b[38;5;208mab\x1b[0mcd\x1b[38;5;208me\x1b[0mf".to_vec();
    assert_eq!(out, expected);
}

#[test]
fn one_line_collapses_whitespace() {
    assert_eq!(one_line("  a\n b\t\tc  "), "a b c");
    assert_eq!(one_line(""), "");
}

#[test]
fn shorten_home_writes_tilde() {
    assert_eq!(shorten_home("/home/x/doc.md", Some("/home/x")), "~/doc.md");
    assert_eq!(shorten_home("/srv/doc.md", Some("/home/x")), "/srv/doc.md");
    assert_eq!(shorten_home("/home/x/doc.md", None), "/home/x/doc.md");
}

#[test]
fn plan_run_dispatches() {
    let q: Vec<String> = vec!["facture".into(), "véto".into()];
    match plan_run(None, &q) {
        RunPlan::Search { query } => assert_eq!(query, "facture véto"),
        _ => panic!("expected a search"),
    }
    assert!(matches!(plan_run(None, &vec![]), RunPlan::Help));
    match plan_run(Some(CliCommand::Index { dir: "/d".into() }), &q) {
        RunPlan::Index { dir } => assert_eq!(dir, "/d"),
        _ => panic!("expected indexing"),
    }
    match plan_run(Some(CliCommand::Tui), &vec![]) {
        RunPlan::Fail { message } => assert_eq!(message, "le TUI n'existe pas encore (étape 6 de la roadmap)"),
        _ => panic!("expected a failure"),
    }
}

#[test]
fn join_words_space_joins() {
    assert_eq!(join_words_space(&vec!["a".into(), "b".into(), "c".into()]), "a b c");
    assert_eq!(join_words_space(&vec![]), "");
}

#[test]
fn messages_and_headings() {
    assert_eq!(nothing_found("chat"), "rien trouvé pour « chat »");
    assert_eq!(hit_heading(3, "~/a.md"), " 3. ~/a.md");
    assert_eq!(hit_heading(12, "~/a.md"), "12. ~/a.md");
    assert_eq!(hit_heading(0, "p"), " 0. p");
    assert_eq!(hit_heading(123, "p"), "123. p");
}

#[test]
fn highlight_skips_inverted_ranges_it_never_reaches() {
    // ends past the text: skipped before its bounds are looked at
    assert!(usable_ranges("abc", &vec![(9, 4)]));
    assert_eq!(highlight("abc", &vec![(9, 4)], true), b"abc".to_vec());
    // starts inside an earlier range: skipped too
    assert!(usable_ranges("abc", &vec![(0, 2), (1, 0)]));
    assert_eq!(highlight("abc", &vec![(0, 2), (1, 0)], true), b"\x1b[38;5;208mab\x1b[0mc".to_vec());
    // reached and inverted: not usable
    assert!(!usable_ranges("abc", &vec![(2, 1)]));
    assert!(usable_ranges("abc", &vec![]));
}

fn strip_codes(mut s: &[u8]) -> Vec<u8> {
    let on = b"\x1b[38;5;208m";
    let off = b"\x1b[0m";
    let mut out = Vec::new();
    while !s.is_empty() {
        if s.starts_with(on) {
            s = &s[on.len()..];
        } else if s.starts_with(off) {
            s = &s[off.len()..];
        } else {
            out.push(s[0]);
            s = &s[1..];
        }
    }
    out
}

#[test]
fn highlight_only_adds_codes() {
    let text = "facture vétérinaire de janvier";
    for ranges in [vec![(0, 7)], vec![(8, 21), (0, 7), (3, 30), (26, 99)], vec![]] {
        for color in [true, false] {
            assert_eq!(strip_codes(&highlight(text, &ranges, color)), text.as_bytes().to_vec());
        }
    }
}
