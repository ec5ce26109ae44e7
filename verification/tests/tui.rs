use mikke::tui::{help_line, placeholder, should_search, snippet_segments, Key, TuiAction, TuiState, TOP};

fn ch(c: char) -> Key {
    Key::Char { c, ctrl: false }
}

#[test]
fn typing_edits_the_query_and_asks_for_a_search() {
    let mut st = TuiState::new();
    assert_eq!(st.on_key(ch('a')), TuiAction::Search);
    assert_eq!(st.on_key(ch('é')), TuiAction::Search);
    assert_eq!(st.query, "aé");
    assert_eq!(st.on_key(Key::Backspace), TuiAction::Search);
    assert_eq!(st.query, "a");
    assert_eq!(st.on_key(Key::Char { c: 'u', ctrl: true }), TuiAction::Search);
    assert_eq!(st.query, "");
    assert_eq!(st.on_key(Key::Backspace), TuiAction::Search);
    assert_eq!(st.query, "");
}

#[test]
fn arrows_stay_within_the_hits() {
    let mut st = TuiState::new();
    assert_eq!(st.on_key(Key::Down), TuiAction::Redraw);
    assert_eq!(st.selected, 0);
    st.set_hits(3);
    st.on_key(Key::Down);
    st.on_key(Key::Down);
    st.on_key(Key::Down);
    assert_eq!(st.selected, 2);
    st.on_key(Key::Up);
    assert_eq!(st.selected, 1);
    st.on_key(Key::Up);
    st.on_key(Key::Up);
    assert_eq!(st.selected, 0);
}

#[test]
fn enter_opens_the_selected_hit() {
    let mut st = TuiState::new();
    assert_eq!(st.on_key(Key::Enter), TuiAction::Redraw);
    st.set_hits(2);
    st.on_key(Key::Down);
    assert_eq!(st.on_key(Key::Enter), TuiAction::Open(1));
    assert_eq!(st.selection(), Some(1));
    st.set_hits(0);
    assert_eq!(st.selection(), None);
}

#[test]
fn escape_and_ctrl_c_quit() {
    let mut st = TuiState::new();
    assert_eq!(st.on_key(Key::Esc), TuiAction::Quit);
    assert_eq!(st.on_key(Key::Char { c: 'c', ctrl: true }), TuiAction::Quit);
    assert_eq!(st.on_key(Key::Other), TuiAction::Redraw);
    // Control with another letter types it
    assert_eq!(st.on_key(Key::Char { c: 'x', ctrl: true }), TuiAction::Search);
    assert_eq!(st.query, "x");
}

#[test]
fn blank_queries_do_not_search() {
    assert!(!should_search(""));
    assert!(!should_search(" \t\u{3000}"));
    assert!(should_search("  a "));
    assert_eq!(placeholder("  "), "describe the file you're looking for…");
    assert_eq!(placeholder("chat"), "nothing found");
}

#[test]
fn help_line_counts_results() {
    assert_eq!(help_line(3), "3 result(s) — ↑↓ navigate · Enter open · Esc quit");
    assert_eq!(help_line(20), "20 result(s) — ↑↓ navigate · Enter open · Esc quit");
    assert_eq!(TOP, 20);
}

#[test]
fn snippet_segments_split_and_clean() {
    let segs = snippet_segments("ab\ncd", &vec![(3, 5)]);
    assert_eq!(segs, vec![(b"ab ".to_vec(), false), (b"cd".to_vec(), true), (b"".to_vec(), false)]);
    let segs = snippet_segments("a\tb", &vec![]);
    assert_eq!(segs, vec![(b"a b".to_vec(), false)]);
    let segs = snippet_segments("abc", &vec![(0, 1), (0, 2), (2, 9)]);
    assert_eq!(segs, vec![(b"a".to_vec(), true), (b"bc".to_vec(), false)]);
}
