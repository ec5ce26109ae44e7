use mikke::chunk::{chunk, word_offsets, word_spans};

fn words(n: usize) -> String {
    (0..n)
        .map(|i| format!("mot{i}"))
        .collect::<Vec<_>>()
        .join(" ")
}

#[test]
fn texte_court_un_seul_chunk() {
    let text = words(50);
    let chunks = chunk(&text, 400, 80);
    assert_eq!(chunks.len(), 1);
    assert_eq!(chunks[0], text);
}

#[test]
fn overlap_entre_chunks_consecutifs() {
    let text = words(1000);
    let chunks = chunk(&text, 400, 80);
    // 1000 words, step 320: chunks at 0, 320, 640
    assert_eq!(chunks.len(), 3);
    // the second chunk starts 80 words before the end of the first
    assert!(chunks[1].starts_with("mot320"));
    assert!(chunks[0].ends_with("mot399"));
}

#[test]
fn texte_vide_ou_blanc() {
    assert!(chunk("", 400, 80).is_empty());
    assert!(chunk("   \n\t  ", 400, 80).is_empty());
}

#[test]
fn preserve_la_ponctuation_et_les_sauts_de_ligne() {
    let text = "Facture n° 2026-01.\nTotal : 85,00 €";
    let chunks = chunk(text, 400, 80);
    assert_eq!(chunks[0], text);
}

#[test]
fn chunk_windows_share_the_overlap() {
    // 10 words, 4 per chunk, 1 shared: windows start at words 0, 3, 6
    let text = words(10);
    let chunks = chunk(&text, 4, 1);
    assert_eq!(chunks, vec![
        "mot0 mot1 mot2 mot3".to_string(),
        "mot3 mot4 mot5 mot6".to_string(),
        "mot6 mot7 mot8 mot9".to_string(),
    ]);
}

#[test]
fn chunk_last_window_is_shorter() {
    let text = words(5);
    let chunks = chunk(&text, 4, 2);
    assert_eq!(chunks, vec!["mot0 mot1 mot2 mot3".to_string(), "mot2 mot3 mot4".to_string()]);
}

#[test]
fn chunk_trims_surrounding_blanks() {
    let chunks = chunk("  \n un  deux\ttrois \n", 400, 80);
    assert_eq!(chunks, vec!["un  deux\ttrois".to_string()]);
}

#[test]
fn word_spans_are_character_ranges() {
    let chars: Vec<char> = " é a\u{a0}bc ".chars().collect();
    assert_eq!(word_spans(&chars), vec![(1, 2), (3, 4), (5, 7)]);
}

#[test]
fn word_offsets_are_byte_ranges() {
    assert_eq!(word_offsets("é  b"), vec![(0, 2), (4, 5)]);
    let text = " é a\u{a0}bc 日本 ";
    let offsets = word_offsets(text);
    assert_eq!(offsets, vec![(1, 3), (4, 5), (7, 9), (10, 16)]);
    for (s, e) in offsets {
        assert!(!text[s..e].contains(char::is_whitespace));
    }
    assert!(word_offsets("").is_empty());
}
