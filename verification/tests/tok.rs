use mikke::json::JsonValue;
use mikke::tok::{
    backtrace, find_charsmap, format_err, is_padded_punct, metaspace, truncate_input, ModelJson, Tok, TokError,
    TokenizerJson, CACHE_FILE, MAX_INPUT_CHARS,
};

fn mini_vocab() -> Vec<(String, u64)> {
    // by id, as in the model: (token, bits of the score)
    vec![
        ("▁le".to_string(), (-3.0f64).to_bits()),
        ("▁chat".to_string(), (-4.0f64).to_bits()),
        ("cha".to_string(), (-6.0f64).to_bits()),
        ("t".to_string(), (-7.0f64).to_bits()),
        ("▁les".to_string(), (-3.5f64).to_bits()),
        ("s".to_string(), (-8.0f64).to_bits()),
        ("t".to_string(), (-9.0f64).to_bits()),
    ]
}

fn normalizer(charsmap_b64: &str) -> JsonValue {
    JsonValue::Object(vec![
        ("type".to_string(), JsonValue::Str("Sequence".to_string())),
        (
            "normalizers".to_string(),
            JsonValue::Array(vec![
                JsonValue::Object(vec![("type".to_string(), JsonValue::Str("Strip".to_string()))]),
                JsonValue::Object(vec![
                    ("type".to_string(), JsonValue::Str("Precompiled".to_string())),
                    ("precompiled_charsmap".to_string(), JsonValue::Str(charsmap_b64.to_string())),
                ]),
            ]),
        ),
    ])
}

fn parsed(kind: &str, charsmap_b64: &str) -> TokenizerJson {
    TokenizerJson { normalizer: normalizer(charsmap_b64), model: ModelJson { kind: kind.to_string(), vocab: mini_vocab() } }
}

fn format_message(r: Result<impl Sized, TokError>) -> String {
    match r {
        Err(TokError::Format(m)) => m,
        Err(TokError::Io(e)) => panic!("unexpected I/O error {e}"),
        Ok(_) => panic!("expected an error"),
    }
}

#[test]
fn metaspace_pads_punctuation_and_collapses_blanks() {
    assert_eq!(metaspace("le chat"), "▁le▁chat");
    assert_eq!(metaspace("  le \n\t chat  "), "▁le▁chat");
    assert_eq!(metaspace("Bonjour, monde!"), "▁Bonjour▁,▁monde▁!");
    assert_eq!(metaspace("a...b"), "▁a▁.▁.▁.▁b");
    assert_eq!(metaspace(""), "");
    assert_eq!(metaspace("   "), "");
}

#[test]
fn padded_punctuation_is_ascii_punctuation() {
    assert!(is_padded_punct('!'));
    assert!(is_padded_punct('/'));
    assert!(is_padded_punct('@'));
    assert!(is_padded_punct('`'));
    assert!(is_padded_punct('~'));
    assert!(!is_padded_punct('a'));
    assert!(!is_padded_punct('0'));
    assert!(!is_padded_punct('«'));
}

#[test]
fn truncate_input_keeps_the_first_characters() {
    let long = "é".repeat(MAX_INPUT_CHARS + 5);
    assert_eq!(truncate_input(&long).chars().count(), MAX_INPUT_CHARS);
    assert_eq!(truncate_input("abc"), "abc");
}

#[test]
fn backtrace_follows_the_pointers() {
    let back = vec![(0, None), (0, Some(7)), (1, None), (1, Some(9))];
    assert_eq!(backtrace(&back), vec![7, 9]);
    assert!(backtrace(&vec![(0, None)]).is_empty());
}

#[test]
fn find_charsmap_searches_depth_first() {
    assert_eq!(find_charsmap(&normalizer("QUJD")), Some("QUJD".to_string()));
    assert_eq!(find_charsmap(&JsonValue::Null), None);
    let not_string = JsonValue::Object(vec![("precompiled_charsmap".to_string(), JsonValue::Null)]);
    assert_eq!(find_charsmap(&not_string), None);
}

#[test]
fn cache_roundtrip_keeps_vocab_and_scores() {
    // 4 zero bytes: no charsmap kept (identity)
    let bytes = Tok::build_cache_bytes(&parsed("Unigram", "AAAAAA==")).unwrap();
    let tok = Tok::load_bytes(&bytes).unwrap();
    assert_eq!(tok.map.get("▁le"), Some(0));
    assert_eq!(tok.map.get("▁chat"), Some(1));
    assert_eq!(tok.map.get("t"), Some(3));
    assert_eq!(tok.map.get("s"), Some(5));
    assert_eq!(tok.map.get("chat"), None);
    assert_eq!(tok.map.len(), 6);
    let scores: Vec<u64> = mini_vocab().iter().map(|e| e.1).collect();
    assert_eq!(tok.scores, scores);
    assert!(tok.charsmap.is_none());
}

#[test]
fn cache_keeps_a_charsmap_that_parses() {
    // trie of 0 bytes, then the normalized string "abc"
    let bytes = Tok::build_cache_bytes(&parsed("Unigram", "AAAAAGFiYw==")).unwrap();
    let tok = Tok::load_bytes(&bytes).unwrap();
    assert!(tok.charsmap.is_some());
    // trie of 16 bytes announced, 1 byte there
    let bytes = Tok::build_cache_bytes(&parsed("Unigram", "EAAAAEE=")).unwrap();
    assert_eq!(format_message(Tok::load_bytes(&bytes)), "Cannot parse precompiled_charsmap");
}

#[test]
fn build_cache_errors() {
    assert_eq!(format_message(Tok::build_cache_bytes(&parsed("BPE", "AAAAAA=="))), "modèle BPE non géré (Unigram attendu)");
    let mut p = parsed("Unigram", "AAAAAA==");
    p.normalizer = JsonValue::Null;
    assert_eq!(format_message(Tok::build_cache_bytes(&p)), "precompiled_charsmap introuvable");
    assert!(matches!(Tok::build_cache_bytes(&parsed("Unigram", "@@@")), Err(TokError::Format(_))));
}

#[test]
fn load_errors() {
    assert_eq!(format_message(Tok::load_bytes(b"MIKKETK1\0\0\0\0\0\0\0\0")), "cache corrompu (supprime-le, il sera reconstruit)");
    assert_eq!(format_message(Tok::load_bytes(b"short")), "cache corrompu (supprime-le, il sera reconstruit)");
    let good = Tok::build_cache_bytes(&parsed("Unigram", "AAAAAA==")).unwrap();
    // cut inside the length of the scores
    let fst_len = u64::from_le_bytes(good[8..16].try_into().unwrap()) as usize;
    let cut = &good[..16 + fst_len + 3];
    assert_eq!(format_message(Tok::load_bytes(cut)), "cache tronqué");
    // the FST bytes themselves damaged
    let mut bad = good.clone();
    for b in &mut bad[16..16 + fst_len] {
        *b = 0;
    }
    assert!(matches!(Tok::load_bytes(&bad), Err(TokError::Format(_))));
}

#[test]
fn format_err_carries_the_message() {
    match format_err("boom") {
        TokError::Format(m) => assert_eq!(m, "boom"),
        _ => panic!("expected a format error"),
    }
    assert_eq!(CACHE_FILE, "tokenizer.mikke");
}

#[test]
fn metaspace_depends_on_the_words_alone() {
    assert_eq!(metaspace(" le,chat "), metaspace("le , chat"));
    assert_eq!(metaspace(" le,chat "), "▁le▁,▁chat");
    assert_eq!(metaspace("l'été\n"), metaspace("l ' été"));
    assert_ne!(metaspace("lechat"), metaspace("le chat"));
}
