use mikke::vocab::{fst_of_entries, vocab_entries};

fn vocab(tokens: &[&str]) -> Vec<(String, u64)> {
    tokens.iter().map(|t| (t.to_string(), 0)).collect()
}

#[test]
fn entries_are_sorted_and_deduplicated() {
    let e = vocab_entries(&vocab(&["b", "a", "b", "ab", "é"]));
    assert_eq!(
        e,
        vec![(b"a".to_vec(), 1), (b"ab".to_vec(), 3), (b"b".to_vec(), 0), ("é".as_bytes().to_vec(), 4)]
    );
    assert!(vocab_entries(&vec![]).is_empty());
}

#[test]
fn fst_of_entries_reads_back() {
    let e = vocab_entries(&vocab(&["chat", "le", "chat", "les"]));
    let bytes = fst_of_entries(&e);
    let map = fst::Map::new(bytes).unwrap();
    assert_eq!(map.get("chat"), Some(0));
    assert_eq!(map.get("le"), Some(1));
    assert_eq!(map.get("les"), Some(3));
    assert_eq!(map.get("l"), None);
    assert_eq!(map.len(), 3);
}
