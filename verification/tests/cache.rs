use mikke::cache::{decode_fst_section, decode_tail_sections, encode_cache, CacheFault, CacheParts, MAGIC};

fn sample() -> CacheParts {
    CacheParts { fst: vec![1, 2, 3], scores: vec![7, u64::MAX], charsmap: vec![9, 8] }
}

#[test]
fn layout_of_the_cache() {
    let b = encode_cache(&sample());
    assert_eq!(&b[..8], b"MIKKETK2");
    assert_eq!(&b[..8], &MAGIC[..]);
    assert_eq!(&b[8..16], &3u64.to_le_bytes());
    assert_eq!(&b[16..19], &[1, 2, 3]);
    assert_eq!(&b[19..27], &2u64.to_le_bytes());
    assert_eq!(&b[27..35], &7u64.to_le_bytes());
    assert_eq!(b.len(), 8 + 8 + 3 + 8 + 16 + 8 + 2);
}

#[test]
fn cache_reads_back() {
    let b = encode_cache(&sample());
    let (fst, next) = decode_fst_section(&b).unwrap();
    assert_eq!(fst, vec![1, 2, 3]);
    assert_eq!(next, 19);
    let (scores, charsmap) = decode_tail_sections(&b, next).unwrap();
    assert_eq!(scores, vec![7, u64::MAX]);
    assert_eq!(charsmap, vec![9, 8]);
}

#[test]
fn cache_faults() {
    assert_eq!(decode_fst_section(b"MIKKETK2").unwrap_err(), CacheFault::Corrupt);
    let mut b = encode_cache(&sample());
    b[0] = b'X';
    assert_eq!(decode_fst_section(&b).unwrap_err(), CacheFault::Corrupt);
    let b = encode_cache(&sample());
    assert_eq!(decode_tail_sections(&b[..22], 19).unwrap_err(), CacheFault::Truncated);
    assert_eq!(decode_tail_sections(&b[..30], 19).unwrap_err(), CacheFault::Corrupt);
    assert_eq!(decode_tail_sections(&b[..46], 19).unwrap_err(), CacheFault::Truncated);
    assert_eq!(decode_tail_sections(&b[..52], 19).unwrap_err(), CacheFault::Corrupt);
    let mut huge = b[..19].to_vec();
    huge.extend_from_slice(&u64::MAX.to_le_bytes());
    assert_eq!(decode_tail_sections(&huge, 19).unwrap_err(), CacheFault::Corrupt);
}
