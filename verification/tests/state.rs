use mikke::state::{blob_vector, hash_from_blob, vector_blob, FileRecord, DB_FILE};

#[test]
fn hash_from_blob_takes_32_bytes() {
    let blob: Vec<u8> = (0..32).collect();
    let h = hash_from_blob(&blob);
    assert_eq!(h.to_vec(), blob);
    assert_eq!(hash_from_blob(&vec![1, 2, 3]), [0u8; 32]);
    let r = FileRecord { mtime_ns: 1, size: 2, hash: h };
    assert_eq!(r.hash[31], 31);
    assert_eq!(DB_FILE, "state.db");
}

#[test]
fn vector_blob_is_little_endian() {
    let bits = vec![1.0f32.to_bits(), (-2.5f32).to_bits()];
    let blob = vector_blob(&bits);
    let mut expected = 1.0f32.to_le_bytes().to_vec();
    expected.extend_from_slice(&(-2.5f32).to_le_bytes());
    assert_eq!(blob, expected);
}

#[test]
fn vector_blob_roundtrip() {
    let bits = vec![0, 1, u32::MAX, 0x3f80_0000];
    assert_eq!(blob_vector(&vector_blob(&bits)), bits);
    assert!(blob_vector(&[]).is_empty());
}

#[test]
fn blob_vector_ignores_a_short_tail() {
    assert_eq!(blob_vector(&[1, 0, 0, 0, 9, 9]), vec![1]);
}
